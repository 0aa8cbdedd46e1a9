//! Specialization for JavaScript code generation: the language's items
//! (imports, default imports, local names), its string quoting, and the
//! collation of imports into the preamble of a file.

use vstd::prelude::*;
use vstd::string::StringExecFns;
use crate::fmt::{Error, Indentation};
use crate::lang::Lang;
use crate::tokens::{toks_of, Item, Tok};
use crate::order::{
    lemma_insert_sorted, lemma_insert_to_set, lemma_lex_irrefl, lemma_lex_total, lemma_lex_trans, lemma_sorted_unique,
    lex_less, lex_lt, sorted_by, strict_order,
};

verus! {

/// What a JavaScript item is, with its text as sequences of characters.
pub enum TypeView {
    Import { module: Seq<char>, name: Seq<char>, alias: Option<Seq<char>> },
    ImportDefault { module: Seq<char>, name: Seq<char> },
    Local { name: Seq<char> },
}

/// The view of an optional string.
pub open spec fn opt_view(o: Option<String>) -> Option<Seq<char>> {
    match o {
        Some(s) => Some(s@),
        None => None,
    }
}

/// An imported item in JavaScript.
///
/// Created using the [import()] function. Rendered in place as its alias if
/// it has one, else as its name.
#[derive(Debug, Clone, PartialEq, Eq)]
pub struct Import {
    /// Module of the imported name.
    module: String,
    /// Name imported.
    name: String,
    /// Alias of the imported item: `import {<name> as <alias>} from <module>`.
    alias: Option<String>,
}

impl View for Import {
    type V = TypeView;

    closed spec fn view(&self) -> TypeView {
        TypeView::Import { module: self.module@, name: self.name@, alias: opt_view(self.alias) }
    }
}

impl Import {
    /// Give the imported item an alias: `import {<name> as <alias>} from <module>`.
    pub fn alias(self, alias: &str) -> (r: Self)
        ensures
            r@ == (TypeView::Import {
                module: self@->Import_module,
                name: self@->Import_name,
                alias: Some(alias@),
            }),
    {
        Import { module: self.module, name: self.name, alias: Some(alias.to_string()) }
    }
}

/// The default imported item of a module.
///
/// Created using the [import_default()] function. Rendered in place as its
/// name.
#[derive(Debug, Clone, PartialEq, Eq)]
pub struct ImportDefault {
    /// Module of the imported name.
    module: String,
    /// Name the default export is bound to.
    name: String,
}

impl View for ImportDefault {
    type V = TypeView;

    closed spec fn view(&self) -> TypeView {
        TypeView::ImportDefault { module: self.module@, name: self.name@ }
    }
}

/// A local name. Created using the [local()] function.
#[derive(Debug, Clone, PartialEq, Eq)]
pub struct Local {
    /// The local name.
    name: String,
}

impl View for Local {
    type V = TypeView;

    closed spec fn view(&self) -> TypeView {
        TypeView::Local { name: self.name@ }
    }
}

/// Any JavaScript item, as it is carried in a token stream.
#[derive(Debug, Clone, PartialEq, Eq)]
pub enum TypeEnum {
    Import(Import),
    ImportDefault(ImportDefault),
    Local(Local),
}

impl View for TypeEnum {
    type V = TypeView;

    open spec fn view(&self) -> TypeView {
        match self {
            TypeEnum::Import(i) => i@,
            TypeEnum::ImportDefault(i) => i@,
            TypeEnum::Local(l) => l@,
        }
    }
}

/// Implemented by all JavaScript items.
pub trait TypeTrait {
    /// What the item is.
    spec fn type_view(&self) -> TypeView;

    /// The item as one of the kinds of JavaScript items.
    fn as_enum(&self) -> (r: TypeEnum)
        ensures
            r@ == self.type_view(),
    ;
}

impl TypeTrait for Import {
    open spec fn type_view(&self) -> TypeView {
        self@
    }

    fn as_enum(&self) -> (r: TypeEnum) {
        TypeEnum::Import(
            Import { module: self.module.clone(), name: self.name.clone(), alias: copy_opt(&self.alias) },
        )
    }
}

impl TypeTrait for ImportDefault {
    open spec fn type_view(&self) -> TypeView {
        self@
    }

    fn as_enum(&self) -> (r: TypeEnum) {
        TypeEnum::ImportDefault(ImportDefault { module: self.module.clone(), name: self.name.clone() })
    }
}

impl TypeTrait for Local {
    open spec fn type_view(&self) -> TypeView {
        self@
    }

    fn as_enum(&self) -> (r: TypeEnum) {
        TypeEnum::Local(Local { name: self.name.clone() })
    }
}

/// Import an element from a module.
pub fn import(module: &str, name: &str) -> (r: Import)
    ensures
        r@ == (TypeView::Import { module: module@, name: name@, alias: None }),
{
    Import { module: module.to_string(), name: name.to_string(), alias: None }
}

/// Import the default element from the specified module, bound to `name`.
///
/// A module has a single default binding: two default imports of one module
/// under different names make the collation of a file fail.
pub fn import_default(module: &str, name: &str) -> (r: ImportDefault)
    ensures
        r@ == (TypeView::ImportDefault { module: module@, name: name@ }),
{
    ImportDefault { module: module.to_string(), name: name.to_string() }
}

/// Set up a local name.
pub fn local(name: &str) -> (r: Local)
    ensures
        r@ == (TypeView::Local { name: name@ }),
{
    Local { name: name.to_string() }
}

} // verus!

verus! {

/// What a JavaScript item renders as where it stands: an import its alias if
/// it has one, else its name.
pub open spec fn item_text(v: TypeView) -> Seq<char> {
    match v {
        TypeView::Import { module, name, alias } => match alias {
            Some(a) => a,
            None => name,
        },
        TypeView::ImportDefault { module, name } => name,
        TypeView::Local { name } => name,
    }
}

/// Whether the item names an import.
pub open spec fn is_import(v: TypeView) -> bool {
    !(v is Local)
}

impl TypeEnum {
    /// The text the item renders as where it stands.
    pub fn text(&self) -> (r: &str)
        ensures
            r@ == item_text(self@),
    {
        match self {
            TypeEnum::Import(i) => match &i.alias {
                Some(a) => a.as_str(),
                None => i.name.as_str(),
            },
            TypeEnum::ImportDefault(i) => i.name.as_str(),
            TypeEnum::Local(l) => l.name.as_str(),
        }
    }

    /// A copy of the item.
    pub fn duplicate(&self) -> (r: TypeEnum)
        ensures
            r@ == self@,
    {
        match self {
            TypeEnum::Import(i) => TypeEnum::Import(
                Import { module: i.module.clone(), name: i.name.clone(), alias: copy_opt(&i.alias) },
            ),
            TypeEnum::ImportDefault(i) => TypeEnum::ImportDefault(
                ImportDefault { module: i.module.clone(), name: i.name.clone() },
            ),
            TypeEnum::Local(l) => TypeEnum::Local(Local { name: l.name.clone() }),
        }
    }

    /// Whether the item names an import, and is collected as one.
    pub fn as_import(&self) -> (r: bool)
        ensures
            r == is_import(self@),
    {
        !matches!(self, TypeEnum::Local(_))
    }
}

/// The escaped form of one character inside a JavaScript string literal.
pub open spec fn escape_char(c: char) -> Seq<char> {
    if c == '\t' {
        seq!['\\', 't']
    } else if c == '\u{0008}' {
        seq!['\\', 'b']
    } else if c == '\n' {
        seq!['\\', 'n']
    } else if c == '\r' {
        seq!['\\', 'r']
    } else if c == '\u{000C}' {
        seq!['\\', 'f']
    } else if c == '\'' {
        seq!['\\', '\'']
    } else if c == '"' {
        seq!['\\', '"']
    } else if c == '\\' {
        seq!['\\', '\\']
    } else {
        seq![c]
    }
}

/// The escaped form of a text inside a JavaScript string literal.
pub open spec fn escape(t: Seq<char>) -> Seq<char>
    decreases t.len(),
{
    if t.len() == 0 {
        Seq::empty()
    } else {
        escape(t.drop_last()) + escape_char(t.last())
    }
}

/// The delimiter that opens or closes a string: a backtick for a template
/// string with interpolation, a double quote otherwise.
pub open spec fn quote_delim(has_eval: bool) -> Seq<char> {
    if has_eval {
        seq!['`']
    } else {
        seq!['"']
    }
}

/// The text that starts an interpolated expression in a template string.
pub open spec fn start_eval() -> Seq<char> {
    seq!['$', '{']
}

/// The text that ends an interpolated expression in a template string.
pub open spec fn end_eval() -> Seq<char> {
    seq!['}']
}

/// Relies on `String::push`: appends one character.
#[verifier::external_body]
pub(crate) fn push_char(s: &mut String, c: char)
    ensures
        final(s)@ == old(s)@.push(c),
{
    s.push(c)
}

/// Escape a text for the inside of a JavaScript string literal, without
/// the quotes around it.
pub fn escape_string(input: &str) -> (r: String)
    ensures
        r@ == escape(input@),
{
    let n = input.unicode_len();
    let mut out = String::new();
    let mut i: usize = 0;
    while i < n
        invariant
            n == input@.len(),
            i <= n,
            out@ == escape(input@.take(i as int)),
        decreases n - i,
    {
        let c = input.get_char(i);
        proof {
            assert(input@.take(i + 1).drop_last() =~= input@.take(i as int));
        }
        if c == '\t' {
            out.append("\\t");
        } else if c == '\u{0008}' {
            out.append("\\b");
        } else if c == '\n' {
            out.append("\\n");
        } else if c == '\r' {
            out.append("\\r");
        } else if c == '\u{000C}' {
            out.append("\\f");
        } else if c == '\'' {
            out.append("\\'");
        } else if c == '"' {
            out.append("\\\"");
        } else if c == '\\' {
            out.append("\\\\");
        } else {
            push_char(&mut out, c);
        }
        proof {
            reveal_strlit("\\t");
            reveal_strlit("\\b");
            reveal_strlit("\\n");
            reveal_strlit("\\r");
            reveal_strlit("\\f");
            reveal_strlit("\\'");
            reveal_strlit("\\\"");
            reveal_strlit("\\\\");
            assert(out@ =~= escape(input@.take(i + 1)));
        }
        i = i + 1;
    }
    proof {
        assert(input@.take(n as int) =~= input@);
    }
    out
}

/// A text as a JavaScript string literal: in double quotes, escaped.
pub fn quote_string(input: &str) -> (r: String)
    ensures
        r@ == seq!['"'] + escape(input@) + seq!['"'],
{
    let e = escape_string(input);
    let mut r = String::new();
    push_char(&mut r, '"');
    r.append(e.as_str());
    push_char(&mut r, '"');
    assert(r@ =~= seq!['"'] + escape(input@) + seq!['"']);
    r
}

/// An interpolated literal inside a template string: `${literal}`.
pub open spec fn eval_literal(t: Seq<char>) -> Seq<char> {
    start_eval() + t + end_eval()
}

/// An interpolated literal inside a template string, as text.
pub fn eval_literal_string(lit: &str) -> (r: String)
    ensures
        r@ == eval_literal(lit@),
{
    let mut r = String::new();
    r.append(start_eval_str());
    r.append(lit);
    r.append(end_eval_str());
    assert(r@ =~= eval_literal(lit@));
    r
}

/// The delimiter of a string, as text.
pub fn quote_delim_str(has_eval: bool) -> (r: &'static str)
    ensures
        r@ == quote_delim(has_eval),
{
    proof {
        reveal_strlit("`");
        reveal_strlit("\"");
    }
    if has_eval {
        "`"
    } else {
        "\""
    }
}

/// The start of an interpolated expression, as text.
pub fn start_eval_str() -> (r: &'static str)
    ensures
        r@ == start_eval(),
{
    proof {
        reveal_strlit("${");
    }
    "${"
}

/// The end of an interpolated expression, as text.
pub fn end_eval_str() -> (r: &'static str)
    ensures
        r@ == end_eval(),
{
    proof {
        reveal_strlit("}");
    }
    "}"
}

} // verus!

verus! {

/// A named import of a module as a view: the name, and the alias if any.
pub type NamedView = (Seq<char>, Option<Seq<char>>);

/// Whether one optional alias comes before another: no alias first, then
/// aliases in lexical order.
pub open spec fn alias_lt(a: Option<Seq<char>>, b: Option<Seq<char>>) -> bool {
    match (a, b) {
        (None, Some(_)) => true,
        (Some(x), Some(y)) => lex_lt(x, y),
        _ => false,
    }
}

/// The order of named imports in an import statement: lexical by name, and
/// for one name, the plain import first, then the aliases in lexical order.
pub open spec fn named_lt(x: NamedView, y: NamedView) -> bool {
    lex_lt(x.0, y.0) || (x.0 == y.0 && alias_lt(x.1, y.1))
}

/// The order of named imports, as a function.
pub open spec fn named_order() -> spec_fn(NamedView, NamedView) -> bool {
    |x: NamedView, y: NamedView| named_lt(x, y)
}

/// The order of module entries: by module.
pub open spec fn module_order() -> spec_fn(ModuleView, ModuleView) -> bool {
    |a: ModuleView, b: ModuleView| lex_lt(a.module, b.module)
}

/// The modules of the entries, in order.
pub open spec fn module_names(ms: Seq<ModuleView>) -> Seq<Seq<char>> {
    ms.map_values(|e: ModuleView| e.module)
}

/// The order of named imports is a strict total order.
pub proof fn lemma_named_order()
    ensures
        strict_order(named_order()),
        forall|x: NamedView, y: NamedView| x == y || named_lt(x, y) || #[trigger] named_lt(y, x),
{
    assert forall|x: NamedView| !named_lt(x, x) by {
        lemma_lex_irrefl(x.0);
        if x.1 is Some {
            lemma_lex_irrefl(x.1->0);
        }
    }
    assert forall|x: NamedView, y: NamedView, z: NamedView|
        named_lt(x, y) && named_lt(y, z) implies named_lt(x, z) by {
        if lex_lt(x.0, y.0) && lex_lt(y.0, z.0) {
            lemma_lex_trans(x.0, y.0, z.0);
        }
        if x.1 is Some && y.1 is Some && z.1 is Some && lex_lt(x.1->0, y.1->0) && lex_lt(
            y.1->0,
            z.1->0,
        ) {
            lemma_lex_trans(x.1->0, y.1->0, z.1->0);
        }
    }
    assert forall|x: NamedView, y: NamedView| x == y || named_lt(x, y) || #[trigger] named_lt(
        y,
        x,
    ) by {
        lemma_lex_total(x.0, y.0);
        if x.1 is Some && y.1 is Some {
            lemma_lex_total(x.1->0, y.1->0);
        }
    }
}

/// The modules that the imports name.
pub open spec fn modules_of(p: Seq<TypeView>) -> Set<Seq<char>>
    decreases p.len(),
{
    if p.len() == 0 {
        Set::empty()
    } else {
        let r = modules_of(p.drop_last());
        match p.last() {
            TypeView::Import { module, name, alias } => r.insert(module),
            TypeView::ImportDefault { module, name } => r.insert(module),
            TypeView::Local { name } => r,
        }
    }
}

/// The names that module `m` is default-imported under.
pub open spec fn defaults_of(p: Seq<TypeView>, m: Seq<char>) -> Set<Seq<char>>
    decreases p.len(),
{
    if p.len() == 0 {
        Set::empty()
    } else {
        let r = defaults_of(p.drop_last(), m);
        match p.last() {
            TypeView::ImportDefault { module, name } => if module == m {
                r.insert(name)
            } else {
                r
            },
            _ => r,
        }
    }
}

/// The named imports of module `m`.
pub open spec fn named_of(p: Seq<TypeView>, m: Seq<char>) -> Set<NamedView>
    decreases p.len(),
{
    if p.len() == 0 {
        Set::empty()
    } else {
        let r = named_of(p.drop_last(), m);
        match p.last() {
            TypeView::Import { module, name, alias } => if module == m {
                r.insert((name, alias))
            } else {
                r
            },
            _ => r,
        }
    }
}

/// No module is default-imported under two different names.
pub open spec fn conflict_free(p: Seq<TypeView>) -> bool {
    forall|m: Seq<char>, a: Seq<char>, b: Seq<char>|
        #[trigger] defaults_of(p, m).contains(a) && #[trigger] defaults_of(p, m).contains(b) ==> a
            == b
}

/// The imports of one module, as one import statement states them.
pub struct ModuleView {
    pub module: Seq<char>,
    pub default: Option<Seq<char>>,
    pub named: Seq<NamedView>,
}

/// The entry of module `e.module` states exactly the imports of it.
pub open spec fn entry_ok(p: Seq<TypeView>, e: ModuleView) -> bool {
    &&& match e.default {
        None => defaults_of(p, e.module) == Set::<Seq<char>>::empty(),
        Some(d) => defaults_of(p, e.module) == Set::<Seq<char>>::empty().insert(d),
    }
    &&& sorted_by(e.named, named_order())
    &&& e.named.to_set() == named_of(p, e.module)
}

/// `ms` is the collation of the imports `p`: one entry per module, in
/// lexical order of modules, each with its default import and its named
/// imports in order, without repeats.
pub open spec fn collated(p: Seq<TypeView>, ms: Seq<ModuleView>) -> bool {
    &&& sorted_by(ms, module_order())
    &&& module_names(ms).to_set() == modules_of(p)
    &&& forall|k: int| 0 <= k < ms.len() ==> entry_ok(p, #[trigger] ms[k])
}

/// A named import, as the collation keeps it.
pub type Named = (String, Option<String>);

pub open spec fn named_view(x: Named) -> NamedView {
    (x.0@, opt_view(x.1))
}

/// The imports of one module.
pub struct Module {
    module: String,
    default: Option<String>,
    named: Vec<Named>,
}

impl View for Module {
    type V = ModuleView;

    closed spec fn view(&self) -> ModuleView {
        ModuleView {
            module: self.module@,
            default: opt_view(self.default),
            named: self.named@.map_values(|x: Named| named_view(x)),
        }
    }
}

fn named_less(x: &Named, y: &Named) -> (r: bool)
    ensures
        r == named_lt(named_view(*x), named_view(*y)),
{
    if lex_less(x.0.as_str(), y.0.as_str()) {
        true
    } else if x.0 == y.0 {
        match (&x.1, &y.1) {
            (None, Some(_)) => true,
            (Some(a), Some(b)) => lex_less(a.as_str(), b.as_str()),
            _ => false,
        }
    } else {
        false
    }
}

fn opt_eq(a: &Option<String>, b: &Option<String>) -> (r: bool)
    ensures
        r == (opt_view(*a) == opt_view(*b)),
{
    match (a, b) {
        (None, None) => true,
        (Some(x), Some(y)) => *x == *y,
        _ => false,
    }
}

fn copy_opt(a: &Option<String>) -> (r: Option<String>)
    ensures
        opt_view(r) == opt_view(*a),
{
    match a {
        None => None,
        Some(x) => Some(x.clone()),
    }
}

/// The first position in `v` whose entry does not come before `x`.
fn find_named(v: &Vec<Named>, x: &Named) -> (r: usize)
    ensures
        r <= v@.len(),
        forall|j: int| 0 <= j < r ==> named_lt(#[trigger] named_view(v@[j]), named_view(*x)),
        r < v@.len() ==> !named_lt(named_view(v@[r as int]), named_view(*x)),
{
    let mut i: usize = 0;
    while i < v.len()
        invariant
            i <= v@.len(),
            forall|j: int| 0 <= j < i ==> named_lt(#[trigger] named_view(v@[j]), named_view(*x)),
        decreases v@.len() - i,
    {
        if !named_less(&v[i], x) {
            return i;
        }
        i = i + 1;
    }
    i
}

/// The first position in `ms` whose module does not come before `m`.
fn find_module(ms: &Vec<Module>, m: &str) -> (r: usize)
    ensures
        r <= ms@.len(),
        forall|j: int| 0 <= j < r ==> lex_lt((#[trigger] ms@[j])@.module, m@),
        r < ms@.len() ==> !lex_lt(ms@[r as int]@.module, m@),
{
    let mut i: usize = 0;
    while i < ms.len()
        invariant
            i <= ms@.len(),
            forall|j: int| 0 <= j < i ==> lex_lt((#[trigger] ms@[j])@.module, m@),
        decreases ms@.len() - i,
    {
        if !lex_less(ms[i].module.as_str(), m) {
            return i;
        }
        i = i + 1;
    }
    i
}

} // verus!

verus! {

/// A module that no import names has no default and no named imports.
pub proof fn lemma_absent(p: Seq<TypeView>, m: Seq<char>)
    requires
        !modules_of(p).contains(m),
    ensures
        defaults_of(p, m) == Set::<Seq<char>>::empty(),
        named_of(p, m) == Set::<NamedView>::empty(),
    decreases p.len(),
{
    if p.len() > 0 {
        lemma_absent(p.drop_last(), m);
    }
}

/// The default names of a module in a prefix are among those in the whole.
pub proof fn lemma_defaults_prefix(p: Seq<TypeView>, i: int, m: Seq<char>)
    requires
        0 <= i <= p.len(),
    ensures
        defaults_of(p.take(i), m).subset_of(defaults_of(p, m)),
    decreases p.len(),
{
    if i == p.len() {
        assert(p.take(i) =~= p);
    } else {
        assert(p.drop_last().take(i) =~= p.take(i));
        lemma_defaults_prefix(p.drop_last(), i, m);
    }
}

/// Adding one import changes only the entry of its own module.
proof fn lemma_step_others(p: Seq<TypeView>, v: TypeView, ms: Seq<ModuleView>, m: Seq<char>)
    requires
        forall|k: int| 0 <= k < ms.len() ==> entry_ok(p, #[trigger] ms[k]),
        v is Local || (v is Import && v->Import_module == m) || (v is ImportDefault
            && v->ImportDefault_module == m),
    ensures
        forall|k: int|
            0 <= k < ms.len() && ms[k].module != m ==> entry_ok(p.push(v), #[trigger] ms[k]),
{
    assert(p.push(v).drop_last() =~= p);
    assert forall|k: int| 0 <= k < ms.len() && ms[k].module != m implies entry_ok(
        p.push(v),
        #[trigger] ms[k],
    ) by {
        assert(entry_ok(p, ms[k]));
        assert(defaults_of(p.push(v), ms[k].module) == defaults_of(p, ms[k].module));
        assert(named_of(p.push(v), ms[k].module) == named_of(p, ms[k].module));
    }
}

/// The modules of distinct entries of a sorted collation differ.
proof fn lemma_distinct_modules(ms: Seq<ModuleView>, k: int)
    requires
        sorted_by(ms, module_order()),
        0 <= k < ms.len(),
    ensures
        forall|j: int| 0 <= j < ms.len() && j != k ==> (#[trigger] ms[j]).module != ms[k].module,
{
    lemma_lex_irrefl(ms[k].module);
    assert forall|j: int| 0 <= j < ms.len() && j != k implies (#[trigger] ms[j]).module
        != ms[k].module by {
        if j < k {
            assert(module_order()(ms[j], ms[k]));
        } else {
            assert(module_order()(ms[k], ms[j]));
        }
    }
}

/// Where the first entry not before `m` is not `m` itself, every entry from
/// it on comes after `m`.
proof fn lemma_after<K>(s: Seq<K>, k: int, x: K, lt: spec_fn(K, K) -> bool)
    requires
        strict_order(lt),
        sorted_by(s, lt),
        0 <= k < s.len(),
        lt(x, s[k]),
    ensures
        forall|j: int| k <= j < s.len() ==> #[trigger] lt(x, s[j]),
{
    assert forall|j: int| k <= j < s.len() implies #[trigger] lt(x, s[j]) by {
        if j > k {
            assert(lt(s[k], s[j]));
        }
    }
}

proof fn lemma_module_order()
    ensures
        strict_order(module_order()),
{
    assert forall|x: ModuleView| !#[trigger] module_order()(x, x) by {
        lemma_lex_irrefl(x.module);
    }
    assert forall|x: ModuleView, y: ModuleView, z: ModuleView|
        #[trigger] module_order()(x, y) && #[trigger] module_order()(y, z) implies module_order()(
        x,
        z,
    ) by {
        lemma_lex_trans(x.module, y.module, z.module);
    }
}

} // verus!

verus! {

/// The views of module entries.
pub open spec fn mods_view(v: Seq<Module>) -> Seq<ModuleView> {
    v.map_values(|e: Module| e@)
}

/// The views of named imports.
pub open spec fn named_views(v: Seq<Named>) -> Seq<NamedView> {
    v.map_values(|x: Named| named_view(x))
}

impl Module {
    /// The module imported from.
    pub fn module(&self) -> (r: &str)
        ensures
            r@ == self@.module,
    {
        self.module.as_str()
    }

    /// The name the module's default export is bound to, if any.
    pub fn default_name(&self) -> (r: Option<&str>)
        ensures
            match (r, self@.default) {
                (Some(a), Some(b)) => a@ == b,
                (None, None) => true,
                _ => false,
            },
    {
        match &self.default {
            Some(d) => Some(d.as_str()),
            None => None,
        }
    }

    /// The named imports of the module, in order.
    pub fn named(&self) -> (r: &[Named])
        ensures
            named_views(r@) == self@.named,
    {
        self.named.as_slice()
    }

    proof fn lemma_view(&self)
        ensures
            self@.module == self.module@,
            self@.default == opt_view(self.default),
            self@.named == named_views(self.named@),
    {
    }
}

/// Where no entry of the sorted `ms` has module `m`, `m` is not among the
/// modules that `p` names.
proof fn lemma_not_found(p: Seq<TypeView>, ms: Seq<ModuleView>, k: int, m: Seq<char>)
    requires
        collated(p, ms),
        0 <= k <= ms.len(),
        forall|j: int| 0 <= j < k ==> lex_lt((#[trigger] ms[j]).module, m),
        forall|j: int| k <= j < ms.len() ==> lex_lt(m, (#[trigger] ms[j]).module),
    ensures
        !modules_of(p).contains(m),
{
    lemma_lex_irrefl(m);
    if modules_of(p).contains(m) {
        assert(module_names(ms).to_set().contains(m));
        let j = choose|j: int| 0 <= j < module_names(ms).len() && module_names(ms)[j] == m;
        assert(ms[j].module == m);
    }
}

/// Record a named import of module `m`.
fn add_named(
    mods: &mut Vec<Module>,
    m: &String,
    x: Named,
    Ghost(p): Ghost<Seq<TypeView>>,
    Ghost(v): Ghost<TypeView>,
)
    requires
        collated(p, mods_view(old(mods)@)),
        v == (TypeView::Import { module: m@, name: x.0@, alias: opt_view(x.1) }),
    ensures
        collated(p.push(v), mods_view(final(mods)@)),
{
    let ghost ms = mods_view(mods@);
    let ghost p2 = p.push(v);
    let ghost xv = named_view(x);
    proof {
        assert(p2.drop_last() =~= p);
        lemma_module_order();
        lemma_named_order();
        lemma_step_others(p, v, ms, m@);
        assert(modules_of(p2) == modules_of(p).insert(m@));
        assert(named_of(p2, m@) == named_of(p, m@).insert(xv));
        assert(defaults_of(p2, m@) == defaults_of(p, m@));
    }
    let k = find_module(mods, m.as_str());
    if k < mods.len() && mods[k].module == *m {
        proof {
            mods@[k as int].lemma_view();
            lemma_distinct_modules(ms, k as int);
            assert(ms[k as int].module == m@);
            assert(entry_ok(p, ms[k as int]));
        }
        let mut e = mods.remove(k);
        proof {
            e.lemma_view();
        }
        let ghost nv = named_views(e.named@);
        let q = find_named(&e.named, &x);
        let present = q < e.named.len() && e.named[q].0 == x.0 && opt_eq(&e.named[q].1, &x.1);
        if !present {
            proof {
                if q < e.named@.len() {
                    assert(nv[q as int] == named_view(e.named@[q as int]));
                    assert(nv[q as int] != xv);
                    assert(named_lt(xv, nv[q as int]));
                    lemma_after(nv, q as int, xv, named_order());
                }
                assert forall|j: int| 0 <= j < q implies #[trigger] named_order()(nv[j], xv) by {
                    assert(named_lt(named_view(e.named@[j]), xv));
                }
                lemma_insert_sorted(nv, q as int, xv, named_order());
            }
            e.named.insert(q, x);
            proof {
                assert(named_views(e.named@) =~= nv.insert(q as int, xv));
            }
        } else {
            proof {
                assert(nv[q as int] == xv);
                assert(nv.to_set().contains(xv));
                assert(nv.to_set().insert(xv) =~= nv.to_set());
            }
        }
        proof {
            e.lemma_view();
        }
        let ghost ev = e@;
        mods.insert(k, e);
        proof {
            assert(mods_view(mods@) =~= ms.update(k as int, ev));
            let ms2 = ms.update(k as int, ev);
            assert(module_names(ms2) =~= module_names(ms));
            assert(modules_of(p).contains(m@)) by {
                assert(module_names(ms)[k as int] == m@);
            }
            assert(modules_of(p2) =~= modules_of(p));
            assert(entry_ok(p2, ev));
            assert forall|i: int, j: int| 0 <= i < j < ms2.len() implies #[trigger] module_order()(
                ms2[i],
                ms2[j],
            ) by {
                assert(module_order()(ms[i], ms[j]));
            }
            assert forall|j: int| 0 <= j < ms2.len() implies entry_ok(p2, #[trigger] ms2[j]) by {
                if j != k {
                    assert(ms[j].module != m@);
                }
            }
        }
    } else {
        let e = Module { module: m.clone(), default: None, named: vec![x] };
        proof {
            e.lemma_view();
            let ev = e@;
            if k < mods@.len() {
                mods@[k as int].lemma_view();
                lemma_lex_total(ms[k as int].module, m@);
                assert(lex_lt(m@, ms[k as int].module));
                lemma_after(ms, k as int, ev, module_order());
            }
            assert forall|j: int| 0 <= j < k implies #[trigger] module_order()(ms[j], ev) by {
                assert(lex_lt(mods@[j]@.module, m@));
            }
            assert forall|j: int| k <= j < ms.len() implies lex_lt(m@, (#[trigger] ms[j]).module) by {
                assert(module_order()(ev, ms[j]));
            }
            lemma_not_found(p, ms, k as int, m@);
            lemma_absent(p, m@);
            lemma_insert_sorted(ms, k as int, ev, module_order());
            assert(named_views(e.named@) =~= seq![xv]);
            lemma_insert_to_set(Seq::<NamedView>::empty(), 0, xv);
            assert(Seq::<NamedView>::empty().insert(0, xv) =~= seq![xv]);
            assert(Seq::<NamedView>::empty().to_set() =~= Set::<NamedView>::empty());
            assert(entry_ok(p2, ev));
        }
        let ghost ev = e@;
        mods.insert(k, e);
        proof {
            let ms2 = ms.insert(k as int, ev);
            assert(mods_view(mods@) =~= ms2);
            assert(module_names(ms2) =~= module_names(ms).insert(k as int, m@));
            lemma_insert_to_set(module_names(ms), k as int, m@);
            assert forall|j: int| 0 <= j < ms2.len() implies entry_ok(p2, #[trigger] ms2[j]) by {
                if j < k {
                    assert(ms2[j] == ms[j]);
                    assert(module_order()(ms[j], ev));
                    lemma_lex_irrefl(m@);
                } else if j > k {
                    assert(ms2[j] == ms[j - 1]);
                    assert(module_order()(ev, ms[j - 1]));
                    lemma_lex_irrefl(m@);
                }
            }
        }
    }
}

} // verus!

verus! {

/// The name module `m` is first default-imported under, in the order of
/// `p`, if it is default-imported at all.
pub open spec fn first_default(p: Seq<TypeView>, m: Seq<char>) -> Option<Seq<char>>
    decreases p.len(),
{
    if p.len() == 0 {
        None
    } else {
        match first_default(p.drop_last(), m) {
            Some(a) => Some(a),
            None => match p.last() {
                TypeView::ImportDefault { module, name } => if module == m {
                    Some(name)
                } else {
                    None
                },
                _ => None,
            },
        }
    }
}

/// The first conflict among the default imports of `p`, in order: the
/// first default import whose module was already default-imported under
/// another name, as its module, that earlier name, and its own name.
pub open spec fn conflict_at(p: Seq<TypeView>) -> Option<(Seq<char>, Seq<char>, Seq<char>)>
    decreases p.len(),
{
    if p.len() == 0 {
        None
    } else {
        let q = p.drop_last();
        match conflict_at(q) {
            Some(c) => Some(c),
            None => match p.last() {
                TypeView::ImportDefault { module, name } => match first_default(q, module) {
                    Some(a) => if a != name {
                        Some((module, a, name))
                    } else {
                        None
                    },
                    None => None,
                },
                _ => None,
            },
        }
    }
}

/// The first default name of a module is one of its default names, and a
/// module without one has none.
pub proof fn lemma_first_default(p: Seq<TypeView>, m: Seq<char>)
    ensures
        first_default(p, m) is Some ==> defaults_of(p, m).contains(first_default(p, m)->0),
        first_default(p, m) is None ==> defaults_of(p, m) == Set::<Seq<char>>::empty(),
    decreases p.len(),
{
    if p.len() > 0 {
        lemma_first_default(p.drop_last(), m);
    }
}

/// The first conflict names two different default names of one module.
pub proof fn lemma_conflict_at_sound(p: Seq<TypeView>)
    ensures
        conflict_at(p) is Some ==> {
            let (m, a, b) = conflict_at(p)->0;
            a != b && defaults_of(p, m).contains(a) && defaults_of(p, m).contains(b)
        },
    decreases p.len(),
{
    if p.len() > 0 {
        let q = p.drop_last();
        lemma_conflict_at_sound(q);
        if conflict_at(q) is Some {
            let (m, a, b) = conflict_at(q)->0;
            lemma_defaults_prefix(p, q.len() as int, m);
            assert(p.take(q.len() as int) =~= q);
        } else if let TypeView::ImportDefault { module, name } = p.last() {
            lemma_first_default(q, module);
        }
    }
}

/// A conflict in a prefix is the first conflict of the whole.
pub proof fn lemma_conflict_prefix(p: Seq<TypeView>, k: int)
    requires
        0 <= k <= p.len(),
        conflict_at(p.take(k)) is Some,
    ensures
        conflict_at(p) == conflict_at(p.take(k)),
    decreases p.len(),
{
    if k == p.len() {
        assert(p.take(k) =~= p);
    } else {
        assert(p.drop_last().take(k) =~= p.take(k));
        lemma_conflict_prefix(p.drop_last(), k);
    }
}

/// Record the default import of module `m` under `name`, failing where the
/// module already has a default import under another name.
fn add_default(
    mods: &mut Vec<Module>,
    m: &String,
    name: &String,
    Ghost(p): Ghost<Seq<TypeView>>,
    Ghost(v): Ghost<TypeView>,
) -> (r: Result<(), Error>)
    requires
        collated(p, mods_view(old(mods)@)),
        conflict_free(p),
        conflict_at(p) is None,
        v == (TypeView::ImportDefault { module: m@, name: name@ }),
    ensures
        r is Ok ==> collated(p.push(v), mods_view(final(mods)@)) && conflict_free(p.push(v))
            && conflict_at(p.push(v)) is None,
        r is Err ==> match r->Err_0 {
            Error::DefaultConflict { module, first, second } => conflict_at(p.push(v)) == Some(
                (module@, first@, second@),
            ),
            _ => false,
        },
{
    let ghost ms = mods_view(mods@);
    let ghost p2 = p.push(v);
    proof {
        assert(p2.drop_last() =~= p);
        lemma_module_order();
        lemma_step_others(p, v, ms, m@);
        assert(modules_of(p2) == modules_of(p).insert(m@));
        assert(named_of(p2, m@) == named_of(p, m@));
        assert(defaults_of(p2, m@) == defaults_of(p, m@).insert(name@));
        lemma_first_default(p, m@);
        assert forall|m2: Seq<char>| m2 != m@ implies #[trigger] defaults_of(p2, m2) == defaults_of(
            p,
            m2,
        ) by {}
    }
    let k = find_module(mods, m.as_str());
    if k < mods.len() && mods[k].module == *m {
        proof {
            mods@[k as int].lemma_view();
            lemma_distinct_modules(ms, k as int);
            assert(ms[k as int].module == m@);
            assert(entry_ok(p, ms[k as int]));
        }
        let mut e = mods.remove(k);
        proof {
            e.lemma_view();
        }
        match &e.default {
            Some(d) => {
                if *d != *name {
                    proof {
                        assert(defaults_of(p, m@).contains(d@));
                        assert(defaults_of(p, m@) == Set::<Seq<char>>::empty().insert(d@));
                        assert(first_default(p, m@) == Some(d@));
                    }
                    return Err(
                        Error::DefaultConflict { module: m.clone(), first: d.clone(), second: name.clone() },
                    );
                }
            },
            None => {},
        }
        e.default = Some(name.clone());
        proof {
            e.lemma_view();
            assert(defaults_of(p2, m@) =~= Set::<Seq<char>>::empty().insert(name@));
        }
        let ghost ev = e@;
        mods.insert(k, e);
        proof {
            assert(mods_view(mods@) =~= ms.update(k as int, ev));
            let ms2 = ms.update(k as int, ev);
            assert(module_names(ms2) =~= module_names(ms));
            assert(modules_of(p).contains(m@)) by {
                assert(module_names(ms)[k as int] == m@);
            }
            assert(modules_of(p2) =~= modules_of(p));
            assert(entry_ok(p2, ev));
            assert forall|i: int, j: int| 0 <= i < j < ms2.len() implies #[trigger] module_order()(
                ms2[i],
                ms2[j],
            ) by {
                assert(module_order()(ms[i], ms[j]));
            }
            assert forall|j: int| 0 <= j < ms2.len() implies entry_ok(p2, #[trigger] ms2[j]) by {
                if j != k {
                    assert(ms[j].module != m@);
                }
            }
        }
    } else {
        let e = Module { module: m.clone(), default: Some(name.clone()), named: Vec::new() };
        proof {
            e.lemma_view();
            let ev = e@;
            if k < mods@.len() {
                mods@[k as int].lemma_view();
                lemma_lex_total(ms[k as int].module, m@);
                assert(lex_lt(m@, ms[k as int].module));
                lemma_after(ms, k as int, ev, module_order());
            }
            assert forall|j: int| 0 <= j < k implies #[trigger] module_order()(ms[j], ev) by {
                assert(lex_lt(mods@[j]@.module, m@));
            }
            assert forall|j: int| k <= j < ms.len() implies lex_lt(m@, (#[trigger] ms[j]).module) by {
                assert(module_order()(ev, ms[j]));
            }
            lemma_not_found(p, ms, k as int, m@);
            lemma_absent(p, m@);
            lemma_insert_sorted(ms, k as int, ev, module_order());
            assert(named_views(e.named@) =~= Seq::<NamedView>::empty());
            assert(Seq::<NamedView>::empty().to_set() =~= Set::<NamedView>::empty());
            assert(defaults_of(p2, m@) =~= Set::<Seq<char>>::empty().insert(name@));
            assert(entry_ok(p2, ev));
        }
        let ghost ev = e@;
        mods.insert(k, e);
        proof {
            let ms2 = ms.insert(k as int, ev);
            assert(mods_view(mods@) =~= ms2);
            assert(module_names(ms2) =~= module_names(ms).insert(k as int, m@));
            lemma_insert_to_set(module_names(ms), k as int, m@);
            assert forall|j: int| 0 <= j < ms2.len() implies entry_ok(p2, #[trigger] ms2[j]) by {
                if j < k {
                    assert(ms2[j] == ms[j]);
                    assert(module_order()(ms[j], ev));
                    lemma_lex_irrefl(m@);
                } else if j > k {
                    assert(ms2[j] == ms[j - 1]);
                    assert(module_order()(ev, ms[j - 1]));
                    lemma_lex_irrefl(m@);
                }
            }
        }
    }
    proof {
        assert forall|m2: Seq<char>, a: Seq<char>, b: Seq<char>|
            #[trigger] defaults_of(p2, m2).contains(a) && #[trigger] defaults_of(p2, m2).contains(
                b,
            ) implies a == b by {
            if m2 != m@ {
                assert(defaults_of(p2, m2) == defaults_of(p, m2));
            }
        }
    }
    Ok(())
}

} // verus!

verus! {

/// The views of a sequence of items.
pub open spec fn items_view(v: Seq<TypeEnum>) -> Seq<TypeView> {
    v.map_values(|x: TypeEnum| x@)
}

/// `e` reports the first conflict among the default imports of `p`.
pub open spec fn reports_conflict(p: Seq<TypeView>, e: Error) -> bool {
    match e {
        Error::DefaultConflict { module, first, second } => conflict_at(p) == Some(
            (module@, first@, second@),
        ),
        Error::Format => false,
    }
}

/// Group imports by module: one entry per module in lexical order, with its
/// default import and its named imports in order and without repeats. Fails
/// where one module is default-imported under two different names; items
/// that are not imports are passed over. The error names the first
/// conflict in the order of the imports.
pub fn collate(imports: &Vec<TypeEnum>) -> (r: Result<Vec<Module>, Error>)
    ensures
        r is Ok <==> conflict_free(items_view(imports@)),
        r is Ok ==> collated(items_view(imports@), mods_view(r->Ok_0@)),
        r is Err ==> reports_conflict(items_view(imports@), r->Err_0),
{
    let ghost p = items_view(imports@);
    let mut mods: Vec<Module> = Vec::new();
    let n = imports.len();
    let mut i: usize = 0;
    proof {
        assert(p.take(0) =~= Seq::<TypeView>::empty());
        assert(mods_view(mods@) =~= Seq::<ModuleView>::empty());
        assert(module_names(Seq::<ModuleView>::empty()).to_set() =~= Set::<Seq<char>>::empty());
    }
    while i < n
        invariant
            n == imports@.len(),
            p == items_view(imports@),
            i <= n,
            collated(p.take(i as int), mods_view(mods@)),
            conflict_free(p.take(i as int)),
            conflict_at(p.take(i as int)) is None,
        decreases n - i,
    {
        let ghost pi = p.take(i as int);
        let ghost v = p[i as int];
        proof {
            assert(p.take(i + 1) =~= pi.push(v));
            assert(pi.push(v).drop_last() =~= pi);
        }
        match &imports[i] {
            TypeEnum::Import(x) => {
                let a = copy_opt(&x.alias);
                add_named(&mut mods, &x.module, (x.name.clone(), a), Ghost(pi), Ghost(v));
                proof {
                    assert forall|m2: Seq<char>| #[trigger] defaults_of(pi.push(v), m2) == defaults_of(
                        pi,
                        m2,
                    ) by {}
                }
            },
            TypeEnum::ImportDefault(x) => {
                let res = add_default(&mut mods, &x.module, &x.name, Ghost(pi), Ghost(v));
                if let Err(e) = res {
                    proof {
                        lemma_conflict_prefix(p, i + 1);
                        lemma_conflict_at_sound(p);
                    }
                    return Err(e);
                }
            },
            TypeEnum::Local(_) => {
                proof {
                    let ms = mods_view(mods@);
                    assert(modules_of(pi.push(v)) == modules_of(pi));
                    assert forall|m2: Seq<char>| #[trigger] defaults_of(pi.push(v), m2) == defaults_of(
                        pi,
                        m2,
                    ) && named_of(pi.push(v), m2) == named_of(pi, m2) by {}
                    assert forall|k: int| 0 <= k < ms.len() implies entry_ok(
                        pi.push(v),
                        #[trigger] ms[k],
                    ) by {
                        assert(entry_ok(pi, ms[k]));
                        assert(defaults_of(pi.push(v), ms[k].module) == defaults_of(pi, ms[k].module));
                        assert(named_of(pi.push(v), ms[k].module) == named_of(pi, ms[k].module));
                    }
                }
            },
        }
        i = i + 1;
    }
    proof {
        assert(p.take(n as int) =~= p);
    }
    Ok(mods)
}

} // verus!

verus! {

/// The module an item imports from, if it is an import.
pub open spec fn module_of(v: TypeView) -> Option<Seq<char>> {
    match v {
        TypeView::Import { module, name, alias } => Some(module),
        TypeView::ImportDefault { module, name } => Some(module),
        TypeView::Local { name } => None,
    }
}

proof fn lemma_sets_of(p: Seq<TypeView>)
    ensures
        forall|m: Seq<char>|
            #[trigger] modules_of(p).contains(m) <==> exists|j: int|
                0 <= j < p.len() && module_of(#[trigger] p[j]) == Some(m),
        forall|m: Seq<char>, a: Seq<char>|
            #[trigger] defaults_of(p, m).contains(a) <==> p.contains(
                TypeView::ImportDefault { module: m, name: a },
            ),
        forall|m: Seq<char>, x: NamedView|
            #[trigger] named_of(p, m).contains(x) <==> p.contains(
                TypeView::Import { module: m, name: x.0, alias: x.1 },
            ),
    decreases p.len(),
{
    if p.len() > 0 {
        let q = p.drop_last();
        lemma_sets_of(q);
        assert forall|m: Seq<char>| #[trigger] modules_of(p).contains(m) <==> exists|j: int|
            0 <= j < p.len() && module_of(#[trigger] p[j]) == Some(m) by {
            if modules_of(q).contains(m) {
                let j = choose|j: int| 0 <= j < q.len() && module_of(#[trigger] q[j]) == Some(m);
                assert(p[j] == q[j]);
            }
            if exists|j: int| 0 <= j < p.len() && module_of(#[trigger] p[j]) == Some(m) {
                let j = choose|j: int| 0 <= j < p.len() && module_of(#[trigger] p[j]) == Some(m);
                if j < q.len() {
                    assert(q[j] == p[j]);
                }
            }
        }
        assert forall|m: Seq<char>, a: Seq<char>| #[trigger] defaults_of(p, m).contains(a) <==> p.contains(
            TypeView::ImportDefault { module: m, name: a },
        ) by {
            let w = TypeView::ImportDefault { module: m, name: a };
            assert(defaults_of(q, m).contains(a) == q.contains(w));
            assert(p.drop_last() == q);
            if q.contains(w) {
                let j = choose|j: int| 0 <= j < q.len() && q[j] == w;
                assert(p[j] == w);
            }
            if p.contains(w) {
                let j = choose|j: int| 0 <= j < p.len() && p[j] == w;
                if j < q.len() {
                    assert(q[j] == w);
                }
            }
            if p.last() == w {
                assert(p[p.len() - 1] == w);
            }
        }
        assert forall|m: Seq<char>, x: NamedView| #[trigger] named_of(p, m).contains(x) <==> p.contains(
            TypeView::Import { module: m, name: x.0, alias: x.1 },
        ) by {
            let w = TypeView::Import { module: m, name: x.0, alias: x.1 };
            assert(named_of(q, m).contains(x) == q.contains(w));
            assert(p.drop_last() == q);
            if q.contains(w) {
                let j = choose|j: int| 0 <= j < q.len() && q[j] == w;
                assert(p[j] == w);
            }
            if p.contains(w) {
                let j = choose|j: int| 0 <= j < p.len() && p[j] == w;
                if j < q.len() {
                    assert(q[j] == w);
                }
            }
            if p.last() == w {
                assert(p[p.len() - 1] == w);
            }
        }
    }
}

/// Imports that hold the same items, in whatever order and with whatever
/// repeats, name the same modules, defaults and named imports.
pub proof fn lemma_same_imports(p1: Seq<TypeView>, p2: Seq<TypeView>)
    requires
        p1.to_set() == p2.to_set(),
    ensures
        modules_of(p1) == modules_of(p2),
        forall|m: Seq<char>| #[trigger] defaults_of(p1, m) == defaults_of(p2, m),
        forall|m: Seq<char>| #[trigger] named_of(p1, m) == named_of(p2, m),
        conflict_free(p1) == conflict_free(p2),
{
    lemma_sets_of(p1);
    lemma_sets_of(p2);
    assert forall|w: TypeView| p1.contains(w) == p2.contains(w) by {
        assert(p1.to_set().contains(w) == p1.contains(w));
        assert(p2.to_set().contains(w) == p2.contains(w));
    }
    assert forall|m: Seq<char>| modules_of(p1).contains(m) == modules_of(p2).contains(m) by {
        if modules_of(p1).contains(m) {
            let j = choose|j: int| 0 <= j < p1.len() && module_of(#[trigger] p1[j]) == Some(m);
            assert(p1.contains(p1[j]));
            let k = choose|k: int| 0 <= k < p2.len() && p2[k] == p1[j];
            assert(module_of(p2[k]) == Some(m));
        }
        if modules_of(p2).contains(m) {
            let j = choose|j: int| 0 <= j < p2.len() && module_of(#[trigger] p2[j]) == Some(m);
            assert(p2.contains(p2[j]));
            let k = choose|k: int| 0 <= k < p1.len() && p1[k] == p2[j];
            assert(module_of(p1[k]) == Some(m));
        }
    }
    assert(modules_of(p1) =~= modules_of(p2));
    assert forall|m: Seq<char>| #[trigger] defaults_of(p1, m) == defaults_of(p2, m) by {
        assert(defaults_of(p1, m) =~= defaults_of(p2, m));
    }
    assert forall|m: Seq<char>| #[trigger] named_of(p1, m) == named_of(p2, m) by {
        assert(named_of(p1, m) =~= named_of(p2, m));
    }
    if conflict_free(p1) {
        assert forall|m: Seq<char>, a: Seq<char>, b: Seq<char>|
            #[trigger] defaults_of(p2, m).contains(a) && #[trigger] defaults_of(p2, m).contains(
                b,
            ) implies a == b by {
            assert(defaults_of(p1, m) == defaults_of(p2, m));
        }
    }
    if conflict_free(p2) {
        assert forall|m: Seq<char>, a: Seq<char>, b: Seq<char>|
            #[trigger] defaults_of(p1, m).contains(a) && #[trigger] defaults_of(p1, m).contains(
                b,
            ) implies a == b by {
            assert(defaults_of(p1, m) == defaults_of(p2, m));
        }
    }
}

/// Import collation does not depend on the order in which the imports were
/// met: imports that hold the same items have the same collation, and one
/// fails exactly where the other does.
pub proof fn lemma_collation_order_independent(
    p1: Seq<TypeView>,
    p2: Seq<TypeView>,
    ms1: Seq<ModuleView>,
    ms2: Seq<ModuleView>,
)
    requires
        p1.to_set() == p2.to_set(),
        collated(p1, ms1),
        collated(p2, ms2),
    ensures
        ms1 == ms2,
        conflict_free(p1) == conflict_free(p2),
        forall|body: Seq<Tok>| #[trigger] file_toks(ms1, body) == file_toks(ms2, body),
{
    lemma_same_imports(p1, p2);
    lemma_module_order();
    lemma_named_order();
    let lt = |a: Seq<char>, b: Seq<char>| lex_lt(a, b);
    assert(strict_order(lt)) by {
        assert forall|x: Seq<char>| !#[trigger] lt(x, x) by {
            lemma_lex_irrefl(x);
        }
        assert forall|x: Seq<char>, y: Seq<char>, z: Seq<char>| #[trigger] lt(x, y) && #[trigger] lt(
            y,
            z,
        ) implies lt(x, z) by {
            lemma_lex_trans(x, y, z);
        }
    }
    let n1 = module_names(ms1);
    let n2 = module_names(ms2);
    assert(sorted_by(n1, lt)) by {
        assert forall|i: int, j: int| 0 <= i < j < n1.len() implies #[trigger] lt(n1[i], n1[j]) by {
            assert(module_order()(ms1[i], ms1[j]));
        }
    }
    assert(sorted_by(n2, lt)) by {
        assert forall|i: int, j: int| 0 <= i < j < n2.len() implies #[trigger] lt(n2[i], n2[j]) by {
            assert(module_order()(ms2[i], ms2[j]));
        }
    }
    lemma_sorted_unique(n1, n2, lt);
    assert forall|k: int| 0 <= k < ms1.len() implies #[trigger] ms1[k] == ms2[k] by {
        assert(n1[k] == n2[k]);
        let m = ms1[k].module;
        assert(entry_ok(p1, ms1[k]));
        assert(entry_ok(p2, ms2[k]));
        lemma_sorted_unique(ms1[k].named, ms2[k].named, named_order());
        if ms1[k].default is Some {
            assert(defaults_of(p1, m).contains(ms1[k].default->0));
        }
        if ms2[k].default is Some {
            assert(defaults_of(p2, m).contains(ms2[k].default->0));
        }
    }
    assert(ms1 =~= ms2);
}

} // verus!

verus! {

/// A named import in an import statement: `name` or `name as alias`.
pub open spec fn named_toks(x: NamedView) -> Seq<Tok> {
    match x.1 {
        None => seq![Tok::Literal(x.0)],
        Some(a) => seq![Tok::Literal(x.0), Tok::Space, Tok::Literal("as"@), Tok::Space, Tok::Literal(a)],
    }
}

/// Named imports separated by commas.
pub open spec fn named_list_toks(ns: Seq<NamedView>) -> Seq<Tok>
    decreases ns.len(),
{
    if ns.len() == 0 {
        Seq::empty()
    } else if ns.len() == 1 {
        named_toks(ns[0])
    } else {
        named_list_toks(ns.drop_last()) + seq![Tok::Literal(","@), Tok::Space] + named_toks(ns.last())
    }
}

/// The import statement of one module, on a line of its own:
/// `import default, {a, b as c} from "module";`, the default or the braces
/// left out where there is none.
pub open spec fn module_toks(e: ModuleView) -> Seq<Tok> {
    let default = match e.default {
        Some(d) => if e.named.len() > 0 {
            seq![Tok::Literal(d), Tok::Literal(","@), Tok::Space]
        } else {
            seq![Tok::Literal(d)]
        },
        None => Seq::empty(),
    };
    let braces = if e.named.len() > 0 {
        seq![Tok::Literal("{"@)] + named_list_toks(e.named) + seq![Tok::Literal("}"@)]
    } else {
        Seq::empty()
    };
    seq![Tok::Push, Tok::Literal("import"@), Tok::Space] + default + braces + seq![
        Tok::Space,
        Tok::Literal("from"@),
        Tok::Space,
        Tok::OpenQuote(false),
        Tok::Literal(e.module),
        Tok::CloseQuote,
        Tok::Literal(";"@),
    ]
}

/// The import statements of all modules, in order.
pub open spec fn preamble_toks(ms: Seq<ModuleView>) -> Seq<Tok>
    decreases ms.len(),
{
    if ms.len() == 0 {
        Seq::empty()
    } else {
        preamble_toks(ms.drop_last()) + module_toks(ms.last())
    }
}

/// A file: the import statements and an empty line, where there are any,
/// then the body.
pub open spec fn file_toks(ms: Seq<ModuleView>, body: Seq<Tok>) -> Seq<Tok> {
    if ms.len() == 0 {
        body
    } else {
        preamble_toks(ms) + seq![Tok::Line] + body
    }
}

/// The collation of the imports `p`, where there is one.
pub open spec fn collation(p: Seq<TypeView>) -> Seq<ModuleView> {
    choose|ms: Seq<ModuleView>| collated(p, ms)
}

fn push_item(out: &mut Vec<Item>, x: Item)
    ensures
        toks_of(final(out)@) == toks_of(old(out)@).push(x@),
{
    out.push(x);
    assert(toks_of(out@) =~= toks_of(old(out)@).push(x@));
}

fn push_named(out: &mut Vec<Item>, x: &Named)
    ensures
        toks_of(final(out)@) == toks_of(old(out)@) + named_toks(named_view(*x)),
{
    let ghost o = toks_of(out@);
    push_item(out, Item::Literal(x.0.clone()));
    match &x.1 {
        None => {},
        Some(a) => {
            push_item(out, Item::Space);
            push_item(out, Item::Literal("as".to_string()));
            push_item(out, Item::Space);
            push_item(out, Item::Literal(a.clone()));
        },
    }
    assert(toks_of(out@) =~= o + named_toks(named_view(*x)));
}

fn push_named_list(out: &mut Vec<Item>, named: &Vec<Named>)
    ensures
        toks_of(final(out)@) == toks_of(old(out)@) + named_list_toks(named_views(named@)),
{
    let ghost o3 = toks_of(out@);
    let ghost nv = named_views(named@);
    let n = named.len();
    let mut i: usize = 0;
    assert(named_list_toks(nv.take(0)) =~= Seq::<Tok>::empty());
    assert(toks_of(out@) =~= o3 + named_list_toks(nv.take(0)));
    while i < n
        invariant
            n == named@.len(),
            nv == named_views(named@),
            i <= n,
            toks_of(out@) == o3 + named_list_toks(nv.take(i as int)),
        decreases n - i,
    {
        if i > 0 {
            push_item(out, Item::Literal(",".to_string()));
            push_item(out, Item::Space);
        }
        push_named(out, &named[i]);
        proof {
            assert(nv.take(i + 1).drop_last() =~= nv.take(i as int));
            assert(nv.take(i + 1).last() == named_view(named@[i as int]));
            if i == 0 {
                assert(nv.take(1)[0] == named_view(named@[0]));
            }
            assert(toks_of(out@) =~= o3 + named_list_toks(nv.take(i + 1)));
        }
        i = i + 1;
    }
    assert(nv.take(n as int) =~= nv);
}

fn push_head(out: &mut Vec<Item>, e: &Module)
    ensures
        toks_of(final(out)@) == toks_of(old(out)@) + seq![Tok::Push, Tok::Literal("import"@), Tok::Space]
            + match e@.default {
            Some(d) => if e@.named.len() > 0 {
                seq![Tok::Literal(d), Tok::Literal(","@), Tok::Space]
            } else {
                seq![Tok::Literal(d)]
            },
            None => Seq::empty(),
        },
{
    proof {
        e.lemma_view();
    }
    let ghost o = toks_of(out@);
    push_item(out, Item::Push);
    push_item(out, Item::Literal("import".to_string()));
    push_item(out, Item::Space);
    match &e.default {
        Some(d) => {
            push_item(out, Item::Literal(d.clone()));
            if e.named.len() > 0 {
                push_item(out, Item::Literal(",".to_string()));
                push_item(out, Item::Space);
            }
        },
        None => {},
    }
    assert(toks_of(out@) =~= o + seq![Tok::Push, Tok::Literal("import"@), Tok::Space] + match e@.default {
        Some(d) => if e@.named.len() > 0 {
            seq![Tok::Literal(d), Tok::Literal(","@), Tok::Space]
        } else {
            seq![Tok::Literal(d)]
        },
        None => Seq::empty(),
    });
}

fn push_tail(out: &mut Vec<Item>, e: &Module)
    ensures
        toks_of(final(out)@) == toks_of(old(out)@) + seq![
            Tok::Space,
            Tok::Literal("from"@),
            Tok::Space,
            Tok::OpenQuote(false),
            Tok::Literal(e@.module),
            Tok::CloseQuote,
            Tok::Literal(";"@),
        ],
{
    proof {
        e.lemma_view();
    }
    let ghost o = toks_of(out@);
    push_item(out, Item::Space);
    push_item(out, Item::Literal("from".to_string()));
    push_item(out, Item::Space);
    push_item(out, Item::OpenQuote(false));
    push_item(out, Item::Literal(e.module.clone()));
    push_item(out, Item::CloseQuote);
    push_item(out, Item::Literal(";".to_string()));
    assert(toks_of(out@) =~= o + seq![
        Tok::Space,
        Tok::Literal("from"@),
        Tok::Space,
        Tok::OpenQuote(false),
        Tok::Literal(e@.module),
        Tok::CloseQuote,
        Tok::Literal(";"@),
    ]);
}

fn push_module(out: &mut Vec<Item>, e: &Module)
    ensures
        toks_of(final(out)@) == toks_of(old(out)@) + module_toks(e@),
{
    proof {
        e.lemma_view();
    }
    let ghost o = toks_of(out@);
    push_head(out, e);
    let ghost o2 = toks_of(out@);
    if e.named.len() > 0 {
        push_item(out, Item::Literal("{".to_string()));
        push_named_list(out, &e.named);
        push_item(out, Item::Literal("}".to_string()));
        assert(toks_of(out@) =~= o2 + (seq![Tok::Literal("{"@)] + named_list_toks(e@.named)
            + seq![Tok::Literal("}"@)]));
    }
    push_tail(out, e);
    assert(toks_of(out@) =~= o + module_toks(e@));
}

/// A stream of tokens of JavaScript code.
pub type Tokens = crate::tokens::Tokens<JavaScript>;

/// JavaScript language specialization.
#[derive(Debug, Clone, Copy, PartialEq, Eq)]
pub struct JavaScript {
    unit: (),
}

impl Lang for JavaScript {
    open spec fn quoted_text(t: Seq<char>) -> Seq<char> {
        escape(t)
    }

    open spec fn open_quote(has_eval: bool) -> Seq<char> {
        quote_delim(has_eval)
    }

    open spec fn close_quote(has_eval: bool) -> Seq<char> {
        quote_delim(has_eval)
    }

    open spec fn eval_start() -> Seq<char> {
        start_eval()
    }

    open spec fn eval_end() -> Seq<char> {
        end_eval()
    }

    open spec fn eval_literal(t: Seq<char>) -> Seq<char> {
        eval_literal(t)
    }

    open spec fn default_indentation() -> Indentation {
        Indentation::Space(4)
    }

    fn write_quoted(s: &str) -> (r: String) {
        escape_string(s)
    }

    fn open_quote_str(has_eval: bool) -> (r: &'static str) {
        quote_delim_str(has_eval)
    }

    fn close_quote_str(has_eval: bool) -> (r: &'static str) {
        quote_delim_str(has_eval)
    }

    fn eval_start_str() -> (r: &'static str) {
        start_eval_str()
    }

    fn eval_end_str() -> (r: &'static str) {
        end_eval_str()
    }

    fn eval_literal_string(lit: &str) -> (r: String) {
        eval_literal_string(lit)
    }

    fn indentation() -> (r: Indentation) {
        Indentation::Space(4)
    }
}

impl JavaScript {
    /// Translate the imports of `tokens` into import statements, followed
    /// by an empty line where there are any, added to `output`.
    pub(crate) fn imports(imports: &Vec<TypeEnum>, output: &mut Vec<Item>) -> (r: Result<(), Error>)
        ensures
            r is Ok <==> conflict_free(items_view(imports@)),
            r is Ok ==> collated(items_view(imports@), collation(items_view(imports@))),
            r is Ok ==> toks_of(final(output)@) == toks_of(old(output)@) + file_toks(
                collation(items_view(imports@)),
                Seq::empty(),
            ),
            r is Err ==> reports_conflict(items_view(imports@), r->Err_0),
    {
        let mods = match collate(imports) {
            Ok(m) => m,
            Err(e) => {
                return Err(e);
            },
        };
        let ghost p = items_view(imports@);
        let ghost ms = mods_view(mods@);
        proof {
            lemma_collation_order_independent(p, p, ms, collation(p));
        }
        let ghost o = toks_of(output@);
        let mut i: usize = 0;
        while i < mods.len()
            invariant
                ms == mods_view(mods@),
                i <= mods@.len(),
                toks_of(output@) == o + preamble_toks(ms.take(i as int)),
            decreases mods@.len() - i,
        {
            push_module(output, &mods[i]);
            proof {
                assert(ms.take(i + 1).drop_last() =~= ms.take(i as int));
                assert(toks_of(output@) =~= o + preamble_toks(ms.take(i + 1)));
            }
            i = i + 1;
        }
        assert(ms.take(mods@.len() as int) =~= ms);
        if mods.len() > 0 {
            push_item(output, Item::Line);
            assert(toks_of(output@) =~= o + file_toks(ms, Seq::empty()));
        } else {
            assert(toks_of(output@) =~= o + file_toks(ms, Seq::empty()));
        }
        Ok(())
    }
}

} // verus!

verus! {

/// A stream without imports has an empty collation, and renders as a file
/// exactly as it renders alone: no import statements, no empty line.
pub proof fn lemma_no_imports(p: Seq<TypeView>, body: Seq<Tok>)
    requires
        p.len() == 0,
    ensures
        conflict_free(p),
        collated(p, collation(p)),
        collation(p) == Seq::<ModuleView>::empty(),
        file_toks(collation(p), body) == body,
{
    let e = Seq::<ModuleView>::empty();
    assert(module_names(e) =~= Seq::<Seq<char>>::empty());
    assert(module_names(e).to_set() =~= Set::<Seq<char>>::empty());
    assert(modules_of(p) == Set::<Seq<char>>::empty());
    assert(collated(p, e));
    assert(collated(p, collation(p)));
    lemma_collation_order_independent(p, p, e, collation(p));
}

} // verus!
