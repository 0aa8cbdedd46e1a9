//! A stream of tokens, and the structural guarantees that it keeps as items
//! are added to it.

use vstd::prelude::*;
use crate::fmt::{
    effective_indent, fresh, indentation_out, join_lines, lines_of, room, Error, Formatter,
    Indentation, Out,
};
use crate::frames::MAX_FRAMES;
use crate::js::{
    collated, collation, conflict_free, file_toks, lemma_collation_order_independent,
    lemma_no_imports, is_import, items_view, reports_conflict, Import,
    ImportDefault, JavaScript, Local, TypeEnum, TypeView,
};
use crate::lang::Lang;
use core::marker::PhantomData;
use crate::render::{
    base_frame, lemma_run_out, lemma_run_registered, lemma_run_trailing_layout, render,
    render_items, render_out, same_but_registered, same_lines,
};

verus! {

/// A single item in a stream of tokens.
#[derive(Debug, Clone, PartialEq, Eq)]
pub enum Item {
    /// A literal text segment, escaped when it stands inside a quoted string.
    Literal(String),
    /// Open a quoted string; the flag says whether it holds interpolation.
    OpenQuote(bool),
    /// Close the quoted string that is open.
    CloseQuote,
    /// A single space between two tokens.
    Space,
    /// Move whatever follows onto a new line.
    Push,
    /// Separate whatever follows from what precedes by one empty line.
    Line,
    /// Change the indentation by the given, never zero, amount.
    Indentation(i16),
    /// Start an interpolated expression inside a quoted string.
    OpenEval,
    /// End an interpolated expression.
    CloseEval,
    /// A language item, rendered in place.
    LangBox(TypeEnum),
    /// A language item that is never rendered, only collected as an import.
    Registered(TypeEnum),
}

/// The view of an item.
pub enum Tok {
    Literal(Seq<char>),
    OpenQuote(bool),
    CloseQuote,
    Space,
    Push,
    Line,
    Indentation(int),
    OpenEval,
    CloseEval,
    LangBox(TypeView),
    Registered(TypeView),
}

impl View for Item {
    type V = Tok;

    open spec fn view(&self) -> Tok {
        match self {
            Item::Literal(s) => Tok::Literal(s@),
            Item::OpenQuote(e) => Tok::OpenQuote(*e),
            Item::CloseQuote => Tok::CloseQuote,
            Item::Space => Tok::Space,
            Item::Push => Tok::Push,
            Item::Line => Tok::Line,
            Item::Indentation(n) => Tok::Indentation(*n as int),
            Item::OpenEval => Tok::OpenEval,
            Item::CloseEval => Tok::CloseEval,
            Item::LangBox(x) => Tok::LangBox(x@),
            Item::Registered(x) => Tok::Registered(x@),
        }
    }
}

/// The views of a sequence of items.
pub open spec fn toks_of(v: Seq<Item>) -> Seq<Tok> {
    v.map_values(|x: Item| x@)
}

/// The language items of a stream that name imports, in order, whether
/// rendered in place or only registered.
pub open spec fn imports_of(s: Seq<Tok>) -> Seq<TypeView>
    decreases s.len(),
{
    if s.len() == 0 {
        Seq::empty()
    } else {
        let r = imports_of(s.drop_last());
        match s.last() {
            Tok::LangBox(x) => if is_import(x) {
                r.push(x)
            } else {
                r
            },
            Tok::Registered(x) => if is_import(x) {
                r.push(x)
            } else {
                r
            },
            _ => r,
        }
    }
}

/// Whether an item is a line break, of either kind.
pub open spec fn is_break(t: Tok) -> bool {
    t is Push || t is Line
}

/// Two items that may follow each other in a stream: no two spaces, no two
/// line breaks of any kind, no two indentations.
pub open spec fn adjacent_ok(a: Tok, b: Tok) -> bool {
    &&& !(a is Space && b is Space)
    &&& !(is_break(a) && is_break(b))
    &&& !(a is Indentation && b is Indentation)
}

/// The pair at position `i` and `i + 1` may follow each other.
pub open spec fn adjacent_at(s: Seq<Tok>, i: int) -> bool {
    adjacent_ok(s[i], s[i + 1])
}

/// An item that may stand in a stream: an indentation is never zero and
/// fits in an `i16`.
pub open spec fn item_ok(t: Tok) -> bool {
    t is Indentation ==> t->Indentation_0 != 0 && i16::MIN <= t->Indentation_0 <= i16::MAX
}

/// The structural guarantees of a stream of tokens.
pub open spec fn stream_wf(s: Seq<Tok>) -> bool {
    &&& forall|i: int| 0 <= i < s.len() ==> #[trigger] item_ok(s[i])
    &&& forall|i: int| 0 <= i && i + 1 < s.len() ==> #[trigger] adjacent_at(s, i)
}

/// The indentation delta at the end of a stream, zero where it ends in
/// anything else.
pub open spec fn trailing_indent(s: Seq<Tok>) -> int {
    if s.len() > 0 && s.last() is Indentation {
        s.last()->Indentation_0
    } else {
        0
    }
}

/// A stream without its trailing indentation, if any.
pub open spec fn strip_indent(s: Seq<Tok>) -> Seq<Tok> {
    if s.len() > 0 && s.last() is Indentation {
        s.drop_last()
    } else {
        s
    }
}

/// A space added to a stream: ignored after another space.
pub open spec fn space_items(s: Seq<Tok>) -> Seq<Tok> {
    if s.len() > 0 && s.last() is Space {
        s
    } else {
        s.push(Tok::Space)
    }
}

/// A push added to a stream: ignored after a push or a line.
pub open spec fn push_items(s: Seq<Tok>) -> Seq<Tok> {
    if s.len() > 0 && is_break(s.last()) {
        s
    } else {
        s.push(Tok::Push)
    }
}

/// A line added to a stream: it takes the place of a push or a line at the
/// end.
pub open spec fn line_items(s: Seq<Tok>) -> Seq<Tok> {
    if s.len() > 0 && is_break(s.last()) {
        s.drop_last().push(Tok::Line)
    } else {
        s.push(Tok::Line)
    }
}

/// An indentation change `d` added to a stream: it is summed with an
/// indentation at the end, and a sum of zero leaves no indentation item.
pub open spec fn indent_items(s: Seq<Tok>, d: int) -> Seq<Tok> {
    let n = trailing_indent(s) + d;
    if n == 0 {
        strip_indent(s)
    } else {
        strip_indent(s).push(Tok::Indentation(n))
    }
}

/// An indentation change `d` can be added without leaving `i16`.
pub open spec fn indent_fits(s: Seq<Tok>, d: int) -> bool {
    i16::MIN <= trailing_indent(s) + d <= i16::MAX
}

/// One item added to a stream, keeping its structural guarantees.
pub open spec fn item_items(s: Seq<Tok>, t: Tok) -> Seq<Tok> {
    match t {
        Tok::Push => push_items(s),
        Tok::Line => line_items(s),
        Tok::Space => space_items(s),
        Tok::Indentation(n) => indent_items(s, n),
        _ => s.push(t),
    }
}

/// The item can be added to the stream without an indentation overflowing.
pub open spec fn item_fits(s: Seq<Tok>, t: Tok) -> bool {
    t is Indentation ==> indent_fits(s, t->Indentation_0)
}

/// The items of `t` added one by one to `s`.
pub open spec fn extend_items(s: Seq<Tok>, t: Seq<Tok>) -> Seq<Tok>
    decreases t.len(),
{
    if t.len() == 0 {
        s
    } else {
        item_items(extend_items(s, t.drop_last()), t.last())
    }
}

/// Every item of `t` can be added in turn without an indentation overflowing.
pub open spec fn extend_fits(s: Seq<Tok>, t: Seq<Tok>) -> bool
    decreases t.len(),
{
    t.len() == 0 || (extend_fits(s, t.drop_last()) && item_fits(
        extend_items(s, t.drop_last()),
        t.last(),
    ))
}

/// Adding an item keeps the structural guarantees.
pub proof fn lemma_item_wf(s: Seq<Tok>, t: Tok)
    requires
        stream_wf(s),
        item_fits(s, t),
    ensures
        stream_wf(item_items(s, t)),
{
    let r = item_items(s, t);
    let p = strip_indent(s);
    assert(stream_wf(p)) by {
        assert forall|i: int| 0 <= i && i + 1 < p.len() implies #[trigger] adjacent_at(p, i) by {
            assert(adjacent_at(s, i));
        }
        assert forall|i: int| 0 <= i < p.len() implies #[trigger] item_ok(p[i]) by {
            assert(item_ok(s[i]));
        }
    }
    let d = s.drop_last();
    if s.len() > 0 {
        assert forall|i: int| 0 <= i && i + 1 < d.len() implies #[trigger] adjacent_at(d, i) by {
            assert(adjacent_at(s, i));
        }
        assert forall|i: int| 0 <= i < d.len() implies #[trigger] item_ok(d[i]) by {
            assert(item_ok(s[i]));
        }
    }
    if s.len() > 1 {
        assert(adjacent_at(s, s.len() - 2));
    }
    assert forall|i: int| 0 <= i && i + 1 < r.len() implies #[trigger] adjacent_at(r, i) by {
        if i + 2 < r.len() || r.len() <= s.len() {
            if r.len() <= s.len() && r.len() == s.len() && !(r =~= s) {
                assert(adjacent_at(d, i) || i + 2 == r.len());
                if i + 2 < r.len() {
                    assert(adjacent_at(s, i));
                }
            } else if r =~= s || r =~= p {
                assert(adjacent_at(s, i));
            } else {
                assert(adjacent_at(s, i));
            }
        }
    }
    assert forall|i: int| 0 <= i < r.len() implies #[trigger] item_ok(r[i]) by {
        if i < s.len() {
            assert(item_ok(s[i]));
        }
    }
}

/// An ordered stream of tokens that keeps these structural guarantees:
///
/// * no two spaces follow each other;
/// * no two line breaks (pushes or lines) follow each other: a second push
///   is absorbed, and a line takes the place of a push or line before it;
/// * no two indentation changes follow each other: they are summed, and an
///   indentation that sums to zero is removed.
#[derive(Debug)]
pub struct Tokens<L: Lang> {
    items: Vec<Item>,
    lang: PhantomData<L>,
}

impl<L: Lang> View for Tokens<L> {
    type V = Seq<Tok>;

    closed spec fn view(&self) -> Seq<Tok> {
        toks_of(self.items@)
    }
}

impl<L: Lang> Tokens<L> {
    /// The structural guarantees hold of the stream.
    pub open spec fn wf(&self) -> bool {
        stream_wf(self@)
    }

    proof fn lemma_view_push(v: Seq<Item>, x: Item)
        ensures
            v.push(x).map_values(|x: Item| x@) == v.map_values(|x: Item| x@).push(x@),
    {
        assert(v.push(x).map_values(|x: Item| x@) =~= v.map_values(|x: Item| x@).push(x@));
    }

    proof fn lemma_view_drop_last(v: Seq<Item>)
        requires
            v.len() > 0,
        ensures
            v.drop_last().map_values(|x: Item| x@) == v.map_values(|x: Item| x@).drop_last(),
    {
        assert(v.drop_last().map_values(|x: Item| x@) =~= v.map_values(|x: Item| x@).drop_last());
    }

    /// Create a new empty stream of tokens.
    pub fn new() -> (r: Self)
        ensures
            r.wf(),
            r@ == Seq::<Tok>::empty(),
    {
        let r = Tokens { items: Vec::new(), lang: PhantomData };
        assert(r@ =~= Seq::<Tok>::empty());
        r
    }

    /// Create a new empty stream of tokens with room for `cap` items.
    pub fn with_capacity(cap: usize) -> (r: Self)
        ensures
            r.wf(),
            r@ == Seq::<Tok>::empty(),
    {
        let r = Tokens { items: Vec::with_capacity(cap), lang: PhantomData };
        assert(r@ =~= Seq::<Tok>::empty());
        r
    }

    /// Whether the stream holds no items.
    pub fn is_empty(&self) -> (r: bool)
        ensures
            r == (self@.len() == 0),
    {
        self.items.len() == 0
    }

    /// The number of items in the stream.
    pub fn len(&self) -> (r: usize)
        ensures
            r == self@.len(),
    {
        self.items.len()
    }

    fn push_raw(&mut self, x: Item)
        ensures
            final(self)@ == old(self)@.push(x@),
    {
        proof {
            Self::lemma_view_push(self.items@, x);
        }
        self.items.push(x);
    }

    fn pop_raw(&mut self)
        requires
            old(self)@.len() > 0,
        ensures
            final(self)@ == old(self)@.drop_last(),
    {
        proof {
            Self::lemma_view_drop_last(self.items@);
        }
        self.items.pop();
    }

    /// Add a single space. Ignored if the stream already ends in a space.
    pub fn space(&mut self)
        requires
            old(self).wf(),
        ensures
            final(self).wf(),
            final(self)@ == space_items(old(self)@),
    {
        proof {
            lemma_item_wf(self@, Tok::Space);
        }
        let n = self.items.len();
        if n > 0 {
            if let Item::Space = self.items[n - 1] {
                return;
            }
        }
        self.push_raw(Item::Space);
    }

    /// Add a single push: what follows goes onto a line of its own. Ignored
    /// if the stream already ends in a push or a line.
    pub fn push(&mut self)
        requires
            old(self).wf(),
        ensures
            final(self).wf(),
            final(self)@ == push_items(old(self)@),
    {
        proof {
            lemma_item_wf(self@, Tok::Push);
        }
        let n = self.items.len();
        if n > 0 {
            match self.items[n - 1] {
                Item::Push | Item::Line => return,
                _ => {},
            }
        }
        self.push_raw(Item::Push);
    }

    /// Add a single line: what follows is separated from what precedes by
    /// one empty line. It takes the place of a push or line at the end.
    pub fn line(&mut self)
        requires
            old(self).wf(),
        ensures
            final(self).wf(),
            final(self)@ == line_items(old(self)@),
    {
        proof {
            lemma_item_wf(self@, Tok::Line);
        }
        let n = self.items.len();
        if n > 0 {
            match self.items[n - 1] {
                Item::Push | Item::Line => {
                    self.pop_raw();
                },
                _ => {},
            }
        }
        self.push_raw(Item::Line);
    }

    /// Change the indentation by `d`, summing it with an indentation change
    /// at the end of the stream.
    fn indent_by(&mut self, d: i16)
        requires
            old(self).wf(),
            indent_fits(old(self)@, d as int),
        ensures
            final(self).wf(),
            final(self)@ == indent_items(old(self)@, d as int),
    {
        proof {
            lemma_item_wf(self@, Tok::Indentation(d as int));
        }
        let n = self.items.len();
        let mut cur: i16 = 0;
        if n > 0 {
            if let Item::Indentation(level) = self.items[n - 1] {
                cur = level;
                self.pop_raw();
            }
        }
        let sum: i16 = cur + d;
        if sum != 0 {
            self.push_raw(Item::Indentation(sum));
        }
    }

    /// Increase the indentation by one level.
    pub fn indent(&mut self)
        requires
            old(self).wf(),
            indent_fits(old(self)@, 1),
        ensures
            final(self).wf(),
            final(self)@ == indent_items(old(self)@, 1),
    {
        self.indent_by(1);
    }

    /// Decrease the indentation by one level. The delta is kept even where
    /// it goes below zero: only the printed indentation is clamped at zero.
    pub fn unindent(&mut self)
        requires
            old(self).wf(),
            indent_fits(old(self)@, -1),
        ensures
            final(self).wf(),
            final(self)@ == indent_items(old(self)@, -1),
    {
        self.indent_by(-1);
    }

    /// Add one item, keeping the structural guarantees.
    pub fn item(&mut self, item: Item)
        requires
            old(self).wf(),
            item_fits(old(self)@, item@),
        ensures
            final(self).wf(),
            final(self)@ == item_items(old(self)@, item@),
    {
        proof {
            lemma_item_wf(self@, item@);
        }
        match item {
            Item::Push => self.push(),
            Item::Line => self.line(),
            Item::Space => self.space(),
            Item::Indentation(n) => self.indent_by(n),
            other => self.push_raw(other),
        }
    }

    /// Add a literal text segment.
    pub fn literal(&mut self, s: &str)
        requires
            old(self).wf(),
        ensures
            final(self).wf(),
            final(self)@ == old(self)@.push(Tok::Literal(s@)),
    {
        self.item(Item::Literal(s.to_string()));
    }

    /// Add a quoted string literal: the text between an opening quote without
    /// interpolation and a closing quote.
    pub fn quoted(&mut self, s: &str)
        requires
            old(self).wf(),
        ensures
            final(self).wf(),
            final(self)@ == old(self)@.push(Tok::OpenQuote(false)).push(Tok::Literal(s@)).push(
                Tok::CloseQuote,
            ),
    {
        self.item(Item::OpenQuote(false));
        self.item(Item::Literal(s.to_string()));
        self.item(Item::CloseQuote);
    }

    /// Register a language item: it is collected as an import, never
    /// rendered.
    pub fn register(&mut self, x: TypeEnum)
        requires
            old(self).wf(),
        ensures
            final(self).wf(),
            final(self)@ == old(self)@.push(Tok::Registered(x@)),
    {
        self.item(Item::Registered(x));
    }

    /// Add every item of `it` in turn, keeping the structural guarantees.
    pub fn extend(&mut self, it: Vec<Item>)
        requires
            old(self).wf(),
            extend_fits(old(self)@, toks_of(it@)),
        ensures
            final(self).wf(),
            final(self)@ == extend_items(old(self)@, toks_of(it@)),
    {
        let ghost s0 = self@;
        let ghost t = toks_of(it@);
        let mut i: usize = 0;
        let n = it.len();
        let mut src = it;
        let mut it: Vec<Item> = Vec::new();
        while src.len() > 0
            invariant
                n == t.len(),
                src@.len() + it@.len() == n,
                forall|j: int| 0 <= j < src@.len() ==> (#[trigger] src@[j])@ == t[j],
                forall|j: int| 0 <= j < it@.len() ==> (#[trigger] it@[j])@ == t[n - 1 - j],
            decreases src@.len(),
        {
            let x = src.pop().unwrap();
            it.push(x);
        }
        while i < n
            invariant
                0 <= i <= n,
                n == t.len(),
                it@.len() == n - i,
                forall|j: int| 0 <= j < n - i ==> (#[trigger] it@[j])@ == t[n - 1 - j],
                self.wf(),
                self@ == extend_items(s0, t.take(i as int)),
                extend_fits(s0, t),
            decreases n - i,
        {
            let x = it.pop().unwrap();
            proof {
                assert(t.take(i + 1).drop_last() =~= t.take(i as int));
                assert(x@ == t[i as int]);
                lemma_extend_fits_prefix(s0, t, i + 1);
            }
            self.item(x);
            i = i + 1;
        }
        assert(t.take(n as int) =~= t);
    }
}

/// Each prefix of a sequence that fits, fits.
pub proof fn lemma_extend_fits_prefix(s: Seq<Tok>, t: Seq<Tok>, k: int)
    requires
        extend_fits(s, t),
        0 < k <= t.len(),
    ensures
        extend_fits(s, t.take(k - 1)),
        item_fits(extend_items(s, t.take(k - 1)), t[k - 1]),
    decreases t.len(),
{
    if k < t.len() {
        assert(t.drop_last().take(k - 1) =~= t.take(k - 1));
        assert(t.drop_last()[k - 1] == t[k - 1]);
        lemma_extend_fits_prefix(s, t.drop_last(), k);
    } else {
        assert(t.take(k - 1) =~= t.drop_last());
    }
}

} // verus!

verus! {

impl Item {
    /// A copy of the item.
    pub fn duplicate(&self) -> (r: Item)
        ensures
            r@ == self@,
    {
        match self {
            Item::Literal(s) => Item::Literal(s.clone()),
            Item::OpenQuote(e) => Item::OpenQuote(*e),
            Item::CloseQuote => Item::CloseQuote,
            Item::Space => Item::Space,
            Item::Push => Item::Push,
            Item::Line => Item::Line,
            Item::Indentation(n) => Item::Indentation(*n),
            Item::OpenEval => Item::OpenEval,
            Item::CloseEval => Item::CloseEval,
            Item::LangBox(x) => Item::LangBox(x.duplicate()),
            Item::Registered(x) => Item::Registered(x.duplicate()),
        }
    }
}

/// The rendering of a file fits the machine: its items stay below the bound
/// of the frame stack and the sink's counters cannot overflow.
pub open spec fn file_fits(s: Seq<Tok>, o: Out) -> bool {
    conflict_free(imports_of(s)) ==> {
        let f = file_toks(collation(imports_of(s)), s);
        f.len() < MAX_FRAMES && room(o, f.len() as int)
    }
}

/// What rendering `s` as a file into a sink in state `o` gives: on a
/// conflict among the default imports, that error and the sink untouched;
/// otherwise the rendering of the import statements and the stream, the
/// sink as it is left at the end or at a formatting fault.
pub open spec fn file_result<T>(s: Seq<Tok>, o: Out, r: Result<T, Error>, fin: Out) -> bool {
    let p = imports_of(s);
    &&& !conflict_free(p) ==> r is Err && reports_conflict(p, r->Err_0) && fin == o
    &&& conflict_free(p) ==> fin == render_out::<JavaScript>(file_toks(collation(p), s), o)
    &&& conflict_free(p) ==> collated(p, collation(p))
    &&& conflict_free(p) ==> match render::<JavaScript>(file_toks(collation(p), s), o) {
        Some(f) => r is Ok && fin == f,
        None => r is Err && r->Err_0 is Format,
    }
}

impl<L: Lang> Tokens<L> {
    /// The language items that name imports, in the order they stand, both
    /// those rendered in place and those only registered.
    pub fn walk_imports(&self) -> (r: Vec<TypeEnum>)
        ensures
            items_view(r@) == imports_of(self@),
    {
        let mut r: Vec<TypeEnum> = Vec::new();
        let n = self.items.len();
        let mut i: usize = 0;
        while i < n
            invariant
                n == self.items@.len(),
                i <= n,
                items_view(r@) == imports_of(toks_of(self.items@).take(i as int)),
            decreases n - i,
        {
            let ghost s = toks_of(self.items@);
            proof {
                assert(s.take(i + 1).drop_last() =~= s.take(i as int));
                assert(s.take(i + 1).last() == self.items@[i as int]@);
            }
            match &self.items[i] {
                Item::LangBox(x) => {
                    if x.as_import() {
                        r.push(x.duplicate());
                    }
                },
                Item::Registered(x) => {
                    if x.as_import() {
                        r.push(x.duplicate());
                    }
                },
                _ => {},
            }
            assert(items_view(r@) =~= imports_of(s.take(i + 1)));
            i = i + 1;
        }
        assert(toks_of(self.items@).take(n as int) =~= toks_of(self.items@));
        r
    }

    /// Render the stream to a sink, without imports. On a formatting fault
    /// (a quote or interpolation out of place) the pass stops; what was
    /// written stays written.
    pub fn format(&self, out: &mut Formatter) -> (r: Result<(), Error>)
        requires
            self@.len() < MAX_FRAMES,
            room(old(out)@, self@.len() as int),
        ensures
            match render::<L>(self@, old(out)@) {
                Some(o) => r is Ok && final(out)@ == o,
                None => r is Err && r->Err_0 is Format,
            },
            final(out)@ == render_out::<L>(self@, old(out)@),
    {
        proof {
            lemma_run_out::<L>(self@, 0, old(out)@, seq![base_frame()]);
        }
        match render_items::<L>(&self.items, out) {
            Ok(()) => Ok(()),
            Err(()) => Err(Error::Format),
        }
    }

    /// Render the stream, without imports, to a string, with JavaScript's
    /// indentation.
    pub fn to_string(self) -> (r: Result<String, Error>)
        requires
            self@.len() < MAX_FRAMES,
        ensures
            match render::<L>(self@, fresh(L::default_indentation())) {
                Some(o) => r is Ok && r->Ok_0@ == join_lines(lines_of(o)),
                None => r is Err && r->Err_0 is Format,
            },
    {
        let mut f = Formatter::new(L::indentation());
        match self.format(&mut f) {
            Ok(()) => Ok(f.into_string()),
            Err(e) => Err(e),
        }
    }

    /// Render the stream, without imports, to its lines, with JavaScript's
    /// indentation.
    pub fn to_vec(self) -> (r: Result<Vec<String>, Error>)
        requires
            self@.len() < MAX_FRAMES,
        ensures
            match render::<L>(self@, fresh(L::default_indentation())) {
                Some(o) => r is Ok && r->Ok_0@.map_values(|s: String| s@) == lines_of(o),
                None => r is Err && r->Err_0 is Format,
            },
    {
        let mut f = Formatter::new(L::indentation());
        match self.format(&mut f) {
            Ok(()) => Ok(f.into_vec()),
            Err(e) => Err(e),
        }
    }


}

impl Tokens<JavaScript> {
    /// Render the stream as a file: the import statements that its imports
    /// collate to, an empty line where there are any, then the stream.
    pub fn format_file(&self, out: &mut Formatter) -> (r: Result<(), Error>)
        requires
            file_fits(self@, old(out)@),
        ensures
            file_result(self@, old(out)@, r, final(out)@),
    {
        let imports = self.walk_imports();
        let mut items: Vec<Item> = Vec::new();
        let res = JavaScript::imports(&imports, &mut items);
        if let Err(e) = res {
            return Err(e);
        }
        let ghost pre = toks_of(items@);
        let n = self.items.len();
        let mut i: usize = 0;
        while i < n
            invariant
                n == self.items@.len(),
                i <= n,
                toks_of(items@) == pre + toks_of(self.items@).take(i as int),
            decreases n - i,
        {
            let x = self.items[i].duplicate();
            let ghost before = items@;
            items.push(x);
            proof {
                assert(toks_of(items@) =~= toks_of(before).push(x@));
                assert(toks_of(self.items@).take(i + 1) =~= toks_of(self.items@).take(i as int).push(
                    self.items@[i as int]@,
                ));
                assert(toks_of(items@) =~= pre + toks_of(self.items@).take(i + 1));
            }
            i = i + 1;
        }
        assert(toks_of(self.items@).take(n as int) =~= toks_of(self.items@));
        assert(pre =~= Seq::<Tok>::empty() + file_toks(collation(imports_of(self@)), Seq::empty()));
        assert(toks_of(items@) =~= file_toks(collation(imports_of(self@)), self@));
        proof {
            lemma_run_out::<JavaScript>(toks_of(items@), 0, out@, seq![base_frame()]);
        }
        match render_items::<JavaScript>(&items, out) {
            Ok(()) => Ok(()),
            Err(()) => Err(Error::Format),
        }
    }

    /// Render the stream as a file to a string, with JavaScript's
    /// indentation.
    pub fn to_file_string(&self) -> (r: Result<String, Error>)
        requires
            file_fits(self@, fresh(Indentation::Space(4))),
        ensures
            exists|fin: Out| #[trigger]
                file_result(self@, fresh(Indentation::Space(4)), r, fin)
                    && (r is Ok ==> r->Ok_0@ == join_lines(lines_of(fin))),
    {
        let mut f = Formatter::new(<JavaScript as Lang>::indentation());
        match self.format_file(&mut f) {
            Ok(()) => {
                let ghost fin = f@;
                let s = f.into_string();
                assert(file_result(self@, fresh(Indentation::Space(4)), Ok::<String, Error>(s), fin));
                Ok(s)
            },
            Err(e) => {
                let ghost fin = f@;
                assert(file_result(self@, fresh(Indentation::Space(4)), Err::<String, Error>(e), fin));
                Err(e)
            },
        }
    }

    /// Render the stream as a file to its lines, with JavaScript's
    /// indentation.
    pub fn to_file_vec(&self) -> (r: Result<Vec<String>, Error>)
        requires
            file_fits(self@, fresh(Indentation::Space(4))),
        ensures
            exists|fin: Out| #[trigger]
                file_result(self@, fresh(Indentation::Space(4)), r, fin)
                    && (r is Ok ==> r->Ok_0@.map_values(|s: String| s@) == lines_of(fin)),
    {
        let mut f = Formatter::new(<JavaScript as Lang>::indentation());
        match self.format_file(&mut f) {
            Ok(()) => {
                let ghost fin = f@;
                let v = f.into_vec();
                assert(file_result(self@, fresh(Indentation::Space(4)), Ok::<Vec<String>, Error>(v), fin));
                Ok(v)
            },
            Err(e) => {
                let ghost fin = f@;
                assert(file_result(self@, fresh(Indentation::Space(4)), Err::<Vec<String>, Error>(e), fin));
                Err(e)
            },
        }
    }
}

} // verus!

verus! {

/// An operation on streams applied `k` times in a row.
pub open spec fn iterate(f: spec_fn(Seq<Tok>) -> Seq<Tok>, s: Seq<Tok>, k: nat) -> Seq<Tok>
    decreases k,
{
    if k == 0 {
        s
    } else {
        f(iterate(f, s, (k - 1) as nat))
    }
}

/// The space operation, as a function.
pub open spec fn space_fn() -> spec_fn(Seq<Tok>) -> Seq<Tok> {
    |t: Seq<Tok>| space_items(t)
}

/// The push operation, as a function.
pub open spec fn push_fn() -> spec_fn(Seq<Tok>) -> Seq<Tok> {
    |t: Seq<Tok>| push_items(t)
}

/// Any positive number of spaces in a row leaves the stream as one space
/// does, so it renders the same.
pub proof fn lemma_spaces_coalesce<L: Lang>(s: Seq<Tok>, k: nat, o: Out)
    requires
        k >= 1,
    ensures
        iterate(space_fn(), s, k) == space_items(s),
        render::<L>(iterate(space_fn(), s, k), o) == render::<L>(space_items(s), o),
    decreases k,
{
    let once = space_items(s);
    assert(once.len() > 0 && once.last() is Space);
    assert(space_items(once) == once);
    if k > 1 {
        lemma_spaces_coalesce::<L>(s, (k - 1) as nat, o);
    }
    assert(iterate(space_fn(), s, k) == space_fn()(iterate(space_fn(), s, (k - 1) as nat)));
}

/// Any positive number of pushes in a row leaves the stream as one push
/// does, so it renders the same.
pub proof fn lemma_pushes_coalesce<L: Lang>(s: Seq<Tok>, k: nat, o: Out)
    requires
        k >= 1,
    ensures
        iterate(push_fn(), s, k) == push_items(s),
        render::<L>(iterate(push_fn(), s, k), o) == render::<L>(push_items(s), o),
    decreases k,
{
    let once = push_items(s);
    assert(once.len() > 0 && is_break(once.last()));
    assert(push_items(once) == once);
    if k > 1 {
        lemma_pushes_coalesce::<L>(s, (k - 1) as nat, o);
    }
    assert(iterate(push_fn(), s, k) == push_fn()(iterate(push_fn(), s, (k - 1) as nat)));
}

/// Indentation changes compose by their sum: the trailing delta of a stream
/// is the sum of the changes made at its end, whatever its sign, and two
/// changes in a row are one change by their sum. Only the printed
/// indentation is clamped at zero, and the sink sums deltas unclamped.
pub proof fn lemma_indent_compose(s: Seq<Tok>, a: int, b: int, o: Out)
    requires
        stream_wf(s),
    ensures
        trailing_indent(indent_items(s, a)) == trailing_indent(s) + a,
        strip_indent(indent_items(s, a)) == strip_indent(s),
        indent_items(indent_items(s, a), b) == indent_items(s, a + b),
        indentation_out(indentation_out(o, a), b).indent == o.indent + a + b,
        effective_indent(indentation_out(indentation_out(o, a), b)) == if o.indent + a + b > 0 {
            o.indent + a + b
        } else {
            0
        },
{
    let p = strip_indent(s);
    if s.len() > 1 && s.last() is Indentation {
        assert(adjacent_at(s, s.len() - 2));
    }
    assert(!(p.len() > 0 && p.last() is Indentation));
    assert(p.push(Tok::Indentation(trailing_indent(s) + a)).drop_last() =~= p);
}

/// Rendering the same stream twice, from sinks in the same state, gives
/// the same result.
pub proof fn lemma_render_twice<L: Lang>(t1: Tokens<L>, t2: Tokens<L>, o: Out)
    requires
        t1@ == t2@,
    ensures
        render::<L>(t1@, o) == render::<L>(t2@, o),
        render_out::<L>(t1@, o) == render_out::<L>(t2@, o),
        file_toks(collation(imports_of(t1@)), t1@) == file_toks(collation(imports_of(t2@)), t2@),
{
}

} // verus!

verus! {

/// Something that can be added to a stream of tokens, item by item.
pub trait FormatInto: Sized {
    /// The items it adds.
    spec fn toks(&self) -> Seq<Tok>;

    /// Add the items to `tokens`, keeping its structural guarantees.
    fn format_into<L: Lang>(self, tokens: &mut Tokens<L>)
        requires
            old(tokens).wf(),
            extend_fits(old(tokens)@, self.toks()),
        ensures
            final(tokens).wf(),
            final(tokens)@ == extend_items(old(tokens)@, self.toks()),
    ;
}

/// Extending a stream by one item is adding that item.
pub proof fn lemma_extend_one(s: Seq<Tok>, x: Tok)
    ensures
        extend_items(s, seq![x]) == item_items(s, x),
        extend_fits(s, seq![x]) == item_fits(s, x),
{
    let t = seq![x];
    assert(t.drop_last() =~= Seq::<Tok>::empty());
    assert(t.last() == x);
    assert(extend_items(s, Seq::<Tok>::empty()) == s);
    assert(extend_fits(s, Seq::<Tok>::empty()));
    assert(extend_items(s, t) == item_items(extend_items(s, t.drop_last()), t.last()));
}

impl<'a> FormatInto for &'a str {
    open spec fn toks(&self) -> Seq<Tok> {
        seq![Tok::Literal(self@)]
    }

    fn format_into<L: Lang>(self, tokens: &mut Tokens<L>) {
        proof {
            lemma_extend_one(tokens@, Tok::Literal(self@));
        }
        tokens.literal(self);
    }
}

impl FormatInto for String {
    open spec fn toks(&self) -> Seq<Tok> {
        seq![Tok::Literal(self@)]
    }

    fn format_into<L: Lang>(self, tokens: &mut Tokens<L>) {
        proof {
            lemma_extend_one(tokens@, Tok::Literal(self@));
        }
        tokens.item(Item::Literal(self));
    }
}

impl FormatInto for Item {
    open spec fn toks(&self) -> Seq<Tok> {
        seq![self@]
    }

    fn format_into<L: Lang>(self, tokens: &mut Tokens<L>) {
        proof {
            lemma_extend_one(tokens@, self@);
        }
        tokens.item(self);
    }
}

impl FormatInto for TypeEnum {
    open spec fn toks(&self) -> Seq<Tok> {
        seq![Tok::LangBox(self@)]
    }

    fn format_into<L: Lang>(self, tokens: &mut Tokens<L>) {
        proof {
            lemma_extend_one(tokens@, Tok::LangBox(self@));
        }
        tokens.item(Item::LangBox(self));
    }
}

impl FormatInto for Import {
    open spec fn toks(&self) -> Seq<Tok> {
        seq![Tok::LangBox(self@)]
    }

    fn format_into<L: Lang>(self, tokens: &mut Tokens<L>) {
        proof {
            lemma_extend_one(tokens@, Tok::LangBox(self@));
        }
        tokens.item(Item::LangBox(TypeEnum::Import(self)));
    }
}

impl FormatInto for ImportDefault {
    open spec fn toks(&self) -> Seq<Tok> {
        seq![Tok::LangBox(self@)]
    }

    fn format_into<L: Lang>(self, tokens: &mut Tokens<L>) {
        proof {
            lemma_extend_one(tokens@, Tok::LangBox(self@));
        }
        tokens.item(Item::LangBox(TypeEnum::ImportDefault(self)));
    }
}

impl FormatInto for Local {
    open spec fn toks(&self) -> Seq<Tok> {
        seq![Tok::LangBox(self@)]
    }

    fn format_into<L: Lang>(self, tokens: &mut Tokens<L>) {
        proof {
            lemma_extend_one(tokens@, Tok::LangBox(self@));
        }
        tokens.item(Item::LangBox(TypeEnum::Local(self)));
    }
}

impl<M: Lang> FormatInto for Tokens<M> {
    open spec fn toks(&self) -> Seq<Tok> {
        self@
    }

    fn format_into<L: Lang>(self, tokens: &mut Tokens<L>) {
        tokens.extend(self.items);
    }
}

impl<L: Lang> Tokens<L> {
    /// Add anything that can be added: a literal, a language item, an item,
    /// or another stream, item by item.
    pub fn append<T: FormatInto>(&mut self, tokens: T)
        requires
            old(self).wf(),
            extend_fits(old(self)@, tokens.toks()),
        ensures
            final(self).wf(),
            final(self)@ == extend_items(old(self)@, tokens.toks()),
    {
        tokens.format_into(self)
    }

    /// The items of the stream, in order.
    pub fn iter(&self) -> (r: &[Item])
        ensures
            toks_of(r@) == self@,
    {
        self.items.as_slice()
    }

    /// The items of the stream, in order, taken out of it.
    pub fn into_iter(self) -> (r: Vec<Item>)
        ensures
            toks_of(r@) == self@,
    {
        self.items
    }
}

} // verus!

verus! {

/// Rendering a stream without imports as a file writes exactly what
/// rendering it alone writes, with the same outcome.
pub proof fn lemma_file_without_imports(s: Seq<Tok>, o: Out, r1: Result<(), Error>, fin: Out)
    requires
        imports_of(s).len() == 0,
        file_result(s, o, r1, fin),
    ensures
        fin == render_out::<JavaScript>(s, o),
        r1 is Ok <==> render::<JavaScript>(s, o) is Some,
{
    lemma_no_imports(imports_of(s), s);
}

} // verus!

verus! {

/// A push or a line at the end of a stream adds nothing visible to its
/// rendering as a file either: the imports are the same, and the file
/// renders to the same lines, or to the same fault.
pub proof fn lemma_trailing_break_invisible_in_file(s: Seq<Tok>, o: Out)
    ensures
        imports_of(push_items(s)) == imports_of(s),
        imports_of(line_items(s)) == imports_of(s),
        same_lines(
            render::<JavaScript>(file_toks(collation(imports_of(s)), push_items(s)), o),
            render::<JavaScript>(file_toks(collation(imports_of(s)), s), o),
        ),
        same_lines(
            render::<JavaScript>(file_toks(collation(imports_of(s)), line_items(s)), o),
            render::<JavaScript>(file_toks(collation(imports_of(s)), s), o),
        ),
{
    let ms = collation(imports_of(s));
    let base = seq![base_frame()];
    if !(s.len() > 0 && is_break(s.last())) {
        assert(s.push(Tok::Push).drop_last() =~= s);
        assert(s.push(Tok::Line).drop_last() =~= s);
        assert(file_toks(ms, s.push(Tok::Push)) =~= file_toks(ms, s).push(Tok::Push));
        assert(file_toks(ms, s.push(Tok::Line)) =~= file_toks(ms, s).push(Tok::Line));
        lemma_run_trailing_layout::<JavaScript>(file_toks(ms, s), Tok::Push, 0, o, base);
        lemma_run_trailing_layout::<JavaScript>(file_toks(ms, s), Tok::Line, 0, o, base);
    } else {
        let d = s.drop_last();
        assert(d.push(s.last()) =~= s);
        assert(d.push(Tok::Line).drop_last() =~= d);
        assert(imports_of(s) == imports_of(d));
        assert(imports_of(d.push(Tok::Line)) == imports_of(d));
        assert(file_toks(ms, d.push(Tok::Line)) =~= file_toks(ms, d).push(Tok::Line));
        assert(file_toks(ms, s) =~= file_toks(ms, d).push(s.last()));
        lemma_run_trailing_layout::<JavaScript>(file_toks(ms, d), Tok::Line, 0, o, base);
        lemma_run_trailing_layout::<JavaScript>(file_toks(ms, d), s.last(), 0, o, base);
    }
}

} // verus!

verus! {

/// Import rendering does not depend on the order in which imports were
/// registered: two streams that differ only in which import each registered
/// item holds, and that hold the same imports overall, render as files to
/// the same text, or to the same fault.
pub proof fn lemma_file_order_independent(a: Seq<Tok>, b: Seq<Tok>, o: Out)
    requires
        same_but_registered(a, b),
        imports_of(a).to_set() == imports_of(b).to_set(),
        collated(imports_of(a), collation(imports_of(a))),
        collated(imports_of(b), collation(imports_of(b))),
    ensures
        conflict_free(imports_of(a)) == conflict_free(imports_of(b)),
        render::<JavaScript>(file_toks(collation(imports_of(a)), a), o) == render::<JavaScript>(
            file_toks(collation(imports_of(b)), b),
            o,
        ),
        render_out::<JavaScript>(file_toks(collation(imports_of(a)), a), o) == render_out::<JavaScript>(
            file_toks(collation(imports_of(b)), b),
            o,
        ),
{
    let ms = collation(imports_of(a));
    lemma_collation_order_independent(imports_of(a), imports_of(b), ms, collation(imports_of(b)));
    let fa = file_toks(ms, a);
    let fb = file_toks(ms, b);
    assert(same_but_registered(fa, fb)) by {
        assert forall|i: int| 0 <= i < fa.len() implies (#[trigger] fa[i] is Registered
            && fb[i] is Registered) || fa[i] == fb[i] by {
            let k = fa.len() - a.len();
            if i >= k {
                assert(fa[i] == a[i - k] && fb[i] == b[i - k]);
                assert((a[i - k] is Registered && b[i - k] is Registered) || a[i - k] == b[i - k]);
            }
        }
    }
    lemma_run_registered::<JavaScript>(fa, fb, 0, o, seq![base_frame()]);
}

} // verus!
