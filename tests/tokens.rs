use genco::js::{import, import_default, local, quote_string, Tokens, TypeEnum};
use genco::{Error, Formatter, Indentation, Item};

fn render_with(toks: &Tokens, ind: Indentation) -> String {
    let mut f = Formatter::new(ind);
    toks.format(&mut f).unwrap();
    f.into_string()
}

#[test]
fn test_nested() {
    let mut toks = Tokens::new();
    toks.push();
    toks.append("fn foo() -> u32 {");
    toks.indent();
    toks.append("return 42;");
    toks.unindent();
    toks.push();
    toks.append("}");

    let output = render_with(&toks, Indentation::Space(2));
    assert_eq!("fn foo() -> u32 {\n  return 42;\n}", output.as_str());
}

#[test]
fn test_walk_custom() {
    let mut inner = Tokens::new();
    inner.append("3:1");
    inner.space();
    inner.append("3:2");

    let mut toks = Tokens::new();
    toks.append("1:1");
    toks.space();
    toks.append(import("m", "1"));
    toks.space();
    toks.append("1:2");
    toks.push();
    toks.append("bar");
    toks.push();
    toks.append("2:1");
    toks.space();
    toks.append("2:2");
    toks.space();
    toks.append(inner);
    toks.space();
    toks.append(import("m", "2"));
    toks.push();
    toks.append(String::from("nope"));

    let output: Vec<TypeEnum> = toks.walk_imports();
    let expected = vec![
        TypeEnum::Import(import("m", "1")),
        TypeEnum::Import(import("m", "2")),
    ];

    assert_eq!(expected, output);
}

#[test]
fn walk_imports_skips_locals_and_keeps_registered() {
    let mut toks = Tokens::new();
    toks.append(local("x"));
    toks.register(TypeEnum::ImportDefault(import_default("a", "A")));
    toks.append(import("b", "c"));
    let output = toks.walk_imports();
    assert_eq!(
        vec![
            TypeEnum::ImportDefault(import_default("a", "A")),
            TypeEnum::Import(import("b", "c")),
        ],
        output
    );
}

#[test]
fn spaces_collapse() {
    let mut toks = Tokens::new();
    toks.append("foo");
    toks.space();
    toks.append("bar");
    toks.space();
    toks.space();
    toks.append("baz");
    assert_eq!("foo bar baz", toks.to_string().unwrap());
}

#[test]
fn repeated_spaces_store_one_item() {
    let mut toks = Tokens::new();
    toks.append("a");
    toks.space();
    toks.space();
    toks.space();
    assert_eq!(2, toks.len());
}

#[test]
fn leading_and_trailing_spaces() {
    let mut toks = Tokens::new();
    toks.space();
    toks.append("hello");
    toks.space();
    toks.space();
    toks.append("world");
    toks.space();
    assert_eq!(vec![" hello world"], toks.to_file_vec().unwrap());
}

#[test]
fn pushes_give_lines() {
    let mut toks = Tokens::new();
    toks.push();
    toks.append("hello");
    toks.push();
    toks.append("world");
    toks.push();
    assert_eq!(vec!["hello", "world"], toks.to_file_vec().unwrap());
}

#[test]
fn repeated_pushes_store_one_item() {
    let mut toks = Tokens::new();
    toks.append("a");
    toks.push();
    toks.push();
    toks.push();
    assert_eq!(2, toks.len());
    assert_eq!("a", toks.to_string().unwrap());
}

#[test]
fn lines_give_empty_lines() {
    let mut toks = Tokens::new();
    toks.line();
    toks.append("hello");
    toks.line();
    toks.append("world");
    toks.line();
    assert_eq!(vec!["hello", "", "world"], toks.to_file_vec().unwrap());
}

#[test]
fn line_takes_the_place_of_push() {
    let mut toks = Tokens::new();
    toks.append("a");
    toks.push();
    toks.line();
    toks.push();
    assert_eq!(2, toks.len());
    toks.append("b");
    assert_eq!(vec!["a", "", "b"], toks.to_vec().unwrap());
}

#[test]
fn trailing_push_and_line_are_invisible() {
    let mut a = Tokens::new();
    a.append("x");
    let mut b = Tokens::new();
    b.append("x");
    b.push();
    let mut c = Tokens::new();
    c.append("x");
    c.line();
    assert_eq!(a.to_string().unwrap(), "x");
    assert_eq!(b.to_string().unwrap(), "x");
    assert_eq!(c.to_string().unwrap(), "x");
}

#[test]
fn indentation_levels() {
    let mut toks = Tokens::new();
    toks.indent();
    toks.append("hello");
    toks.indent();
    toks.append("world");
    toks.indent();
    toks.append("😀");
    assert_eq!(
        vec!["    hello", "        world", "            😀"],
        toks.to_file_vec().unwrap()
    );
}

#[test]
fn indentation_is_clamped_only_when_printed() {
    let mut toks = Tokens::new();
    toks.indent();
    toks.append("hello");
    toks.unindent();
    toks.append("world");
    toks.unindent();
    toks.append("x");
    toks.indent();
    toks.append("y");
    toks.indent();
    toks.append("z");
    assert_eq!(
        vec!["    hello", "world", "x", "y", "    z"],
        toks.to_file_vec().unwrap()
    );
}

#[test]
fn indent_then_unindent_cancels() {
    let mut toks = Tokens::new();
    toks.append("a");
    toks.indent();
    toks.indent();
    toks.unindent();
    toks.unindent();
    assert_eq!(1, toks.len());
    toks.unindent();
    toks.unindent();
    assert_eq!(2, toks.len());
    let items = toks.into_iter();
    assert_eq!(Item::Indentation(-2), items[1]);
}

#[test]
fn tab_indentation() {
    let mut toks = Tokens::new();
    toks.append("a");
    toks.indent();
    toks.append("b");
    assert_eq!("a\n\tb", render_with(&toks, Indentation::Tab));
}

#[test]
fn empty_tokens() {
    let toks = Tokens::new();
    assert!(toks.is_empty());
    assert_eq!("", toks.to_file_string().unwrap());
    assert_eq!(vec![""], toks.to_file_vec().unwrap());
    let toks = Tokens::with_capacity(10);
    assert!(toks.is_empty());
}

#[test]
fn quoted_strings_are_escaped() {
    let mut toks = Tokens::new();
    toks.quoted("hello \n world");
    assert_eq!("\"hello \\n world\"", toks.to_string().unwrap());
}

#[test]
fn every_escape() {
    let mut toks = Tokens::new();
    toks.quoted("\t\u{0008}\n\r\u{000C}'\"\\ab");
    assert_eq!("\"\\t\\b\\n\\r\\f\\'\\\"\\\\ab\"", toks.to_string().unwrap());
}

#[test]
fn interpolation_of_a_literal() {
    let mut toks = Tokens::new();
    toks.item(Item::OpenQuote(true));
    toks.item(Item::Literal("a ".to_string()));
    toks.item(Item::OpenEval);
    toks.item(Item::Literal("x".to_string()));
    toks.item(Item::CloseEval);
    toks.item(Item::CloseQuote);
    assert_eq!("`a ${x}`", toks.to_string().unwrap());
}

#[test]
fn interpolation_of_an_expression() {
    let mut toks = Tokens::new();
    toks.item(Item::OpenQuote(true));
    toks.item(Item::OpenEval);
    toks.append(local("y"));
    toks.space();
    toks.append("+");
    toks.space();
    toks.quoted("\"");
    toks.item(Item::CloseEval);
    toks.item(Item::Literal("\n".to_string()));
    toks.item(Item::CloseQuote);
    assert_eq!("`${y + \"\\\"\"}\\n`", toks.to_string().unwrap());
}

#[test]
fn close_quote_outside_quote_is_a_fault() {
    let mut toks = Tokens::new();
    toks.append("a");
    toks.item(Item::CloseQuote);
    assert_eq!(Err(Error::Format), toks.to_string());
}

#[test]
fn eval_outside_quote_is_a_fault() {
    let mut toks = Tokens::new();
    toks.item(Item::OpenEval);
    assert_eq!(Err(Error::Format), toks.to_vec());
    let mut toks = Tokens::new();
    toks.item(Item::CloseEval);
    assert_eq!(Err(Error::Format), toks.to_file_string());
}

#[test]
fn extend_keeps_guarantees() {
    let mut toks = Tokens::new();
    toks.append("a");
    toks.push();
    toks.extend(vec![Item::Push, Item::Line, Item::Space, Item::Space, Item::Literal("b".to_string())]);
    assert_eq!(4, toks.len());
    assert_eq!(vec!["a", "", " b"], toks.to_vec().unwrap());
}

#[test]
fn rendering_twice_gives_the_same_text() {
    let mut toks = Tokens::new();
    toks.append(import("m", "x"));
    toks.push();
    toks.quoted("q");
    let first = toks.to_file_string().unwrap();
    let second = toks.to_file_string().unwrap();
    assert_eq!(first, second);
    assert_eq!(toks.iter().len(), 5);
}

#[test]
fn equal_streams_compare_equal() {
    let mut a = Tokens::new();
    a.append("x");
    a.space();
    let mut b = Tokens::new();
    b.append("x");
    b.space();
    b.space();
    assert_eq!(a.iter(), b.iter());
    let mut c = Tokens::new();
    c.append("x");
    assert_ne!(a.iter(), c.iter());
}

#[test]
fn fault_keeps_what_was_written() {
    let mut toks = Tokens::new();
    toks.append("a");
    toks.push();
    toks.append("b");
    toks.item(Item::CloseQuote);
    toks.append("c");
    let mut f = Formatter::new(Indentation::Space(4));
    assert_eq!(Err(Error::Format), toks.format(&mut f));
    assert_eq!("a\nb", f.into_string());
}

#[test]
fn file_without_imports_renders_as_format() {
    let mut toks = Tokens::new();
    toks.append(local("x"));
    toks.indent();
    toks.append("y");
    let mut f1 = Formatter::new(Indentation::Space(4));
    let mut f2 = Formatter::new(Indentation::Space(4));
    toks.format_file(&mut f1).unwrap();
    toks.format(&mut f2).unwrap();
    assert_eq!(f1.into_vec(), f2.into_vec());
}

#[test]
fn quote_string_gives_a_quoted_literal() {
    assert_eq!("\"a\\nb\\\"c\"", quote_string("a\nb\"c"));
    assert_eq!("\"\"", quote_string(""));
}

#[test]
fn backspace_and_form_feed_escapes() {
    assert_eq!("\"\\b\\f\u{0007}\u{0014}\"", quote_string("\u{0008}\u{000C}\u{0007}\u{0014}"));
}
