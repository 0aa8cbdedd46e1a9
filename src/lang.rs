//! What a target language supplies to the render engine: how text is
//! escaped inside its string literals, how those literals open and close,
//! how an interpolated expression starts and ends inside them, and how its
//! files are indented.

use vstd::prelude::*;
use crate::fmt::Indentation;

verus! {

/// A target language of the render engine.
pub trait Lang {
    /// A text escaped for the inside of a string literal.
    spec fn quoted_text(t: Seq<char>) -> Seq<char>;

    /// The text that opens a string literal, with or without interpolation.
    spec fn open_quote(has_eval: bool) -> Seq<char>;

    /// The text that closes a string literal, with or without interpolation.
    spec fn close_quote(has_eval: bool) -> Seq<char>;

    /// The text that starts an interpolated expression.
    spec fn eval_start() -> Seq<char>;

    /// The text that ends an interpolated expression.
    spec fn eval_end() -> Seq<char>;

    /// An interpolated expression that is a single literal, written
    /// directly.
    spec fn eval_literal(t: Seq<char>) -> Seq<char>;

    /// The indentation the language's files are written with.
    spec fn default_indentation() -> Indentation;

    fn write_quoted(s: &str) -> (r: String)
        ensures
            r@ == Self::quoted_text(s@),
    ;

    fn open_quote_str(has_eval: bool) -> (r: &'static str)
        ensures
            r@ == Self::open_quote(has_eval),
    ;

    fn close_quote_str(has_eval: bool) -> (r: &'static str)
        ensures
            r@ == Self::close_quote(has_eval),
    ;

    fn eval_start_str() -> (r: &'static str)
        ensures
            r@ == Self::eval_start(),
    ;

    fn eval_end_str() -> (r: &'static str)
        ensures
            r@ == Self::eval_end(),
    ;

    fn eval_literal_string(lit: &str) -> (r: String)
        ensures
            r@ == Self::eval_literal(lit@),
    ;

    fn indentation() -> (r: Indentation)
        ensures
            r == Self::default_indentation(),
    ;
}

} // verus!
