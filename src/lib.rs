//! Multi-target source-code generation: a whitespace-aware stream of tokens,
//! a render engine that turns it into text for any language that supplies
//! the [`Lang`] hooks, and the JavaScript specialization with its collation
//! of imports into a file's preamble.

mod frames;
pub mod fmt;
pub mod js;
pub mod lang;
pub mod order;
pub mod render;
pub mod tokens;

pub use fmt::{Error, Formatter, Indentation};
pub use js::JavaScript;
pub use lang::Lang;
pub use tokens::{FormatInto, Item, Tokens};
