//! An opinionated formatter for GDScript source text.
//!
//! The library parses source text with the GDScript grammar, copies the
//! syntax tree into a plain tree of its own ([`syntax::SyntaxNode`]) and
//! renders that tree with formatting rules whose behaviour is stated as spec
//! functions and proved against them.
pub mod formatter;
pub mod gap;
pub mod literals;
pub mod parser;
pub mod rules;
pub mod syntax;
pub mod text;

pub use formatter::{format_code, Error};
pub use text::{force_end_line, indent_by};
