//! A small XML toolkit: a lexer that turns text into positioned tokens, a
//! tree builder that nests them into elements, queries over the tree and a
//! pretty printer.
pub mod text;
pub mod attributes;
pub mod syntax;
pub mod tree;
pub mod scan;
pub mod lexer;
pub mod builder;
pub mod printer;
pub mod round_trip;

pub use attributes::Attributes;
pub use builder::parse;
pub use lexer::{tokenize, stream_tokens};
pub use printer::pretty_print;
pub use syntax::{Token, TokenKind, XmlError};
pub use tree::Node;
