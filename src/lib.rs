//! Parsing of XML-like catalogue and roster documents into an element tree, queries over
//! that tree, and checking of values against the constraints such documents declare.
//!
//! Text goes through `lexer::tokenize` into tokens and through `parser::parse_tokens` into
//! an `document::XmlDocument`; each stage is stated over a mathematical model
//! (`lexer::lex`, `parser::build`) that its result is proved to match.

pub mod constraint;
pub mod document;
pub mod files;
pub mod laws;
pub mod lexer;
pub mod parser;
pub mod text;
pub mod token;
pub mod validator;
