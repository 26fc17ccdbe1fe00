//! Parsing and execution of `.reqx` request files: a line lexer, a tolerant
//! parser that builds the document, and an interpreter that resolves
//! `{{name}}` references and drives an injected transport.

pub mod ast;
pub mod client;
pub mod interpreter;
pub mod lexer;
pub mod parser;
pub mod request_lines;
pub mod text;
