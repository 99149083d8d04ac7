//! Front end of a small Lisp-like expression language: a lexer, a parser
//! into generic parenthesized trees, and a lowering into a typed syntax tree.
pub mod lexer;
pub mod parser;
pub mod lower;
