//! The tree-walking front end: a scanner that reads all tokens at once, the syntax tree,
//! a recursive-descent parser and the resolver of local variables.

pub mod scanner;
pub mod ast;
pub mod parser;
pub mod grammar;
pub mod resolver;
pub mod environment;
pub mod runtime;
pub mod interpreter;
