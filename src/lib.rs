//! A small C-subset compiler core: a scanner, a recursive-descent parser that
//! builds an abstract syntax tree, and a code generator that lowers each
//! function into basic blocks of a simple typed intermediate representation.

pub mod error;
pub mod types;
pub mod node;
pub mod ir;
pub mod codegen;
pub mod lexer;
pub mod parser;
