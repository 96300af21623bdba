//! Mova: a small expression language whose runtime enforces ownership.
//!
//! A binding that holds an owned value is consumed when it is read, a borrow hands out a
//! reference that is given back when its scope ends, and reading a moved or borrowed binding
//! is an error at run time. The crate holds the lexer, the parser, the scope store and the
//! evaluator, each with a contract over a mathematical model of its data.

pub mod text;
pub mod error;
pub mod lexer;
pub mod serializer;
pub mod parser;
pub mod interpreter;
pub mod runner;
