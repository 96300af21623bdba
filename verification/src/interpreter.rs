//! The runtime: values, the scope store, and the evaluator that walks the syntax tree.

pub mod accounting;
pub mod data;
pub mod evaluation;
pub mod model;
pub mod scope;
pub mod semantics;
pub mod termination;
pub mod theorems;

pub use data::Data;
pub use evaluation::evaluate;
pub use scope::Scope;
