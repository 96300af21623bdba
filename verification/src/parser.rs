//! The parser: from tokens to the syntax tree.
//!
//! The grammar, top down:
//!
//! ```text
//! Program    := Statement*
//! Statement  := "let" Ident "=" Expression
//!             | "fn"  Ident "(" Ident* ")" "=" Expression
//!             | Expression
//! Expression := Block | BinaryExpr
//! Block      := "{" Statement* "}"
//! ```
//!
//! Binary expressions are read by precedence climbing: `+ -` bind at (3, 4), `* /` at (5, 6),
//! and the postfix forms, a call `(` and a borrow `&`, at 2.

pub mod expression;
pub mod grammar;
pub mod node;
pub mod printer;
pub mod statement;

pub use expression::{parse_expression, Expression};
pub use node::{parse, Node};
pub use statement::{parse_statement, Statement};
