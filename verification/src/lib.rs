//! Evaluation of arithmetic expressions written in a linear notation: operands are runs of
//! decimal digits, the four operators and the two group marks are single letters, and an
//! expression is evaluated strictly from left to right, in checked arithmetic.
//!
//! - [`operand`] says which texts denote an operand, and which number.
//! - [`operation`] holds a pending operation and applies it to its second operand.
//! - [`parser`] holds the parser. [`parser::Parser::parse`] is the entry point,
//!   [`parser::model`] says what it returns, and [`parser::laws`] states what follows from
//!   that for whole families of expressions.
//! - [`std_specs`] holds what is assumed of the standard library.

pub mod operand;
pub mod operation;
pub mod parser;
pub mod std_specs;
