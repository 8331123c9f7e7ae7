//! Evaluation of arithmetic expressions in reverse Polish notation.
//!
//! The input is split on single space bytes, every piece is either an
//! operand or one of the four binary operators, and a stack reduces the
//! pieces from left to right. The operand type and its arithmetic are
//! supplied by the caller, so the whole reduction is verified once for any
//! number representation.
pub mod eval;
pub mod token;

pub use eval::{do_operation, evaluate, evaluate_tokens, EvalError};
pub use token::{operator_of, split_tokens, Op};
