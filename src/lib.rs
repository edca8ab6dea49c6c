//! A recursive-descent parser and evaluator for integer arithmetic:
//! `+`, `-`, `*`, `/`, unary minus on literals, parentheses and spaces.
//!
//! `grammar` states what each grammar rule yields on a text, `parser`
//! computes exactly that, and `laws` proves general facts about the rules.
use vstd::prelude::*;

pub mod grammar;
pub mod laws;
pub mod parser;

pub use parser::{expr, factor, parens, parse_digit, term};

verus! {

/// Why a parse gave no value.
#[derive(Clone, Copy, Debug, PartialEq, Eq, Structural)]
pub enum ParseError {
    /// No alternative of the grammar matched, or a literal does not fit `i64`.
    Syntax,
    /// A `/` met a divisor of zero; this ends the whole parse.
    DivisionByZero,
}

} // verus!
