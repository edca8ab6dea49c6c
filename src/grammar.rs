//! The meaning of each grammar rule, stated over the text that is left to
//! read. Each rule yields the unread rest of the text and the value of what
//! it read, or an error.
//!
//! ```text
//! expr   = term   { ('+' | '-') term } ;
//! term   = factor { ('*' | '/') factor } ;
//! factor = ws ['-'] ws digit+ ws | ws '(' expr ')' ws ;
//! ws     = ' '* ;
//! ```
use vstd::prelude::*;

use crate::ParseError;

verus! {

/// What a rule yields: the rest of the text and a value, or an error.
pub type Outcome = Result<(Seq<char>, i64), ParseError>;

pub open spec fn is_digit(c: char) -> bool {
    '0' <= c && c <= '9'
}

pub open spec fn digit_value(c: char) -> int {
    c as int - '0' as int
}

/// The decimal number that a run of digits writes.
pub open spec fn digits_value(d: Seq<char>) -> int
    decreases d.len(),
{
    if d.len() == 0 {
        0
    } else {
        digits_value(d.drop_last()) * 10 + digit_value(d.last())
    }
}

/// The text after its leading spaces.
pub open spec fn skip_spaces(s: Seq<char>) -> Seq<char>
    decreases s.len(),
{
    if s.len() > 0 && s[0] == ' ' {
        skip_spaces(s.drop_first())
    } else {
        s
    }
}

/// How many digits the text starts with.
pub open spec fn digit_run_len(s: Seq<char>) -> nat
    decreases s.len(),
{
    if s.len() > 0 && is_digit(s[0]) {
        1 + digit_run_len(s.drop_first())
    } else {
        0
    }
}

/// `ws ['-'] ws digit+`: an integer literal, negated after a `-`. A run of
/// digits whose value exceeds `i64::MAX` is no literal.
pub open spec fn spec_parse_digit(s: Seq<char>) -> Outcome {
    let s1 = skip_spaces(s);
    let neg = s1.len() > 0 && s1[0] == '-';
    let s2 = if neg {
        skip_spaces(s1.drop_first())
    } else {
        s1
    };
    let n = digit_run_len(s2);
    let m = digits_value(s2.take(n as int));
    if n == 0 || m > i64::MAX {
        Err(ParseError::Syntax)
    } else {
        Ok((s2.skip(n as int), (if neg { -m } else { m }) as i64))
    }
}

/// `ws '(' expr ')' ws`.
pub open spec fn spec_parens(s: Seq<char>) -> Outcome
    decreases s.len(), 0int,
{
    if s.len() > 0 && s[0] == ' ' {
        spec_parens(s.drop_first())
    } else if s.len() > 0 && s[0] == '(' {
        match spec_expr(s.drop_first()) {
            Ok((r, v)) => if r.len() > 0 && r[0] == ')' {
                Ok((skip_spaces(r.drop_first()), v))
            } else {
                Err(ParseError::Syntax)
            },
            Err(e) => Err(e),
        }
    } else {
        Err(ParseError::Syntax)
    }
}

/// A literal followed by spaces, or else a parenthesized expression.
pub open spec fn spec_factor(s: Seq<char>) -> Outcome
    decreases s.len(), 1int,
{
    match spec_parse_digit(s) {
        Ok((r, v)) => Ok((skip_spaces(r), v)),
        Err(_) => spec_parens(s),
    }
}

/// `a * b` or `a / b`, as fixed-width integers: the product wraps around,
/// and the quotient is truncated toward zero (its one overflow,
/// `i64::MIN / -1`, wraps to `i64::MIN`).
pub open spec fn apply_mul_op(op: char, a: i64, b: i64) -> i64 {
    if op == '*' {
        vstd::wrapping::i64_specs::wrapping_mul(a, b)
    } else {
        match a.checked_div(b) {
            Some(q) => q,
            None => a,
        }
    }
}

/// `a + b` or `a - b`, wrapping around as fixed-width integers.
pub open spec fn apply_add_op(op: char, a: i64, b: i64) -> i64 {
    if op == '+' {
        vstd::wrapping::i64_specs::wrapping_add(a, b)
    } else {
        vstd::wrapping::i64_specs::wrapping_sub(a, b)
    }
}

/// Folds `{ ('*' | '/') factor }` into `acc`, from the left. The fold stops
/// before the first operator that no factor follows; a division by zero, or
/// one inside a factor, ends the parse.
pub open spec fn spec_term_tail(s: Seq<char>, acc: i64) -> Outcome
    decreases s.len(), 0int,
{
    if s.len() > 0 && (s[0] == '*' || s[0] == '/') {
        match spec_factor(s.drop_first()) {
            Ok((r, v)) => if s[0] == '/' && v == 0 {
                Err(ParseError::DivisionByZero)
            } else if r.len() < s.len() {
                spec_term_tail(r, apply_mul_op(s[0], acc, v))
            } else {
                Ok((s, acc))
            },
            Err(ParseError::DivisionByZero) => Err(ParseError::DivisionByZero),
            Err(ParseError::Syntax) => Ok((s, acc)),
        }
    } else {
        Ok((s, acc))
    }
}

/// `factor { ('*' | '/') factor }`.
pub open spec fn spec_term(s: Seq<char>) -> Outcome
    decreases s.len(), 2int,
{
    match spec_factor(s) {
        Ok((r, v)) => if r.len() < s.len() {
            spec_term_tail(r, v)
        } else {
            Ok((r, v))
        },
        Err(e) => Err(e),
    }
}

/// Folds `{ ('+' | '-') term }` into `acc`, from the left, as
/// `spec_term_tail` folds factors.
pub open spec fn spec_expr_tail(s: Seq<char>, acc: i64) -> Outcome
    decreases s.len(), 0int,
{
    if s.len() > 0 && (s[0] == '+' || s[0] == '-') {
        match spec_term(s.drop_first()) {
            Ok((r, v)) => if r.len() < s.len() {
                spec_expr_tail(r, apply_add_op(s[0], acc, v))
            } else {
                Ok((s, acc))
            },
            Err(ParseError::DivisionByZero) => Err(ParseError::DivisionByZero),
            Err(ParseError::Syntax) => Ok((s, acc)),
        }
    } else {
        Ok((s, acc))
    }
}

/// `term { ('+' | '-') term }`.
pub open spec fn spec_expr(s: Seq<char>) -> Outcome
    decreases s.len(), 3int,
{
    match spec_term(s) {
        Ok((r, v)) => if r.len() < s.len() {
            spec_expr_tail(r, v)
        } else {
            Ok((r, v))
        },
        Err(e) => Err(e),
    }
}

/// Leading spaces do not change what `spec_parens` yields.
pub proof fn lemma_parens_skips_spaces(s: Seq<char>)
    ensures
        spec_parens(skip_spaces(s)) == spec_parens(s),
    decreases s.len(),
{
    if s.len() > 0 && s[0] == ' ' {
        lemma_parens_skips_spaces(s.drop_first());
    }
}

/// A run of digits writes a number that is not negative.
pub proof fn lemma_digits_value_nonneg(d: Seq<char>)
    requires
        forall|k: int| 0 <= k < d.len() ==> is_digit(#[trigger] d[k]),
    ensures
        digits_value(d) >= 0,
    decreases d.len(),
{
    if d.len() > 0 {
        lemma_digits_value_nonneg(d.drop_last());
    }
}

/// A run of digits writes a number no smaller than any of its prefixes does.
pub proof fn lemma_digits_value_prefix(d: Seq<char>, m: int)
    requires
        0 <= m <= d.len(),
        forall|k: int| 0 <= k < d.len() ==> is_digit(#[trigger] d[k]),
    ensures
        digits_value(d.take(m)) <= digits_value(d),
    decreases d.len() - m,
{
    if m < d.len() {
        lemma_digits_value_prefix(d, m + 1);
        let p = d.take(m + 1);
        assert(p.drop_last() =~= d.take(m));
        assert(p.last() == d[m]);
        assert forall|k: int| 0 <= k < m implies is_digit(#[trigger] d.take(m)[k]) by {
            assert(d.take(m)[k] == d[k]);
        }
        lemma_digits_value_nonneg(d.take(m));
        assert(is_digit(d[m]));
    } else {
        assert(d.take(m) =~= d);
    }
}

/// The first `digit_run_len(s)` characters of `s` are digits.
pub proof fn lemma_digit_run(s: Seq<char>)
    ensures
        digit_run_len(s) <= s.len(),
        forall|k: int| 0 <= k < digit_run_len(s) ==> is_digit(#[trigger] s[k]),
        digit_run_len(s) < s.len() ==> !is_digit(s[digit_run_len(s) as int]),
    decreases s.len(),
{
    if s.len() > 0 && is_digit(s[0]) {
        lemma_digit_run(s.drop_first());
        assert forall|k: int| 0 <= k < digit_run_len(s) implies is_digit(#[trigger] s[k]) by {
            if k > 0 {
                assert(s[k] == s.drop_first()[k - 1]);
            }
        }
    }
}

} // verus!
