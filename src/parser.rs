//! The parser: each rule reads a character vector from an index on and
//! returns the index where it stopped, as `grammar` says.
use vstd::prelude::*;

use crate::grammar::{
    apply_add_op, apply_mul_op, digit_run_len, digits_value, is_digit, lemma_digit_run,
    lemma_digits_value_nonneg, lemma_digits_value_prefix, lemma_parens_skips_spaces, skip_spaces,
    spec_expr, spec_expr_tail, spec_factor, spec_parens, spec_parse_digit, spec_term,
    spec_term_tail, Outcome,
};
use crate::ParseError;

verus! {

/// What a result by index says about the text `s`: the rest of the text
/// from the returned index on.
pub open spec fn outcome_at(s: Seq<char>, r: Result<(usize, i64), ParseError>) -> Outcome {
    match r {
        Ok((j, v)) => Ok((s.skip(j as int), v)),
        Err(e) => Err(e),
    }
}

/// A successful result read at least one character from `i` on, and
/// stopped within `s`.
pub open spec fn advances(s: Seq<char>, i: usize, r: Result<(usize, i64), ParseError>) -> bool {
    match r {
        Ok((j, _)) => i < j <= s.len(),
        Err(_) => true,
    }
}

/// The index of the first character from `i` on that is not a space.
fn skip_spaces_at(s: &Vec<char>, i: usize) -> (j: usize)
    requires
        i <= s@.len(),
    ensures
        i <= j <= s@.len(),
        s@.skip(j as int) == skip_spaces(s@.skip(i as int)),
        j < s@.len() ==> s@[j as int] != ' ',
{
    let mut j = i;
    while j < s.len() && s[j] == ' '
        invariant
            i <= j <= s@.len(),
            skip_spaces(s@.skip(j as int)) == skip_spaces(s@.skip(i as int)),
        decreases s@.len() - j,
    {
        assert(s@.skip(j as int).drop_first() =~= s@.skip(j + 1));
        j = j + 1;
    }
    j
}

/// A digit run whose first digits already write more than `i64::MAX`
/// writes more than that as a whole.
proof fn lemma_long_run(s2: Seq<char>, n: nat, w: Seq<char>)
    requires
        n <= s2.len(),
        forall|q: int| 0 <= q < n ==> is_digit(#[trigger] s2[q]),
        w.len() <= n,
        w =~= s2.take(w.len() as int),
        digits_value(w) > i64::MAX,
    ensures
        digits_value(s2.take(n as int)) > i64::MAX,
{
    let d = s2.take(n as int);
    assert forall|q: int| 0 <= q < d.len() implies is_digit(#[trigger] d[q]) by {
        assert(d[q] == s2[q]);
    }
    assert(d.take(w.len() as int) =~= w);
    lemma_digits_value_prefix(d, w.len() as int);
}

/// `ws ['-'] ws digit+` from index `i` on.
fn parse_digit_at(s: &Vec<char>, i: usize) -> (r: Result<(usize, i64), ParseError>)
    requires
        i <= s@.len(),
    ensures
        outcome_at(s@, r) == spec_parse_digit(s@.skip(i as int)),
        advances(s@, i, r),
{
    let j = skip_spaces_at(s, i);
    let neg = j < s.len() && s[j] == '-';
    let k = if neg {
        assert(s@.skip(j as int).drop_first() =~= s@.skip(j + 1));
        skip_spaces_at(s, j + 1)
    } else {
        j
    };
    let ghost s1 = skip_spaces(s@.skip(i as int));
    let ghost s2 = s@.skip(k as int);
    assert(neg == (s1.len() > 0 && s1[0] == '-'));
    proof {
        lemma_digit_run(s2);
    }
    let ghost n = digit_run_len(s2);
    let mut p = k;
    let mut v: i64 = 0;
    while p < s.len() && '0' <= s[p] && s[p] <= '9'
        invariant
            k <= p <= s@.len(),
            s1 == skip_spaces(s@.skip(i as int)),
            neg == (s1.len() > 0 && s1[0] == '-'),
            s2 == (if neg {
                skip_spaces(s1.drop_first())
            } else {
                s1
            }),
            s2 == s@.skip(k as int),
            n == digit_run_len(s2),
            p - k <= n <= s2.len(),
            forall|q: int| 0 <= q < n ==> is_digit(#[trigger] s2[q]),
            n < s2.len() ==> !is_digit(s2[n as int]),
            v == digits_value(s@.subrange(k as int, p as int)),
            0 <= v,
        decreases s@.len() - p,
    {
        let c = s[p];
        assert(s2[p - k] == c);
        assert(p - k < n);
        let d = (c as u32 - '0' as u32) as i64;
        let ghost w = s@.subrange(k as int, p + 1);
        assert(w.drop_last() =~= s@.subrange(k as int, p as int));
        match v.checked_mul(10) {
            Some(t) => match t.checked_add(d) {
                Some(u) => {
                    v = u;
                },
                None => {
                    proof {
                        lemma_long_run(s2, n, w);
                    }
                    return Err(ParseError::Syntax);
                },
            },
            None => {
                proof {
                    lemma_long_run(s2, n, w);
                }
                return Err(ParseError::Syntax);
            },
        }
        p = p + 1;
    }
    proof {
        if p - k < n {
            assert(s2[p - k] == s@[p as int]);
        }
    }
    assert(p - k == n);
    assert(s2.take(n as int) =~= s@.subrange(k as int, p as int));
    assert(s2.skip(n as int) =~= s@.skip(p as int));
    if p == k {
        return Err(ParseError::Syntax);
    }
    if neg {
        Ok((p, -v))
    } else {
        Ok((p, v))
    }
}

/// `ws '(' expr ')' ws` from index `i` on.
fn parens_at(s: &Vec<char>, i: usize) -> (r: Result<(usize, i64), ParseError>)
    requires
        i <= s@.len(),
    ensures
        outcome_at(s@, r) == spec_parens(s@.skip(i as int)),
        advances(s@, i, r),
    decreases s@.len() - i, 0int,
{
    let k = skip_spaces_at(s, i);
    proof {
        lemma_parens_skips_spaces(s@.skip(i as int));
        if k < s@.len() {
            assert(s@.skip(k as int)[0] == s@[k as int]);
        }
    }
    if k < s.len() && s[k] == '(' {
        assert(s@.skip(k as int).drop_first() =~= s@.skip(k + 1));
        match expr_at(s, k + 1) {
            Ok((j, v)) => {
                if j < s.len() && s[j] == ')' {
                    assert(s@.skip(j as int).drop_first() =~= s@.skip(j + 1));
                    Ok((skip_spaces_at(s, j + 1), v))
                } else {
                    Err(ParseError::Syntax)
                }
            },
            Err(e) => Err(e),
        }
    } else {
        Err(ParseError::Syntax)
    }
}

/// A literal followed by spaces, or else a parenthesized expression, from
/// index `i` on.
fn factor_at(s: &Vec<char>, i: usize) -> (r: Result<(usize, i64), ParseError>)
    requires
        i <= s@.len(),
    ensures
        outcome_at(s@, r) == spec_factor(s@.skip(i as int)),
        advances(s@, i, r),
    decreases s@.len() - i, 1int,
{
    match parse_digit_at(s, i) {
        Ok((j, v)) => Ok((skip_spaces_at(s, j), v)),
        Err(_) => parens_at(s, i),
    }
}

/// `a * b` or `a / b` on fixed-width integers.
fn mul_op(op: char, a: i64, b: i64) -> (r: i64)
    requires
        op == '*' || b != 0,
    ensures
        r == apply_mul_op(op, a, b),
{
    if op == '*' {
        a.wrapping_mul(b)
    } else {
        match a.checked_div(b) {
            Some(q) => q,
            None => a,
        }
    }
}

/// `a + b` or `a - b` on fixed-width integers.
fn add_op(op: char, a: i64, b: i64) -> (r: i64)
    ensures
        r == apply_add_op(op, a, b),
{
    if op == '+' {
        a.wrapping_add(b)
    } else {
        a.wrapping_sub(b)
    }
}

/// `factor { ('*' | '/') factor }` from index `i` on.
fn term_at(s: &Vec<char>, i: usize) -> (r: Result<(usize, i64), ParseError>)
    requires
        i <= s@.len(),
    ensures
        outcome_at(s@, r) == spec_term(s@.skip(i as int)),
        advances(s@, i, r),
    decreases s@.len() - i, 2int,
{
    let (mut pos, mut acc) = match factor_at(s, i) {
        Ok(x) => x,
        Err(e) => return Err(e),
    };
    loop
        invariant
            i < pos <= s@.len(),
            spec_term(s@.skip(i as int)) == spec_term_tail(s@.skip(pos as int), acc),
        decreases s@.len() - pos,
    {
        if pos < s.len() && (s[pos] == '*' || s[pos] == '/') {
            let op = s[pos];
            assert(s@.skip(pos as int).drop_first() =~= s@.skip(pos + 1));
            match factor_at(s, pos + 1) {
                Ok((j, v)) => {
                    if op == '/' && v == 0 {
                        return Err(ParseError::DivisionByZero);
                    }
                    acc = mul_op(op, acc, v);
                    pos = j;
                },
                Err(ParseError::DivisionByZero) => return Err(ParseError::DivisionByZero),
                Err(ParseError::Syntax) => return Ok((pos, acc)),
            }
        } else {
            return Ok((pos, acc));
        }
    }
}

/// `term { ('+' | '-') term }` from index `i` on.
fn expr_at(s: &Vec<char>, i: usize) -> (r: Result<(usize, i64), ParseError>)
    requires
        i <= s@.len(),
    ensures
        outcome_at(s@, r) == spec_expr(s@.skip(i as int)),
        advances(s@, i, r),
    decreases s@.len() - i, 3int,
{
    let (mut pos, mut acc) = match term_at(s, i) {
        Ok(x) => x,
        Err(e) => return Err(e),
    };
    loop
        invariant
            i < pos <= s@.len(),
            spec_expr(s@.skip(i as int)) == spec_expr_tail(s@.skip(pos as int), acc),
        decreases s@.len() - pos,
    {
        if pos < s.len() && (s[pos] == '+' || s[pos] == '-') {
            let op = s[pos];
            assert(s@.skip(pos as int).drop_first() =~= s@.skip(pos + 1));
            match term_at(s, pos + 1) {
                Ok((j, v)) => {
                    acc = add_op(op, acc, v);
                    pos = j;
                },
                Err(ParseError::DivisionByZero) => return Err(ParseError::DivisionByZero),
                Err(ParseError::Syntax) => return Ok((pos, acc)),
            }
        } else {
            return Ok((pos, acc));
        }
    }
}

/// What a result on a string says about the text: the rest and the value,
/// or the error.
pub open spec fn outcome_of<'a>(r: Result<(&'a str, i64), ParseError>) -> Outcome {
    match r {
        Ok((rest, v)) => Ok((rest@, v)),
        Err(e) => Err(e),
    }
}

/// The characters of `s`, in order.
fn chars_of(s: &str) -> (r: Vec<char>)
    ensures
        r@ == s@,
{
    let mut r: Vec<char> = Vec::new();
    for c in it: s.chars()
        invariant
            it.seq() == s@,
            r@ == it.seq().take(it.index() as int),
    {
        proof {
            assert(r@.push(c) =~= it.seq().take(it.index() + 1));
        }
        r.push(c);
    }
    assert(r@ =~= s@);
    r
}

/// Turns a result by index into `text` (whose characters are `s`) into one
/// that holds the unread rest of `text`.
fn with_rest<'a>(text: &'a str, s: &Vec<char>, r: Result<(usize, i64), ParseError>) -> (res:
    Result<(&'a str, i64), ParseError>)
    requires
        s@ == text@,
        advances(s@, 0, r),
    ensures
        outcome_of(res) == outcome_at(s@, r),
{
    match r {
        Ok((j, v)) => {
            let rest = text.substring_char(j, s.len());
            assert(rest@ =~= s@.skip(j as int));
            Ok((rest, v))
        },
        Err(e) => Err(e),
    }
}

/// Reads an integer literal at the start of `i`: spaces, an optional `-`,
/// spaces, then one or more digits. Spaces after the digits stay unread.
pub fn parse_digit(i: &str) -> (r: Result<(&str, i64), ParseError>)
    ensures
        outcome_of(r) == spec_parse_digit(i@),
{
    let s = chars_of(i);
    assert(s@.skip(0) =~= s@);
    with_rest(i, &s, parse_digit_at(&s, 0))
}

/// Reads a parenthesized expression at the start of `i`, with the spaces
/// around it.
pub fn parens(i: &str) -> (r: Result<(&str, i64), ParseError>)
    ensures
        outcome_of(r) == spec_parens(i@),
{
    let s = chars_of(i);
    assert(s@.skip(0) =~= s@);
    with_rest(i, &s, parens_at(&s, 0))
}

/// Reads a factor at the start of `i`: an integer literal or a
/// parenthesized expression, with the spaces around it.
pub fn factor(i: &str) -> (r: Result<(&str, i64), ParseError>)
    ensures
        outcome_of(r) == spec_factor(i@),
{
    let s = chars_of(i);
    assert(s@.skip(0) =~= s@);
    with_rest(i, &s, factor_at(&s, 0))
}

/// Reads factors joined by `*` and `/` at the start of `i`, and folds them
/// from the left.
pub fn term(i: &str) -> (r: Result<(&str, i64), ParseError>)
    ensures
        outcome_of(r) == spec_term(i@),
{
    let s = chars_of(i);
    assert(s@.skip(0) =~= s@);
    with_rest(i, &s, term_at(&s, 0))
}

/// Reads terms joined by `+` and `-` at the start of `i`, and folds them
/// from the left: the value of the arithmetic expression that `i` starts
/// with, and the text after it.
pub fn expr(i: &str) -> (r: Result<(&str, i64), ParseError>)
    ensures
        outcome_of(r) == spec_expr(i@),
{
    let s = chars_of(i);
    assert(s@.skip(0) =~= s@);
    with_rest(i, &s, expr_at(&s, 0))
}

} // verus!
