//! General facts about the grammar rules, proved over `grammar`'s model.
use vstd::prelude::*;

use crate::grammar::{
    digit_run_len, digits_value, is_digit, lemma_digit_run, lemma_parens_skips_spaces,
    skip_spaces, spec_expr, spec_expr_tail, spec_factor, spec_parens, spec_parse_digit, spec_term,
    spec_term_tail, Outcome,
};

verus! {

pub open spec fn all_spaces(w: Seq<char>) -> bool {
    forall|k: int| 0 <= k < w.len() ==> #[trigger] w[k] == ' '
}

pub open spec fn all_digits(d: Seq<char>) -> bool {
    forall|k: int| 0 <= k < d.len() ==> is_digit(#[trigger] d[k])
}

/// `r` is what is left of `s` after some of its first characters.
pub open spec fn is_suffix(r: Seq<char>, s: Seq<char>) -> bool {
    r.len() <= s.len() && r == s.skip(s.len() - r.len())
}

/// A success leaves a suffix of the text, shorter than the text when
/// `strict` holds.
pub open spec fn leaves_suffix(s: Seq<char>, o: Outcome, strict: bool) -> bool {
    match o {
        Ok((r, _)) => is_suffix(r, s) && (strict ==> r.len() < s.len()),
        Err(_) => true,
    }
}

proof fn lemma_suffix_trans(a: Seq<char>, b: Seq<char>, c: Seq<char>)
    requires
        is_suffix(a, b),
        is_suffix(b, c),
    ensures
        is_suffix(a, c),
{
    assert(c.skip(c.len() - b.len()).skip(b.len() - a.len()) =~= c.skip(c.len() - a.len()));
}

proof fn lemma_drop_first_suffix(s: Seq<char>)
    requires
        s.len() > 0,
    ensures
        is_suffix(s.drop_first(), s),
{
    assert(s.drop_first() =~= s.skip(1));
}

proof fn lemma_skip_suffix(s: Seq<char>, n: int)
    requires
        0 <= n <= s.len(),
    ensures
        is_suffix(s.skip(n), s),
{
}

/// Skipping spaces leaves a suffix that starts with no space.
pub proof fn lemma_skip_spaces(s: Seq<char>)
    ensures
        is_suffix(skip_spaces(s), s),
        skip_spaces(s).len() > 0 ==> skip_spaces(s)[0] != ' ',
    decreases s.len(),
{
    if s.len() > 0 && s[0] == ' ' {
        lemma_skip_spaces(s.drop_first());
        lemma_drop_first_suffix(s);
        lemma_suffix_trans(skip_spaces(s.drop_first()), s.drop_first(), s);
    } else {
        assert(s.skip(0) =~= s);
    }
}

/// Spaces in front of a text do not change where skipping them ends.
pub proof fn lemma_skip_spaces_prefix(w: Seq<char>, t: Seq<char>)
    requires
        all_spaces(w),
    ensures
        skip_spaces(w + t) == skip_spaces(t),
    decreases w.len(),
{
    if w.len() > 0 {
        assert((w + t).drop_first() =~= w.drop_first() + t);
        assert(w[0] == ' ');
        lemma_skip_spaces_prefix(w.drop_first(), t);
    } else {
        assert(w + t =~= t);
    }
}

/// Digits in front of a text lengthen its digit run by their number.
proof fn lemma_digit_run_prefix(d: Seq<char>, t: Seq<char>)
    requires
        all_digits(d),
    ensures
        digit_run_len(d + t) == d.len() + digit_run_len(t),
    decreases d.len(),
{
    if d.len() > 0 {
        assert((d + t).drop_first() =~= d.drop_first() + t);
        assert(is_digit(d[0]));
        lemma_digit_run_prefix(d.drop_first(), t);
    } else {
        assert(d + t =~= t);
    }
}

/// A decimal literal, optionally signed, with any spaces before it, between
/// its sign and its digits and after it, reads as a factor whose value is the
/// signed number it writes, with nothing left unread.
pub proof fn lemma_literal_factor(
    a: Seq<char>,
    neg: bool,
    b: Seq<char>,
    d: Seq<char>,
    c: Seq<char>,
)
    requires
        all_spaces(a),
        all_spaces(b),
        all_spaces(c),
        d.len() > 0,
        all_digits(d),
        digits_value(d) <= i64::MAX,
    ensures
        spec_factor(a + (if neg { seq!['-'] } else { seq![] }) + b + d + c) == Ok::<
            (Seq<char>, i64),
            crate::ParseError,
        >((Seq::empty(), (if neg { -digits_value(d) } else { digits_value(d) }) as i64)),
{
    let m: Seq<char> = if neg { seq!['-'] } else { seq![] };
    let s = a + m + b + d + c;
    let dc = d + c;
    assert(s =~= a + (m + (b + dc)));
    lemma_skip_spaces_prefix(a, m + (b + dc));
    lemma_skip_spaces_prefix(b, dc);
    assert(dc[0] == d[0]);
    assert(is_digit(d[0]));
    lemma_digit_run_prefix(d, c);
    if c.len() > 0 {
        assert(c[0] == ' ');
    }
    assert(digit_run_len(c) == 0);
    assert(dc.take(d.len() as int) =~= d);
    assert(dc.skip(d.len() as int) =~= c);
    lemma_skip_spaces_prefix(c, Seq::empty());
    assert(c + Seq::<char>::empty() =~= c);
    if neg {
        assert((m + (b + dc)).drop_first() =~= b + dc);
        assert(skip_spaces(m + (b + dc)) == m + (b + dc));
    } else {
        assert(m + (b + dc) =~= b + dc);
    }
    let s1 = skip_spaces(s);
    assert(s1.len() > 0 && s1[0] == '-' <==> neg);
}

/// A literal leaves a suffix of its text, shorter than the text.
pub proof fn lemma_parse_digit_suffix(s: Seq<char>)
    ensures
        leaves_suffix(s, spec_parse_digit(s), true),
{
    let s1 = skip_spaces(s);
    lemma_skip_spaces(s);
    let neg = s1.len() > 0 && s1[0] == '-';
    let s2 = if neg {
        skip_spaces(s1.drop_first())
    } else {
        s1
    };
    if neg {
        lemma_skip_spaces(s1.drop_first());
        lemma_drop_first_suffix(s1);
        lemma_suffix_trans(s2, s1.drop_first(), s1);
    } else {
        assert(s1.skip(0) =~= s1);
    }
    lemma_suffix_trans(s2, s1, s);
    let n = digit_run_len(s2);
    lemma_digit_run(s2);
    if n > 0 {
        lemma_skip_suffix(s2, n as int);
        lemma_suffix_trans(s2.skip(n as int), s2, s);
    }
}

/// A parenthesized expression leaves a shorter suffix of its text.
pub proof fn lemma_parens_suffix(s: Seq<char>)
    ensures
        leaves_suffix(s, spec_parens(s), true),
    decreases s.len(), 0int,
{
    if s.len() > 0 && s[0] == ' ' {
        lemma_parens_suffix(s.drop_first());
        lemma_drop_first_suffix(s);
        if let Ok((r, _)) = spec_parens(s.drop_first()) {
            lemma_suffix_trans(r, s.drop_first(), s);
        }
    } else if s.len() > 0 && s[0] == '(' {
        lemma_expr_suffix(s.drop_first());
        lemma_drop_first_suffix(s);
        if let Ok((r, _)) = spec_expr(s.drop_first()) {
            if r.len() > 0 && r[0] == ')' {
                lemma_suffix_trans(r, s.drop_first(), s);
                lemma_drop_first_suffix(r);
                lemma_suffix_trans(r.drop_first(), r, s);
                lemma_skip_spaces(r.drop_first());
                lemma_suffix_trans(skip_spaces(r.drop_first()), r.drop_first(), s);
            }
        }
    }
}

/// A factor leaves a shorter suffix of its text.
pub proof fn lemma_factor_suffix(s: Seq<char>)
    ensures
        leaves_suffix(s, spec_factor(s), true),
    decreases s.len(), 1int,
{
    lemma_parse_digit_suffix(s);
    lemma_parens_suffix(s);
    if let Ok((r, _)) = spec_parse_digit(s) {
        lemma_skip_spaces(r);
        lemma_suffix_trans(skip_spaces(r), r, s);
    }
}

/// The fold of `{ ('*' | '/') factor }` leaves a suffix of its text.
pub proof fn lemma_term_tail_suffix(s: Seq<char>, acc: i64)
    ensures
        leaves_suffix(s, spec_term_tail(s, acc), false),
    decreases s.len(), 0int,
{
    assert(s.skip(0) =~= s);
    if s.len() > 0 && (s[0] == '*' || s[0] == '/') {
        lemma_factor_suffix(s.drop_first());
        lemma_drop_first_suffix(s);
        if let Ok((r, v)) = spec_factor(s.drop_first()) {
            if r.len() < s.len() && !(s[0] == '/' && v == 0) {
                let acc2 = crate::grammar::apply_mul_op(s[0], acc, v);
                lemma_term_tail_suffix(r, acc2);
                lemma_suffix_trans(r, s.drop_first(), s);
                if let Ok((q, _)) = spec_term_tail(r, acc2) {
                    lemma_suffix_trans(q, r, s);
                }
            }
        }
    }
}

/// A term leaves a shorter suffix of its text.
pub proof fn lemma_term_suffix(s: Seq<char>)
    ensures
        leaves_suffix(s, spec_term(s), true),
    decreases s.len(), 2int,
{
    lemma_factor_suffix(s);
    if let Ok((r, v)) = spec_factor(s) {
        lemma_term_tail_suffix(r, v);
        if let Ok((q, _)) = spec_term_tail(r, v) {
            lemma_suffix_trans(q, r, s);
        }
    }
}

/// The fold of `{ ('+' | '-') term }` leaves a suffix of its text.
pub proof fn lemma_expr_tail_suffix(s: Seq<char>, acc: i64)
    ensures
        leaves_suffix(s, spec_expr_tail(s, acc), false),
    decreases s.len(), 0int,
{
    assert(s.skip(0) =~= s);
    if s.len() > 0 && (s[0] == '+' || s[0] == '-') {
        lemma_term_suffix(s.drop_first());
        lemma_drop_first_suffix(s);
        if let Ok((r, v)) = spec_term(s.drop_first()) {
            if r.len() < s.len() {
                let acc2 = crate::grammar::apply_add_op(s[0], acc, v);
                lemma_expr_tail_suffix(r, acc2);
                lemma_suffix_trans(r, s.drop_first(), s);
                if let Ok((q, _)) = spec_expr_tail(r, acc2) {
                    lemma_suffix_trans(q, r, s);
                }
            }
        }
    }
}

/// An expression leaves a shorter suffix of its text.
pub proof fn lemma_expr_suffix(s: Seq<char>)
    ensures
        leaves_suffix(s, spec_expr(s), true),
    decreases s.len(), 3int,
{
    lemma_term_suffix(s);
    if let Ok((r, v)) = spec_term(s) {
        lemma_expr_tail_suffix(r, v);
        if let Ok((q, _)) = spec_expr_tail(r, v) {
            lemma_suffix_trans(q, r, s);
        }
    }
}

/// Spaces before a factor change neither its value nor what it leaves.
pub proof fn lemma_factor_leading_spaces(w: Seq<char>, x: Seq<char>)
    requires
        all_spaces(w),
    ensures
        spec_factor(w + x) == spec_factor(x),
    decreases w.len(),
{
    if w.len() > 0 {
        let s = w + x;
        assert(s.drop_first() =~= w.drop_first() + x);
        assert(s[0] == ' ');
        lemma_factor_leading_spaces(w.drop_first(), x);
        lemma_skip_spaces_prefix(w, x);
        lemma_skip_spaces_prefix(w.drop_first(), x);
        lemma_parens_skips_spaces(s);
        lemma_parens_skips_spaces(s.drop_first());
    } else {
        assert(w + x =~= x);
    }
}

/// Spaces before a term change neither its value nor what it leaves.
pub proof fn lemma_term_leading_spaces(w: Seq<char>, x: Seq<char>)
    requires
        all_spaces(w),
    ensures
        spec_term(w + x) == spec_term(x),
{
    lemma_factor_leading_spaces(w, x);
    lemma_factor_suffix(x);
}

/// Spaces before an expression change neither its value nor what it leaves.
pub proof fn lemma_expr_leading_spaces(w: Seq<char>, x: Seq<char>)
    requires
        all_spaces(w),
    ensures
        spec_expr(w + x) == spec_expr(x),
{
    lemma_term_leading_spaces(w, x);
    lemma_term_suffix(x);
}

/// `(` counts one up and `)` one down: the depth that a text closes.
pub open spec fn depth(s: Seq<char>) -> int
    decreases s.len(),
{
    if s.len() == 0 {
        0
    } else {
        depth(s.drop_first()) + if s[0] == '(' {
            1int
        } else if s[0] == ')' {
            -1int
        } else {
            0int
        }
    }
}

/// Reading `s` up to its suffix `r` closes every parenthesis that it opens:
/// the stretch read has depth zero, and none of its own suffixes opens more
/// than it closes.
pub open spec fn balanced_to(s: Seq<char>, r: Seq<char>) -> bool {
    &&& depth(s) == depth(r)
    &&& forall|k: int| 0 <= k <= s.len() - r.len() ==> #[trigger] depth(s.skip(k)) <= depth(r)
}

/// A success reads a balanced stretch of its text.
pub open spec fn reads_balanced(s: Seq<char>, o: Outcome) -> bool {
    match o {
        Ok((r, _)) => balanced_to(s, r),
        Err(_) => true,
    }
}

/// No suffix of `u` opens more parentheses than it closes.
pub open spec fn closed(u: Seq<char>) -> bool {
    forall|k: int| 0 <= k <= u.len() ==> #[trigger] depth(u.skip(k)) <= 0
}

proof fn lemma_balanced_refl(s: Seq<char>)
    ensures
        balanced_to(s, s),
{
    assert forall|k: int| 0 <= k <= s.len() - s.len() implies #[trigger] depth(s.skip(k)) <= depth(
        s,
    ) by {
        assert(s.skip(k) =~= s);
    }
}

proof fn lemma_balanced_trans(s: Seq<char>, m: Seq<char>, r: Seq<char>)
    requires
        is_suffix(m, s),
        is_suffix(r, m),
        balanced_to(s, m),
        balanced_to(m, r),
    ensures
        balanced_to(s, r),
{
    assert forall|k: int| 0 <= k <= s.len() - r.len() implies #[trigger] depth(s.skip(k)) <= depth(
        r,
    ) by {
        if k > s.len() - m.len() {
            let j = k - (s.len() - m.len());
            assert(s.skip(k) =~= m.skip(j));
            assert(depth(m.skip(j)) <= depth(r));
        } else {
            assert(depth(s.skip(k)) <= depth(m));
        }
    }
}

/// Reading one character that is no parenthesis is balanced.
proof fn lemma_balanced_plain(s: Seq<char>)
    requires
        s.len() > 0,
        s[0] != '(',
        s[0] != ')',
    ensures
        balanced_to(s, s.drop_first()),
{
    assert forall|k: int| 0 <= k <= s.len() - s.drop_first().len() implies #[trigger] depth(
        s.skip(k),
    ) <= depth(s.drop_first()) by {
        if k == 0 {
            assert(s.skip(0) =~= s);
        } else {
            assert(s.skip(1) =~= s.drop_first());
        }
    }
}

proof fn lemma_skip_spaces_balanced(s: Seq<char>)
    ensures
        balanced_to(s, skip_spaces(s)),
    decreases s.len(),
{
    if s.len() > 0 && s[0] == ' ' {
        lemma_skip_spaces_balanced(s.drop_first());
        lemma_balanced_plain(s);
        lemma_drop_first_suffix(s);
        lemma_skip_spaces(s.drop_first());
        lemma_balanced_trans(s, s.drop_first(), skip_spaces(s.drop_first()));
    } else {
        lemma_balanced_refl(s);
    }
}

proof fn lemma_digit_run_balanced(s: Seq<char>)
    ensures
        balanced_to(s, s.skip(digit_run_len(s) as int)),
    decreases s.len(),
{
    if s.len() > 0 && is_digit(s[0]) {
        let n = digit_run_len(s);
        lemma_digit_run_balanced(s.drop_first());
        lemma_balanced_plain(s);
        lemma_drop_first_suffix(s);
        lemma_digit_run(s.drop_first());
        assert(s.drop_first().skip(n - 1) =~= s.skip(n as int));
        lemma_skip_suffix(s.drop_first(), n - 1);
        lemma_balanced_trans(s, s.drop_first(), s.skip(n as int));
    } else {
        assert(s.skip(0) =~= s);
        lemma_balanced_refl(s);
    }
}

/// A literal reads a balanced stretch.
pub proof fn lemma_parse_digit_balanced(s: Seq<char>)
    ensures
        reads_balanced(s, spec_parse_digit(s)),
{
    let s1 = skip_spaces(s);
    lemma_skip_spaces(s);
    lemma_skip_spaces_balanced(s);
    let neg = s1.len() > 0 && s1[0] == '-';
    let s2 = if neg {
        skip_spaces(s1.drop_first())
    } else {
        s1
    };
    if neg {
        lemma_skip_spaces(s1.drop_first());
        lemma_skip_spaces_balanced(s1.drop_first());
        lemma_drop_first_suffix(s1);
        lemma_balanced_plain(s1);
        lemma_balanced_trans(s1, s1.drop_first(), s2);
        lemma_suffix_trans(s2, s1.drop_first(), s1);
    } else {
        assert(s1.skip(0) =~= s1);
        lemma_balanced_refl(s1);
    }
    lemma_balanced_trans(s, s1, s2);
    lemma_suffix_trans(s2, s1, s);
    let n = digit_run_len(s2);
    lemma_digit_run(s2);
    lemma_digit_run_balanced(s2);
    lemma_skip_suffix(s2, n as int);
    lemma_balanced_trans(s, s2, s2.skip(n as int));
}

/// A parenthesized expression reads a balanced stretch.
pub proof fn lemma_parens_balanced(s: Seq<char>)
    ensures
        reads_balanced(s, spec_parens(s)),
    decreases s.len(), 0int,
{
    if s.len() > 0 && s[0] == ' ' {
        lemma_parens_balanced(s.drop_first());
        lemma_parens_suffix(s.drop_first());
        lemma_drop_first_suffix(s);
        lemma_balanced_plain(s);
        if let Ok((r, _)) = spec_parens(s.drop_first()) {
            lemma_balanced_trans(s, s.drop_first(), r);
        }
    } else if s.len() > 0 && s[0] == '(' {
        let inner = s.drop_first();
        lemma_expr_balanced(inner);
        lemma_expr_suffix(inner);
        if let Ok((r, _)) = spec_expr(inner) {
            if r.len() > 0 && r[0] == ')' {
                let r1 = r.drop_first();
                let rest = skip_spaces(r1);
                lemma_skip_spaces(r1);
                lemma_skip_spaces_balanced(r1);
                assert(depth(s) == depth(inner) + 1);
                assert(depth(r) == depth(r1) - 1);
                assert forall|k: int| 0 <= k <= s.len() - rest.len() implies #[trigger] depth(
                    s.skip(k),
                ) <= depth(rest) by {
                    if k == 0 {
                        assert(s.skip(0) =~= s);
                    } else if k <= s.len() - r.len() {
                        assert(s.skip(k) =~= inner.skip(k - 1));
                        assert(depth(inner.skip(k - 1)) <= depth(r));
                    } else {
                        let j = k - (s.len() - r1.len());
                        assert(s.skip(k) =~= r1.skip(j));
                        assert(depth(r1.skip(j)) <= depth(rest));
                    }
                }
            }
        }
    }
}

/// A factor reads a balanced stretch.
pub proof fn lemma_factor_balanced(s: Seq<char>)
    ensures
        reads_balanced(s, spec_factor(s)),
    decreases s.len(), 1int,
{
    lemma_parse_digit_balanced(s);
    lemma_parse_digit_suffix(s);
    lemma_parens_balanced(s);
    if let Ok((r, _)) = spec_parse_digit(s) {
        lemma_skip_spaces(r);
        lemma_skip_spaces_balanced(r);
        lemma_balanced_trans(s, r, skip_spaces(r));
    }
}

/// The fold of `{ ('*' | '/') factor }` reads a balanced stretch.
pub proof fn lemma_term_tail_balanced(s: Seq<char>, acc: i64)
    ensures
        reads_balanced(s, spec_term_tail(s, acc)),
    decreases s.len(), 0int,
{
    lemma_balanced_refl(s);
    if s.len() > 0 && (s[0] == '*' || s[0] == '/') {
        let s1 = s.drop_first();
        lemma_factor_balanced(s1);
        lemma_factor_suffix(s1);
        lemma_drop_first_suffix(s);
        lemma_balanced_plain(s);
        if let Ok((r, v)) = spec_factor(s1) {
            if r.len() < s.len() && !(s[0] == '/' && v == 0) {
                let acc2 = crate::grammar::apply_mul_op(s[0], acc, v);
                lemma_term_tail_balanced(r, acc2);
                lemma_term_tail_suffix(r, acc2);
                lemma_balanced_trans(s, s1, r);
                lemma_suffix_trans(r, s1, s);
                if let Ok((q, _)) = spec_term_tail(r, acc2) {
                    lemma_balanced_trans(s, r, q);
                }
            }
        }
    }
}

/// A term reads a balanced stretch.
pub proof fn lemma_term_balanced(s: Seq<char>)
    ensures
        reads_balanced(s, spec_term(s)),
    decreases s.len(), 2int,
{
    lemma_factor_balanced(s);
    lemma_factor_suffix(s);
    if let Ok((r, v)) = spec_factor(s) {
        lemma_term_tail_balanced(r, v);
        lemma_term_tail_suffix(r, v);
        if let Ok((q, _)) = spec_term_tail(r, v) {
            lemma_balanced_trans(s, r, q);
        }
    }
}

/// The fold of `{ ('+' | '-') term }` reads a balanced stretch.
pub proof fn lemma_expr_tail_balanced(s: Seq<char>, acc: i64)
    ensures
        reads_balanced(s, spec_expr_tail(s, acc)),
    decreases s.len(), 0int,
{
    lemma_balanced_refl(s);
    if s.len() > 0 && (s[0] == '+' || s[0] == '-') {
        let s1 = s.drop_first();
        lemma_term_balanced(s1);
        lemma_term_suffix(s1);
        lemma_drop_first_suffix(s);
        lemma_balanced_plain(s);
        if let Ok((r, v)) = spec_term(s1) {
            if r.len() < s.len() {
                let acc2 = crate::grammar::apply_add_op(s[0], acc, v);
                lemma_expr_tail_balanced(r, acc2);
                lemma_expr_tail_suffix(r, acc2);
                lemma_balanced_trans(s, s1, r);
                lemma_suffix_trans(r, s1, s);
                if let Ok((q, _)) = spec_expr_tail(r, acc2) {
                    lemma_balanced_trans(s, r, q);
                }
            }
        }
    }
}

/// An expression reads a balanced stretch.
pub proof fn lemma_expr_balanced(s: Seq<char>)
    ensures
        reads_balanced(s, spec_expr(s)),
    decreases s.len(), 3int,
{
    lemma_term_balanced(s);
    lemma_term_suffix(s);
    if let Ok((r, v)) = spec_term(s) {
        lemma_expr_tail_balanced(r, v);
        lemma_expr_tail_suffix(r, v);
        if let Ok((q, _)) = spec_expr_tail(r, v) {
            lemma_balanced_trans(s, r, q);
        }
    }
}

/// `o`, read from a text that `t` was appended to.
pub open spec fn with_tail(o: Outcome, t: Seq<char>) -> Outcome {
    match o {
        Ok((r, v)) => Ok((r + t, v)),
        Err(e) => Err(e),
    }
}

/// `t` starts with a closing parenthesis.
pub open spec fn starts_closing(t: Seq<char>) -> bool {
    t.len() > 0 && t[0] == ')'
}

proof fn lemma_closed_suffix(u: Seq<char>, r: Seq<char>)
    requires
        closed(u),
        is_suffix(r, u),
    ensures
        closed(r),
{
    assert forall|k: int| 0 <= k <= r.len() implies #[trigger] depth(r.skip(k)) <= 0 by {
        assert(r.skip(k) =~= u.skip(u.len() - r.len() + k));
    }
}

proof fn lemma_append_first(u: Seq<char>, t: Seq<char>)
    requires
        u.len() > 0,
    ensures
        (u + t)[0] == u[0],
        (u + t).drop_first() == u.drop_first() + t,
{
    assert((u + t).drop_first() =~= u.drop_first() + t);
}

proof fn lemma_skip_spaces_append(x: Seq<char>, t: Seq<char>)
    requires
        starts_closing(t),
    ensures
        skip_spaces(x + t) == skip_spaces(x) + t,
    decreases x.len(),
{
    if x.len() > 0 {
        lemma_append_first(x, t);
        lemma_skip_spaces_append(x.drop_first(), t);
    } else {
        assert(x + t =~= t);
        assert(skip_spaces(x) + t =~= t);
    }
}

proof fn lemma_digit_run_append(x: Seq<char>, t: Seq<char>)
    requires
        starts_closing(t),
    ensures
        digit_run_len(x + t) == digit_run_len(x),
    decreases x.len(),
{
    if x.len() > 0 {
        lemma_append_first(x, t);
        lemma_digit_run_append(x.drop_first(), t);
    } else {
        assert(x + t =~= t);
    }
}

/// A literal reads the same from a text followed by `)`.
proof fn lemma_parse_digit_append(u: Seq<char>, t: Seq<char>)
    requires
        starts_closing(t),
    ensures
        spec_parse_digit(u + t) == with_tail(spec_parse_digit(u), t),
{
    let a1 = skip_spaces(u);
    lemma_skip_spaces_append(u, t);
    if a1.len() > 0 {
        lemma_append_first(a1, t);
    } else {
        assert(a1 + t =~= t);
    }
    let neg = a1.len() > 0 && a1[0] == '-';
    let a2 = if neg {
        skip_spaces(a1.drop_first())
    } else {
        a1
    };
    if neg {
        lemma_skip_spaces_append(a1.drop_first(), t);
    }
    let n = digit_run_len(a2);
    lemma_digit_run_append(a2, t);
    lemma_digit_run(a2);
    assert((a2 + t).take(n as int) =~= a2.take(n as int));
    assert((a2 + t).skip(n as int) =~= a2.skip(n as int) + t);
}

/// A parenthesized expression reads the same from a closed text followed
/// by `)`.
proof fn lemma_parens_append(u: Seq<char>, t: Seq<char>)
    requires
        closed(u),
        starts_closing(t),
    ensures
        spec_parens(u + t) == with_tail(spec_parens(u), t),
    decreases u.len(), 0int,
{
    if u.len() > 0 {
        lemma_append_first(u, t);
        lemma_drop_first_suffix(u);
        lemma_closed_suffix(u, u.drop_first());
        if u[0] == ' ' {
            lemma_parens_append(u.drop_first(), t);
        } else if u[0] == '(' {
            let inner = u.drop_first();
            lemma_expr_append(inner, t);
            lemma_expr_balanced(inner);
            if let Ok((r, _)) = spec_expr(inner) {
                if r.len() == 0 {
                    assert(u.skip(0) =~= u);
                    assert(depth(u.skip(0)) <= 0);
                    assert(depth(r) == 0);
                    assert(depth(u) == depth(inner) + 1);
                    assert(false);
                }
                lemma_append_first(r, t);
                if r[0] == ')' {
                    lemma_skip_spaces_append(r.drop_first(), t);
                }
            }
        }
    } else {
        assert(u + t =~= t);
    }
}

/// A factor reads the same from a closed text followed by `)`.
proof fn lemma_factor_append(u: Seq<char>, t: Seq<char>)
    requires
        closed(u),
        starts_closing(t),
    ensures
        spec_factor(u + t) == with_tail(spec_factor(u), t),
    decreases u.len(), 1int,
{
    lemma_parse_digit_append(u, t);
    lemma_parens_append(u, t);
    if let Ok((r, _)) = spec_parse_digit(u) {
        lemma_skip_spaces_append(r, t);
    }
}

/// The fold of `{ ('*' | '/') factor }` reads the same from a closed text
/// followed by `)`.
proof fn lemma_term_tail_append(u: Seq<char>, t: Seq<char>, acc: i64)
    requires
        closed(u),
        starts_closing(t),
    ensures
        spec_term_tail(u + t, acc) == with_tail(spec_term_tail(u, acc), t),
    decreases u.len(), 0int,
{
    if u.len() > 0 {
        lemma_append_first(u, t);
        let u1 = u.drop_first();
        if u[0] == '*' || u[0] == '/' {
            lemma_drop_first_suffix(u);
            lemma_closed_suffix(u, u1);
            lemma_factor_append(u1, t);
            lemma_factor_suffix(u1);
            if let Ok((r, v)) = spec_factor(u1) {
                if r.len() < u.len() && !(u[0] == '/' && v == 0) {
                    lemma_closed_suffix(u1, r);
                    lemma_term_tail_append(r, t, crate::grammar::apply_mul_op(u[0], acc, v));
                }
            }
        }
    } else {
        assert(u + t =~= t);
    }
}

/// A term reads the same from a closed text followed by `)`.
proof fn lemma_term_append(u: Seq<char>, t: Seq<char>)
    requires
        closed(u),
        starts_closing(t),
    ensures
        spec_term(u + t) == with_tail(spec_term(u), t),
    decreases u.len(), 2int,
{
    lemma_factor_append(u, t);
    lemma_factor_suffix(u);
    if let Ok((r, v)) = spec_factor(u) {
        lemma_closed_suffix(u, r);
        lemma_term_tail_append(r, t, v);
    }
}

/// The fold of `{ ('+' | '-') term }` reads the same from a closed text
/// followed by `)`.
proof fn lemma_expr_tail_append(u: Seq<char>, t: Seq<char>, acc: i64)
    requires
        closed(u),
        starts_closing(t),
    ensures
        spec_expr_tail(u + t, acc) == with_tail(spec_expr_tail(u, acc), t),
    decreases u.len(), 0int,
{
    if u.len() > 0 {
        lemma_append_first(u, t);
        let u1 = u.drop_first();
        if u[0] == '+' || u[0] == '-' {
            lemma_drop_first_suffix(u);
            lemma_closed_suffix(u, u1);
            lemma_term_append(u1, t);
            lemma_term_suffix(u1);
            if let Ok((r, v)) = spec_term(u1) {
                if r.len() < u.len() {
                    lemma_closed_suffix(u1, r);
                    lemma_expr_tail_append(r, t, crate::grammar::apply_add_op(u[0], acc, v));
                }
            }
        }
    } else {
        assert(u + t =~= t);
    }
}

/// An expression reads the same from a closed text followed by `)`.
proof fn lemma_expr_append(u: Seq<char>, t: Seq<char>)
    requires
        closed(u),
        starts_closing(t),
    ensures
        spec_expr(u + t) == with_tail(spec_expr(u), t),
    decreases u.len(), 3int,
{
    lemma_term_append(u, t);
    lemma_term_suffix(u);
    if let Ok((r, v)) = spec_term(u) {
        lemma_closed_suffix(u, r);
        lemma_expr_tail_append(r, t, v);
    }
}

/// Parentheses around a whole valid expression change neither its value
/// nor what it leaves: `(x)` reads as `x` does.
pub proof fn lemma_grouping(x: Seq<char>)
    requires
        spec_expr(x) is Ok,
        spec_expr(x)->Ok_0.0.len() == 0,
    ensures
        spec_expr(seq!['('] + x + seq![')']) == spec_expr(x),
{
    let v = spec_expr(x)->Ok_0.1;
    let close: Seq<char> = seq![')'];
    let w = seq!['('] + x + close;
    lemma_expr_balanced(x);
    assert(spec_expr(x)->Ok_0.0 =~= Seq::<char>::empty());
    assert(depth(Seq::<char>::empty()) == 0);
    assert(closed(x));
    lemma_expr_append(x, close);
    assert(Seq::<char>::empty() + close =~= close);
    assert(w.drop_first() =~= x + close);
    assert(close.drop_first() =~= Seq::<char>::empty());
    assert(skip_spaces(w) == w);
    assert(digit_run_len(w) == 0);
    assert(spec_parse_digit(w) is Err);
    assert(spec_parens(w) == Ok::<(Seq<char>, i64), crate::ParseError>((Seq::empty(), v)));
    assert(spec_factor(w) == Ok::<(Seq<char>, i64), crate::ParseError>((Seq::empty(), v)));
    assert(spec_term(w) == Ok::<(Seq<char>, i64), crate::ParseError>((Seq::empty(), v)));
}

/// `o`, read from a text that the spaces `w` were appended to: a rule that
/// read to the end reads the spaces too.
pub open spec fn absorbing(o: Outcome, w: Seq<char>) -> Outcome {
    match o {
        Ok((r, v)) => Ok((if r.len() == 0 { r } else { r + w }, v)),
        Err(e) => Err(e),
    }
}

proof fn lemma_skip_spaces_then_spaces(x: Seq<char>, w: Seq<char>)
    requires
        all_spaces(w),
    ensures
        skip_spaces(x + w) == (if skip_spaces(x).len() == 0 {
            skip_spaces(x)
        } else {
            skip_spaces(x) + w
        }),
    decreases x.len(),
{
    if x.len() > 0 {
        lemma_append_first(x, w);
        lemma_skip_spaces_then_spaces(x.drop_first(), w);
    } else {
        assert(x + w =~= w);
        lemma_skip_spaces_prefix(w, x);
        assert(w + x =~= w);
    }
}

proof fn lemma_digit_run_then_spaces(x: Seq<char>, w: Seq<char>)
    requires
        all_spaces(w),
    ensures
        digit_run_len(x + w) == digit_run_len(x),
    decreases x.len(),
{
    if x.len() > 0 {
        lemma_append_first(x, w);
        lemma_digit_run_then_spaces(x.drop_first(), w);
    } else {
        assert(x + w =~= w);
        if w.len() > 0 {
            assert(w[0] == ' ');
        }
    }
}

proof fn lemma_parens_of_spaces(w: Seq<char>)
    requires
        all_spaces(w),
    ensures
        spec_parens(w) == Err::<(Seq<char>, i64), crate::ParseError>(crate::ParseError::Syntax),
    decreases w.len(),
{
    if w.len() > 0 {
        assert(w[0] == ' ');
        assert(all_spaces(w.drop_first()));
        lemma_parens_of_spaces(w.drop_first());
    }
}

/// A literal reads the same from a text followed by spaces.
proof fn lemma_parse_digit_then_spaces(u: Seq<char>, w: Seq<char>)
    requires
        all_spaces(w),
    ensures
        spec_parse_digit(u + w) == with_tail(spec_parse_digit(u), w),
{
    let a1 = skip_spaces(u);
    lemma_skip_spaces_then_spaces(u, w);
    if a1.len() > 0 {
        lemma_append_first(a1, w);
        let neg = a1[0] == '-';
        let a2 = if neg {
            skip_spaces(a1.drop_first())
        } else {
            a1
        };
        if neg {
            lemma_skip_spaces_then_spaces(a1.drop_first(), w);
        }
        if a2.len() > 0 {
            let n = digit_run_len(a2);
            lemma_digit_run_then_spaces(a2, w);
            lemma_digit_run(a2);
            assert((a2 + w).take(n as int) =~= a2.take(n as int));
            assert((a2 + w).skip(n as int) =~= a2.skip(n as int) + w);
        }
    }
}

/// A parenthesized expression reads the same from a text followed by
/// spaces, and reads them too where it read to the end.
proof fn lemma_parens_then_spaces(u: Seq<char>, w: Seq<char>)
    requires
        all_spaces(w),
    ensures
        spec_parens(u + w) == absorbing(spec_parens(u), w),
    decreases u.len(), 0int,
{
    if u.len() > 0 {
        lemma_append_first(u, w);
        if u[0] == ' ' {
            lemma_parens_then_spaces(u.drop_first(), w);
        } else if u[0] == '(' {
            let inner = u.drop_first();
            lemma_expr_then_spaces(inner, w);
            if let Ok((r, _)) = spec_expr(inner) {
                if r.len() > 0 {
                    lemma_append_first(r, w);
                    if r[0] == ')' {
                        lemma_skip_spaces_then_spaces(r.drop_first(), w);
                    }
                }
            }
        }
    } else {
        assert(u + w =~= w);
        lemma_parens_of_spaces(w);
    }
}

/// A factor reads the same from a text followed by spaces, and reads them
/// too where it read to the end.
proof fn lemma_factor_then_spaces(u: Seq<char>, w: Seq<char>)
    requires
        all_spaces(w),
    ensures
        spec_factor(u + w) == absorbing(spec_factor(u), w),
    decreases u.len(), 1int,
{
    lemma_parse_digit_then_spaces(u, w);
    lemma_parens_then_spaces(u, w);
    if let Ok((r, _)) = spec_parse_digit(u) {
        lemma_skip_spaces_then_spaces(r, w);
    }
}

/// The fold of `{ ('*' | '/') factor }` reads the same from a non-empty
/// text followed by spaces, and reads them too where it read to the end.
proof fn lemma_term_tail_then_spaces(u: Seq<char>, w: Seq<char>, acc: i64)
    requires
        all_spaces(w),
        u.len() > 0,
    ensures
        spec_term_tail(u + w, acc) == absorbing(spec_term_tail(u, acc), w),
    decreases u.len(), 0int,
{
    lemma_append_first(u, w);
    let u1 = u.drop_first();
    if u[0] == '*' || u[0] == '/' {
        lemma_factor_then_spaces(u1, w);
        lemma_factor_suffix(u1);
        if let Ok((r, v)) = spec_factor(u1) {
            if r.len() > 0 && r.len() < u.len() && !(u[0] == '/' && v == 0) {
                lemma_term_tail_then_spaces(r, w, crate::grammar::apply_mul_op(u[0], acc, v));
            }
        } else if u1.len() == 0 {
            assert(u1 + w =~= w);
        }
    }
}

/// A term reads the same from a text followed by spaces, and reads them too
/// where it read to the end.
proof fn lemma_term_then_spaces(u: Seq<char>, w: Seq<char>)
    requires
        all_spaces(w),
    ensures
        spec_term(u + w) == absorbing(spec_term(u), w),
    decreases u.len(), 2int,
{
    lemma_factor_then_spaces(u, w);
    lemma_factor_suffix(u);
    if let Ok((r, v)) = spec_factor(u) {
        if r.len() > 0 {
            lemma_term_tail_then_spaces(r, w, v);
        }
    }
}

/// The fold of `{ ('+' | '-') term }` reads the same from a non-empty text
/// followed by spaces, and reads them too where it read to the end.
proof fn lemma_expr_tail_then_spaces(u: Seq<char>, w: Seq<char>, acc: i64)
    requires
        all_spaces(w),
        u.len() > 0,
    ensures
        spec_expr_tail(u + w, acc) == absorbing(spec_expr_tail(u, acc), w),
    decreases u.len(), 0int,
{
    lemma_append_first(u, w);
    let u1 = u.drop_first();
    if u[0] == '+' || u[0] == '-' {
        lemma_term_then_spaces(u1, w);
        lemma_term_suffix(u1);
        if let Ok((r, v)) = spec_term(u1) {
            if r.len() > 0 && r.len() < u.len() {
                lemma_expr_tail_then_spaces(r, w, crate::grammar::apply_add_op(u[0], acc, v));
            }
        } else if u1.len() == 0 {
            assert(u1 + w =~= w);
        }
    }
}

/// An expression reads the same from a text followed by spaces, and reads
/// them too where it read to the end.
proof fn lemma_expr_then_spaces(u: Seq<char>, w: Seq<char>)
    requires
        all_spaces(w),
    ensures
        spec_expr(u + w) == absorbing(spec_expr(u), w),
    decreases u.len(), 3int,
{
    lemma_term_then_spaces(u, w);
    lemma_term_suffix(u);
    if let Ok((r, v)) = spec_term(u) {
        if r.len() > 0 {
            lemma_expr_tail_then_spaces(r, w, v);
        }
    }
}

/// Spaces after a whole valid expression change neither its value nor what
/// it leaves.
pub proof fn lemma_expr_trailing_spaces(x: Seq<char>, w: Seq<char>)
    requires
        all_spaces(w),
        spec_expr(x) is Ok,
        spec_expr(x)->Ok_0.0.len() == 0,
    ensures
        spec_expr(x + w) == spec_expr(x),
{
    lemma_expr_then_spaces(x, w);
}

/// `q` is empty or starts with a character that neither a space run nor a
/// digit run can go on with.
pub open spec fn stops_runs(q: Seq<char>) -> bool {
    q.len() == 0 || (q[0] != ' ' && !is_digit(q[0]))
}

proof fn lemma_skip_spaces_nonempty_append(a: Seq<char>, b: Seq<char>)
    requires
        skip_spaces(a).len() > 0,
    ensures
        skip_spaces(a + b) == skip_spaces(a) + b,
    decreases a.len(),
{
    lemma_append_first(a, b);
    if a[0] == ' ' {
        lemma_skip_spaces_nonempty_append(a.drop_first(), b);
    }
}

proof fn lemma_skip_spaces_to_empty(a: Seq<char>)
    requires
        skip_spaces(a).len() == 0,
    ensures
        all_spaces(a),
    decreases a.len(),
{
    if a.len() > 0 {
        lemma_skip_spaces_to_empty(a.drop_first());
        assert forall|k: int| 0 <= k < a.len() implies #[trigger] a[k] == ' ' by {
            if k > 0 {
                assert(a[k] == a.drop_first()[k - 1]);
            }
        }
    }
}

proof fn lemma_digit_run_extend(x: Seq<char>, q: Seq<char>)
    requires
        digit_run_len(x) < x.len() || stops_runs(q),
    ensures
        digit_run_len(x + q) == digit_run_len(x),
    decreases x.len(),
{
    if x.len() > 0 {
        lemma_append_first(x, q);
        if is_digit(x[0]) {
            lemma_digit_run_extend(x.drop_first(), q);
        }
    } else {
        assert(x + q =~= q);
    }
}

proof fn lemma_depth_concat(a: Seq<char>, b: Seq<char>)
    ensures
        depth(a + b) == depth(a) + depth(b),
    decreases a.len(),
{
    if a.len() > 0 {
        lemma_append_first(a, b);
        lemma_depth_concat(a.drop_first(), b);
    } else {
        assert(a + b =~= b);
    }
}

proof fn lemma_parens_opens(s: Seq<char>)
    requires
        spec_parens(s) is Ok,
    ensures
        skip_spaces(s).len() > 0,
        skip_spaces(s)[0] == '(',
    decreases s.len(),
{
    if s[0] == ' ' {
        lemma_parens_opens(s.drop_first());
    }
}

/// An expression that reads `c` and stops at the `)` that starts `r` stops
/// there too, whatever follows `r`.
proof fn lemma_expr_stops_at_closing(c: Seq<char>, r: Seq<char>, q: Seq<char>)
    requires
        starts_closing(r),
        spec_expr(c + r) is Ok,
        spec_expr(c + r)->Ok_0.0 == r,
    ensures
        spec_expr(c + (r + q)) == Ok::<(Seq<char>, i64), crate::ParseError>(
            (r + q, spec_expr(c + r)->Ok_0.1),
        ),
{
    lemma_expr_balanced(c + r);
    assert forall|k: int| 0 <= k <= c.len() implies #[trigger] depth(c.skip(k)) <= 0 by {
        assert((c + r).skip(k) =~= c.skip(k) + r);
        lemma_depth_concat(c.skip(k), r);
    }
    lemma_expr_append(c, r);
    assert(starts_closing(r + q));
    lemma_expr_append(c, r + q);
    if let Ok((r0, _)) = spec_expr(c) {
        assert(r0.len() == 0);
        assert(r0 + (r + q) =~= r + q);
    }
}

/// A parenthesized expression that reads all of `f` reads `f` alone from
/// `f` followed by `q`.
proof fn lemma_parens_extend(f: Seq<char>, q: Seq<char>)
    requires
        stops_runs(q),
        spec_parens(f) is Ok,
        spec_parens(f)->Ok_0.0.len() == 0,
    ensures
        spec_parens(f + q) == Ok::<(Seq<char>, i64), crate::ParseError>(
            (q, spec_parens(f)->Ok_0.1),
        ),
    decreases f.len(),
{
    lemma_append_first(f, q);
    if f[0] == ' ' {
        lemma_parens_extend(f.drop_first(), q);
    } else {
        let inner = f.drop_first();
        lemma_expr_suffix(inner);
        let r = spec_expr(inner)->Ok_0.0;
        let c = inner.take(inner.len() - r.len());
        assert(inner =~= c + r);
        lemma_expr_stops_at_closing(c, r, q);
        assert(inner + q =~= c + (r + q));
        lemma_append_first(r, q);
        lemma_skip_spaces_to_empty(r.drop_first());
        lemma_skip_spaces_prefix(r.drop_first(), q);
        if q.len() > 0 {
            assert(skip_spaces(q) == q);
        }
    }
}

/// A factor that reads all of `f` reads `f` alone from `f` followed by `q`.
proof fn lemma_factor_extend(f: Seq<char>, q: Seq<char>)
    requires
        stops_runs(q),
        spec_factor(f) is Ok,
        spec_factor(f)->Ok_0.0.len() == 0,
    ensures
        spec_factor(f + q) == Ok::<(Seq<char>, i64), crate::ParseError>(
            (q, spec_factor(f)->Ok_0.1),
        ),
{
    if let Ok((r, _)) = spec_parse_digit(f) {
        let s1 = skip_spaces(f);
        lemma_skip_spaces_nonempty_append(f, q);
        let neg = s1[0] == '-';
        let s2 = if neg {
            skip_spaces(s1.drop_first())
        } else {
            s1
        };
        lemma_append_first(s1, q);
        if neg {
            lemma_skip_spaces_nonempty_append(s1.drop_first(), q);
        }
        let n = digit_run_len(s2);
        lemma_digit_run(s2);
        lemma_skip_spaces_to_empty(r);
        if n < s2.len() {
            assert(s2[n as int] == r[0]);
        }
        lemma_digit_run_extend(s2, q);
        assert((s2 + q).take(n as int) =~= s2.take(n as int));
        assert((s2 + q).skip(n as int) =~= r + q);
        lemma_skip_spaces_prefix(r, q);
        if q.len() > 0 {
            assert(skip_spaces(q) == q);
        }
    } else {
        lemma_parens_extend(f, q);
        lemma_parens_opens(f);
        lemma_skip_spaces_nonempty_append(f, q);
        let s1 = skip_spaces(f);
        lemma_append_first(s1, q);
        assert(digit_run_len(s1 + q) == 0);
    }
}

/// Spaces between a text that reads entirely as one factor and a text
/// after it that starts with neither a space nor a digit (an operator, a
/// closing parenthesis) change neither the factor's value nor what it leaves.
pub proof fn lemma_factor_spaces_after(f: Seq<char>, w: Seq<char>, q: Seq<char>)
    requires
        all_spaces(w),
        stops_runs(q),
        spec_factor(f) is Ok,
        spec_factor(f)->Ok_0.0.len() == 0,
    ensures
        spec_factor(f + w + q) == spec_factor(f + q),
        spec_factor(f + q) == Ok::<(Seq<char>, i64), crate::ParseError>(
            (q, spec_factor(f)->Ok_0.1),
        ),
{
    lemma_factor_then_spaces(f, w);
    lemma_factor_extend(f, q);
    lemma_factor_extend(f + w, q);
}

/// A success that left `r` reads the same when text follows `r`, given that
/// `r` is not empty and does not start with one of `ops`: the rule only
/// looked at the first character of what it left.
pub open spec fn stops_before(o: Outcome, ops: Seq<char>) -> bool {
    match o {
        Ok((r, _)) => r.len() > 0 && !ops.contains(r[0]),
        Err(_) => false,
    }
}

proof fn lemma_parse_digit_keeps_rest(u: Seq<char>, q: Seq<char>)
    requires
        stops_before(spec_parse_digit(u), seq![]),
    ensures
        spec_parse_digit(u + q) == with_tail(spec_parse_digit(u), q),
{
    let s1 = skip_spaces(u);
    lemma_skip_spaces_nonempty_append(u, q);
    lemma_append_first(s1, q);
    let neg = s1[0] == '-';
    let s2 = if neg {
        skip_spaces(s1.drop_first())
    } else {
        s1
    };
    if neg {
        lemma_skip_spaces_nonempty_append(s1.drop_first(), q);
    }
    let n = digit_run_len(s2);
    lemma_digit_run(s2);
    lemma_digit_run_extend(s2, q);
    assert((s2 + q).take(n as int) =~= s2.take(n as int));
    assert((s2 + q).skip(n as int) =~= s2.skip(n as int) + q);
}

proof fn lemma_parens_keeps_rest(u: Seq<char>, q: Seq<char>)
    requires
        stops_before(spec_parens(u), seq![]),
    ensures
        spec_parens(u + q) == with_tail(spec_parens(u), q),
    decreases u.len(), 0int,
{
    lemma_append_first(u, q);
    if u[0] == ' ' {
        lemma_parens_keeps_rest(u.drop_first(), q);
    } else {
        let inner = u.drop_first();
        let r = spec_expr(inner)->Ok_0.0;
        assert(!seq!['+', '-', '*', '/'].contains(')'));
        lemma_expr_keeps_rest(inner, q);
        lemma_append_first(r, q);
        lemma_skip_spaces_nonempty_append(r.drop_first(), q);
    }
}

proof fn lemma_factor_keeps_rest(u: Seq<char>, q: Seq<char>)
    requires
        stops_before(spec_factor(u), seq![]),
    ensures
        spec_factor(u + q) == with_tail(spec_factor(u), q),
    decreases u.len(), 1int,
{
    if let Ok((r, _)) = spec_parse_digit(u) {
        lemma_parse_digit_suffix(u);
        if r.len() == 0 {
            assert(skip_spaces(r).len() == 0);
        }
        lemma_parse_digit_keeps_rest(u, q);
        lemma_skip_spaces_nonempty_append(r, q);
    } else {
        lemma_parens_keeps_rest(u, q);
        lemma_parens_opens(u);
        lemma_skip_spaces_nonempty_append(u, q);
        lemma_append_first(skip_spaces(u), q);
        assert(digit_run_len(skip_spaces(u) + q) == 0);
    }
}

proof fn lemma_term_tail_keeps_rest(u: Seq<char>, q: Seq<char>, acc: i64)
    requires
        stops_before(spec_term_tail(u, acc), seq!['*', '/']),
    ensures
        spec_term_tail(u + q, acc) == with_tail(spec_term_tail(u, acc), q),
    decreases u.len(), 0int,
{
    lemma_append_first(u, q);
    if u[0] == '*' || u[0] == '/' {
        let u1 = u.drop_first();
        if let Ok((r, v)) = spec_factor(u1) {
            if !(u[0] == '/' && v == 0) && r.len() < u.len() {
                let acc2 = crate::grammar::apply_mul_op(u[0], acc, v);
                if r.len() == 0 {
                    assert(spec_term_tail(r, acc2) == Ok::<(Seq<char>, i64), crate::ParseError>(
                        (r, acc2),
                    ));
                    assert(false);
                }
                lemma_factor_keeps_rest(u1, q);
                lemma_term_tail_keeps_rest(r, q, acc2);
            } else {
                assert(seq!['*', '/'].contains(u[0]));
            }
        } else {
            assert(seq!['*', '/'].contains(u[0]));
        }
    }
}

proof fn lemma_term_keeps_rest(u: Seq<char>, q: Seq<char>)
    requires
        stops_before(spec_term(u), seq!['*', '/']),
    ensures
        spec_term(u + q) == with_tail(spec_term(u), q),
    decreases u.len(), 2int,
{
    lemma_factor_suffix(u);
    let r = spec_factor(u)->Ok_0.0;
    let v = spec_factor(u)->Ok_0.1;
    if r.len() == 0 {
        assert(false);
    }
    lemma_factor_keeps_rest(u, q);
    lemma_term_tail_keeps_rest(r, q, v);
}

proof fn lemma_expr_tail_keeps_rest(u: Seq<char>, q: Seq<char>, acc: i64)
    requires
        stops_before(spec_expr_tail(u, acc), seq!['+', '-', '*', '/']),
    ensures
        spec_expr_tail(u + q, acc) == with_tail(spec_expr_tail(u, acc), q),
    decreases u.len(), 0int,
{
    lemma_append_first(u, q);
    if u[0] == '+' || u[0] == '-' {
        let u1 = u.drop_first();
        if let Ok((r, v)) = spec_term(u1) {
            if r.len() < u.len() {
                let acc2 = crate::grammar::apply_add_op(u[0], acc, v);
                if r.len() == 0 {
                    assert(spec_expr_tail(r, acc2) == Ok::<(Seq<char>, i64), crate::ParseError>(
                        (r, acc2),
                    ));
                    assert(false);
                }
                if seq!['*', '/'].contains(r[0]) {
                    assert(spec_expr_tail(r, acc2) == Ok::<(Seq<char>, i64), crate::ParseError>(
                        (r, acc2),
                    ));
                    assert(false);
                }
                lemma_term_keeps_rest(u1, q);
                lemma_expr_tail_keeps_rest(r, q, acc2);
            } else {
                assert(seq!['+', '-', '*', '/'].contains(u[0]));
            }
        } else {
            assert(seq!['+', '-', '*', '/'].contains(u[0]));
        }
    }
}

proof fn lemma_expr_keeps_rest(u: Seq<char>, q: Seq<char>)
    requires
        stops_before(spec_expr(u), seq!['+', '-', '*', '/']),
    ensures
        spec_expr(u + q) == with_tail(spec_expr(u), q),
    decreases u.len(), 3int,
{
    lemma_term_suffix(u);
    let r = spec_term(u)->Ok_0.0;
    let v = spec_term(u)->Ok_0.1;
    if r.len() == 0 {
        assert(false);
    }
    if seq!['*', '/'].contains(r[0]) {
        assert(!(r[0] == '+' || r[0] == '-'));
        assert(spec_expr_tail(r, v) == Ok::<(Seq<char>, i64), crate::ParseError>((r, v)));
        assert(seq!['+', '-', '*', '/'].contains(r[0]));
        assert(false);
    }
    lemma_term_keeps_rest(u, q);
    lemma_expr_tail_keeps_rest(r, q, v);
}

/// `o` read all of its text.
pub open spec fn reads_all(o: Outcome) -> bool {
    o is Ok && o->Ok_0.0.len() == 0
}

proof fn lemma_term_tail_spaces_before(u: Seq<char>, w: Seq<char>, q: Seq<char>, acc: i64)
    requires
        all_spaces(w),
        stops_runs(q),
        u.len() > 0,
        reads_all(spec_term_tail(u, acc)),
    ensures
        spec_term_tail(u + w + q, acc) == spec_term_tail(u + q, acc),
    decreases u.len(),
{
    let u1 = u.drop_first();
    lemma_append_first(u, q);
    lemma_append_first(u + w, q);
    lemma_append_first(u, w);
    assert((u + w + q).drop_first() =~= u1 + w + q);
    lemma_factor_suffix(u1);
    let r = spec_factor(u1)->Ok_0.0;
    let v1 = spec_factor(u1)->Ok_0.1;
    let acc2 = crate::grammar::apply_mul_op(u[0], acc, v1);
    if r.len() == 0 {
        lemma_factor_spaces_after(u1, w, q);
    } else {
        lemma_factor_keeps_rest(u1, q);
        lemma_factor_keeps_rest(u1, w + q);
        assert(u1 + w + q =~= u1 + (w + q));
        assert(r + (w + q) =~= r + w + q);
        lemma_term_tail_spaces_before(r, w, q, acc2);
    }
}

/// The fold of `{ ('*' | '/') factor }` fails only on a division by zero.
proof fn lemma_term_tail_no_syntax(s: Seq<char>, acc: i64)
    ensures
        spec_term_tail(s, acc) != Err::<(Seq<char>, i64), crate::ParseError>(
            crate::ParseError::Syntax,
        ),
    decreases s.len(),
{
    if s.len() > 0 && (s[0] == '*' || s[0] == '/') {
        if let Ok((r, v)) = spec_factor(s.drop_first()) {
            if r.len() < s.len() && !(s[0] == '/' && v == 0) {
                lemma_term_tail_no_syntax(r, crate::grammar::apply_mul_op(s[0], acc, v));
            }
        }
    }
}

proof fn lemma_term_spaces_before(u: Seq<char>, w: Seq<char>, q: Seq<char>)
    requires
        all_spaces(w),
        stops_runs(q),
        reads_all(spec_term(u)),
    ensures
        spec_term(u + w + q) == spec_term(u + q),
        spec_term(u + q) != Err::<(Seq<char>, i64), crate::ParseError>(
            crate::ParseError::Syntax,
        ),
{
    lemma_factor_suffix(u + q);
    if let Ok((r2, v2)) = spec_factor(u + q) {
        lemma_term_tail_no_syntax(r2, v2);
    }
    lemma_factor_suffix(u);
    let r = spec_factor(u)->Ok_0.0;
    let v1 = spec_factor(u)->Ok_0.1;
    if r.len() == 0 {
        lemma_factor_spaces_after(u, w, q);
    } else {
        lemma_factor_keeps_rest(u, q);
        lemma_factor_keeps_rest(u, w + q);
        assert(u + w + q =~= u + (w + q));
        assert(r + (w + q) =~= r + w + q);
        lemma_term_tail_spaces_before(r, w, q, v1);
    }
}

proof fn lemma_expr_tail_spaces_before(u: Seq<char>, w: Seq<char>, q: Seq<char>, acc: i64)
    requires
        all_spaces(w),
        stops_runs(q),
        u.len() > 0,
        reads_all(spec_expr_tail(u, acc)),
    ensures
        spec_expr_tail(u + w + q, acc) == spec_expr_tail(u + q, acc),
    decreases u.len(),
{
    let u1 = u.drop_first();
    lemma_append_first(u, q);
    lemma_append_first(u + w, q);
    lemma_append_first(u, w);
    assert((u + w + q).drop_first() =~= u1 + w + q);
    lemma_term_suffix(u1);
    let r = spec_term(u1)->Ok_0.0;
    let v1 = spec_term(u1)->Ok_0.1;
    let acc2 = crate::grammar::apply_add_op(u[0], acc, v1);
    if r.len() == 0 {
        lemma_term_spaces_before(u1, w, q);
        lemma_term_suffix(u1 + q);
    } else {
        if !(r[0] == '+' || r[0] == '-') {
            assert(spec_expr_tail(r, acc2) == Ok::<(Seq<char>, i64), crate::ParseError>(
                (r, acc2),
            ));
        }
        assert(!seq!['*', '/'].contains(r[0]));
        lemma_term_keeps_rest(u1, q);
        lemma_term_keeps_rest(u1, w + q);
        assert(u1 + w + q =~= u1 + (w + q));
        assert(r + (w + q) =~= r + w + q);
        lemma_expr_tail_spaces_before(r, w, q, acc2);
    }
}

/// Spaces between a text that reads entirely as an expression and a text
/// after it that starts with neither a space nor a digit (an operator, a
/// closing parenthesis) change neither the value nor what is left.
pub proof fn lemma_expr_spaces_before(u: Seq<char>, w: Seq<char>, q: Seq<char>)
    requires
        all_spaces(w),
        stops_runs(q),
        reads_all(spec_expr(u)),
    ensures
        spec_expr(u + w + q) == spec_expr(u + q),
{
    lemma_term_suffix(u);
    let r = spec_term(u)->Ok_0.0;
    let v1 = spec_term(u)->Ok_0.1;
    if r.len() == 0 {
        lemma_term_spaces_before(u, w, q);
        lemma_term_suffix(u + q);
    } else {
        if !(r[0] == '+' || r[0] == '-') {
            assert(spec_expr_tail(r, v1) == Ok::<(Seq<char>, i64), crate::ParseError>((r, v1)));
        }
        assert(!seq!['*', '/'].contains(r[0]));
        lemma_term_keeps_rest(u, q);
        lemma_term_keeps_rest(u, w + q);
        assert(u + w + q =~= u + (w + q));
        assert(r + (w + q) =~= r + w + q);
        lemma_expr_tail_spaces_before(r, w, q, v1);
    }
}

/// Dividing a factor by a factor that reads as zero fails the whole
/// expression with a division by zero, never with a value.
pub proof fn lemma_division_by_zero(a: Seq<char>, b: Seq<char>)
    requires
        reads_all(spec_factor(a)),
        reads_all(spec_factor(b)),
        spec_factor(b)->Ok_0.1 == 0,
    ensures
        spec_expr(a + seq!['/'] + b) == Err::<(Seq<char>, i64), crate::ParseError>(
            crate::ParseError::DivisionByZero,
        ),
{
    let q = seq!['/'] + b;
    assert(a + seq!['/'] + b =~= a + q);
    assert(q[0] == '/');
    lemma_factor_extend(a, q);
    assert(q.drop_first() =~= b);
}

} // verus!
