use arithmetic::{expr, factor, parens, parse_digit, term, ParseError};

#[test]
fn factor_test() {
    assert_eq!(factor("3"), Ok(("", 3)));
    assert_eq!(factor(" 12"), Ok(("", 12)));
    assert_eq!(factor("537  "), Ok(("", 537)));
    assert_eq!(factor("  24   "), Ok(("", 24)));
}

#[test]
fn term_test() {
    assert_eq!(term(" 12 *2 /  3"), Ok(("", 8)));
    assert_eq!(term(" 2* 3  *2 *2 /  3"), Ok(("", 8)));
    assert_eq!(term(" 48 /  3/2"), Ok(("", 8)));
}

#[test]
fn expr_test() {
    assert_eq!(expr(" 1 +  2 "), Ok(("", 3)));
    assert_eq!(expr(" 12 + 6 - 4+  3"), Ok(("", 17)));
    assert_eq!(expr(" 1 + 2*3 + 4"), Ok(("", 11)));
}

#[test]
fn parens_test() {
    assert_eq!(expr(" (  2 )"), Ok(("", 2)));
    assert_eq!(expr(" 2* (  3 + 4 ) "), Ok(("", 14)));
    assert_eq!(expr("  2*2 / ( 5 - 1) + 3"), Ok(("", 4)));
}

#[test]
fn unary_minus() {
    assert_eq!(expr(" -1"), Ok(("", -1)));
    assert_eq!(expr("-65 + 1 - (- 2)"), Ok(("", -62)));
    assert_eq!(expr("-65 + 1 - -2"), Ok(("", -62)));
    assert_eq!(expr("1 - - 1"), Ok(("", 2)));
}

#[test]
fn left_associative_folds() {
    assert_eq!(expr("12 + 6 - 4 + 3"), Ok(("", 17)));
    assert_eq!(expr("48 / 3 / 2"), Ok(("", 8)));
    assert_eq!(expr("10 - 4 - 3"), Ok(("", 3)));
}

#[test]
fn multiplication_binds_tighter() {
    assert_eq!(expr("1 + 2*3 + 4"), Ok(("", 11)));
    assert_eq!(expr("2*3+4*5"), Ok(("", 26)));
}

#[test]
fn grouping() {
    assert_eq!(expr("2*(3+4)"), Ok(("", 14)));
    assert_eq!(expr("2*2/(5-1)+3"), Ok(("", 4)));
    assert_eq!(expr("((7))"), Ok(("", 7)));
}

#[test]
fn negative_literals() {
    assert_eq!(expr("-1"), Ok(("", -1)));
    assert_eq!(expr("-65 + 1 - (-2)"), Ok(("", -62)));
    assert_eq!(expr("1 - -1"), Ok(("", 2)));
    assert_eq!(factor(" - 7 "), Ok(("", -7)));
}

#[test]
fn minus_before_parenthesis_is_no_literal() {
    assert_eq!(factor("-(1+2)"), Err(ParseError::Syntax));
    assert_eq!(expr("-(1+2)"), Err(ParseError::Syntax));
}

#[test]
fn spaces_between_tokens_change_nothing() {
    assert_eq!(expr("1+2*3"), Ok(("", 7)));
    assert_eq!(expr("  1  +  2  *  3  "), Ok(("", 7)));
    assert_eq!(expr("(1+2)*3"), expr(" ( 1 + 2 ) * 3 "));
}

#[test]
fn division_by_zero_fails() {
    assert_eq!(expr("1/0"), Err(ParseError::DivisionByZero));
    assert_eq!(term("5 / (2 - 2)"), Err(ParseError::DivisionByZero));
    assert_eq!(expr("1 + (3 / 0) * 2"), Err(ParseError::DivisionByZero));
    assert_eq!(factor("(4/0)"), Err(ParseError::DivisionByZero));
}

#[test]
fn division_truncates_toward_zero() {
    assert_eq!(expr("7/2"), Ok(("", 3)));
    assert_eq!(expr("-7/2"), Ok(("", -3)));
    assert_eq!(expr("7/-2"), Ok(("", -3)));
}

#[test]
fn grouping_the_whole_text_changes_nothing() {
    assert_eq!(expr("(2*2/(5-1)+3)"), expr("2*2/(5-1)+3"));
    assert_eq!(expr("(-65 + 1 - (-2))"), Ok(("", -62)));
}

#[test]
fn unread_rest_is_returned() {
    assert_eq!(expr("1 + 2 )"), Ok((")", 3)));
    assert_eq!(expr("3 * x"), Ok(("* x", 3)));
    assert_eq!(term("2 + 3"), Ok(("+ 3", 2)));
    assert_eq!(parse_digit("  42  rest"), Ok(("  rest", 42)));
}

#[test]
fn syntax_errors() {
    assert_eq!(expr(""), Err(ParseError::Syntax));
    assert_eq!(expr("   "), Err(ParseError::Syntax));
    assert_eq!(expr("+1"), Err(ParseError::Syntax));
    assert_eq!(expr("(1 + 2"), Err(ParseError::Syntax));
    assert_eq!(parens("7"), Err(ParseError::Syntax));
    assert_eq!(parse_digit("-"), Err(ParseError::Syntax));
}

#[test]
fn literal_limits() {
    assert_eq!(factor("9223372036854775807"), Ok(("", i64::MAX)));
    assert_eq!(factor("-9223372036854775807"), Ok(("", -i64::MAX)));
    assert_eq!(factor("9223372036854775808"), Err(ParseError::Syntax));
    assert_eq!(factor("-9223372036854775808"), Err(ParseError::Syntax));
    assert_eq!(factor("007"), Ok(("", 7)));
}

#[test]
fn arithmetic_wraps_around() {
    assert_eq!(expr("9223372036854775807 + 1"), Ok(("", i64::MIN)));
    assert_eq!(expr("-9223372036854775807 - 2"), Ok(("", i64::MAX)));
    assert_eq!(expr("4611686018427387904 * 2"), Ok(("", i64::MIN)));
    assert_eq!(expr("(-9223372036854775807 - 1) / -1"), Ok(("", i64::MIN)));
}

#[test]
fn parens_reads_surrounding_spaces() {
    assert_eq!(parens("  ( 1 + 2 )  * 3"), Ok(("* 3", 3)));
}

#[test]
fn non_ascii_rest_is_kept() {
    assert_eq!(expr("1 + 2 éa"), Ok(("éa", 3)));
}
