use simple_expr_parser::parse::{parse, ParseError};
use simple_expr_parser::structures::{Expression, Operator, Parentheses};

#[test]
fn parse_test() {
    let one = Expression::from(1);
    let two = Expression::from(2);
    let three = Expression::from(3);
    let a = Expression::from(Parentheses::new(vec![one.clone(), two.clone(), three.clone()], vec![Operator::Add, Operator::Mul]));
    let b = Expression::from(Parentheses::new(vec![a.clone(), two.clone()], vec![Operator::Mul]));
    let c = Expression::from(Parentheses::new(vec![one.clone(), a.clone(), two.clone(), b.clone(), three.clone()], vec![Operator::Add, Operator::Sub, Operator::Mul, Operator::Div]));
    let d = Expression::from(Parentheses::new(vec![Expression::from(Parentheses::new(vec![one.clone()], vec![]))], vec![]));

    assert_eq!(parse("1+2*3"), Ok(a));
    assert_eq!(parse("( 1 +2*3) *2"), Ok(b));
    assert_eq!(parse("1 + (1+2*3) - 2 * ((1+2*3) * 2 ) / 3"), Ok(c));
    assert_eq!(parse("(1)"), Ok(d));

    assert_eq!(parse(""), Err(ParseError::ExceptedExpr(None, 0)));
    assert_eq!(parse("a"), Err(ParseError::ExceptedExpr(Some('a'), 0)));
    assert_eq!(parse("(0"), Err(ParseError::UncloseParentheses));
    assert_eq!(parse("(0+)"), Err(ParseError::ExceptedExpr(Some(')'), 3)));
}

#[test]
fn stray_close_parenthesis() {
    assert_eq!(parse("0)"), Err(ParseError::InvalidCloseParenthese(1)));
    assert_eq!(parse("(1) )"), Err(ParseError::InvalidCloseParenthese(4)));
}

#[test]
fn expected_operator() {
    assert_eq!(parse("1 2"), Err(ParseError::ExceptedOp('2', 2)));
    assert_eq!(parse("(1)(2)"), Err(ParseError::ExceptedOp('(', 3)));
    assert_eq!(parse("1 x"), Err(ParseError::ExceptedOp('x', 2)));
}

#[test]
fn missing_operand_at_end() {
    assert_eq!(parse("1+"), Err(ParseError::ExceptedExpr(None, 2)));
    assert_eq!(parse("  "), Err(ParseError::ExceptedExpr(None, 2)));
    assert_eq!(parse("(1+2"), Err(ParseError::UncloseParentheses));
}

#[test]
fn literal_overflow_carries_text() {
    assert_eq!(parse("18446744073709551616"), Err(ParseError::Overflow("18446744073709551616".to_string())));
    assert_eq!(parse("1+99999999999999999999*2"), Err(ParseError::Overflow("99999999999999999999".to_string())));
}

#[test]
fn largest_literal_fits() {
    let max = Expression::from(u64::MAX);
    let expected = Expression::from(Parentheses::new(vec![max], vec![]));
    assert_eq!(parse("18446744073709551615"), Ok(expected));
}

#[test]
fn leading_zeros_read_as_number() {
    let seven = Expression::from(Parentheses::new(vec![Expression::from(7)], vec![]));
    assert_eq!(parse(" 007 "), Ok(seven));
}

#[test]
fn whitespace_does_not_change_tree() {
    assert_eq!(parse("( 1 +2*3) *2"), parse("(1+2*3)*2"));
    assert_eq!(parse("\t1 *\n 2 "), parse("1*2"));
}

#[test]
fn offsets_count_bytes() {
    assert_eq!(parse("\u{3000}a"), Err(ParseError::ExceptedExpr(Some('a'), 3)));
    assert_eq!(parse("\u{e9}"), Err(ParseError::ExceptedExpr(Some('\u{e9}'), 0)));
    assert_eq!(parse("\u{e9}+1"), Err(ParseError::ExceptedExpr(Some('\u{e9}'), 0)));
    assert_eq!(parse("1+\u{3000}\u{e9}"), Err(ParseError::ExceptedExpr(Some('\u{e9}'), 5)));
    assert_eq!(parse("1\u{3000})"), Err(ParseError::InvalidCloseParenthese(4)));
}
