use simple_expr_parser::parse::parse;
use simple_expr_parser::rational::Value;
use simple_expr_parser::structures::{EvaluationError, Expression, Operator, Parentheses};

fn value(negative: bool, numer: u64, denom: u64) -> Value {
    Value { negative, numer, denom }
}

fn eval_text(text: &str) -> Result<Value, EvaluationError> {
    parse(text).unwrap().eval()
}

#[test]
fn structures_test() {
    let one = Expression::from(1);
    let two = Expression::from(2);
    let three = Expression::from(3);

    let a = Expression::from(Parentheses::new(
        vec![one.clone(), one.clone()], vec![Operator::Add]
    ));
    assert_eq!(a.eval(), two.eval());

    let b = Expression::from(Parentheses::new(
        vec![one.clone(), two.clone()], vec![Operator::Add]
    ));
    assert_eq!(b.eval(), three.eval());

    let c = Expression::from(Parentheses::new(
        vec![three.clone(), one.clone()], vec![Operator::Sub]
    ));
    assert_eq!(c.eval(), two.eval());

    let d = Expression::from(Parentheses::new(
        vec![two.clone(), one.clone()], vec![Operator::Mul]
    ));
    assert_eq!(d.eval(), two.eval());

    let e = Expression::from(Parentheses::new(
        vec![one.clone(), two.clone(), two.clone()], vec![Operator::Div, Operator::Mul]
    ));
    assert_eq!(e.eval(), one.eval());

    let f = Expression::from(Parentheses::new(
        vec![e.clone(), c.clone()], vec![Operator::Mul],
    ));
    assert_eq!(f.eval(), two.eval());

    let g = Expression::from(Parentheses::new(
        vec![one.clone(), e.clone()], vec![Operator::Div],
    ));
    assert_eq!(g.eval(), one.eval());

    let h = Expression::from(Parentheses::new(
        vec![three.clone(), one.clone(), two.clone()], vec![Operator::Sub, Operator::Mul]
    ));
    assert_eq!(h.eval(), one.eval());

    let i = Expression::from(Parentheses::new(
        vec![Expression::from(10u64.pow(10)), Expression::from(10u64.pow(10))], vec![Operator::Mul]
    ));
    assert_eq!(i.eval(), Err(EvaluationError::Overflow));

    let j = Expression::from(Parentheses::new(
        vec![one.clone(), Expression::from(0)], vec![Operator::Div]
    ));
    assert_eq!(j.eval(), Err(EvaluationError::ZeroDivision));
}

#[test]
fn precedence_of_multiplication() {
    assert_eq!(eval_text("1+2*3"), Ok(value(false, 7, 1)));
    assert_eq!(eval_text("1+(2*3)"), Ok(value(false, 7, 1)));
}

#[test]
fn left_to_right_within_a_tier() {
    assert_eq!(eval_text("3-1*2"), Ok(value(false, 1, 1)));
    assert_eq!(eval_text("8-2-1"), Ok(value(false, 5, 1)));
    assert_eq!(eval_text("8/2/2"), Ok(value(false, 2, 1)));
}

#[test]
fn parentheses_change_result() {
    assert_eq!(eval_text("(1+2)*3"), Ok(value(false, 9, 1)));
    assert_ne!(eval_text("(1+2)*3"), eval_text("1+2*3"));
}

#[test]
fn exact_rational_round_trip() {
    assert_eq!(eval_text("1/2*2"), eval_text("1"));
    assert_eq!(eval_text("1/(1/2)"), eval_text("2"));
}

#[test]
fn division_by_zero() {
    assert_eq!(eval_text("1/0"), Err(EvaluationError::ZeroDivision));
    assert_eq!(eval_text("0/0"), Err(EvaluationError::ZeroDivision));
    assert_eq!(eval_text("1/(1-1)"), Err(EvaluationError::ZeroDivision));
}

#[test]
fn overflow_in_evaluation() {
    assert_eq!(eval_text("10000000000*10000000000"), Err(EvaluationError::Overflow));
    assert_eq!(eval_text("18446744073709551615+1"), Err(EvaluationError::Overflow));
}

#[test]
fn results_are_reduced() {
    assert_eq!(eval_text("2/4"), Ok(value(false, 1, 2)));
    assert_eq!(eval_text("1/2+1/3"), Ok(value(false, 5, 6)));
    assert_eq!(eval_text("6/4*2/3"), Ok(value(false, 1, 1)));
    assert_eq!(eval_text("1/3/2"), Ok(value(false, 1, 6)));
}

#[test]
fn negative_results_and_zero() {
    assert_eq!(eval_text("1-3"), Ok(value(true, 2, 1)));
    assert_eq!(eval_text("1-3/2"), Ok(value(true, 1, 2)));
    assert_eq!(eval_text("(1-3)*(0-2)"), Ok(value(false, 4, 1)));
    assert_eq!(eval_text("2-2"), Ok(value(false, 0, 1)));
    assert_eq!(eval_text("(1-2)*0"), Ok(value(false, 0, 1)));
    assert_eq!(eval_text("1/(0-2)"), Ok(value(true, 1, 2)));
}

#[test]
fn whitespace_does_not_change_value() {
    assert_eq!(eval_text("( 1 +2*3) *2"), eval_text("(1+2*3)*2"));
    assert_eq!(eval_text("( 1 +2*3) *2"), Ok(value(false, 14, 1)));
}

#[test]
fn number_evaluates_to_integer() {
    assert_eq!(Expression::from(42).eval(), Ok(Value::from_integer(42)));
    assert_eq!(Value::from_integer(5), value(false, 5, 1));
}

#[test]
fn operator_from_char() {
    assert_eq!(Operator::from_char('+'), Some(Operator::Add));
    assert_eq!(Operator::from_char('-'), Some(Operator::Sub));
    assert_eq!(Operator::from_char('*'), Some(Operator::Mul));
    assert_eq!(Operator::from_char('/'), Some(Operator::Div));
    assert_eq!(Operator::from_char('%'), None);
    assert_eq!(Operator::Mul.precedence(), 0);
    assert_eq!(Operator::Sub.precedence(), 1);
}
