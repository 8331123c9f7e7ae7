use rpn::{do_operation, evaluate, evaluate_tokens, operator_of, split_tokens, EvalError, Op};

fn apply_f64(op: Op, l: f64, r: f64) -> f64 {
    match op {
        Op::Add => l + r,
        Op::Sub => l - r,
        Op::Mul => l * r,
        Op::Div => l / r,
    }
}

fn eval_f64(raw: &str) -> Result<f64, EvalError> {
    evaluate(raw, |t: &str| t.parse::<f64>().ok(), |v: f64| v == 0.0, apply_f64)
}

fn eval_i64(raw: &str) -> Result<i64, EvalError> {
    evaluate(
        raw,
        |t: &str| t.parse::<i64>().ok(),
        |v: i64| v == 0,
        |op: Op, l: i64, r: i64| match op {
            Op::Add => l + r,
            Op::Sub => l - r,
            Op::Mul => l * r,
            Op::Div => l / r,
        },
    )
}

#[test]
fn basic_integer() {
    assert_eq!(0.25, eval_f64("14 4 6 8 + * /").unwrap());
    assert_eq!(14.0, eval_f64("5 1 2 + 4 * + 3 -").unwrap());
    assert_eq!(0.5, eval_f64("5 4 6 + /").unwrap());
    assert_eq!(2.0, eval_f64("2 5 * 4 + 3 2 * 1 + /").unwrap());
}

#[test]
fn basic_floating_point() {
    assert_eq!(20.04, eval_f64("5.5 1.3 2.3 + 4.9 * + 3.1 -").unwrap());
    assert_eq!(11.25, eval_f64("1.5 3.0 4.5 + *").unwrap());
}

#[test]
fn negative() {
    assert_eq!(-2503.0, eval_f64("-4 -9 -33 -76 * + -").unwrap());
    assert_eq!(2653660.0, eval_f64("-56 -34 + -54 * 43 23 54 + * -800 * -").unwrap());
}

#[test]
fn divide_by_zero() {
    assert_eq!(Err(EvalError::DivisionByZero), eval_f64("2 0 /"));
}

#[test]
fn invalid_input_1() {
    assert_eq!(Err(EvalError::UnknownToken(String::new())), eval_f64(""));
}

#[test]
fn invalid_input_2() {
    assert_eq!(Err(EvalError::UnknownToken(".".to_string())), eval_f64("14 4 6 8 + . /"));
}

#[test]
fn invalid_input_3() {
    assert_eq!(Err(EvalError::UnknownToken("POTATO".to_string())), eval_f64("POTATO"));
}

#[test]
fn invalid_input_4() {
    assert_eq!(Err(EvalError::UnknownToken("O".to_string())), eval_f64("54 4 6 O + \\ /"));
}

#[test]
fn long_equation() {
    let mut eq = "2 ".to_string();
    for _ in 0..2000000 {
        eq.push_str("2 + ");
    }

    eq.push_str("1 +");

    assert_eq!(4000003.0, eval_f64(&eq).unwrap());
}

#[test]
fn too_few_operators_leaves_values() {
    assert_eq!(
        Err(EvalError::MalformedExpression { expected: 1, actual: 3 }),
        eval_f64("1 2 3 4 +")
    );
    assert_eq!(
        Err(EvalError::MalformedExpression { expected: 1, actual: 2 }),
        eval_f64("1 2")
    );
}

#[test]
fn no_operands_at_all() {
    let toks: Vec<&str> = Vec::new();
    assert_eq!(
        Err(EvalError::MalformedExpression { expected: 1, actual: 0 }),
        evaluate_tokens(&toks, |t: &str| t.parse::<f64>().ok(), |v: f64| v == 0.0, apply_f64)
    );
}

#[test]
fn operator_without_operands_underflows() {
    assert_eq!(Err(EvalError::StackUnderflow), eval_f64("+"));
    assert_eq!(Err(EvalError::StackUnderflow), eval_f64("3 *"));
    assert_eq!(Err(EvalError::StackUnderflow), eval_f64("1 2 + -"));
}

#[test]
fn unknown_operator_with_operands() {
    assert_eq!(Err(EvalError::UnknownToken("%".to_string())), eval_f64("7 2 %"));
    assert_eq!(Err(EvalError::UnknownToken("4a".to_string())), eval_f64("4a 1 +"));
    assert_eq!(Err(EvalError::UnknownToken("1\t2".to_string())), eval_f64("1\t2"));
}

#[test]
fn first_error_wins() {
    assert_eq!(Err(EvalError::DivisionByZero), eval_f64("1 0 / POTATO"));
    assert_eq!(Err(EvalError::UnknownToken("x".to_string())), eval_f64("x 1 0 /"));
    assert_eq!(Err(EvalError::StackUnderflow), eval_f64("+ POTATO"));
}

#[test]
fn negative_zero_divisor_is_zero() {
    assert_eq!(Err(EvalError::DivisionByZero), eval_f64("5 -0.0 /"));
}

#[test]
fn zero_dividend_is_fine() {
    assert_eq!(0.0, eval_f64("0 5 /").unwrap());
}

#[test]
fn spaces_make_empty_tokens() {
    assert_eq!(Err(EvalError::UnknownToken(String::new())), eval_f64(" 1"));
    assert_eq!(Err(EvalError::UnknownToken(String::new())), eval_f64("1 "));
    assert_eq!(Err(EvalError::UnknownToken(String::new())), eval_f64("1  2 +"));
}

#[test]
fn single_operand() {
    assert_eq!(14.0, eval_f64("14").unwrap());
}

#[test]
fn operand_order_matters() {
    assert_eq!(7.0, eval_f64("10 3 -").unwrap());
    assert_eq!(2.5, eval_f64("5 2 /").unwrap());
    assert_eq!(-7.0, eval_f64("3 10 -").unwrap());
}

#[test]
fn same_text_twice_same_outcome() {
    let text = "5.5 1.3 2.3 + 4.9 * + 3.1 -";
    assert_eq!(eval_f64(text), eval_f64(text));
    assert_eq!(eval_f64("1 2 3"), eval_f64("1 2 3"));
    assert_eq!(eval_f64("2 0 /"), eval_f64("2 0 /"));
}

#[test]
fn integer_operands() {
    assert_eq!(Ok(14), eval_i64("5 1 2 + 4 * + 3 -"));
    assert_eq!(Ok(3), eval_i64("7 2 /"));
    assert_eq!(Err(EvalError::DivisionByZero), eval_i64("7 0 /"));
    assert_eq!(Err(EvalError::UnknownToken("1.5".to_string())), eval_i64("1.5 2 +"));
}

#[test]
fn split_on_single_spaces() {
    assert_eq!(vec!["14", "4", "+"], split_tokens("14 4 +"));
    assert_eq!(vec![""], split_tokens(""));
    assert_eq!(vec!["", "a", "", "b", ""], split_tokens(" a  b "));
    assert_eq!(vec!["é", "ß"], split_tokens("é ß"));
    assert_eq!(vec!["a\tb"], split_tokens("a\tb"));
}

#[test]
fn operators_are_single_symbols() {
    assert_eq!(Some(Op::Add), operator_of("+"));
    assert_eq!(Some(Op::Sub), operator_of("-"));
    assert_eq!(Some(Op::Mul), operator_of("*"));
    assert_eq!(Some(Op::Div), operator_of("/"));
    assert_eq!(None, operator_of("++"));
    assert_eq!(None, operator_of(""));
    assert_eq!(None, operator_of("x"));
    assert_eq!(None, operator_of("÷"));
}

#[test]
fn do_operation_keeps_operand_order() {
    assert_eq!(3.0, do_operation(|l: f64, r: f64| l - r, 5.0, 2.0));
    assert_eq!(2.5, do_operation(|l: f64, r: f64| l / r, 5.0, 2.0));
}
