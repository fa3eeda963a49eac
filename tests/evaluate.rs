use simple_calc::calculator::shunting_yard;
use simple_calc::postfix::{binary_op_of, parse_postfix, BinaryOp, EvaluateError, Expr};

fn strings(items: &[&str]) -> Vec<String> {
    items.iter().map(|s| s.to_string()).collect()
}

fn numeric(postfix: &[String]) -> Vec<bool> {
    postfix.iter().map(|t| t.parse::<f64>().is_ok()).collect()
}

fn value(e: &Expr, postfix: &[String]) -> f64 {
    match e {
        Expr::Operand(i) => postfix[*i].parse::<f64>().unwrap(),
        Expr::Apply(op, l, r) => {
            let (a, b) = (value(l, postfix), value(r, postfix));
            match op {
                BinaryOp::Add => a + b,
                BinaryOp::Sub => a - b,
                BinaryOp::Mul => a * b,
                BinaryOp::Div => a / b,
            }
        }
    }
}

fn evaluate(postfix: &[String]) -> Result<f64, EvaluateError> {
    let postfix = postfix.to_vec();
    let e = parse_postfix(&postfix, &numeric(&postfix))?;
    Ok(value(&e, &postfix))
}

fn calc(expression: &str) -> f64 {
    evaluate(&shunting_yard(expression.to_string()).unwrap()).unwrap()
}

#[test]
fn evaluate_precedence_example() {
    assert_eq!(evaluate(&strings(&["3", "4", "2", "*", "+"])), Ok(11.0));
}

#[test]
fn evaluate_builds_left_operand_first() {
    let postfix = strings(&["8", "3", "-"]);
    let e = parse_postfix(&postfix, &numeric(&postfix)).unwrap();
    assert_eq!(
        e,
        Expr::Apply(
            BinaryOp::Sub,
            Box::new(Expr::Operand(0)),
            Box::new(Expr::Operand(1))
        )
    );
}

#[test]
fn evaluate_left_associative_subtraction() {
    assert_eq!(calc("8-3-2"), 3.0);
    assert_eq!(calc("16/4/2"), 2.0);
}

#[test]
fn evaluate_single_literal() {
    for n in ["0", "7", "42", "007", "12345678901234567890"] {
        assert_eq!(evaluate(&strings(&[n])), Ok(n.parse::<f64>().unwrap()));
    }
    let postfix = strings(&["42"]);
    assert_eq!(
        parse_postfix(&postfix, &numeric(&postfix)),
        Ok(Expr::Operand(0))
    );
}

#[test]
fn evaluate_division_by_zero_is_infinite() {
    let r = evaluate(&strings(&["1", "0", "/"])).unwrap();
    assert!(r.is_infinite() && r > 0.0);
    assert!(evaluate(&strings(&["0", "0", "/"])).unwrap().is_nan());
}

#[test]
fn evaluate_whole_expressions() {
    assert_eq!(calc("(1+2)*3"), 9.0);
    assert_eq!(calc("-5+3"), -2.0);
    assert_eq!(calc("2*-3"), -6.0);
    assert_eq!(calc("1+2*(3-4)/5"), 0.6);
}

#[test]
fn evaluate_stack_underflow() {
    assert_eq!(
        evaluate(&strings(&["1", "+"])),
        Err(EvaluateError::StackUnderflow)
    );
    assert_eq!(evaluate(&strings(&["-"])), Err(EvaluateError::StackUnderflow));
}

#[test]
fn evaluate_malformed_number() {
    assert_eq!(
        evaluate(&strings(&["1", "x", "+"])),
        Err(EvaluateError::MalformedNumber)
    );
    assert_eq!(
        evaluate(&strings(&["x", "+"])),
        Err(EvaluateError::MalformedNumber)
    );
}

#[test]
fn evaluate_incomplete_expression() {
    assert_eq!(
        evaluate(&strings(&["1", "2"])),
        Err(EvaluateError::IncompleteExpression)
    );
}

#[test]
fn evaluate_empty_expression() {
    assert_eq!(evaluate(&[]), Err(EvaluateError::EmptyExpression));
}

#[test]
fn binary_op_of_entries() {
    assert_eq!(binary_op_of("+"), Some(BinaryOp::Add));
    assert_eq!(binary_op_of("-"), Some(BinaryOp::Sub));
    assert_eq!(binary_op_of("*"), Some(BinaryOp::Mul));
    assert_eq!(binary_op_of("/"), Some(BinaryOp::Div));
    assert_eq!(binary_op_of("-5"), None);
    assert_eq!(binary_op_of(""), None);
}

#[test]
fn evaluate_twice_gives_same_result() {
    assert_eq!(calc("7*(2-5)/3"), calc("7*(2-5)/3"));
}

#[test]
fn evaluate_tree_of_chained_subtraction() {
    let postfix = shunting_yard("8-3-2".to_string()).unwrap();
    let e = parse_postfix(&postfix, &numeric(&postfix)).unwrap();
    assert_eq!(
        e,
        Expr::Apply(
            BinaryOp::Sub,
            Box::new(Expr::Apply(
                BinaryOp::Sub,
                Box::new(Expr::Operand(0)),
                Box::new(Expr::Operand(1))
            )),
            Box::new(Expr::Operand(3))
        )
    );
}
