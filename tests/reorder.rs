use simple_calc::calculator::{shunting_yard, CalcError};
use simple_calc::lexer::{tokenize, TokenizeError};
use simple_calc::reorder::{operator_info, reorder, OperatorInfo, ReorderError};
use simple_calc::token::{Token, TokenKind};

fn strings(items: &[&str]) -> Vec<String> {
    items.iter().map(|s| s.to_string()).collect()
}

fn reorder_text(expression: &str) -> Result<Vec<String>, ReorderError> {
    reorder(&tokenize(expression).unwrap())
}

#[test]
fn reorder_respects_precedence() {
    let tokens = vec![
        Token::new(TokenKind::Number, "3"),
        Token::new(TokenKind::Operator, "+"),
        Token::new(TokenKind::Number, "4"),
        Token::new(TokenKind::Operator, "*"),
        Token::new(TokenKind::Number, "2"),
    ];
    assert_eq!(reorder(&tokens), Ok(strings(&["3", "4", "2", "*", "+"])));
}

#[test]
fn reorder_with_parentheses() {
    assert_eq!(
        reorder_text("(1+2)*3"),
        Ok(strings(&["1", "2", "+", "3", "*"]))
    );
}

#[test]
fn reorder_is_left_associative() {
    assert_eq!(
        reorder_text("8-3-2"),
        Ok(strings(&["8", "3", "-", "2", "-"]))
    );
    assert_eq!(
        reorder_text("8/4*2"),
        Ok(strings(&["8", "4", "/", "2", "*"]))
    );
}

#[test]
fn reorder_higher_precedence_then_lower() {
    assert_eq!(
        reorder_text("2*3+4"),
        Ok(strings(&["2", "3", "*", "4", "+"]))
    );
    assert_eq!(
        reorder_text("1+2*(3-4)/5"),
        Ok(strings(&["1", "2", "3", "4", "-", "*", "5", "/", "+"]))
    );
}

#[test]
fn reorder_keeps_negative_literals() {
    assert_eq!(reorder_text("-5+3"), Ok(strings(&["-5", "3", "+"])));
}

#[test]
fn reorder_empty() {
    assert_eq!(reorder(&vec![]), Ok(vec![]));
}

#[test]
fn reorder_unclosed_parenthesis() {
    assert_eq!(
        reorder_text("(1+2"),
        Err(ReorderError::MismatchedParenthesis)
    );
}

#[test]
fn reorder_unopened_parenthesis() {
    assert_eq!(
        reorder_text("1+2)"),
        Err(ReorderError::MismatchedParenthesis)
    );
    assert_eq!(reorder_text(")("), Err(ReorderError::MismatchedParenthesis));
}

#[test]
fn reorder_unknown_operator() {
    let tokens = vec![
        Token::new(TokenKind::Number, "1"),
        Token::new(TokenKind::Operator, "%"),
        Token::new(TokenKind::Number, "2"),
    ];
    assert_eq!(reorder(&tokens), Err(ReorderError::UnknownOperator));
}

#[test]
fn reorder_unknown_parenthesis_text() {
    let tokens = vec![Token::new(TokenKind::Parenthesis, "[")];
    assert_eq!(reorder(&tokens), Err(ReorderError::MismatchedParenthesis));
}

#[test]
fn operator_table_entries() {
    let low = OperatorInfo { precedence: 1, left_associative: true };
    let high = OperatorInfo { precedence: 2, left_associative: true };
    assert_eq!(operator_info("+"), Some(low));
    assert_eq!(operator_info("-"), Some(low));
    assert_eq!(operator_info("*"), Some(high));
    assert_eq!(operator_info("/"), Some(high));
    assert_eq!(operator_info("("), None);
    assert_eq!(operator_info("++"), None);
}

#[test]
fn shunting_yard_whole_pipeline() {
    assert_eq!(
        shunting_yard("3 + 4 * 2".to_string()),
        Ok(strings(&["3", "4", "2", "*", "+"]))
    );
    assert_eq!(
        shunting_yard("1 + x".to_string()),
        Err(CalcError::Tokenize(TokenizeError::InvalidCharacter))
    );
    assert_eq!(
        shunting_yard("(1+2".to_string()),
        Err(CalcError::Reorder(ReorderError::MismatchedParenthesis))
    );
}

#[test]
fn shunting_yard_twice_gives_same_result() {
    let text = "(1+2)*3-4/5".to_string();
    let first = shunting_yard(text.clone());
    let second = shunting_yard(text);
    assert_eq!(first, second);
    assert_eq!(first, Ok(strings(&["1", "2", "+", "3", "*", "4", "5", "/", "-"])));
}
