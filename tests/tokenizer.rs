use simple_calc::lexer::{tokenize, TokenizeError};
use simple_calc::token::{single_char, Token, TokenKind};

fn number(text: &str) -> Token {
    Token::new(TokenKind::Number, text)
}

fn operator(text: &str) -> Token {
    Token::new(TokenKind::Operator, text)
}

fn paren(text: &str) -> Token {
    Token::new(TokenKind::Parenthesis, text)
}

#[test]
fn tokenize_one_plus_one() {
    assert_eq!(
        tokenize("1+1"),
        Ok(vec![number("1"), operator("+"), number("1")])
    );
}

#[test]
fn tokenize_leading_minus_is_negative_literal() {
    assert_eq!(
        tokenize("-5+3"),
        Ok(vec![number("-5"), operator("+"), number("3")])
    );
}

#[test]
fn tokenize_minus_after_operand_is_operator() {
    assert_eq!(
        tokenize("5-3"),
        Ok(vec![number("5"), operator("-"), number("3")])
    );
}

#[test]
fn tokenize_minus_after_operator_and_open_paren() {
    assert_eq!(
        tokenize("2*-3"),
        Ok(vec![number("2"), operator("*"), number("-3")])
    );
    assert_eq!(
        tokenize("(-4)"),
        Ok(vec![paren("("), number("-4"), paren(")")])
    );
}

#[test]
fn tokenize_minus_after_close_paren_is_operator() {
    assert_eq!(
        tokenize("(1)-2"),
        Ok(vec![paren("("), number("1"), paren(")"), operator("-"), number("2")])
    );
}

#[test]
fn tokenize_minus_without_digit_is_operator() {
    assert_eq!(tokenize("-"), Ok(vec![operator("-")]));
    assert_eq!(tokenize("- 5"), Ok(vec![operator("-"), number("5")]));
    assert_eq!(
        tokenize("-(2)"),
        Ok(vec![operator("-"), paren("("), number("2"), paren(")")])
    );
}

#[test]
fn tokenize_skips_whitespace() {
    assert_eq!(
        tokenize(" 12 *\t( 3\n/ 4 ) "),
        Ok(vec![
            number("12"),
            operator("*"),
            paren("("),
            number("3"),
            operator("/"),
            number("4"),
            paren(")")
        ])
    );
}

#[test]
fn tokenize_reads_maximal_digit_runs() {
    assert_eq!(
        tokenize("12345678901234567890+007"),
        Ok(vec![number("12345678901234567890"), operator("+"), number("007")])
    );
}

#[test]
fn tokenize_empty_and_blank() {
    assert_eq!(tokenize(""), Ok(vec![]));
    assert_eq!(tokenize("   "), Ok(vec![]));
}

#[test]
fn tokenize_rejects_invalid_characters() {
    assert_eq!(tokenize("1+a"), Err(TokenizeError::InvalidCharacter));
    assert_eq!(tokenize("1.5"), Err(TokenizeError::InvalidCharacter));
    assert_eq!(tokenize("2^3"), Err(TokenizeError::InvalidCharacter));
    assert_eq!(tokenize("1+é"), Err(TokenizeError::InvalidCharacter));
    assert_eq!(tokenize("é"), Err(TokenizeError::InvalidCharacter));
}

#[test]
fn token_new_copies_text() {
    let t = Token::new(TokenKind::Operator, "*");
    assert_eq!(t.kind, TokenKind::Operator);
    assert_eq!(t.text, "*".to_string());
}

#[test]
fn single_char_of_texts() {
    assert_eq!(single_char("+"), Some('+'));
    assert_eq!(single_char("é"), Some('é'));
    assert_eq!(single_char(""), None);
    assert_eq!(single_char("++"), None);
}
