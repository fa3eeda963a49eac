//! The tokenizer: raw expression text to a sequence of tokens.
use vstd::prelude::*;
use vstd::string::*;
use crate::token::{Token, TokenKind};

verus! {

/// Why an expression could not be tokenized.
#[derive(Clone, Copy, Debug, PartialEq, Eq, Structural)]
pub enum TokenizeError {
    /// A character outside digits, `+ - * / ( )` and whitespace.
    InvalidCharacter,
}

pub open spec fn is_digit(c: char) -> bool {
    '0' <= c && c <= '9'
}

/// ASCII whitespace: skipped between tokens.
pub open spec fn is_space(c: char) -> bool {
    c == ' ' || c == '\t' || c == '\n' || c == '\r' || c == '\x0C'
}

pub open spec fn is_operator_char(c: char) -> bool {
    c == '+' || c == '-' || c == '*' || c == '/'
}

/// The characters that may appear in an expression.
pub open spec fn is_allowed(c: char) -> bool {
    is_digit(c) || is_space(c) || is_operator_char(c) || c == '(' || c == ')'
}

/// Where the run of digits that starts at `i` ends.
pub open spec fn digits_end(s: Seq<char>, i: int) -> int
    decreases s.len() - i,
{
    if 0 <= i < s.len() && is_digit(s[i]) {
        digits_end(s, i + 1)
    } else {
        i
    }
}

pub proof fn lemma_digits_end(s: Seq<char>, i: int)
    requires
        0 <= i <= s.len(),
    ensures
        i <= digits_end(s, i) <= s.len(),
        forall|k: int| i <= k < digits_end(s, i) ==> is_digit(#[trigger] s[k]),
        digits_end(s, i) == s.len() || !is_digit(s[digits_end(s, i)]),
    decreases s.len() - i,
{
    if i < s.len() && is_digit(s[i]) {
        lemma_digits_end(s, i + 1);
    }
}

/// Whether a `-` at `i` starts a negative number literal: an operand is
/// expected and a digit follows at once.
pub open spec fn starts_negative_literal(s: Seq<char>, i: int, operand_expected: bool) -> bool {
    operand_expected && s[i] == '-' && i + 1 < s.len() && is_digit(s[i + 1])
}

/// Scanning `s` from position `i`, with `acc` the tokens read so far and
/// `operand_expected` telling whether the previous token was absent, an
/// operator or an opening parenthesis.
pub open spec fn scan(
    s: Seq<char>,
    i: int,
    operand_expected: bool,
    acc: Seq<(TokenKind, Seq<char>)>,
) -> Result<Seq<(TokenKind, Seq<char>)>, TokenizeError>
    decreases s.len() - i,
    via scan_decreases
{
    if i < 0 || i >= s.len() {
        Ok(acc)
    } else {
        let c = s[i];
        if is_space(c) {
            scan(s, i + 1, operand_expected, acc)
        } else if is_digit(c) {
            let j = digits_end(s, i);
            scan(s, j, false, acc.push((TokenKind::Number, s.subrange(i, j))))
        } else if starts_negative_literal(s, i, operand_expected) {
            let j = digits_end(s, i + 1);
            scan(s, j, false, acc.push((TokenKind::Number, s.subrange(i, j))))
        } else if is_operator_char(c) {
            scan(s, i + 1, true, acc.push((TokenKind::Operator, seq![c])))
        } else if c == '(' {
            scan(s, i + 1, true, acc.push((TokenKind::Parenthesis, seq![c])))
        } else if c == ')' {
            scan(s, i + 1, false, acc.push((TokenKind::Parenthesis, seq![c])))
        } else {
            Err(TokenizeError::InvalidCharacter)
        }
    }
}

#[via_fn]
proof fn scan_decreases(
    s: Seq<char>,
    i: int,
    operand_expected: bool,
    acc: Seq<(TokenKind, Seq<char>)>,
) {
    if 0 <= i < s.len() {
        lemma_digits_end(s, i);
        if i + 1 < s.len() {
            lemma_digits_end(s, i + 1);
        }
    }
}

/// The tokens of the expression `s`, or why it has none.
pub open spec fn lex(s: Seq<char>) -> Result<Seq<(TokenKind, Seq<char>)>, TokenizeError> {
    scan(s, 0, true, Seq::empty())
}

/// A character outside the alphabet at or after `i` makes the scan fail.
proof fn lemma_scan_rejects(
    s: Seq<char>,
    i: int,
    operand_expected: bool,
    acc: Seq<(TokenKind, Seq<char>)>,
    k: int,
)
    requires
        0 <= i <= k < s.len(),
        !is_allowed(s[k]),
    ensures
        scan(s, i, operand_expected, acc) == Err::<Seq<(TokenKind, Seq<char>)>, TokenizeError>(
            TokenizeError::InvalidCharacter,
        ),
    decreases s.len() - i,
{
    let c = s[i];
    if i == k {
    } else if is_space(c) {
        lemma_scan_rejects(s, i + 1, operand_expected, acc, k);
    } else if is_digit(c) {
        lemma_digits_end(s, i);
        let j = digits_end(s, i);
        lemma_scan_rejects(s, j, false, acc.push((TokenKind::Number, s.subrange(i, j))), k);
    } else if starts_negative_literal(s, i, operand_expected) {
        lemma_digits_end(s, i + 1);
        let j = digits_end(s, i + 1);
        lemma_scan_rejects(s, j, false, acc.push((TokenKind::Number, s.subrange(i, j))), k);
    } else if is_operator_char(c) {
        lemma_scan_rejects(s, i + 1, true, acc.push((TokenKind::Operator, seq![c])), k);
    } else if c == '(' {
        lemma_scan_rejects(s, i + 1, true, acc.push((TokenKind::Parenthesis, seq![c])), k);
    } else if c == ')' {
        lemma_scan_rejects(s, i + 1, false, acc.push((TokenKind::Parenthesis, seq![c])), k);
    }
}

/// A run of digits with an optional leading `-`.
pub open spec fn is_integer_literal(text: Seq<char>) -> bool {
    let start: int = if text.len() > 0 && text[0] == '-' { 1 } else { 0 };
    &&& start < text.len()
    &&& forall|k: int| start <= k < text.len() ==> is_digit(#[trigger] text[k])
}

/// A number token is an integer literal, an operator token one of
/// `+ - * /`, a parenthesis token `(` or `)`.
pub open spec fn is_well_formed_token(token: (TokenKind, Seq<char>)) -> bool {
    match token.0 {
        TokenKind::Number => is_integer_literal(token.1),
        TokenKind::Operator => token.1.len() == 1 && is_operator_char(token.1[0]),
        TokenKind::Parenthesis => token.1 == seq!['('] || token.1 == seq![')'],
    }
}

pub open spec fn all_well_formed(tokens: Seq<(TokenKind, Seq<char>)>) -> bool {
    forall|k: int| 0 <= k < tokens.len() ==> is_well_formed_token(#[trigger] tokens[k])
}

proof fn lemma_push_well_formed(tokens: Seq<(TokenKind, Seq<char>)>, token: (TokenKind, Seq<char>))
    requires
        all_well_formed(tokens),
        is_well_formed_token(token),
    ensures
        all_well_formed(tokens.push(token)),
{
    assert forall|k: int| 0 <= k < tokens.len() + 1 implies is_well_formed_token(
        #[trigger] tokens.push(token)[k],
    ) by {
        if k < tokens.len() {
            assert(tokens.push(token)[k] == tokens[k]);
        }
    }
}

proof fn lemma_scan_well_formed(
    s: Seq<char>,
    i: int,
    operand_expected: bool,
    acc: Seq<(TokenKind, Seq<char>)>,
)
    requires
        0 <= i,
        all_well_formed(acc),
    ensures
        scan(s, i, operand_expected, acc) matches Ok(tokens) ==> all_well_formed(tokens),
    decreases s.len() - i,
{
    if i < s.len() {
        let c = s[i];
        if is_space(c) {
            lemma_scan_well_formed(s, i + 1, operand_expected, acc);
        } else if is_digit(c) {
            lemma_digits_end(s, i);
            let j = digits_end(s, i);
            let text = s.subrange(i, j);
            assert(text.len() > 0 && text[0] == c);
            assert forall|k: int| 0 <= k < text.len() implies is_digit(#[trigger] text[k]) by {
                assert(text[k] == s[i + k]);
            }
            lemma_push_well_formed(acc, (TokenKind::Number, text));
            lemma_scan_well_formed(s, j, false, acc.push((TokenKind::Number, text)));
        } else if starts_negative_literal(s, i, operand_expected) {
            lemma_digits_end(s, i + 1);
            let j = digits_end(s, i + 1);
            let text = s.subrange(i, j);
            assert(text[0] == '-' && text.len() > 1);
            assert forall|k: int| 1 <= k < text.len() implies is_digit(#[trigger] text[k]) by {
                assert(text[k] == s[i + k]);
            }
            lemma_push_well_formed(acc, (TokenKind::Number, text));
            lemma_scan_well_formed(s, j, false, acc.push((TokenKind::Number, text)));
        } else if is_operator_char(c) {
            lemma_push_well_formed(acc, (TokenKind::Operator, seq![c]));
            lemma_scan_well_formed(s, i + 1, true, acc.push((TokenKind::Operator, seq![c])));
        } else if c == '(' {
            lemma_push_well_formed(acc, (TokenKind::Parenthesis, seq![c]));
            lemma_scan_well_formed(s, i + 1, true, acc.push((TokenKind::Parenthesis, seq![c])));
        } else if c == ')' {
            lemma_push_well_formed(acc, (TokenKind::Parenthesis, seq![c]));
            lemma_scan_well_formed(s, i + 1, false, acc.push((TokenKind::Parenthesis, seq![c])));
        }
    }
}

/// Every token that the tokenizer yields is well formed; in particular each
/// number is an integer literal.
pub proof fn lemma_lex_well_formed(s: Seq<char>)
    ensures
        lex(s) matches Ok(tokens) ==> all_well_formed(tokens),
{
    lemma_scan_well_formed(s, 0, true, Seq::empty());
}

/// The character at `i` of an ASCII string.
fn ascii_char_at(s: &str, i: usize) -> (c: char)
    requires
        s.is_ascii(),
        i < s@.len(),
    ensures
        c == s@[i as int],
{
    let b = s.get_ascii(i);
    assert(s@[i as int] <= '\u{7f}');
    b as char
}

/// The end of the run of digits of `s` that starts at `i`.
fn skip_digits(s: &str, i: usize, n: usize) -> (j: usize)
    requires
        s.is_ascii(),
        n == s@.len(),
        i <= n,
    ensures
        j == digits_end(s@, i as int),
{
    let mut j = i;
    while j < n && ascii_char_at(s, j) >= '0' && ascii_char_at(s, j) <= '9'
        invariant
            s.is_ascii(),
            n == s@.len(),
            i <= j <= n,
            digits_end(s@, i as int) == digits_end(s@, j as int),
        decreases n - j,
    {
        j = j + 1;
    }
    j
}

/// Splits `expression` into tokens, scanning left to right. Whitespace is
/// skipped. A maximal run of digits is a number; so is a `-` directly followed
/// by digits where an operand is expected (at the start, after an operator or
/// after `(`). Any other `-`, and `+ * /`, is an operator; `(` and `)` are
/// parentheses.
pub fn tokenize(expression: &str) -> (r: Result<Vec<Token>, TokenizeError>)
    ensures
        match r {
            Ok(tokens) => lex(expression@) == Ok::<_, TokenizeError>(tokens.deep_view()),
            Err(e) => lex(expression@) == Err::<Seq<(TokenKind, Seq<char>)>, _>(e),
        },
        r matches Ok(tokens) ==> all_well_formed(tokens.deep_view()),
{
    proof {
        lemma_lex_well_formed(expression@);
    }
    if !expression.is_ascii() {
        proof {
            let k = choose|k: int|
                0 <= k < expression@.len() && !('\0' <= #[trigger] expression@[k] <= '\u{7f}');
            lemma_scan_rejects(expression@, 0, true, Seq::empty(), k);
        }
        return Err(TokenizeError::InvalidCharacter);
    }
    let ghost s = expression@;
    let n = expression.unicode_len();
    let mut tokens: Vec<Token> = Vec::new();
    let mut i: usize = 0;
    let mut operand_expected = true;
    assert(tokens.deep_view() =~= Seq::<(TokenKind, Seq<char>)>::empty());
    while i < n
        invariant
            expression.is_ascii(),
            s == expression@,
            n == s.len(),
            i <= n,
            scan(s, i as int, operand_expected, tokens.deep_view()) == lex(s),
        decreases n - i,
    {
        let c = ascii_char_at(expression, i);
        let ghost before = tokens.deep_view();
        if c == ' ' || c == '\t' || c == '\n' || c == '\r' || c == '\x0C' {
            i = i + 1;
        } else if c >= '0' && c <= '9' {
            let j = skip_digits(expression, i, n);
            proof { lemma_digits_end(s, i as int); }
            tokens.push(Token::new(TokenKind::Number, expression.substring_ascii(i, j)));
            assert(tokens.deep_view() =~= before.push((TokenKind::Number, s.subrange(i as int, j as int))));
            i = j;
            operand_expected = false;
        } else if operand_expected && c == '-' && i + 1 < n && ascii_char_at(expression, i + 1) >= '0'
            && ascii_char_at(expression, i + 1) <= '9' {
            let j = skip_digits(expression, i + 1, n);
            proof { lemma_digits_end(s, i + 1); }
            tokens.push(Token::new(TokenKind::Number, expression.substring_ascii(i, j)));
            assert(tokens.deep_view() =~= before.push((TokenKind::Number, s.subrange(i as int, j as int))));
            i = j;
            operand_expected = false;
        } else if c == '+' || c == '-' || c == '*' || c == '/' || c == '(' || c == ')' {
            let kind = if c == '(' || c == ')' {
                TokenKind::Parenthesis
            } else {
                TokenKind::Operator
            };
            tokens.push(Token::new(kind, expression.substring_ascii(i, i + 1)));
            assert(s.subrange(i as int, i + 1) =~= seq![c]);
            assert(tokens.deep_view() =~= before.push((kind, seq![c])));
            i = i + 1;
            operand_expected = c != ')';
        } else {
            return Err(TokenizeError::InvalidCharacter);
        }
    }
    Ok(tokens)
}

} // verus!
