//! The pipeline from expression text to its postfix form, and the laws that
//! tie the stages together.
use vstd::prelude::*;
use crate::lexer::{
    digits_end, is_digit, is_well_formed_token, lemma_digits_end, lemma_lex_well_formed, lex, scan,
    tokenize, TokenizeError,
};
use crate::postfix::{binary_op, expression_of, postfix_prefix, Expr};
use crate::reorder::{
    flush, holds_no_parenthesis, is_parenthesis, lemma_postfix_holds_no_parenthesis, postfix_of, reorder,
    reorder_prefix, ReorderError,
};
use crate::token::TokenKind;

verus! {

/// Why an expression has no postfix form.
#[derive(Clone, Copy, Debug, PartialEq, Eq, Structural)]
pub enum CalcError {
    Tokenize(TokenizeError),
    Reorder(ReorderError),
}

/// The postfix form of the expression text `s`.
pub open spec fn pipeline(s: Seq<char>) -> Result<Seq<Seq<char>>, CalcError> {
    match lex(s) {
        Ok(tokens) => match postfix_of(tokens) {
            Ok(out) => Ok(out),
            Err(e) => Err(CalcError::Reorder(e)),
        },
        Err(e) => Err(CalcError::Tokenize(e)),
    }
}

/// Tokenizes `expression` and reorders its tokens to postfix.
pub fn shunting_yard(expression: String) -> (r: Result<Vec<String>, CalcError>)
    ensures
        match r {
            Ok(out) => pipeline(expression@) == Ok::<_, CalcError>(out.deep_view()),
            Err(e) => pipeline(expression@) == Err::<Seq<Seq<char>>, _>(e),
        },
        r matches Ok(out) ==> holds_no_parenthesis(out.deep_view()),
{
    proof {
        lemma_pipeline_holds_no_parenthesis(expression@);
    }
    match tokenize(expression.as_str()) {
        Ok(tokens) => match reorder(&tokens) {
            Ok(out) => Ok(out),
            Err(e) => Err(CalcError::Reorder(e)),
        },
        Err(e) => Err(CalcError::Tokenize(e)),
    }
}

pub open spec fn is_digit_literal(s: Seq<char>) -> bool {
    s.len() > 0 && forall|k: int| 0 <= k < s.len() ==> is_digit(#[trigger] s[k])
}

/// A literal made of digits alone is one number token, and its postfix form
/// is that literal alone.
pub proof fn lemma_digit_literal_pipeline(s: Seq<char>)
    requires
        is_digit_literal(s),
    ensures
        lex(s) == Ok::<_, TokenizeError>(seq![(TokenKind::Number, s)]),
        pipeline(s) == Ok::<_, CalcError>(seq![s]),
{
    lemma_digits_end(s, 0);
    assert(digits_end(s, 0) == s.len());
    assert(s.subrange(0, s.len() as int) =~= s);
    let tokens = seq![(TokenKind::Number, s)];
    assert(Seq::<(TokenKind, Seq<char>)>::empty().push((TokenKind::Number, s)) =~= tokens);
    assert(scan(s, s.len() as int, false, tokens) == Ok::<_, TokenizeError>(tokens));
    assert(reorder_prefix(tokens, 0) == Ok::<_, ReorderError>(
        (Seq::<Seq<char>>::empty(), Seq::<Seq<char>>::empty()),
    ));
    assert(Seq::<Seq<char>>::empty().push(s) =~= seq![s]);
    assert(reorder_prefix(tokens, 1) == Ok::<_, ReorderError>(
        (seq![s], Seq::<Seq<char>>::empty()),
    ));
    assert(flush(seq![s], Seq::empty()) == Ok::<_, ReorderError>(seq![s]));
}

/// A postfix sequence of one entry that reads as a number denotes that
/// number.
pub proof fn lemma_single_number(postfix: Seq<Seq<char>>, numeric: Seq<bool>)
    requires
        postfix.len() == 1,
        numeric.len() == 1,
        is_digit_literal(postfix[0]),
        numeric[0],
    ensures
        expression_of(postfix, numeric) == Ok::<_, crate::postfix::EvaluateError>(Expr::Operand(0)),
{
    assert(is_digit(postfix[0][0]));
    assert(seq!['+'][0] == '+' && seq!['-'][0] == '-' && seq!['*'][0] == '*' && seq!['/'][0] == '/');
    assert(binary_op(postfix[0]) is None);
    assert(Seq::<Expr>::empty().push(Expr::Operand(0)) =~= seq![Expr::Operand(0)]);
    assert(postfix_prefix(postfix, numeric, 0) == Ok::<_, crate::postfix::EvaluateError>(
        Seq::<Expr>::empty(),
    ));
    assert(postfix_prefix(postfix, numeric, 1) == Ok::<_, crate::postfix::EvaluateError>(
        seq![Expr::Operand(0)],
    ));
}

/// The postfix form of any expression text holds no parenthesis.
pub proof fn lemma_pipeline_holds_no_parenthesis(s: Seq<char>)
    ensures
        pipeline(s) matches Ok(out) ==> holds_no_parenthesis(out),
{
    lemma_lex_well_formed(s);
    if let Ok(tokens) = lex(s) {
        assert forall|k: int|
            0 <= k < tokens.len() && (#[trigger] tokens[k]).0 == TokenKind::Number implies !is_parenthesis(
            tokens[k].1,
        ) by {
            assert(is_well_formed_token(tokens[k]));
            let t = tokens[k].1;
            assert(seq!['('][0] == '(' && seq![')'][0] == ')');
            if t[0] == '-' {
                assert(is_digit(t[1]));
            } else {
                assert(is_digit(t[0]));
            }
        }
        lemma_postfix_holds_no_parenthesis(tokens);
    }
}

/// The pipeline keeps no state: the same text always has the same postfix
/// form.
pub proof fn lemma_pipeline_deterministic(a: Seq<char>, b: Seq<char>)
    requires
        a == b,
    ensures
        pipeline(a) == pipeline(b),
        lex(a) == lex(b),
{
}

} // verus!
