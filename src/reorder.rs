//! Operator-precedence reordering (shunting yard): infix tokens to postfix.
use vstd::prelude::*;
use crate::token::{single_char, Token, TokenKind};

verus! {

/// Why a token sequence could not be reordered.
#[derive(Clone, Copy, Debug, PartialEq, Eq, Structural)]
pub enum ReorderError {
    /// An operator token whose symbol has no precedence entry.
    UnknownOperator,
    /// A parenthesis without its partner.
    MismatchedParenthesis,
}

/// Precedence rank and associativity of an operator.
#[derive(Clone, Copy, Debug, PartialEq, Eq, Structural)]
pub struct OperatorInfo {
    pub precedence: u8,
    pub left_associative: bool,
}

/// The operator table: `*` and `/` bind tighter than `+` and `-`; all four
/// associate to the left.
pub open spec fn operator_table(op: Seq<char>) -> Option<OperatorInfo> {
    if op == seq!['+'] || op == seq!['-'] {
        Some(OperatorInfo { precedence: 1, left_associative: true })
    } else if op == seq!['*'] || op == seq!['/'] {
        Some(OperatorInfo { precedence: 2, left_associative: true })
    } else {
        None
    }
}

/// Looks `op` up in the operator table.
pub fn operator_info(op: &str) -> (r: Option<OperatorInfo>)
    ensures
        r == operator_table(op@),
{
    match single_char(op) {
        Some(c) => {
            assert(op@ =~= seq![c]);
            if c == '+' || c == '-' {
                Some(OperatorInfo { precedence: 1, left_associative: true })
            } else if c == '*' || c == '/' {
                Some(OperatorInfo { precedence: 2, left_associative: true })
            } else {
                None
            }
        },
        None => None,
    }
}

pub open spec fn open_paren() -> Seq<char> {
    seq!['(']
}

pub open spec fn close_paren() -> Seq<char> {
    seq![')']
}

/// Whether the stacked entry `top` leaves the stack before an incoming
/// operator described by `incoming`: it is an operator that binds tighter, or
/// as tight while the incoming one associates to the left.
pub open spec fn yields_to(top: Seq<char>, incoming: OperatorInfo) -> bool {
    match operator_table(top) {
        Some(t) => t.precedence > incoming.precedence || (t.precedence == incoming.precedence
            && incoming.left_associative),
        None => false,
    }
}

/// Output and operator stack after moving the entries that yield to
/// `incoming` from the top of the stack to the output.
pub open spec fn pop_yielding(out: Seq<Seq<char>>, stack: Seq<Seq<char>>, incoming: OperatorInfo) -> (
    Seq<Seq<char>>,
    Seq<Seq<char>>,
)
    decreases stack.len(),
{
    if stack.len() > 0 && yields_to(stack.last(), incoming) {
        pop_yielding(out.push(stack.last()), stack.drop_last(), incoming)
    } else {
        (out, stack)
    }
}

/// Output and operator stack after a closing parenthesis: entries move to the
/// output until an opening parenthesis is popped and dropped.
pub open spec fn close_group(out: Seq<Seq<char>>, stack: Seq<Seq<char>>) -> Result<
    (Seq<Seq<char>>, Seq<Seq<char>>),
    ReorderError,
>
    decreases stack.len(),
{
    if stack.len() == 0 {
        Err(ReorderError::MismatchedParenthesis)
    } else if stack.last() == open_paren() {
        Ok((out, stack.drop_last()))
    } else {
        close_group(out.push(stack.last()), stack.drop_last())
    }
}

/// The effect of one token on the output and the operator stack.
pub open spec fn reorder_step(
    state: (Seq<Seq<char>>, Seq<Seq<char>>),
    token: (TokenKind, Seq<char>),
) -> Result<(Seq<Seq<char>>, Seq<Seq<char>>), ReorderError> {
    let (out, stack) = state;
    let (kind, text) = token;
    match kind {
        TokenKind::Number => Ok((out.push(text), stack)),
        TokenKind::Operator => match operator_table(text) {
            Some(info) => {
                let (o, s) = pop_yielding(out, stack, info);
                Ok((o, s.push(text)))
            },
            None => Err(ReorderError::UnknownOperator),
        },
        TokenKind::Parenthesis => if text == open_paren() {
            Ok((out, stack.push(text)))
        } else if text == close_paren() {
            close_group(out, stack)
        } else {
            Err(ReorderError::MismatchedParenthesis)
        },
    }
}

/// Output and operator stack after the first `n` tokens.
pub open spec fn reorder_prefix(tokens: Seq<(TokenKind, Seq<char>)>, n: nat) -> Result<
    (Seq<Seq<char>>, Seq<Seq<char>>),
    ReorderError,
>
    decreases n,
{
    if n == 0 || n > tokens.len() {
        Ok((Seq::empty(), Seq::empty()))
    } else {
        match reorder_prefix(tokens, (n - 1) as nat) {
            Ok(state) => reorder_step(state, tokens[n - 1]),
            Err(e) => Err(e),
        }
    }
}

/// The output once the remaining stack entries are moved to it in pop order;
/// an opening parenthesis left on the stack has no partner.
pub open spec fn flush(out: Seq<Seq<char>>, stack: Seq<Seq<char>>) -> Result<
    Seq<Seq<char>>,
    ReorderError,
>
    decreases stack.len(),
{
    if stack.len() == 0 {
        Ok(out)
    } else if stack.last() == open_paren() {
        Err(ReorderError::MismatchedParenthesis)
    } else {
        flush(out.push(stack.last()), stack.drop_last())
    }
}

/// The postfix form of an infix token sequence, or why it has none.
pub open spec fn postfix_of(tokens: Seq<(TokenKind, Seq<char>)>) -> Result<
    Seq<Seq<char>>,
    ReorderError,
> {
    match reorder_prefix(tokens, tokens.len()) {
        Ok((out, stack)) => flush(out, stack),
        Err(e) => Err(e),
    }
}

/// Once a prefix fails, every longer prefix fails the same way.
proof fn lemma_prefix_failure_persists(tokens: Seq<(TokenKind, Seq<char>)>, n: nat, m: nat)
    requires
        n <= m <= tokens.len(),
        reorder_prefix(tokens, n) is Err,
    ensures
        reorder_prefix(tokens, m) == reorder_prefix(tokens, n),
    decreases m - n,
{
    if n < m {
        lemma_prefix_failure_persists(tokens, n, (m - 1) as nat);
    }
}

pub open spec fn is_parenthesis(text: Seq<char>) -> bool {
    text == open_paren() || text == close_paren()
}

pub open spec fn holds_no_parenthesis(entries: Seq<Seq<char>>) -> bool {
    forall|k: int| 0 <= k < entries.len() ==> !is_parenthesis(#[trigger] entries[k])
}

/// What the operator stack may hold: opening parentheses and operators of the
/// table.
pub open spec fn is_operator_stack(stack: Seq<Seq<char>>) -> bool {
    forall|k: int|
        0 <= k < stack.len() ==> #[trigger] stack[k] == open_paren() || operator_table(stack[k]) is Some
}

proof fn lemma_table_entries_are_not_parentheses(text: Seq<char>)
    requires
        operator_table(text) is Some,
    ensures
        !is_parenthesis(text),
{
    assert(open_paren()[0] == '(' && close_paren()[0] == ')');
    assert(seq!['+'][0] == '+' && seq!['-'][0] == '-' && seq!['*'][0] == '*' && seq!['/'][0] == '/');
}

proof fn lemma_move_top_keeps_shape(out: Seq<Seq<char>>, stack: Seq<Seq<char>>)
    requires
        holds_no_parenthesis(out),
        is_operator_stack(stack),
        stack.len() > 0,
        stack.last() != open_paren(),
    ensures
        holds_no_parenthesis(out.push(stack.last())),
        is_operator_stack(stack.drop_last()),
{
    assert(operator_table(stack[stack.len() - 1]) is Some);
    lemma_table_entries_are_not_parentheses(stack.last());
    assert forall|k: int| 0 <= k < out.len() + 1 implies !is_parenthesis(
        #[trigger] out.push(stack.last())[k],
    ) by {
        if k < out.len() {
            assert(out.push(stack.last())[k] == out[k]);
        }
    }
    assert forall|k: int| 0 <= k < stack.len() - 1 implies #[trigger] stack.drop_last()[k]
        == open_paren() || operator_table(stack.drop_last()[k]) is Some by {
        assert(stack.drop_last()[k] == stack[k]);
    }
}

proof fn lemma_pop_yielding_keeps_shape(out: Seq<Seq<char>>, stack: Seq<Seq<char>>, incoming: OperatorInfo)
    requires
        holds_no_parenthesis(out),
        is_operator_stack(stack),
    ensures
        holds_no_parenthesis(pop_yielding(out, stack, incoming).0),
        is_operator_stack(pop_yielding(out, stack, incoming).1),
    decreases stack.len(),
{
    if stack.len() > 0 && yields_to(stack.last(), incoming) {
        lemma_table_entries_are_not_parentheses(stack.last());
        lemma_move_top_keeps_shape(out, stack);
        lemma_pop_yielding_keeps_shape(out.push(stack.last()), stack.drop_last(), incoming);
    }
}

proof fn lemma_close_group_keeps_shape(out: Seq<Seq<char>>, stack: Seq<Seq<char>>)
    requires
        holds_no_parenthesis(out),
        is_operator_stack(stack),
    ensures
        close_group(out, stack) matches Ok(state) ==> holds_no_parenthesis(state.0)
            && is_operator_stack(state.1),
    decreases stack.len(),
{
    if stack.len() > 0 {
        if stack.last() == open_paren() {
            assert forall|k: int| 0 <= k < stack.len() - 1 implies #[trigger] stack.drop_last()[k]
                == open_paren() || operator_table(stack.drop_last()[k]) is Some by {
                assert(stack.drop_last()[k] == stack[k]);
            }
        } else {
            lemma_move_top_keeps_shape(out, stack);
            lemma_close_group_keeps_shape(out.push(stack.last()), stack.drop_last());
        }
    }
}

proof fn lemma_flush_keeps_shape(out: Seq<Seq<char>>, stack: Seq<Seq<char>>)
    requires
        holds_no_parenthesis(out),
        is_operator_stack(stack),
    ensures
        flush(out, stack) matches Ok(o) ==> holds_no_parenthesis(o),
    decreases stack.len(),
{
    if stack.len() > 0 && stack.last() != open_paren() {
        lemma_move_top_keeps_shape(out, stack);
        lemma_flush_keeps_shape(out.push(stack.last()), stack.drop_last());
    }
}

proof fn lemma_prefix_keeps_shape(tokens: Seq<(TokenKind, Seq<char>)>, n: nat)
    requires
        n <= tokens.len(),
        forall|k: int|
            0 <= k < tokens.len() && (#[trigger] tokens[k]).0 == TokenKind::Number
                ==> !is_parenthesis(tokens[k].1),
    ensures
        reorder_prefix(tokens, n) matches Ok(state) ==> holds_no_parenthesis(state.0)
            && is_operator_stack(state.1),
    decreases n,
{
    if n > 0 {
        lemma_prefix_keeps_shape(tokens, (n - 1) as nat);
        if let Ok((out, stack)) = reorder_prefix(tokens, (n - 1) as nat) {
            let (kind, text) = tokens[n - 1];
            match kind {
                TokenKind::Number => {
                    assert forall|k: int| 0 <= k < out.len() + 1 implies !is_parenthesis(
                        #[trigger] out.push(text)[k],
                    ) by {
                        if k < out.len() {
                            assert(out.push(text)[k] == out[k]);
                        }
                    }
                },
                TokenKind::Operator => {
                    if let Some(info) = operator_table(text) {
                        lemma_pop_yielding_keeps_shape(out, stack, info);
                        let s = pop_yielding(out, stack, info).1;
                        assert forall|k: int| 0 <= k < s.len() + 1 implies #[trigger] s.push(text)[k]
                            == open_paren() || operator_table(s.push(text)[k]) is Some by {
                            if k < s.len() {
                                assert(s.push(text)[k] == s[k]);
                            }
                        }
                    }
                },
                TokenKind::Parenthesis => {
                    if text == open_paren() {
                        assert forall|k: int| 0 <= k < stack.len() + 1 implies #[trigger] stack.push(
                            text,
                        )[k] == open_paren() || operator_table(stack.push(text)[k]) is Some by {
                            if k < stack.len() {
                                assert(stack.push(text)[k] == stack[k]);
                            }
                        }
                    } else if text == close_paren() {
                        lemma_close_group_keeps_shape(out, stack);
                    }
                },
            }
        }
    }
}

/// The postfix form holds no parenthesis, provided that no number token is
/// written as one.
pub proof fn lemma_postfix_holds_no_parenthesis(tokens: Seq<(TokenKind, Seq<char>)>)
    requires
        forall|k: int|
            0 <= k < tokens.len() && (#[trigger] tokens[k]).0 == TokenKind::Number
                ==> !is_parenthesis(tokens[k].1),
    ensures
        postfix_of(tokens) matches Ok(out) ==> holds_no_parenthesis(out),
{
    lemma_prefix_keeps_shape(tokens, tokens.len());
    if let Ok((out, stack)) = reorder_prefix(tokens, tokens.len()) {
        lemma_flush_keeps_shape(out, stack);
    }
}

/// Moves the last entry of `stack` to the end of `output`.
fn move_top(output: &mut Vec<String>, stack: &mut Vec<String>)
    requires
        old(stack).len() > 0,
    ensures
        final(output).deep_view() == old(output).deep_view().push(old(stack).deep_view().last()),
        final(stack).deep_view() == old(stack).deep_view().drop_last(),
        final(stack).len() == old(stack).len() - 1,
{
    let ghost out0 = output.deep_view();
    let ghost st0 = stack.deep_view();
    let top = stack.pop().unwrap();
    output.push(top);
    assert(output.deep_view() =~= out0.push(st0.last()));
    assert(stack.deep_view() =~= st0.drop_last());
}

/// Whether `text` is exactly an opening parenthesis.
fn is_open_paren(text: &str) -> (b: bool)
    ensures
        b == (text@ == open_paren()),
{
    match single_char(text) {
        Some(c) => {
            assert(text@.len() == 1 ==> text@ =~= seq![text@[0]]);
            c == '('
        },
        None => false,
    }
}

fn pop_yielding_into(output: &mut Vec<String>, stack: &mut Vec<String>, incoming: OperatorInfo)
    ensures
        (final(output).deep_view(), final(stack).deep_view()) == pop_yielding(
            old(output).deep_view(),
            old(stack).deep_view(),
            incoming,
        ),
{
    let ghost target = pop_yielding(output.deep_view(), stack.deep_view(), incoming);
    loop
        invariant
            pop_yielding(output.deep_view(), stack.deep_view(), incoming) == target,
        ensures
            (output.deep_view(), stack.deep_view()) == target,
        decreases stack.len(),
    {
        if stack.len() == 0 {
            break;
        }
        let yields = match operator_info(stack[stack.len() - 1].as_str()) {
            Some(t) => t.precedence > incoming.precedence || (t.precedence == incoming.precedence
                && incoming.left_associative),
            None => false,
        };
        if !yields {
            break;
        }
        move_top(output, stack);
    }
}

fn close_group_into(output: &mut Vec<String>, stack: &mut Vec<String>) -> (r: Result<(), ReorderError>)
    ensures
        match close_group(old(output).deep_view(), old(stack).deep_view()) {
            Ok(state) => r is Ok && (final(output).deep_view(), final(stack).deep_view()) == state,
            Err(e) => r == Err::<(), _>(e),
        },
{
    loop
        invariant
            close_group(output.deep_view(), stack.deep_view()) == close_group(
                old(output).deep_view(),
                old(stack).deep_view(),
            ),
        decreases stack.len(),
    {
        if stack.len() == 0 {
            return Err(ReorderError::MismatchedParenthesis);
        }
        if is_open_paren(stack[stack.len() - 1].as_str()) {
            let ghost st0 = stack.deep_view();
            stack.pop();
            assert(stack.deep_view() =~= st0.drop_last());
            return Ok(());
        }
        move_top(output, stack);
    }
}

/// Reorders infix tokens to postfix. Numbers go straight to the output. An
/// operator first moves to the output every stacked operator that binds
/// tighter, or as tight when it associates to the left, then is stacked. `(`
/// is stacked; `)` moves operators to the output down to its `(`, which is
/// dropped. At the end the stack is emptied onto the output in pop order.
/// Fails on an operator without a table entry, on `)` without `(`, and on `(`
/// without `)`.
pub fn reorder(tokens: &Vec<Token>) -> (r: Result<Vec<String>, ReorderError>)
    ensures
        match r {
            Ok(out) => postfix_of(tokens.deep_view()) == Ok::<_, ReorderError>(out.deep_view()),
            Err(e) => postfix_of(tokens.deep_view()) == Err::<Seq<Seq<char>>, _>(e),
        },
{
    let ghost toks = tokens.deep_view();
    let mut output: Vec<String> = Vec::new();
    let mut stack: Vec<String> = Vec::new();
    assert(output.deep_view() =~= Seq::<Seq<char>>::empty());
    assert(stack.deep_view() =~= Seq::<Seq<char>>::empty());
    let mut i: usize = 0;
    while i < tokens.len()
        invariant
            toks == tokens.deep_view(),
            i <= tokens.len(),
            reorder_prefix(toks, i as nat) == Ok::<_, ReorderError>(
                (output.deep_view(), stack.deep_view()),
            ),
        decreases tokens.len() - i,
    {
        let token = &tokens[i];
        assert(toks[i as int] == token.deep_view());
        let ghost out0 = output.deep_view();
        let ghost st0 = stack.deep_view();
        match token.kind {
            TokenKind::Number => {
                output.push(token.text.clone());
                assert(output.deep_view() =~= out0.push(token.text@));
            },
            TokenKind::Operator => {
                match operator_info(token.text.as_str()) {
                    Some(info) => {
                        pop_yielding_into(&mut output, &mut stack, info);
                        let ghost st1 = stack.deep_view();
                        stack.push(token.text.clone());
                        assert(stack.deep_view() =~= st1.push(token.text@));
                    },
                    None => {
                        proof { lemma_prefix_failure_persists(toks, (i + 1) as nat, toks.len()); }
                        return Err(ReorderError::UnknownOperator);
                    },
                }
            },
            TokenKind::Parenthesis => {
                if is_open_paren(token.text.as_str()) {
                    stack.push(token.text.clone());
                    assert(stack.deep_view() =~= st0.push(token.text@));
                } else if single_char(token.text.as_str()) == Some(')') {
                    assert(token.text@.len() == 1 ==> token.text@ =~= seq![token.text@[0]]);
                    let closed = close_group_into(&mut output, &mut stack);
                    if let Err(e) = closed {
                        proof { lemma_prefix_failure_persists(toks, (i + 1) as nat, toks.len()); }
                        return Err(e);
                    }
                } else {
                    assert(token.text@.len() == 1 ==> token.text@ =~= seq![token.text@[0]]);
                    proof { lemma_prefix_failure_persists(toks, (i + 1) as nat, toks.len()); }
                    return Err(ReorderError::MismatchedParenthesis);
                }
            },
        }
        i = i + 1;
    }
    assert(toks.len() == tokens.len());
    while stack.len() > 0
        invariant
            toks == tokens.deep_view(),
            postfix_of(toks) == flush(output.deep_view(), stack.deep_view()),
        decreases stack.len(),
    {
        if is_open_paren(stack[stack.len() - 1].as_str()) {
            assert(stack.deep_view().last() == stack@[stack.len() - 1]@);
            return Err(ReorderError::MismatchedParenthesis);
        }
        move_top(&mut output, &mut stack);
    }
    Ok(output)
}

} // verus!
