//! Postfix evaluation: the operand stack of reverse Polish notation, building
//! the expression tree that the postfix sequence denotes.
use vstd::prelude::*;
use crate::token::single_char;

verus! {

/// Why a postfix sequence does not denote an expression.
#[derive(Clone, Copy, Debug, PartialEq, Eq, Structural)]
pub enum EvaluateError {
    /// An operator met fewer than two operands on the stack.
    StackUnderflow,
    /// An entry that is neither an operator nor a number.
    MalformedNumber,
    /// More than one value remained at the end.
    IncompleteExpression,
    /// The sequence was empty.
    EmptyExpression,
}

/// The four binary operators.
#[derive(Clone, Copy, Debug, PartialEq, Eq, Structural)]
pub enum BinaryOp {
    Add,
    Sub,
    Mul,
    Div,
}

/// An expression tree over the entries of a postfix sequence.
#[derive(Debug, PartialEq, Eq)]
pub enum Expr {
    /// The number written at this index of the postfix sequence.
    Operand(usize),
    /// `left op right`.
    Apply(BinaryOp, Box<Expr>, Box<Expr>),
}

/// The operator that a postfix entry names, if it is one of `+ - * /`.
pub open spec fn binary_op(text: Seq<char>) -> Option<BinaryOp> {
    if text == seq!['+'] {
        Some(BinaryOp::Add)
    } else if text == seq!['-'] {
        Some(BinaryOp::Sub)
    } else if text == seq!['*'] {
        Some(BinaryOp::Mul)
    } else if text == seq!['/'] {
        Some(BinaryOp::Div)
    } else {
        None
    }
}

/// Reads a postfix entry as an operator.
pub fn binary_op_of(text: &str) -> (r: Option<BinaryOp>)
    ensures
        r == binary_op(text@),
{
    match single_char(text) {
        Some(c) => {
            assert(text@ =~= seq![c]);
            if c == '+' {
                Some(BinaryOp::Add)
            } else if c == '-' {
                Some(BinaryOp::Sub)
            } else if c == '*' {
                Some(BinaryOp::Mul)
            } else if c == '/' {
                Some(BinaryOp::Div)
            } else {
                None
            }
        },
        None => None,
    }
}

/// The effect of entry `i` on the operand stack. An operator pops `a`, then
/// `b`, and pushes `b op a`; any other entry is pushed as an operand if
/// `numeric[i]` says that it reads as a number.
pub open spec fn postfix_step(
    stack: Seq<Expr>,
    postfix: Seq<Seq<char>>,
    numeric: Seq<bool>,
    i: int,
) -> Result<Seq<Expr>, EvaluateError> {
    match binary_op(postfix[i]) {
        Some(op) => if stack.len() < 2 {
            Err(EvaluateError::StackUnderflow)
        } else {
            let a = stack[stack.len() - 1];
            let b = stack[stack.len() - 2];
            Ok(stack.subrange(0, stack.len() - 2).push(Expr::Apply(op, Box::new(b), Box::new(a))))
        },
        None => if numeric[i] {
            Ok(stack.push(Expr::Operand(i as usize)))
        } else {
            Err(EvaluateError::MalformedNumber)
        },
    }
}

/// The operand stack after the first `n` entries.
pub open spec fn postfix_prefix(postfix: Seq<Seq<char>>, numeric: Seq<bool>, n: nat) -> Result<
    Seq<Expr>,
    EvaluateError,
>
    decreases n,
{
    if n == 0 || n > postfix.len() {
        Ok(Seq::empty())
    } else {
        match postfix_prefix(postfix, numeric, (n - 1) as nat) {
            Ok(stack) => postfix_step(stack, postfix, numeric, n - 1),
            Err(e) => Err(e),
        }
    }
}

/// The expression that a postfix sequence denotes: the one value left on the
/// stack once every entry is read.
pub open spec fn expression_of(postfix: Seq<Seq<char>>, numeric: Seq<bool>) -> Result<
    Expr,
    EvaluateError,
> {
    if postfix.len() == 0 {
        Err(EvaluateError::EmptyExpression)
    } else {
        match postfix_prefix(postfix, numeric, postfix.len()) {
            Ok(stack) => if stack.len() == 1 {
                Ok(stack[0])
            } else {
                Err(EvaluateError::IncompleteExpression)
            },
            Err(e) => Err(e),
        }
    }
}

/// Once a prefix fails, every longer prefix fails the same way.
proof fn lemma_postfix_failure_persists(
    postfix: Seq<Seq<char>>,
    numeric: Seq<bool>,
    n: nat,
    m: nat,
)
    requires
        n <= m <= postfix.len(),
        postfix_prefix(postfix, numeric, n) is Err,
    ensures
        postfix_prefix(postfix, numeric, m) == postfix_prefix(postfix, numeric, n),
    decreases m - n,
{
    if n < m {
        lemma_postfix_failure_persists(postfix, numeric, n, (m - 1) as nat);
    }
}

/// Runs the operand stack over `postfix`, where `numeric[i]` tells whether
/// entry `i` reads as a number, and returns the expression tree it denotes:
/// `b op a` for an operator that pops `a` and then `b`. Fails on an empty
/// sequence, on an operator with fewer than two operands, on an entry that is
/// neither operator nor number, and when more than one value is left.
pub fn parse_postfix(postfix: &Vec<String>, numeric: &Vec<bool>) -> (r: Result<Expr, EvaluateError>)
    requires
        numeric.len() == postfix.len(),
    ensures
        r == expression_of(postfix.deep_view(), numeric@),
{
    let ghost entries = postfix.deep_view();
    if postfix.len() == 0 {
        return Err(EvaluateError::EmptyExpression);
    }
    let mut stack: Vec<Expr> = Vec::new();
    let mut i: usize = 0;
    while i < postfix.len()
        invariant
            entries == postfix.deep_view(),
            numeric.len() == postfix.len(),
            0 < postfix.len(),
            i <= postfix.len(),
            postfix_prefix(entries, numeric@, i as nat) == Ok::<_, EvaluateError>(stack@),
        decreases postfix.len() - i,
    {
        assert(entries[i as int] == postfix@[i as int]@);
        let ghost st0 = stack@;
        match binary_op_of(postfix[i].as_str()) {
            Some(op) => {
                if stack.len() < 2 {
                    proof { lemma_postfix_failure_persists(entries, numeric@, (i + 1) as nat, entries.len()); }
                    return Err(EvaluateError::StackUnderflow);
                }
                let a = stack.pop().unwrap();
                let b = stack.pop().unwrap();
                stack.push(Expr::Apply(op, Box::new(b), Box::new(a)));
                assert(stack@ =~= st0.subrange(0, st0.len() - 2).push(
                    Expr::Apply(op, Box::new(st0[st0.len() - 2]), Box::new(st0[st0.len() - 1])),
                ));
            },
            None => {
                if !numeric[i] {
                    proof { lemma_postfix_failure_persists(entries, numeric@, (i + 1) as nat, entries.len()); }
                    return Err(EvaluateError::MalformedNumber);
                }
                stack.push(Expr::Operand(i));
            },
        }
        i = i + 1;
    }
    if stack.len() == 1 {
        Ok(stack.pop().unwrap())
    } else {
        Err(EvaluateError::IncompleteExpression)
    }
}

} // verus!
