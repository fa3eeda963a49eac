//! Tokens: the classified lexical units of an expression.
use vstd::prelude::*;
use vstd::string::*;

verus! {

/// The class of a lexical unit.
#[derive(Clone, Copy, Debug, PartialEq, Eq, Structural)]
pub enum TokenKind {
    Number,
    Operator,
    Parenthesis,
}

/// A classified lexical unit with the exact text it was read from.
#[derive(Clone, Debug, PartialEq, Eq)]
pub struct Token {
    pub kind: TokenKind,
    pub text: String,
}

impl DeepView for Token {
    type V = (TokenKind, Seq<char>);

    open spec fn deep_view(&self) -> (TokenKind, Seq<char>) {
        (self.kind, self.text@)
    }
}

impl Token {
    /// A token of the given kind holding a copy of `text`.
    pub fn new(kind: TokenKind, text: &str) -> (t: Token)
        ensures
            t.deep_view() == (kind, text@),
    {
        Token { kind, text: text.to_owned() }
    }
}

/// The one character of `text`, if it has exactly one.
pub fn single_char(text: &str) -> (r: Option<char>)
    ensures
        r == (if text@.len() == 1 { Some(text@[0]) } else { None::<char> }),
{
    if text.unicode_len() == 1 {
        Some(text.get_char(0))
    } else {
        None
    }
}

} // verus!
