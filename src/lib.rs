//! Evaluation of arithmetic expressions: a tokenizer, an operator-precedence
//! reorderer (shunting yard) and the stack discipline of postfix evaluation.
pub mod calculator;
pub mod lexer;
pub mod postfix;
pub mod reorder;
pub mod token;
