//! Arithmetic expressions as text: numbers, the operators `+ - * / ^`, a
//! sign, parentheses and the functions `sin cos tan ln arcsin arccos arctan`.
//!
//! An expression goes through three stages. [`tokenize`] cuts the text into
//! tokens, [`convert2postfix`] reorders the tokens from infix to postfix
//! order, and [`evaluate_postfix`] reduces the postfix sequence to one value
//! on a stack; [`solve`] runs the three in a row. The arithmetic on values
//! is the caller's: the library decides what is computed and in which order.
//!
//! The modules `token`, `lexer`, `postfix`, `eval` and `solver` hold the
//! stages with their contracts. `grammar` and `syntax` say what an
//! expression is and what it means; `parse`, `meaning`, `rejection`,
//! `partition` and `stability` hold what is proved of the stages.

pub mod error;
pub mod eval;
pub mod grammar;
pub mod lexer;
pub mod meaning;
pub mod parse;
pub mod partition;
pub mod postfix;
pub mod rejection;
pub mod solver;
pub mod stability;
pub mod syntax;
pub mod text;
pub mod token;

pub use crate::error::ExprError;
pub use crate::eval::{evaluate_postfix, Operation};
pub use crate::lexer::{space_pad, tokenize};
pub use crate::postfix::convert2postfix;
pub use crate::solver::solve;
pub use crate::token::{
    classify, is_function, is_greater_than_or_equal_precedence, is_operand, is_operator, prec,
    BinaryOperator, Function, TokenKind,
};
