//! The ways in which an expression can be rejected.

use vstd::prelude::*;

verus! {

/// Why an expression, or one stage's input, was rejected.
#[derive(Clone, Copy, Debug, PartialEq, Eq, Structural)]
pub enum ExprError {
    /// A token is none of operand, operator, function name or parenthesis
    /// where the stage at hand needs one of them.
    UnrecognizedToken,
    /// A closing parenthesis has no opening partner, or the reverse.
    UnbalancedParentheses,
    /// An operator or function found too few values to work on, or the
    /// expression produced no value at all.
    InsufficientOperands,
    /// Values were left over after the last token: a trailing fragment that
    /// no operator consumes.
    TrailingOperands,
}

} // verus!
