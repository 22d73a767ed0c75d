//! The three stages in a row: from the text of an expression to its value.

use vstd::prelude::*;
use crate::error::ExprError;
use crate::eval::{admissible, evaluate_postfix, evaluated, Operation};
use crate::grammar::is_expression;
use crate::lexer::{tokenize, tokens_of};
use crate::meaning::{has_value, lemma_expression_value};
use crate::parse::tree_of;
use crate::postfix::{convert2postfix, postfix_of};

verus! {

/// `result` is what an expression comes to, through all three stages: the
/// outcome of the evaluation of its postfix form, or the error of the
/// converter where there is no postfix form.
pub open spec fn solved<V, A: Fn(Operation<V>) -> V>(
    arithmetic: A,
    expression: Seq<char>,
    result: Result<V, ExprError>,
) -> bool {
    match postfix_of(tokens_of(expression)) {
        Ok(postfix) => evaluated(arithmetic, postfix, result),
        Err(e) => result matches Err(r) && r == e,
    }
}

/// Evaluates `expression`: cuts it into tokens, reorders them to postfix and
/// reduces that to one value with the caller's arithmetic. An expression
/// that one of the stages rejects gives that stage's error.
///
/// Where the tokens form an expression, no stage rejects it, and the value
/// is that of its syntax tree.
pub fn solve<V, A: Fn(Operation<V>) -> V>(
    expression: &str,
    arithmetic: A,
) -> (result: Result<V, ExprError>)
    requires
        forall|operation: Operation<V>|
            admissible(operation) ==> call_requires(arithmetic, (operation,)),
    ensures
        solved(arithmetic, expression@, result),
        is_expression(tokens_of(expression@)) ==> result is Ok && has_value(
            arithmetic,
            tree_of(tokens_of(expression@)),
            result->Ok_0,
        ),
{
    let tokens = tokenize(expression);
    let result = match convert2postfix(tokens) {
        Ok(postfix) => evaluate_postfix(postfix, arithmetic),
        Err(e) => Err(e),
    };
    proof {
        if is_expression(tokens_of(expression@)) {
            lemma_expression_value(arithmetic, expression@, result);
        }
    }
    result
}

} // verus!
