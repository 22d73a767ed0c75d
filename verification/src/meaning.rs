//! The value of an expression is the value of its syntax tree.
//!
//! The value of a tree is what the caller's arithmetic makes of it from the
//! leaves up. The evaluator is shown to find it on the tree's postfix form,
//! and so, with the converter, on the tokens of the expression.

use vstd::prelude::*;
use crate::error::ExprError;
use crate::eval::{
    depth_after, evaluated, failure, lemma_reaches_before, reaches, Operation,
};
use crate::grammar::is_expression;
use crate::lexer::tokens_of;
use crate::parse::{lemma_expression_has_tree, tree_of};
use crate::postfix::postfix_of;
use crate::solver::solved;
use crate::syntax::{
    holds_at, infix_form, is_plain, lemma_conversion_keeps_meaning, lemma_holds_part,
    postfix_form, Syntax,
};
use crate::token::{lemma_function_texts, lemma_kinds, lemma_operator_texts, BinaryOperator};

verus! {

/// `value` is a value of the tree: a literal has the value of its text, an
/// operator or function the value that the arithmetic gives with values of
/// its operands, and parentheses change nothing.
pub open spec fn has_value<V, A: Fn(Operation<V>) -> V>(arithmetic: A, s: Syntax, value: V) -> bool
    decreases s,
{
    match s {
        Syntax::Literal(text) => exists|t: String| #[trigger]
            call_ensures(arithmetic, (Operation::Literal(t),), value) && t@ == text,
        Syntax::Negate(operand) => exists|v: V|
            has_value(arithmetic, *operand, v) && #[trigger] call_ensures(
                arithmetic,
                (Operation::Negate(v),),
                value,
            ),
        Syntax::Call(f, argument) => exists|v: V|
            has_value(arithmetic, *argument, v) && #[trigger] call_ensures(
                arithmetic,
                (Operation::Call(f, v),),
                value,
            ),
        Syntax::Binary(op, left, right) => exists|a: V, b: V|
            has_value(arithmetic, *left, a) && has_value(arithmetic, *right, b)
                && #[trigger] call_ensures(arithmetic, (Operation::Binary(op, a, b),), value),
        Syntax::Paren(inner) => has_value(arithmetic, *inner, value),
    }
}

/// The postfix form of a tree is never empty.
proof fn lemma_postfix_form_len(s: Syntax)
    ensures
        postfix_form(s).len() >= 1,
    decreases s,
{
    match s {
        Syntax::Paren(inner) => {
            lemma_postfix_form_len(*inner);
        },
        _ => {},
    }
}

/// The postfix form of a tree leaves one value more on the stack than it
/// found, and fails on none of its tokens.
proof fn lemma_tree_depth(postfix: Seq<Seq<char>>, n: int, s: Syntax)
    requires
        is_plain(s),
        holds_at(postfix, n, postfix_form(s)),
        depth_after(postfix, n) is Ok,
    ensures
        depth_after(postfix, n + postfix_form(s).len()) == Ok::<nat, ExprError>(
            depth_after(postfix, n)->Ok_0 + 1,
        ),
    decreases s,
{
    let whole = postfix_form(s);
    let last = whole.len() - 1;
    lemma_postfix_form_len(s);
    assert(postfix[n + last] == whole[last]);
    match s {
        Syntax::Literal(text) => {
            lemma_kinds(text);
        },
        Syntax::Negate(operand) => {
            let inner = postfix_form(*operand);
            lemma_operator_texts(BinaryOperator::Add);
            assert(holds_at(whole, 0, inner));
            lemma_holds_part(postfix, n, whole, 0, inner);
            lemma_tree_depth(postfix, n, *operand);
        },
        Syntax::Call(f, argument) => {
            let inner = postfix_form(*argument);
            lemma_function_texts(f);
            assert(holds_at(whole, 0, inner));
            lemma_holds_part(postfix, n, whole, 0, inner);
            lemma_tree_depth(postfix, n, *argument);
        },
        Syntax::Binary(op, left, right) => {
            let first = postfix_form(*left);
            let second = postfix_form(*right);
            lemma_operator_texts(op);
            assert(holds_at(whole, 0, first));
            lemma_holds_part(postfix, n, whole, 0, first);
            lemma_tree_depth(postfix, n, *left);
            assert(holds_at(whole, first.len() as int, second));
            lemma_holds_part(postfix, n, whole, first.len() as int, second);
            lemma_tree_depth(postfix, n + first.len(), *right);
        },
        Syntax::Paren(inner) => {
            lemma_tree_depth(postfix, n, *inner);
        },
    }
}

/// Whatever stack the postfix form of a tree can leave, the stack held
/// everything but the top before, and the top is a value of the tree.
proof fn lemma_evaluates_tree<V, A: Fn(Operation<V>) -> V>(
    arithmetic: A,
    postfix: Seq<Seq<char>>,
    n: int,
    s: Syntax,
    stack: Seq<V>,
)
    requires
        is_plain(s),
        holds_at(postfix, n, postfix_form(s)),
        reaches(arithmetic, postfix, n + postfix_form(s).len(), stack),
    ensures
        stack.len() >= 1,
        reaches(arithmetic, postfix, n, stack.drop_last()),
        has_value(arithmetic, s, stack.last()),
    decreases s,
{
    let whole = postfix_form(s);
    let last = whole.len() - 1;
    lemma_postfix_form_len(s);
    assert(postfix[n + last] == whole[last]);
    match s {
        Syntax::Literal(text) => {
            lemma_kinds(text);
            let before = lemma_reaches_before(arithmetic, postfix, n + 1, stack);
            assert(stack.drop_last() == before);
        },
        Syntax::Negate(operand) => {
            let inner = postfix_form(*operand);
            lemma_operator_texts(BinaryOperator::Add);
            let before = lemma_reaches_before(arithmetic, postfix, n + inner.len() + 1, stack);
            assert(holds_at(whole, 0, inner));
            lemma_holds_part(postfix, n, whole, 0, inner);
            lemma_evaluates_tree(arithmetic, postfix, n, *operand, before);
            assert(has_value(arithmetic, *operand, before.last()) && call_ensures(
                arithmetic,
                (Operation::Negate(before.last()),),
                stack.last(),
            ));
        },
        Syntax::Call(f, argument) => {
            let inner = postfix_form(*argument);
            lemma_function_texts(f);
            let before = lemma_reaches_before(arithmetic, postfix, n + inner.len() + 1, stack);
            assert(holds_at(whole, 0, inner));
            lemma_holds_part(postfix, n, whole, 0, inner);
            lemma_evaluates_tree(arithmetic, postfix, n, *argument, before);
            assert(has_value(arithmetic, *argument, before.last()) && call_ensures(
                arithmetic,
                (Operation::Call(f, before.last()),),
                stack.last(),
            ));
        },
        Syntax::Binary(op, left, right) => {
            let first = postfix_form(*left);
            let second = postfix_form(*right);
            let a = first.len() as int;
            let b = second.len() as int;
            lemma_operator_texts(op);
            let before = lemma_reaches_before(arithmetic, postfix, n + a + b + 1, stack);
            assert(holds_at(whole, a, second));
            lemma_holds_part(postfix, n, whole, a, second);
            lemma_evaluates_tree(arithmetic, postfix, n + a, *right, before);
            assert(holds_at(whole, 0, first));
            lemma_holds_part(postfix, n, whole, 0, first);
            lemma_evaluates_tree(arithmetic, postfix, n, *left, before.drop_last());
            let x = before[before.len() - 2];
            let y = before[before.len() - 1];
            assert(before.drop_last().last() == x);
            assert(before.drop_last().drop_last() =~= before.take(before.len() - 2));
            assert(has_value(arithmetic, *left, x) && has_value(arithmetic, *right, y)
                && call_ensures(arithmetic, (Operation::Binary(op, x, y),), stack.last()));
        },
        Syntax::Paren(inner) => {
            lemma_evaluates_tree(arithmetic, postfix, n, *inner, stack);
        },
    }
}

/// The evaluator finds the value of a tree on the tree's postfix form: it
/// rejects nothing, and what it returns is a value of the tree.
pub proof fn lemma_evaluated_tree<V, A: Fn(Operation<V>) -> V>(
    arithmetic: A,
    s: Syntax,
    result: Result<V, ExprError>,
)
    requires
        is_plain(s),
        evaluated(arithmetic, postfix_form(s), result),
    ensures
        result is Ok,
        has_value(arithmetic, s, result->Ok_0),
{
    let postfix = postfix_form(s);
    lemma_tree_depth(postfix, 0, s);
    assert(failure(postfix) is None);
    let value = result->Ok_0;
    lemma_evaluates_tree(arithmetic, postfix, 0, s, seq![value]);
}

/// An expression whose tokens are the infix form of a syntax tree is
/// solved with a value, and that value is a value of the tree: every
/// operator and function has been applied to the values of its own
/// operands, the left one on the left.
pub proof fn lemma_solved_tree<V, A: Fn(Operation<V>) -> V>(
    arithmetic: A,
    expression: Seq<char>,
    s: Syntax,
    result: Result<V, ExprError>,
)
    requires
        is_plain(s),
        tokens_of(expression) == infix_form(s),
        solved(arithmetic, expression, result),
    ensures
        result is Ok,
        has_value(arithmetic, s, result->Ok_0),
{
    lemma_conversion_keeps_meaning(s);
    lemma_evaluated_tree(arithmetic, s, result);
}

/// The postfix form of an expression is the postfix form of its syntax
/// tree: the converter rejects no expression.
pub proof fn lemma_expression_postfix(tokens: Seq<Seq<char>>)
    requires
        is_expression(tokens),
    ensures
        postfix_of(tokens) == Ok::<Seq<Seq<char>>, ExprError>(postfix_form(tree_of(tokens))),
        failure(postfix_form(tree_of(tokens))) is None,
{
    lemma_expression_has_tree(tokens);
    lemma_conversion_keeps_meaning(tree_of(tokens));
    lemma_tree_depth(postfix_form(tree_of(tokens)), 0, tree_of(tokens));
}

/// Every expression has a value, and it is the value of its syntax tree:
/// where the tokens of a text form an expression, no stage rejects it, and
/// what the three stages come to is a value of the tree that the expression
/// is read as.
pub proof fn lemma_expression_value<V, A: Fn(Operation<V>) -> V>(
    arithmetic: A,
    expression: Seq<char>,
    result: Result<V, ExprError>,
)
    requires
        is_expression(tokens_of(expression)),
        solved(arithmetic, expression, result),
    ensures
        result is Ok,
        has_value(arithmetic, tree_of(tokens_of(expression)), result->Ok_0),
{
    lemma_expression_has_tree(tokens_of(expression));
    lemma_solved_tree(arithmetic, expression, tree_of(tokens_of(expression)), result);
}

} // verus!
