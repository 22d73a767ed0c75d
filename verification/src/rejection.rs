//! What a value needs: three ways in which a token sequence is malformed,
//! each of which is always rejected.
//!
//! A sequence that has a value holds no token that is unknown, its
//! parentheses balance, and it holds one operand more than it holds binary
//! operators. The order of operands and operators is not among the things
//! that the stages hold a sequence to.

use vstd::prelude::*;
use crate::error::ExprError;
use crate::eval::{depth_after, failure, Operation};
use crate::lexer::tokens_of;
use crate::postfix::{
    close, drain, lemma_released_rises, lemma_yard_invariant, may_wait, postfix_of, released,
    rises, yard_after, yield_to, yields, Yard,
};
use crate::solver::solved;
use crate::token::{kind_of, lemma_kinds, TokenKind};

verus! {

/// The number of operands among the tokens.
pub open spec fn operands_in(tokens: Seq<Seq<char>>) -> int
    decreases tokens.len(),
{
    if tokens.len() == 0 {
        0
    } else {
        operands_in(tokens.drop_last()) + if kind_of(tokens.last()) == Some(TokenKind::Operand) {
            1int
        } else {
            0int
        }
    }
}

/// The number of binary operators among the tokens.
pub open spec fn binaries_in(tokens: Seq<Seq<char>>) -> int
    decreases tokens.len(),
{
    if tokens.len() == 0 {
        0
    } else {
        binaries_in(tokens.drop_last()) + if kind_of(tokens.last()) matches Some(
            TokenKind::Binary(_),
        ) {
            1int
        } else {
            0int
        }
    }
}

/// The number of opening parentheses among the tokens, less the number of
/// closing ones.
pub open spec fn left_open(tokens: Seq<Seq<char>>) -> int
    decreases tokens.len(),
{
    if tokens.len() == 0 {
        0
    } else {
        left_open(tokens.drop_last()) + if kind_of(tokens.last()) == Some(TokenKind::LeftParen) {
            1int
        } else if kind_of(tokens.last()) == Some(TokenKind::RightParen) {
            -1int
        } else {
            0int
        }
    }
}

/// The parentheses balance: no closing parenthesis comes before its
/// partner, and none is left open.
pub open spec fn is_balanced(tokens: Seq<Seq<char>>) -> bool {
    &&& forall|n: int| 0 <= n <= tokens.len() ==> left_open(#[trigger] tokens.take(n)) >= 0
    &&& left_open(tokens) == 0
}

/// The yard accounts for the tokens: all of them are known, the operands
/// are in the output, the binary operators in the output or on the stack,
/// and the stack holds the parentheses that are open.
spec fn accounts(y: Yard, tokens: Seq<Seq<char>>) -> bool {
    &&& rises(y.stack)
    &&& forall|k: int| 0 <= k < tokens.len() ==> kind_of(#[trigger] tokens[k]) is Some
    &&& operands_in(y.output) == operands_in(tokens)
    &&& binaries_in(y.output) + binaries_in(y.stack) == binaries_in(tokens)
    &&& left_open(y.output) == 0
    &&& left_open(y.stack) == left_open(tokens)
    &&& left_open(y.stack) >= 0
}

/// What one more token adds to the counts.
proof fn lemma_counts_push(tokens: Seq<Seq<char>>, token: Seq<char>)
    ensures
        operands_in(tokens.push(token)) == operands_in(tokens) + if kind_of(token) == Some(
            TokenKind::Operand,
        ) {
            1int
        } else {
            0int
        },
        binaries_in(tokens.push(token)) == binaries_in(tokens) + if kind_of(token) matches Some(
            TokenKind::Binary(_),
        ) {
            1int
        } else {
            0int
        },
        left_open(tokens.push(token)) == left_open(tokens) + if kind_of(token) == Some(
            TokenKind::LeftParen,
        ) {
            1int
        } else if kind_of(token) == Some(TokenKind::RightParen) {
            -1int
        } else {
            0int
        },
{
    assert(tokens.push(token).drop_last() =~= tokens);
}

/// A stack that rises holds no operand and no closing parenthesis, so its
/// count of open parentheses never falls.
proof fn lemma_stack_counts(stack: Seq<Seq<char>>)
    requires
        forall|k: int| 0 <= k < stack.len() ==> may_wait(#[trigger] stack[k]),
    ensures
        operands_in(stack) == 0,
        left_open(stack) >= 0,
        stack.len() > 0 ==> left_open(stack.drop_last()) <= left_open(stack),
    decreases stack.len(),
{
    if stack.len() > 0 {
        let rest = stack.drop_last();
        assert forall|k: int| 0 <= k < rest.len() implies may_wait(#[trigger] rest[k]) by {
            assert(rest[k] == stack[k]);
        }
        lemma_stack_counts(rest);
        assert(may_wait(stack[stack.len() - 1]));
        lemma_kinds(stack.last());
    }
}

/// An operator that leaves the stack for the output changes no count.
proof fn lemma_released_counts(y: Yard)
    requires
        rises(y.stack),
        y.stack.len() > 0,
        kind_of(y.stack.last()) != Some(TokenKind::LeftParen),
    ensures
        rises(released(y).stack),
        operands_in(released(y).output) == operands_in(y.output),
        binaries_in(released(y).output) + binaries_in(released(y).stack) == binaries_in(y.output)
            + binaries_in(y.stack),
        left_open(released(y).output) == left_open(y.output),
        left_open(released(y).stack) == left_open(y.stack),
{
    let top = y.stack.last();
    assert(may_wait(y.stack[y.stack.len() - 1]));
    lemma_kinds(top);
    lemma_counts_push(y.output, top);
    lemma_released_rises(y);
}

/// Yielding changes no count.
proof fn lemma_yield_counts(y: Yard, token: Seq<char>)
    requires
        rises(y.stack),
    ensures
        rises(yield_to(y, token).stack),
        !yields(yield_to(y, token), token),
        operands_in(yield_to(y, token).output) == operands_in(y.output),
        binaries_in(yield_to(y, token).output) + binaries_in(yield_to(y, token).stack)
            == binaries_in(y.output) + binaries_in(y.stack),
        left_open(yield_to(y, token).output) == left_open(y.output),
        left_open(yield_to(y, token).stack) == left_open(y.stack),
    decreases y.stack.len(),
{
    if yields(y, token) {
        lemma_released_counts(y);
        lemma_yield_counts(released(y), token);
    }
}

/// Closing takes one opening parenthesis off the stack and changes no
/// other count.
proof fn lemma_close_counts(y: Yard)
    requires
        rises(y.stack),
        close(y) is Ok,
    ensures
        rises(close(y)->Ok_0.stack),
        operands_in(close(y)->Ok_0.output) == operands_in(y.output),
        binaries_in(close(y)->Ok_0.output) + binaries_in(close(y)->Ok_0.stack) == binaries_in(
            y.output,
        ) + binaries_in(y.stack),
        left_open(close(y)->Ok_0.output) == left_open(y.output),
        left_open(close(y)->Ok_0.stack) == left_open(y.stack) - 1,
    decreases y.stack.len(),
{
    if y.stack.len() > 0 {
        if kind_of(y.stack.last()) == Some(TokenKind::LeftParen) {
            lemma_released_rises(y);
        } else {
            lemma_released_counts(y);
            lemma_close_counts(released(y));
        }
    }
}

/// Draining moves the binary operators that wait to the output, and finds
/// no parenthesis open.
proof fn lemma_drain_counts(y: Yard)
    requires
        rises(y.stack),
        drain(y) is Ok,
    ensures
        operands_in(drain(y)->Ok_0) == operands_in(y.output),
        binaries_in(drain(y)->Ok_0) == binaries_in(y.output) + binaries_in(y.stack),
        left_open(y.stack) == 0,
    decreases y.stack.len(),
{
    if y.stack.len() > 0 {
        lemma_released_counts(y);
        lemma_drain_counts(released(y));
    }
}

/// As long as the converter rejects nothing, the yard accounts for the
/// tokens it has seen.
proof fn lemma_accounts(tokens: Seq<Seq<char>>, n: int)
    requires
        0 <= n <= tokens.len(),
        yard_after(tokens, n) is Ok,
    ensures
        accounts(yard_after(tokens, n)->Ok_0, tokens.take(n)),
    decreases n,
{
    let seen = tokens.take(n);
    if n == 0 {
        assert(seen =~= Seq::<Seq<char>>::empty());
    } else {
        let before = tokens.take(n - 1);
        let token = tokens[n - 1];
        let y = yard_after(tokens, n - 1)->Ok_0;
        let z = yard_after(tokens, n)->Ok_0;
        lemma_accounts(tokens, n - 1);
        assert(seen =~= before.push(token));
        lemma_counts_push(before, token);
        lemma_kinds(token);
        assert forall|k: int| 0 <= k < seen.len() implies kind_of(#[trigger] seen[k]) is Some by {
            if k < n - 1 {
                assert(seen[k] == before[k]);
            }
        }
        lemma_yard_invariant(tokens, n, n);
        match kind_of(token) {
            Some(TokenKind::Operand) => {
                lemma_counts_push(y.output, token);
            },
            Some(TokenKind::LeftParen) => {
                lemma_counts_push(y.stack, token);
            },
            Some(TokenKind::RightParen) => {
                lemma_close_counts(y);
                lemma_stack_counts(z.stack);
            },
            Some(_) => {
                lemma_yield_counts(y, token);
                lemma_counts_push(yield_to(y, token).stack, token);
            },
            None => {},
        }
    }
}

/// The values on the stack are the operands less the binary operators.
proof fn lemma_depth_counts(postfix: Seq<Seq<char>>, n: int)
    requires
        0 <= n <= postfix.len(),
        depth_after(postfix, n) is Ok,
    ensures
        depth_after(postfix, n)->Ok_0 == operands_in(postfix.take(n)) - binaries_in(
            postfix.take(n),
        ),
    decreases n,
{
    if n == 0 {
        assert(postfix.take(0) =~= Seq::<Seq<char>>::empty());
    } else {
        lemma_depth_counts(postfix, n - 1);
        assert(postfix.take(n) =~= postfix.take(n - 1).push(postfix[n - 1]));
        lemma_counts_push(postfix.take(n - 1), postfix[n - 1]);
    }
}

/// A token sequence that has a postfix form holds no unknown token, and its
/// parentheses balance.
pub proof fn lemma_postfix_needs(tokens: Seq<Seq<char>>)
    requires
        postfix_of(tokens) is Ok,
    ensures
        forall|k: int| 0 <= k < tokens.len() ==> kind_of(#[trigger] tokens[k]) is Some,
        is_balanced(tokens),
        operands_in(postfix_of(tokens)->Ok_0) == operands_in(tokens),
        binaries_in(postfix_of(tokens)->Ok_0) == binaries_in(tokens),
{
    let m = tokens.len() as int;
    lemma_accounts(tokens, m);
    assert(tokens.take(m) =~= tokens);
    let y = yard_after(tokens, m)->Ok_0;
    lemma_drain_counts(y);
    assert forall|n: int| 0 <= n <= tokens.len() implies left_open(#[trigger] tokens.take(n))
        >= 0 by {
        lemma_yard_invariant(tokens, n, m);
        lemma_accounts(tokens, n);
    }
}

/// Malformed input is rejected: an expression that comes to a value holds
/// no unknown token, its parentheses balance, and it holds exactly one
/// operand more than it holds binary operators. So an unknown token, a
/// parenthesis without its partner and an operator without its operands
/// each give an error, whatever else the expression holds.
pub proof fn lemma_value_needs<V, A: Fn(Operation<V>) -> V>(
    arithmetic: A,
    expression: Seq<char>,
    result: Result<V, ExprError>,
)
    requires
        solved(arithmetic, expression, result),
        result is Ok,
    ensures
        forall|k: int|
            0 <= k < tokens_of(expression).len() ==> kind_of(#[trigger] tokens_of(expression)[k])
                is Some,
        is_balanced(tokens_of(expression)),
        operands_in(tokens_of(expression)) == binaries_in(tokens_of(expression)) + 1,
{
    let tokens = tokens_of(expression);
    lemma_postfix_needs(tokens);
    let postfix = postfix_of(tokens)->Ok_0;
    assert(failure(postfix) is None);
    lemma_depth_counts(postfix, postfix.len() as int);
    assert(postfix.take(postfix.len() as int) =~= postfix);
}

} // verus!
