//! Evaluation of a postfix token sequence on a stack of values.
//!
//! The evaluator decides what is computed and in which order; the
//! arithmetic itself comes from the caller as a function from an
//! [`Operation`] to its value, so the same evaluator serves every kind of
//! number.

use vstd::prelude::*;
use crate::error::ExprError;
use crate::token::{
    classify, is_operand_text, kind_of, lemma_kinds, BinaryOperator, Function, TokenKind,
};

verus! {

/// One request to the caller's arithmetic.
pub enum Operation<V> {
    /// The value of a numeric literal, given as its text.
    Literal(String),
    /// A binary operator applied to a left and a right operand, in this
    /// order.
    Binary(BinaryOperator, V, V),
    /// The negative of a value.
    Negate(V),
    /// A function applied to its argument.
    Call(Function, V),
}

/// The evaluator asks only for these: the text of a literal is always a
/// numeric literal.
pub open spec fn admissible<V>(operation: Operation<V>) -> bool {
    match operation {
        Operation::Literal(text) => is_operand_text(text@),
        _ => true,
    }
}

/// The number of values on the stack after one more token, from `depth`
/// values before it. An operator that finds too few values, and a token
/// that is none of operand, operator or function, stop the evaluation.
pub open spec fn depth_step(depth: nat, token: Seq<char>) -> Result<nat, ExprError> {
    match kind_of(token) {
        Some(TokenKind::Operand) => Ok(depth + 1),
        Some(TokenKind::Binary(_)) => if depth >= 2 {
            Ok((depth - 1) as nat)
        } else {
            Err(ExprError::InsufficientOperands)
        },
        Some(TokenKind::Negate) => if depth >= 1 {
            Ok(depth)
        } else {
            Err(ExprError::InsufficientOperands)
        },
        Some(TokenKind::Function(_)) => if depth >= 1 {
            Ok(depth)
        } else {
            Err(ExprError::InsufficientOperands)
        },
        _ => Err(ExprError::UnrecognizedToken),
    }
}

/// The number of values on the stack after the first `n` tokens, or the
/// first error among them.
pub open spec fn depth_after(postfix: Seq<Seq<char>>, n: int) -> Result<nat, ExprError>
    decreases n,
{
    if n <= 0 {
        Ok(0)
    } else {
        match depth_after(postfix, n - 1) {
            Ok(depth) => depth_step(depth, postfix[n - 1]),
            Err(e) => Err(e),
        }
    }
}

/// Why the evaluation of `postfix` fails, or `None` where it yields a
/// value: every token finds its operands and exactly one value is left.
pub open spec fn failure(postfix: Seq<Seq<char>>) -> Option<ExprError> {
    match depth_after(postfix, postfix.len() as int) {
        Err(e) => Some(e),
        Ok(depth) => if depth == 0 {
            Some(ExprError::InsufficientOperands)
        } else if depth > 1 {
            Some(ExprError::TrailingOperands)
        } else {
            None
        },
    }
}

/// What one token does to the stack of values, whose top is its last
/// element. An operand pushes the value of its text. A binary operator
/// takes the top as its right operand and the value below as its left
/// one, and pushes the result. The sign marker and a function replace the
/// top by the result.
pub open spec fn step<V, A: Fn(Operation<V>) -> V>(
    arithmetic: A,
    token: Seq<char>,
    before: Seq<V>,
    after: Seq<V>,
) -> bool {
    match kind_of(token) {
        Some(TokenKind::Operand) => {
            &&& after.len() == before.len() + 1
            &&& after.drop_last() == before
            &&& exists|text: String| #[trigger]
                call_ensures(arithmetic, (Operation::Literal(text),), after.last()) && text@
                    == token
        },
        Some(TokenKind::Binary(op)) => {
            &&& before.len() >= 2
            &&& after.len() == before.len() - 1
            &&& after.drop_last() == before.take(before.len() - 2)
            &&& call_ensures(
                arithmetic,
                (Operation::Binary(op, before[before.len() - 2], before[before.len() - 1]),),
                after.last(),
            )
        },
        Some(TokenKind::Negate) => {
            &&& before.len() >= 1
            &&& after.len() == before.len()
            &&& after.drop_last() == before.drop_last()
            &&& call_ensures(arithmetic, (Operation::Negate(before.last()),), after.last())
        },
        Some(TokenKind::Function(f)) => {
            &&& before.len() >= 1
            &&& after.len() == before.len()
            &&& after.drop_last() == before.drop_last()
            &&& call_ensures(arithmetic, (Operation::Call(f, before.last()),), after.last())
        },
        _ => false,
    }
}

/// The first `n` tokens, worked off from the left on an empty stack with
/// the caller's arithmetic, can leave `stack`.
pub open spec fn reaches<V, A: Fn(Operation<V>) -> V>(
    arithmetic: A,
    postfix: Seq<Seq<char>>,
    n: int,
    stack: Seq<V>,
) -> bool
    decreases n,
{
    if n <= 0 {
        stack == Seq::<V>::empty()
    } else {
        exists|before: Seq<V>|
            reaches(arithmetic, postfix, n - 1, before) && #[trigger] step(
                arithmetic,
                postfix[n - 1],
                before,
                stack,
            )
    }
}

/// `result` is what the evaluation of `postfix` comes to: the one value
/// that the tokens leave on the stack, or the reason why there is none.
pub open spec fn evaluated<V, A: Fn(Operation<V>) -> V>(
    arithmetic: A,
    postfix: Seq<Seq<char>>,
    result: Result<V, ExprError>,
) -> bool {
    match result {
        Ok(value) => failure(postfix) is None && reaches(
            arithmetic,
            postfix,
            postfix.len() as int,
            seq![value],
        ),
        Err(e) => failure(postfix) == Some(e),
    }
}

/// Once a token has stopped the evaluation, the tokens after it change
/// nothing.
pub proof fn lemma_failure_stays(postfix: Seq<Seq<char>>, n: int, m: int)
    requires
        n <= m,
        depth_after(postfix, n) is Err,
    ensures
        depth_after(postfix, m) == depth_after(postfix, n),
    decreases m - n,
{
    if n < m {
        lemma_failure_stays(postfix, n, m - 1);
    }
}

/// A stack that the first `n` tokens can leave, and one step from it with
/// the next token, make a stack that the first `n + 1` tokens can leave.
pub proof fn lemma_reaches_next<V, A: Fn(Operation<V>) -> V>(
    arithmetic: A,
    postfix: Seq<Seq<char>>,
    n: int,
    before: Seq<V>,
    after: Seq<V>,
)
    requires
        0 <= n,
        reaches(arithmetic, postfix, n, before),
        step(arithmetic, postfix[n], before, after),
    ensures
        reaches(arithmetic, postfix, n + 1, after),
{
    let m = n + 1;
    assert(reaches(arithmetic, postfix, m - 1, before) && step(
        arithmetic,
        postfix[m - 1],
        before,
        after,
    ));
}

/// The stack before the last of `m` tokens, from which that token leads to
/// `stack`.
pub proof fn lemma_reaches_before<V, A: Fn(Operation<V>) -> V>(
    arithmetic: A,
    postfix: Seq<Seq<char>>,
    m: int,
    stack: Seq<V>,
) -> (before: Seq<V>)
    requires
        m > 0,
        reaches(arithmetic, postfix, m, stack),
    ensures
        reaches(arithmetic, postfix, m - 1, before),
        step(arithmetic, postfix[m - 1], before, stack),
{
    choose|before: Seq<V>|
        reaches(arithmetic, postfix, m - 1, before) && #[trigger] step(
            arithmetic,
            postfix[m - 1],
            before,
            stack,
        )
}

/// Reduces `postfix` to a single value on a stack of values, asking
/// `arithmetic` for the value of every literal and of every operator and
/// function applied to its operands.
///
/// A token that finds too few values on the stack, and a sequence that
/// leaves none, is rejected for insufficient operands; a token that is none
/// of operand, operator or function as unrecognized; a sequence that leaves
/// more than one value for its trailing operands. The first offence from
/// the left decides.
#[verifier::loop_isolation(false)]
pub fn evaluate_postfix<V, A: Fn(Operation<V>) -> V>(
    postfix: Vec<String>,
    arithmetic: A,
) -> (result: Result<V, ExprError>)
    requires
        forall|operation: Operation<V>|
            admissible(operation) ==> call_requires(arithmetic, (operation,)),
    ensures
        evaluated(arithmetic, postfix.deep_view(), result),
{
    let ghost texts = postfix.deep_view();
    let mut stack: Vec<V> = Vec::new();
    let mut i: usize = 0;
    while i < postfix.len()
        invariant
            0 <= i <= postfix.len(),
            depth_after(texts, i as int) == Ok::<nat, ExprError>(stack.len() as nat),
            reaches(arithmetic, texts, i as int, stack@),
        decreases postfix.len() - i,
    {
        let ghost before = stack@;
        let ghost text = texts[i as int];
        proof {
            assert(text == postfix@[i as int]@);
            assert(depth_after(texts, i + 1) == depth_step(before.len(), text));
            if depth_step(before.len(), text) is Err {
                lemma_failure_stays(texts, i + 1, texts.len() as int);
            }
            lemma_kinds(text);
        }
        match classify(postfix[i].as_str()) {
            Some(TokenKind::Operand) => {
                let literal = postfix[i].clone();
                proof {
                    assert(admissible(Operation::<V>::Literal(literal)));
                }
                let value = arithmetic(Operation::Literal(literal));
                stack.push(value);
                proof {
                    assert(stack@.drop_last() =~= before);
                    assert(call_ensures(arithmetic, (Operation::Literal(literal),), stack@.last())
                        && literal@ == text);
                    assert(step(arithmetic, text, before, stack@));
                }
            },
            Some(TokenKind::Binary(op)) => {
                if stack.len() < 2 {
                    return Err(ExprError::InsufficientOperands);
                }
                let right = stack.pop().unwrap();
                let left = stack.pop().unwrap();
                proof {
                    assert(admissible(Operation::Binary(op, left, right)));
                }
                let value = arithmetic(Operation::Binary(op, left, right));
                stack.push(value);
                proof {
                    assert(stack@.drop_last() =~= before.take(before.len() - 2));
                    assert(step(arithmetic, text, before, stack@));
                }
            },
            Some(TokenKind::Negate) => {
                if stack.len() < 1 {
                    return Err(ExprError::InsufficientOperands);
                }
                let operand = stack.pop().unwrap();
                proof {
                    assert(admissible(Operation::Negate(operand)));
                }
                let value = arithmetic(Operation::Negate(operand));
                stack.push(value);
                proof {
                    assert(stack@.drop_last() =~= before.drop_last());
                    assert(step(arithmetic, text, before, stack@));
                }
            },
            Some(TokenKind::Function(f)) => {
                if stack.len() < 1 {
                    return Err(ExprError::InsufficientOperands);
                }
                let operand = stack.pop().unwrap();
                proof {
                    assert(admissible(Operation::Call(f, operand)));
                }
                let value = arithmetic(Operation::Call(f, operand));
                stack.push(value);
                proof {
                    assert(stack@.drop_last() =~= before.drop_last());
                    assert(step(arithmetic, text, before, stack@));
                }
            },
            _ => {
                return Err(ExprError::UnrecognizedToken);
            },
        }
        proof {
            lemma_reaches_next(arithmetic, texts, i as int, before, stack@);
        }
        i += 1;
    }
    if stack.len() == 0 {
        return Err(ExprError::InsufficientOperands);
    }
    if stack.len() > 1 {
        return Err(ExprError::TrailingOperands);
    }
    let ghost last = stack@;
    let value = stack.pop().unwrap();
    proof {
        assert(last =~= seq![value]);
    }
    Ok(value)
}

} // verus!
