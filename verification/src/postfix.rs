//! Conversion of a token sequence from infix to postfix order.
//!
//! The tokens are read from left to right. Operands go straight to the
//! output. Operators, functions and opening parentheses wait on a stack
//! until what follows them shows where they belong.

use vstd::prelude::*;
use crate::error::ExprError;
use crate::grammar::is_expression;
use crate::meaning::lemma_expression_postfix;
use crate::parse::tree_of;
use crate::syntax::postfix_form;
use crate::token::{
    classify, is_function_text, is_greater_than_or_equal_precedence, is_operator_text, kind_of,
    lemma_kinds, precedence, TokenKind,
};

verus! {

/// The converter between two tokens: the operators that wait, the last one
/// pushed on top, and the output so far.
pub struct Yard {
    pub stack: Seq<Seq<char>>,
    pub output: Seq<Seq<char>>,
}

/// The yard with its top operator moved to the end of the output.
pub open spec fn released(y: Yard) -> Yard
    recommends
        y.stack.len() > 0,
{
    Yard { stack: y.stack.drop_last(), output: y.output.push(y.stack.last()) }
}

/// The top of the stack has to leave before `token` is pushed: it is no
/// opening parenthesis and binds at least as tightly as `token`. Equal
/// precedence releases, so every operator groups from the left.
pub open spec fn yields(y: Yard, token: Seq<char>) -> bool {
    &&& y.stack.len() > 0
    &&& kind_of(y.stack.last()) != Some(TokenKind::LeftParen)
    &&& precedence(y.stack.last()) >= precedence(token)
}

/// The yard after every operator that has to leave before `token` has left.
pub open spec fn yield_to(y: Yard, token: Seq<char>) -> Yard
    decreases y.stack.len(),
{
    if yields(y, token) {
        yield_to(released(y), token)
    } else {
        y
    }
}

/// The yard after a closing parenthesis: the operators down to the nearest
/// opening parenthesis leave for the output, and that parenthesis is
/// dropped. Without one the parentheses do not balance.
pub open spec fn close(y: Yard) -> Result<Yard, ExprError>
    decreases y.stack.len(),
{
    if y.stack.len() == 0 {
        Err(ExprError::UnbalancedParentheses)
    } else if kind_of(y.stack.last()) == Some(TokenKind::LeftParen) {
        Ok(Yard { stack: y.stack.drop_last(), output: y.output })
    } else {
        close(released(y))
    }
}

/// The output once the input has ended: what waits leaves in turn, the top
/// first. An opening parenthesis that still waits was never closed.
pub open spec fn drain(y: Yard) -> Result<Seq<Seq<char>>, ExprError>
    decreases y.stack.len(),
{
    if y.stack.len() == 0 {
        Ok(y.output)
    } else if kind_of(y.stack.last()) == Some(TokenKind::LeftParen) {
        Err(ExprError::UnbalancedParentheses)
    } else {
        drain(released(y))
    }
}

/// The yard after one more token.
pub open spec fn shunt(y: Yard, token: Seq<char>) -> Result<Yard, ExprError> {
    match kind_of(token) {
        None => Err(ExprError::UnrecognizedToken),
        Some(TokenKind::Operand) => Ok(Yard { stack: y.stack, output: y.output.push(token) }),
        Some(TokenKind::LeftParen) => Ok(Yard { stack: y.stack.push(token), output: y.output }),
        Some(TokenKind::RightParen) => close(y),
        Some(_) => Ok(
            Yard { stack: yield_to(y, token).stack.push(token), output: yield_to(y, token).output },
        ),
    }
}

/// The yard after the first `n` tokens, or the first error among them.
pub open spec fn yard_after(tokens: Seq<Seq<char>>, n: int) -> Result<Yard, ExprError>
    decreases n,
{
    if n <= 0 {
        Ok(Yard { stack: Seq::empty(), output: Seq::empty() })
    } else {
        match yard_after(tokens, n - 1) {
            Ok(y) => shunt(y, tokens[n - 1]),
            Err(e) => Err(e),
        }
    }
}

/// The tokens in postfix order, or the reason why there is none.
pub open spec fn postfix_of(tokens: Seq<Seq<char>>) -> Result<Seq<Seq<char>>, ExprError> {
    match yard_after(tokens, tokens.len() as int) {
        Ok(y) => drain(y),
        Err(e) => Err(e),
    }
}

/// What may wait on the stack: operators, functions and opening
/// parentheses.
pub open spec fn may_wait(t: Seq<char>) -> bool {
    is_operator_text(t) || is_function_text(t) || kind_of(t) == Some(TokenKind::LeftParen)
}

/// The texts of a result that holds tokens.
pub open spec fn texts_of(result: Result<Vec<String>, ExprError>) -> Result<
    Seq<Seq<char>>,
    ExprError,
> {
    match result {
        Ok(tokens) => Ok(tokens.deep_view()),
        Err(e) => Err(e),
    }
}

/// Once a token has been rejected, the tokens after it change nothing.
pub proof fn lemma_error_stays(tokens: Seq<Seq<char>>, n: int, m: int)
    requires
        n <= m,
        yard_after(tokens, n) is Err,
    ensures
        yard_after(tokens, m) == yard_after(tokens, n),
    decreases m - n,
{
    if n < m {
        lemma_error_stays(tokens, n, m - 1);
    }
}

/// The stack rises: every operator or function on it binds tighter than
/// the one below it, unless one of the two is an opening parenthesis, and
/// nothing else than operators, functions and opening parentheses is on it.
pub open spec fn rises(stack: Seq<Seq<char>>) -> bool {
    &&& forall|k: int| 0 <= k < stack.len() ==> may_wait(#[trigger] stack[k])
    &&& forall|k: int|
        0 < k < stack.len() && kind_of(#[trigger] stack[k]) != Some(TokenKind::LeftParen)
            && kind_of(stack[k - 1]) != Some(TokenKind::LeftParen) ==> precedence(stack[k - 1])
            < precedence(stack[k])
}

/// The output `later` starts with the output `earlier`.
pub open spec fn extends(later: Seq<Seq<char>>, earlier: Seq<Seq<char>>) -> bool {
    earlier.len() <= later.len() && later.take(earlier.len() as int) == earlier
}

/// An output that extends one that extends a third extends the third.
proof fn lemma_extends_twice(c: Seq<Seq<char>>, b: Seq<Seq<char>>, a: Seq<Seq<char>>)
    requires
        extends(c, b),
        extends(b, a),
    ensures
        extends(c, a),
{
    assert(c.take(a.len() as int) =~= c.take(b.len() as int).take(a.len() as int));
}

/// A stack that rises still rises without its top.
pub(crate) proof fn lemma_released_rises(y: Yard)
    requires
        rises(y.stack),
        y.stack.len() > 0,
    ensures
        rises(released(y).stack),
        extends(released(y).output, y.output),
{
    let rest = y.stack.drop_last();
    assert forall|k: int| 0 <= k < rest.len() implies may_wait(#[trigger] rest[k]) by {
        assert(rest[k] == y.stack[k]);
    }
    assert forall|k: int|
        0 < k < rest.len() && kind_of(#[trigger] rest[k]) != Some(TokenKind::LeftParen) && kind_of(
            rest[k - 1],
        ) != Some(TokenKind::LeftParen) implies precedence(rest[k - 1]) < precedence(rest[k]) by {
        assert(rest[k] == y.stack[k]);
        assert(rest[k - 1] == y.stack[k - 1]);
    }
    assert(released(y).output.take(y.output.len() as int) =~= y.output);
}

/// A stack that rises still rises with a token on top that its top does
/// not yield to.
proof fn lemma_pushed_rises(stack: Seq<Seq<char>>, token: Seq<char>)
    requires
        rises(stack),
        may_wait(token),
        kind_of(token) == Some(TokenKind::LeftParen) || !yields(
            (Yard { stack, output: Seq::empty() }),
            token,
        ),
    ensures
        rises(stack.push(token)),
{
    let pushed = stack.push(token);
    assert forall|k: int| 0 <= k < pushed.len() implies may_wait(#[trigger] pushed[k]) by {
        if k < stack.len() {
            assert(pushed[k] == stack[k]);
        }
    }
    assert forall|k: int|
        0 < k < pushed.len() && kind_of(#[trigger] pushed[k]) != Some(TokenKind::LeftParen)
            && kind_of(pushed[k - 1]) != Some(TokenKind::LeftParen) implies precedence(
        pushed[k - 1],
    ) < precedence(pushed[k]) by {
        if k < stack.len() {
            assert(pushed[k] == stack[k]);
            assert(pushed[k - 1] == stack[k - 1]);
        } else {
            assert(pushed[k - 1] == stack.last());
        }
    }
}

/// Yielding takes from a stack that rises and adds to the output.
proof fn lemma_yield_rises(y: Yard, token: Seq<char>)
    requires
        rises(y.stack),
    ensures
        rises(yield_to(y, token).stack),
        !yields(yield_to(y, token), token),
        extends(yield_to(y, token).output, y.output),
    decreases y.stack.len(),
{
    if yields(y, token) {
        lemma_released_rises(y);
        lemma_yield_rises(released(y), token);
        lemma_extends_twice(yield_to(y, token).output, released(y).output, y.output);
    } else {
        assert(y.output.take(y.output.len() as int) =~= y.output);
    }
}

/// Closing takes from a stack that rises and adds to the output.
proof fn lemma_close_rises(y: Yard)
    requires
        rises(y.stack),
        close(y) is Ok,
    ensures
        rises(close(y)->Ok_0.stack),
        extends(close(y)->Ok_0.output, y.output),
    decreases y.stack.len(),
{
    if y.stack.len() > 0 {
        lemma_released_rises(y);
        if kind_of(y.stack.last()) == Some(TokenKind::LeftParen) {
            assert(y.output.take(y.output.len() as int) =~= y.output);
        } else {
            lemma_close_rises(released(y));
            lemma_extends_twice(close(y)->Ok_0.output, released(y).output, y.output);
        }
    }
}

/// One token leaves a stack that rises rising, and adds to the output.
proof fn lemma_shunt_rises(y: Yard, token: Seq<char>)
    requires
        rises(y.stack),
        shunt(y, token) is Ok,
    ensures
        rises(shunt(y, token)->Ok_0.stack),
        extends(shunt(y, token)->Ok_0.output, y.output),
{
    let z = shunt(y, token)->Ok_0;
    lemma_kinds(token);
    match kind_of(token) {
        Some(TokenKind::Operand) => {
            assert(z.output.take(y.output.len() as int) =~= y.output);
        },
        Some(TokenKind::LeftParen) => {
            lemma_pushed_rises(y.stack, token);
            assert(z.output.take(y.output.len() as int) =~= y.output);
        },
        Some(TokenKind::RightParen) => {
            lemma_close_rises(y);
        },
        Some(_) => {
            lemma_yield_rises(y, token);
            let w = yield_to(y, token);
            assert(!yields((Yard { stack: w.stack, output: Seq::empty() }), token));
            lemma_pushed_rises(w.stack, token);
        },
        None => {},
    }
}

/// Between any two tokens the stack rises, so that the operator that binds
/// tightest is the first to leave; and the output only grows: what has been
/// put out after `n` tokens is still there after `m`.
pub proof fn lemma_yard_invariant(tokens: Seq<Seq<char>>, n: int, m: int)
    requires
        0 <= n <= m,
        yard_after(tokens, m) is Ok,
    ensures
        yard_after(tokens, n) is Ok,
        rises(yard_after(tokens, m)->Ok_0.stack),
        extends(yard_after(tokens, m)->Ok_0.output, yard_after(tokens, n)->Ok_0.output),
    decreases m,
{
    let z = yard_after(tokens, m)->Ok_0;
    if m == 0 {
        assert(z.output.take(0) =~= z.output);
    } else {
        let y = yard_after(tokens, m - 1)->Ok_0;
        lemma_yard_invariant(tokens, m - 1, m - 1);
        lemma_shunt_rises(y, tokens[m - 1]);
        if n < m {
            lemma_yard_invariant(tokens, n, m - 1);
            lemma_extends_twice(z.output, y.output, yard_after(tokens, n)->Ok_0.output);
        } else {
            assert(z.output.take(z.output.len() as int) =~= z.output);
        }
    }
}

/// What has been put out is part of the result: the postfix form starts
/// with the output after any number of tokens.
pub proof fn lemma_output_stays(tokens: Seq<Seq<char>>, n: int)
    requires
        0 <= n <= tokens.len(),
        postfix_of(tokens) is Ok,
    ensures
        yard_after(tokens, n) is Ok,
        extends(postfix_of(tokens)->Ok_0, yard_after(tokens, n)->Ok_0.output),
{
    let m = tokens.len() as int;
    lemma_yard_invariant(tokens, n, m);
    lemma_drain_extends(yard_after(tokens, m)->Ok_0);
    lemma_extends_twice(
        postfix_of(tokens)->Ok_0,
        yard_after(tokens, m)->Ok_0.output,
        yard_after(tokens, n)->Ok_0.output,
    );
}

/// Draining adds to the output.
proof fn lemma_drain_extends(y: Yard)
    requires
        drain(y) is Ok,
    ensures
        extends(drain(y)->Ok_0, y.output),
    decreases y.stack.len(),
{
    if y.stack.len() > 0 {
        lemma_drain_extends(released(y));
        assert(released(y).output.take(y.output.len() as int) =~= y.output);
        lemma_extends_twice(drain(y)->Ok_0, released(y).output, y.output);
    } else {
        assert(y.output.take(y.output.len() as int) =~= y.output);
    }
}

/// The yard that two stacks of tokens stand for.
spec fn yard_of(stack: &Vec<String>, output: &Vec<String>) -> Yard {
    Yard { stack: stack.deep_view(), output: output.deep_view() }
}

/// Tells whether the top of `stack` has to leave before `token` is pushed.
fn must_yield(stack: &Vec<String>, output: &Vec<String>, token: &str) -> (result: bool)
    requires
        forall|k: int| 0 <= k < stack.len() ==> may_wait(#[trigger] stack.deep_view()[k]),
        is_operator_text(token@) || is_function_text(token@),
    ensures
        result == yields(yard_of(stack, output), token@),
{
    let n = stack.len();
    if n == 0 {
        return false;
    }
    let top = stack[n - 1].as_str();
    proof {
        assert(stack.deep_view().last() == top@);
        assert(may_wait(stack.deep_view()[n - 1]));
        lemma_kinds(top@);
    }
    match classify(top) {
        Some(TokenKind::LeftParen) => false,
        _ => is_greater_than_or_equal_precedence(top, token),
    }
}

/// Moves the top of `stack` to the end of `output`.
fn release(stack: &mut Vec<String>, output: &mut Vec<String>)
    requires
        old(stack).len() > 0,
    ensures
        yard_of(final(stack), final(output)) == released(yard_of(old(stack), old(output))),
        final(stack).deep_view() == old(stack).deep_view().drop_last(),
{
    let ghost before = stack.deep_view();
    let ghost out = output.deep_view();
    let top = stack.pop().unwrap();
    output.push(top);
    proof {
        assert(stack.deep_view() =~= before.drop_last());
        assert(output.deep_view() =~= out.push(before.last()));
    }
}

/// Takes the top of `stack` off, and tells whether it was an opening
/// parenthesis; any other token goes to the end of `output`.
fn release_or_open(stack: &mut Vec<String>, output: &mut Vec<String>) -> (open: bool)
    requires
        old(stack).len() > 0,
    ensures
        open == (kind_of(old(stack).deep_view().last()) == Some(TokenKind::LeftParen)),
        final(stack).deep_view() == old(stack).deep_view().drop_last(),
        open ==> final(output).deep_view() == old(output).deep_view(),
        !open ==> yard_of(final(stack), final(output)) == released(
            yard_of(old(stack), old(output)),
        ),
{
    let ghost before = stack.deep_view();
    let ghost out = output.deep_view();
    let top = stack.pop().unwrap();
    proof {
        assert(stack.deep_view() =~= before.drop_last());
        assert(before.last() == top@);
    }
    match classify(top.as_str()) {
        Some(TokenKind::LeftParen) => true,
        _ => {
            output.push(top);
            proof {
                assert(output.deep_view() =~= out.push(before.last()));
            }
            false
        },
    }
}

/// Reorders `tokens` from infix to postfix order. Operators of equal
/// precedence group from the left, `^` included; the sign marker binds
/// tighter than every binary operator, a function tighter still.
///
/// A token that is none of operand, operator, function name or parenthesis
/// is rejected as unrecognized; a parenthesis without its partner is
/// rejected as unbalanced. The first offence from the left decides.
///
/// Where the tokens form an expression, the result is the postfix form of
/// its syntax tree.
#[verifier::loop_isolation(false)]
pub fn convert2postfix(tokens: Vec<String>) -> (result: Result<Vec<String>, ExprError>)
    ensures
        texts_of(result) == postfix_of(tokens.deep_view()),
        is_expression(tokens.deep_view()) ==> texts_of(result) == Ok::<Seq<Seq<char>>, ExprError>(
            postfix_form(tree_of(tokens.deep_view())),
        ),
{
    let ghost texts = tokens.deep_view();
    proof {
        if is_expression(texts) {
            lemma_expression_postfix(texts);
        }
    }
    let mut stack: Vec<String> = Vec::new();
    let mut output: Vec<String> = Vec::new();
    let mut i: usize = 0;
    proof {
        assert(stack.deep_view() =~= Seq::empty());
        assert(output.deep_view() =~= Seq::empty());
    }
    while i < tokens.len()
        invariant
            0 <= i <= tokens.len(),
            texts == tokens.deep_view(),
            yard_after(texts, i as int) == Ok::<Yard, ExprError>(yard_of(&stack, &output)),
            forall|k: int| 0 <= k < stack.len() ==> may_wait(#[trigger] stack.deep_view()[k]),
        decreases tokens.len() - i,
    {
        let token = tokens[i].clone();
        let ghost text = token@;
        let ghost y = yard_of(&stack, &output);
        proof {
            assert(texts[i as int] == text);
            assert(yard_after(texts, i + 1) == shunt(y, text));
            if shunt(y, text) is Err {
                lemma_error_stays(texts, i + 1, texts.len() as int);
            }
            lemma_kinds(text);
        }
        match classify(token.as_str()) {
            None => {
                return Err(ExprError::UnrecognizedToken);
            },
            Some(TokenKind::Operand) => {
                output.push(token);
                proof {
                    assert(output.deep_view() =~= y.output.push(text));
                }
            },
            Some(TokenKind::LeftParen) => {
                stack.push(token);
                proof {
                    assert(stack.deep_view() =~= y.stack.push(text));
                }
            },
            Some(TokenKind::RightParen) => {
                let mut open = false;
                while !open
                    invariant
                        !open ==> close(y) == close(yard_of(&stack, &output)),
                        open ==> close(y) == Ok::<Yard, ExprError>(yard_of(&stack, &output)),
                        forall|k: int|
                            0 <= k < stack.len() ==> may_wait(#[trigger] stack.deep_view()[k]),
                    decreases stack.len() + (if open { 0int } else { 1int }),
                {
                    if stack.len() == 0 {
                        return Err(ExprError::UnbalancedParentheses);
                    }
                    let ghost waiting = stack.deep_view();
                    open = release_or_open(&mut stack, &mut output);
                    proof {
                        assert forall|k: int| 0 <= k < stack.len() implies may_wait(
                            #[trigger] stack.deep_view()[k],
                        ) by {
                            assert(stack.deep_view()[k] == waiting[k]);
                        }
                    }
                }
            },
            Some(_) => {
                while must_yield(&stack, &output, token.as_str())
                    invariant
                        is_operator_text(text) || is_function_text(text),
                        text == token@,
                        yield_to(y, text) == yield_to(yard_of(&stack, &output), text),
                        forall|k: int|
                            0 <= k < stack.len() ==> may_wait(#[trigger] stack.deep_view()[k]),
                    decreases stack.len(),
                {
                    let ghost waiting = stack.deep_view();
                    release(&mut stack, &mut output);
                    proof {
                        assert forall|k: int| 0 <= k < stack.len() implies may_wait(
                            #[trigger] stack.deep_view()[k],
                        ) by {
                            assert(stack.deep_view()[k] == waiting[k]);
                        }
                    }
                }
                let ghost z = yard_of(&stack, &output);
                stack.push(token);
                proof {
                    assert(yield_to(y, text) == z);
                    assert(stack.deep_view() =~= z.stack.push(text));
                }
            },
        }
        i += 1;
    }
    while stack.len() > 0
        invariant
            postfix_of(texts) == drain(yard_of(&stack, &output)),
        decreases stack.len(),
    {
        if release_or_open(&mut stack, &mut output) {
            return Err(ExprError::UnbalancedParentheses);
        }
    }
    Ok(output)
}

} // verus!
