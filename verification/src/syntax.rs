//! What an expression means, and the proof that the converter keeps the
//! meaning.
//!
//! The meaning of an expression is its syntax tree. The tree is written in
//! infix form with parentheses only where the author put them; the
//! converter is shown to produce the tree's postfix form.

use vstd::prelude::*;
use crate::error::ExprError;
use crate::postfix::{
    close, drain, postfix_of, released, shunt, yard_after, yield_to, yields, Yard,
};
use crate::token::{
    function_name, is_function_text, is_operand_text, is_operator_text, kind_of,
    lemma_function_texts, lemma_kinds, lemma_operator_texts, operator_text, precedence,
    precedence_of, BinaryOperator, Function, TokenKind,
};

verus! {

/// The syntax tree of an expression.
pub enum Syntax {
    /// A numeric literal, by its text.
    Literal(Seq<char>),
    /// A sign before its operand.
    Negate(Box<Syntax>),
    /// A function before its argument.
    Call(Function, Box<Syntax>),
    /// A binary operator between its left and its right operand.
    Binary(BinaryOperator, Box<Syntax>, Box<Syntax>),
    /// An expression in parentheses.
    Paren(Box<Syntax>),
}

/// How tightly the outermost operation of a tree binds: the precedence of
/// its operator, and 6 for a literal and for parentheses.
pub open spec fn level(s: Syntax) -> int {
    match s {
        Syntax::Literal(_) => 6,
        Syntax::Negate(_) => 4,
        Syntax::Call(_, _) => 5,
        Syntax::Binary(op, _, _) => precedence_of(TokenKind::Binary(op)),
        Syntax::Paren(_) => 6,
    }
}

/// The tree can be written without further parentheses: a left operand
/// binds at least as tightly as its operator, a right operand tighter, the
/// operand of a sign tighter than the sign, and the argument of a function
/// is a literal or stands in parentheses.
pub open spec fn is_plain(s: Syntax) -> bool
    decreases s,
{
    match s {
        Syntax::Literal(text) => is_operand_text(text),
        Syntax::Negate(operand) => is_plain(*operand) && level(*operand) >= 5,
        Syntax::Call(_, argument) => is_plain(*argument) && level(*argument) >= 6,
        Syntax::Binary(op, left, right) => {
            &&& is_plain(*left)
            &&& is_plain(*right)
            &&& level(*left) >= precedence_of(TokenKind::Binary(op))
            &&& level(*right) > precedence_of(TokenKind::Binary(op))
        },
        Syntax::Paren(inner) => is_plain(*inner),
    }
}

/// The tokens of the tree in infix order.
pub open spec fn infix_form(s: Syntax) -> Seq<Seq<char>>
    decreases s,
{
    match s {
        Syntax::Literal(text) => seq![text],
        Syntax::Negate(operand) => seq![seq!['@']] + infix_form(*operand),
        Syntax::Call(f, argument) => seq![function_name(f)] + infix_form(*argument),
        Syntax::Binary(op, left, right) => infix_form(*left) + seq![operator_text(op)] + infix_form(
            *right,
        ),
        Syntax::Paren(inner) => seq![seq!['(']] + infix_form(*inner) + seq![seq![')']],
    }
}

/// The tokens of the tree in postfix order: every operator after its
/// operands, and no parentheses.
pub open spec fn postfix_form(s: Syntax) -> Seq<Seq<char>>
    decreases s,
{
    match s {
        Syntax::Literal(text) => seq![text],
        Syntax::Negate(operand) => postfix_form(*operand).push(seq!['@']),
        Syntax::Call(f, argument) => postfix_form(*argument).push(function_name(f)),
        Syntax::Binary(op, left, right) => (postfix_form(*left) + postfix_form(*right)).push(
            operator_text(op),
        ),
        Syntax::Paren(inner) => postfix_form(*inner),
    }
}

/// The tokens of a stack in the order in which they leave it, the top
/// first.
spec fn unwound(stack: Seq<Seq<char>>) -> Seq<Seq<char>>
    decreases stack.len(),
{
    if stack.len() == 0 {
        Seq::empty()
    } else {
        seq![stack.last()] + unwound(stack.drop_last())
    }
}

/// An operator or function that binds at least as tightly as `bound`.
spec fn held(t: Seq<char>, bound: int) -> bool {
    (is_operator_text(t) || is_function_text(t)) && precedence(t) >= bound
}

/// Nothing on the stack gives way to an operator of precedence `bound`: the
/// stack is empty, or its top is an opening parenthesis or binds less
/// tightly.
spec fn binds_below(stack: Seq<Seq<char>>, bound: int) -> bool {
    stack.len() == 0 || kind_of(stack.last()) == Some(TokenKind::LeftParen) || ((is_operator_text(
        stack.last(),
    ) || is_function_text(stack.last())) && precedence(stack.last()) < bound)
}

/// The converter has taken a tree in: from the yard `y` it has come to the
/// yard `z`, whose stack is that of `y` with operators of the tree on top,
/// and whose output, with those operators after it, is the output of `y`
/// and the postfix form of the tree.
spec fn taken_in(y: Yard, z: Yard, s: Syntax) -> bool {
    &&& y.stack.len() <= z.stack.len()
    &&& z.stack.take(y.stack.len() as int) == y.stack
    &&& forall|k: int| y.stack.len() <= k < z.stack.len() ==> held(#[trigger] z.stack[k], level(s))
    &&& z.output + unwound(z.stack.skip(y.stack.len() as int)) == y.output + postfix_form(s)
}

/// The infix form of a tree is never empty.
proof fn lemma_infix_form_len(s: Syntax)
    ensures
        infix_form(s).len() >= 1,
    decreases s,
{
    match s {
        Syntax::Literal(_) => {},
        Syntax::Negate(operand) => {
            lemma_infix_form_len(*operand);
        },
        Syntax::Call(_, argument) => {
            lemma_infix_form_len(*argument);
        },
        Syntax::Binary(_, left, right) => {
            lemma_infix_form_len(*left);
            lemma_infix_form_len(*right);
        },
        Syntax::Paren(inner) => {
            lemma_infix_form_len(*inner);
        },
    }
}

/// A token put under a stack leaves it last.
proof fn lemma_unwound_under(t: Seq<char>, stack: Seq<Seq<char>>)
    ensures
        unwound(seq![t] + stack) == unwound(stack).push(t),
    decreases stack.len(),
{
    let whole = seq![t] + stack;
    if stack.len() == 0 {
        reveal_with_fuel(unwound, 2);
        assert(whole.drop_last() =~= Seq::<Seq<char>>::empty());
        assert(unwound(whole) =~= seq![t]);
        assert(unwound(stack).push(t) =~= seq![t]);
    } else {
        assert(whole.drop_last() =~= seq![t] + stack.drop_last());
        lemma_unwound_under(t, stack.drop_last());
        assert(unwound(whole) =~= unwound(stack).push(t));
    }
}

/// Before a token, everything above height `h` leaves the stack, where all
/// of it binds at least as tightly as the token and nothing below does.
proof fn lemma_yield_all(y: Yard, h: int, token: Seq<char>)
    requires
        0 <= h <= y.stack.len(),
        forall|k: int| h <= k < y.stack.len() ==> held(#[trigger] y.stack[k], precedence(token)),
        binds_below(y.stack.take(h), precedence(token)),
    ensures
        yield_to(y, token) == (Yard {
            stack: y.stack.take(h),
            output: y.output + unwound(y.stack.skip(h)),
        }),
    decreases y.stack.len() - h,
{
    if y.stack.len() == h {
        assert(y.stack.take(h) =~= y.stack);
        assert(y.output + unwound(y.stack.skip(h)) =~= y.output);
        if y.stack.len() > 0 {
            lemma_kinds(y.stack.last());
        }
        assert(!yields(y, token));
    } else {
        let top = y.stack.last();
        assert(held(y.stack[y.stack.len() - 1], precedence(token)));
        lemma_kinds(top);
        assert(yields(y, token));
        let z = released(y);
        assert(z.stack.take(h) =~= y.stack.take(h));
        assert forall|k: int| h <= k < z.stack.len() implies held(
            #[trigger] z.stack[k],
            precedence(token),
        ) by {
            assert(z.stack[k] == y.stack[k]);
        }
        lemma_yield_all(z, h, token);
        assert(y.stack.skip(h).drop_last() =~= z.stack.skip(h));
        assert(y.stack.skip(h).last() == top);
        assert(z.output + unwound(z.stack.skip(h)) =~= y.output + unwound(y.stack.skip(h)));
    }
}

/// At a closing parenthesis, everything above the opening parenthesis at
/// height `h` leaves the stack, and that parenthesis is dropped.
proof fn lemma_close_all(y: Yard, h: int)
    requires
        0 <= h < y.stack.len(),
        kind_of(y.stack[h]) == Some(TokenKind::LeftParen),
        forall|k: int| h < k < y.stack.len() ==> held(#[trigger] y.stack[k], 0),
    ensures
        close(y) == Ok::<Yard, ExprError>(
            (Yard { stack: y.stack.take(h), output: y.output + unwound(y.stack.skip(h + 1)) }),
        ),
    decreases y.stack.len() - h,
{
    if y.stack.len() == h + 1 {
        assert(y.stack.drop_last() =~= y.stack.take(h));
        assert(y.output + unwound(y.stack.skip(h + 1)) =~= y.output);
    } else {
        let top = y.stack.last();
        assert(held(y.stack[y.stack.len() - 1], 0));
        lemma_kinds(top);
        let z = released(y);
        assert(z.stack.take(h) =~= y.stack.take(h));
        assert(z.stack[h] == y.stack[h]);
        assert forall|k: int| h < k < z.stack.len() implies held(#[trigger] z.stack[k], 0) by {
            assert(z.stack[k] == y.stack[k]);
        }
        lemma_close_all(z, h);
        assert(y.stack.skip(h + 1).drop_last() =~= z.stack.skip(h + 1));
        assert(y.stack.skip(h + 1).last() == top);
        assert(z.output + unwound(z.stack.skip(h + 1)) =~= y.output + unwound(
            y.stack.skip(h + 1),
        ));
    }
}

/// At the end, a stack that holds no parenthesis leaves for the output.
proof fn lemma_drain_all(y: Yard)
    requires
        forall|k: int| 0 <= k < y.stack.len() ==> held(#[trigger] y.stack[k], 0),
    ensures
        drain(y) == Ok::<Seq<Seq<char>>, ExprError>(y.output + unwound(y.stack)),
    decreases y.stack.len(),
{
    if y.stack.len() == 0 {
        assert(y.output + unwound(y.stack) =~= y.output);
    } else {
        let top = y.stack.last();
        assert(held(y.stack[y.stack.len() - 1], 0));
        lemma_kinds(top);
        let z = released(y);
        assert forall|k: int| 0 <= k < z.stack.len() implies held(#[trigger] z.stack[k], 0) by {
            assert(z.stack[k] == y.stack[k]);
        }
        lemma_drain_all(z);
        assert(z.output + unwound(z.stack) =~= y.output + unwound(y.stack));
    }
}

/// The yard after one more token is one step from the yard before it.
proof fn lemma_yard_next(tokens: Seq<Seq<char>>, n: int)
    requires
        0 <= n,
        yard_after(tokens, n) is Ok,
    ensures
        yard_after(tokens, n + 1) == shunt(yard_after(tokens, n)->Ok_0, tokens[n]),
{
}

/// The tokens hold `part` from position `n` on.
pub(crate) open spec fn holds_at(tokens: Seq<Seq<char>>, n: int, part: Seq<Seq<char>>) -> bool {
    &&& 0 <= n
    &&& n + part.len() <= tokens.len()
    &&& forall|k: int| 0 <= k < part.len() ==> tokens[n + k] == #[trigger] part[k]
}

/// A part of a part is held where the offsets add up.
pub(crate) proof fn lemma_holds_part(
    tokens: Seq<Seq<char>>,
    n: int,
    whole: Seq<Seq<char>>,
    at: int,
    part: Seq<Seq<char>>,
)
    requires
        holds_at(tokens, n, whole),
        holds_at(whole, at, part),
    ensures
        holds_at(tokens, n + at, part),
{
    assert forall|k: int| 0 <= k < part.len() implies tokens[n + at + k] == #[trigger] part[k] by {
        assert(whole[at + k] == part[k]);
        assert(tokens[n + (at + k)] == whole[at + k]);
    }
}

/// An operator pushed on the stack before a tree was taken in belongs to
/// what the larger tree has put there.
proof fn lemma_taken_in_above(y: Yard, t: Seq<char>, z: Yard, s: Syntax, whole: Syntax)
    requires
        taken_in((Yard { stack: y.stack.push(t), output: y.output }), z, s),
        held(t, level(whole)),
        level(s) >= level(whole),
        postfix_form(whole) == postfix_form(s).push(t),
    ensures
        taken_in(y, z, whole),
{
    let h = y.stack.len() as int;
    let pushed = y.stack.push(t);
    assert(z.stack.take(h + 1) == pushed);
    assert(z.stack.take(h) =~= y.stack) by {
        assert forall|k: int| 0 <= k < h implies z.stack.take(h)[k] == y.stack[k] by {
            assert(z.stack.take(h + 1)[k] == pushed[k]);
        }
    }
    assert(z.stack[h] == t) by {
        assert(z.stack.take(h + 1)[h] == pushed[h]);
    }
    assert(z.stack.skip(h) =~= seq![t] + z.stack.skip(h + 1));
    lemma_unwound_under(t, z.stack.skip(h + 1));
    assert(z.output + unwound(z.stack.skip(h)) =~= (z.output + unwound(z.stack.skip(h + 1))).push(
        t,
    ));
    assert((y.output + postfix_form(s)).push(t) =~= y.output + postfix_form(s).push(t));
}

/// The converter takes a tree in: from a yard in which nothing gives way to
/// the tree's operators, the tokens of the tree bring the tree's postfix
/// form to the output, but for those of its operators that still wait.
proof fn lemma_take_in(tokens: Seq<Seq<char>>, n: int, s: Syntax)
    requires
        is_plain(s),
        holds_at(tokens, n, infix_form(s)),
        yard_after(tokens, n) is Ok,
        binds_below(yard_after(tokens, n)->Ok_0.stack, level(s)),
    ensures
        yard_after(tokens, n + infix_form(s).len()) is Ok,
        taken_in(
            yard_after(tokens, n)->Ok_0,
            yard_after(tokens, n + infix_form(s).len())->Ok_0,
            s,
        ),
    decreases s,
{
    let y = yard_after(tokens, n)->Ok_0;
    let h = y.stack.len() as int;
    let whole = infix_form(s);
    lemma_yard_next(tokens, n);
    assert(y.stack.take(h) =~= y.stack);
    assert(y.stack.skip(h) =~= Seq::<Seq<char>>::empty());
    match s {
        Syntax::Literal(text) => {
            assert(tokens[n + 0] == whole[0]);
            lemma_kinds(text);
            let z = yard_after(tokens, n + 1)->Ok_0;
            assert(z.output + unwound(z.stack.skip(h)) =~= y.output + postfix_form(s));
        },
        Syntax::Negate(operand) => {
            let sign = seq!['@'];
            let inner = infix_form(*operand);
            assert(tokens[n + 0] == whole[0]);
            lemma_operator_texts(BinaryOperator::Add);
            lemma_yield_all(y, h, sign);
            assert(y.output + unwound(y.stack.skip(h)) =~= y.output);
            let pushed = Yard { stack: y.stack.push(sign), output: y.output };
            assert(yard_after(tokens, n + 1) == Ok::<Yard, ExprError>(pushed));
            assert(holds_at(whole, 1, inner));
            lemma_holds_part(tokens, n, whole, 1, inner);
            lemma_take_in(tokens, n + 1, *operand);
            let z = yard_after(tokens, n + 1 + inner.len())->Ok_0;
            lemma_taken_in_above(y, sign, z, *operand, s);
        },
        Syntax::Call(f, argument) => {
            let name = function_name(f);
            let inner = infix_form(*argument);
            assert(tokens[n + 0] == whole[0]);
            lemma_function_texts(f);
            lemma_yield_all(y, h, name);
            assert(y.output + unwound(y.stack.skip(h)) =~= y.output);
            let pushed = Yard { stack: y.stack.push(name), output: y.output };
            assert(yard_after(tokens, n + 1) == Ok::<Yard, ExprError>(pushed));
            assert(holds_at(whole, 1, inner));
            lemma_holds_part(tokens, n, whole, 1, inner);
            lemma_take_in(tokens, n + 1, *argument);
            let z = yard_after(tokens, n + 1 + inner.len())->Ok_0;
            lemma_taken_in_above(y, name, z, *argument, s);
        },
        Syntax::Binary(op, left, right) => {
            let sign = operator_text(op);
            let p = precedence_of(TokenKind::Binary(op));
            let first = infix_form(*left);
            let second = infix_form(*right);
            let a = first.len() as int;
            lemma_operator_texts(op);
            assert(holds_at(whole, 0, first));
            lemma_holds_part(tokens, n, whole, 0, first);
            lemma_take_in(tokens, n, *left);
            let z1 = yard_after(tokens, n + a)->Ok_0;
            assert(tokens[n + a] == whole[a]);
            assert(whole[a] == sign);
            lemma_yard_next(tokens, n + a);
            assert(z1.stack.take(h) == y.stack);
            lemma_yield_all(z1, h, sign);
            let settled = Yard { stack: y.stack, output: y.output + postfix_form(*left) };
            assert(yield_to(z1, sign) == settled);
            let pushed = Yard { stack: y.stack.push(sign), output: settled.output };
            assert(yard_after(tokens, n + a + 1) == Ok::<Yard, ExprError>(pushed));
            assert(holds_at(whole, a + 1, second));
            lemma_holds_part(tokens, n, whole, a + 1, second);
            lemma_take_in(tokens, n + a + 1, *right);
            let z = yard_after(tokens, n + a + 1 + second.len())->Ok_0;
            assert(whole.len() == a + 1 + second.len());
            let k = h + 1;
            assert(z.stack.take(k) == pushed.stack);
            assert(z.stack.take(h) =~= y.stack) by {
                assert forall|j: int| 0 <= j < h implies z.stack.take(h)[j] == y.stack[j] by {
                    assert(z.stack.take(k)[j] == pushed.stack[j]);
                }
            }
            assert(z.stack[h] == sign) by {
                assert(z.stack.take(k)[h] == pushed.stack[h]);
            }
            assert(z.stack.skip(h) =~= seq![sign] + z.stack.skip(k));
            lemma_unwound_under(sign, z.stack.skip(k));
            assert(z.output + unwound(z.stack.skip(h)) =~= (z.output + unwound(
                z.stack.skip(k),
            )).push(sign));
            assert((settled.output + postfix_form(*right)).push(sign) =~= y.output + postfix_form(
                s,
            ));
        },
        Syntax::Paren(inner_tree) => {
            let open = seq!['('];
            let shut = seq![')'];
            let inner = infix_form(*inner_tree);
            let b = inner.len() as int;
            assert(tokens[n + 0] == whole[0]);
            lemma_operator_texts(BinaryOperator::Add);
            let pushed = Yard { stack: y.stack.push(open), output: y.output };
            assert(yard_after(tokens, n + 1) == Ok::<Yard, ExprError>(pushed));
            assert(holds_at(whole, 1, inner));
            lemma_holds_part(tokens, n, whole, 1, inner);
            lemma_take_in(tokens, n + 1, *inner_tree);
            let z2 = yard_after(tokens, n + 1 + b)->Ok_0;
            assert(tokens[n + (1 + b)] == whole[1 + b]);
            assert(whole[1 + b] == shut);
            lemma_yard_next(tokens, n + 1 + b);
            let k = h + 1;
            assert(z2.stack.take(k) == pushed.stack);
            assert(z2.stack[h] == open) by {
                assert(z2.stack.take(k)[h] == pushed.stack[h]);
            }
            assert(z2.stack.take(h) =~= y.stack) by {
                assert forall|j: int| 0 <= j < h implies z2.stack.take(h)[j] == y.stack[j] by {
                    assert(z2.stack.take(k)[j] == pushed.stack[j]);
                }
            }
            lemma_close_all(z2, h);
            let z = yard_after(tokens, n + 1 + b + 1)->Ok_0;
            assert(whole.len() == 1 + b + 1);
            assert(z.stack.skip(h) =~= Seq::<Seq<char>>::empty());
            assert(z.output + unwound(z.stack.skip(h)) =~= y.output + postfix_form(s));
        },
    }
}

/// The converter keeps the meaning: the tokens of a syntax tree in infix
/// order are reordered to the tree's postfix form. So every operator is
/// applied to the operands that the tree gives it, in their order.
pub proof fn lemma_conversion_keeps_meaning(s: Syntax)
    requires
        is_plain(s),
    ensures
        postfix_of(infix_form(s)) == Ok::<Seq<Seq<char>>, ExprError>(postfix_form(s)),
{
    let tokens = infix_form(s);
    lemma_take_in(tokens, 0, s);
    let z = yard_after(tokens, tokens.len() as int)->Ok_0;
    assert(z.stack.skip(0) =~= z.stack);
    lemma_drain_all(z);
    assert(Seq::<Seq<char>>::empty() + postfix_form(s) =~= postfix_form(s));
}

/// A binary operation reads as its left operand, its operator and its
/// right operand, and its postfix form has the operator last.
proof fn lemma_binary_forms(op: BinaryOperator, left: Syntax, right: Syntax)
    ensures
        infix_form(Syntax::Binary(op, Box::new(left), Box::new(right))) == infix_form(left) + seq![
            operator_text(op),
        ] + infix_form(right),
        postfix_form(Syntax::Binary(op, Box::new(left), Box::new(right))) == postfix_form(left)
            + postfix_form(right) + seq![operator_text(op)],
        is_plain(Syntax::Binary(op, Box::new(left), Box::new(right))) == (is_plain(left)
            && is_plain(right) && level(left) >= precedence_of(TokenKind::Binary(op)) && level(
            right,
        ) > precedence_of(TokenKind::Binary(op))),
{
    let s = Syntax::Binary(op, Box::new(left), Box::new(right));
    assert(postfix_form(s) =~= postfix_form(left) + postfix_form(right) + seq![operator_text(op)]);
}

/// Parentheses read as themselves around what they hold, and change
/// nothing in the postfix form.
proof fn lemma_paren_forms(inner: Syntax)
    ensures
        infix_form(Syntax::Paren(Box::new(inner))) == seq![seq!['(']] + infix_form(inner) + seq![
            seq![')'],
        ],
        postfix_form(Syntax::Paren(Box::new(inner))) == postfix_form(inner),
        is_plain(Syntax::Paren(Box::new(inner))) == is_plain(inner),
{
}

/// Of two binary operators between three operands, the second applies
/// first where it binds tighter than the first, as if it stood in
/// parentheses with its operands. The operands are any trees but bare
/// binary operations.
pub proof fn lemma_tighter_applies_first(
    a: Syntax,
    first: BinaryOperator,
    b: Syntax,
    second: BinaryOperator,
    c: Syntax,
)
    requires
        is_plain(a) && level(a) >= 4,
        is_plain(b) && level(b) >= 4,
        is_plain(c) && level(c) >= 4,
        precedence(operator_text(second)) > precedence(operator_text(first)),
    ensures
        postfix_of(
            infix_form(a) + seq![operator_text(first)] + infix_form(b) + seq![operator_text(second)]
                + infix_form(c),
        ) == Ok::<Seq<Seq<char>>, ExprError>(
            postfix_form(a) + postfix_form(b) + postfix_form(c) + seq![
                operator_text(second),
                operator_text(first),
            ],
        ),
        postfix_of(
            infix_form(a) + seq![operator_text(first), seq!['(']] + infix_form(b) + seq![
                operator_text(second),
            ] + infix_form(c) + seq![seq![')']],
        ) == postfix_of(
            infix_form(a) + seq![operator_text(first)] + infix_form(b) + seq![operator_text(second)]
                + infix_form(c),
        ),
{
    lemma_operator_texts(first);
    lemma_operator_texts(second);
    let o1 = operator_text(first);
    let o2 = operator_text(second);
    let inner = Syntax::Binary(second, Box::new(b), Box::new(c));
    let held_in = Syntax::Paren(Box::new(inner));
    let bare = Syntax::Binary(first, Box::new(a), Box::new(inner));
    let wide = Syntax::Binary(first, Box::new(a), Box::new(held_in));
    lemma_binary_forms(second, b, c);
    lemma_paren_forms(inner);
    lemma_binary_forms(first, a, inner);
    lemma_binary_forms(first, a, held_in);
    lemma_conversion_keeps_meaning(bare);
    lemma_conversion_keeps_meaning(wide);
    assert(infix_form(bare) =~= infix_form(a) + seq![o1] + infix_form(b) + seq![o2] + infix_form(
        c,
    ));
    assert(infix_form(wide) =~= infix_form(a) + seq![o1, seq!['(']] + infix_form(b) + seq![o2]
        + infix_form(c) + seq![seq![')']]);
    assert(postfix_form(bare) =~= postfix_form(a) + postfix_form(b) + postfix_form(c) + seq![
        o2,
        o1,
    ]);
    assert(postfix_form(wide) =~= postfix_form(bare));
}

/// Of two binary operators between three operands, the first applies first
/// where the second binds no tighter, as if it stood in parentheses with
/// its operands: operators of equal precedence, `^` among them, group from
/// the left. The operands are any trees but bare binary operations.
pub proof fn lemma_first_applies_first(
    a: Syntax,
    first: BinaryOperator,
    b: Syntax,
    second: BinaryOperator,
    c: Syntax,
)
    requires
        is_plain(a) && level(a) >= 4,
        is_plain(b) && level(b) >= 4,
        is_plain(c) && level(c) >= 4,
        precedence(operator_text(second)) <= precedence(operator_text(first)),
    ensures
        postfix_of(
            infix_form(a) + seq![operator_text(first)] + infix_form(b) + seq![operator_text(second)]
                + infix_form(c),
        ) == Ok::<Seq<Seq<char>>, ExprError>(
            postfix_form(a) + postfix_form(b) + seq![operator_text(first)] + postfix_form(c)
                + seq![operator_text(second)],
        ),
        postfix_of(
            seq![seq!['(']] + infix_form(a) + seq![operator_text(first)] + infix_form(b) + seq![
                seq![')'],
                operator_text(second),
            ] + infix_form(c),
        ) == postfix_of(
            infix_form(a) + seq![operator_text(first)] + infix_form(b) + seq![operator_text(second)]
                + infix_form(c),
        ),
{
    lemma_operator_texts(first);
    lemma_operator_texts(second);
    let o1 = operator_text(first);
    let o2 = operator_text(second);
    let inner = Syntax::Binary(first, Box::new(a), Box::new(b));
    let held_in = Syntax::Paren(Box::new(inner));
    let bare = Syntax::Binary(second, Box::new(inner), Box::new(c));
    let wide = Syntax::Binary(second, Box::new(held_in), Box::new(c));
    lemma_binary_forms(first, a, b);
    lemma_paren_forms(inner);
    lemma_binary_forms(second, inner, c);
    lemma_binary_forms(second, held_in, c);
    lemma_conversion_keeps_meaning(bare);
    lemma_conversion_keeps_meaning(wide);
    assert(infix_form(bare) =~= infix_form(a) + seq![o1] + infix_form(b) + seq![o2] + infix_form(
        c,
    ));
    assert(infix_form(wide) =~= seq![seq!['(']] + infix_form(a) + seq![o1] + infix_form(b) + seq![
        seq![')'],
        o2,
    ] + infix_form(c));
    assert(postfix_form(wide) =~= postfix_form(bare));
}

} // verus!
