//! Which token sequences are expressions.
//!
//! An expression is read from left to right: operands and binary operators
//! alternate, parentheses nest, and a sign or a function name may stand
//! before an operand. A sign may stand before a function name. Directly
//! after a function name stands its argument, a literal or a parenthesis;
//! directly after a sign stands a literal, a parenthesis or a function name.

use vstd::prelude::*;
use crate::syntax::{holds_at, infix_form, is_plain, lemma_holds_part, level, Syntax};
use crate::token::{
    kind_of, lemma_function_texts, lemma_kinds, lemma_operator_texts, BinaryOperator, TokenKind,
};

verus! {

/// What the reader of an expression is waiting for.
pub enum Expect {
    /// An operand is due, and anything that opens one may come.
    Operand,
    /// A sign was read: a literal, a parenthesis or a function name is due.
    AfterSign,
    /// A function name was read: a literal or a parenthesis is due.
    Argument,
    /// An operand is complete: a binary operator or a closing parenthesis
    /// may follow, or the end.
    Operator,
}

/// The reader between two tokens.
pub struct Reading {
    pub expect: Expect,
    /// How many parentheses are open.
    pub open: nat,
}

/// The reader after one more token, or `None` where the token cannot stand
/// there.
pub open spec fn read(r: Reading, token: Seq<char>) -> Option<Reading> {
    match kind_of(token) {
        Some(TokenKind::Operand) => if r.expect is Operator {
            None
        } else {
            Some(Reading { expect: Expect::Operator, open: r.open })
        },
        Some(TokenKind::LeftParen) => if r.expect is Operator {
            None
        } else {
            Some(Reading { expect: Expect::Operand, open: r.open + 1 })
        },
        Some(TokenKind::Negate) => if r.expect is Operand {
            Some(Reading { expect: Expect::AfterSign, open: r.open })
        } else {
            None
        },
        Some(TokenKind::Function(_)) => if r.expect is Operand || r.expect is AfterSign {
            Some(Reading { expect: Expect::Argument, open: r.open })
        } else {
            None
        },
        Some(TokenKind::Binary(_)) => if r.expect is Operator {
            Some(Reading { expect: Expect::Operand, open: r.open })
        } else {
            None
        },
        Some(TokenKind::RightParen) => if r.expect is Operator && r.open > 0 {
            Some(Reading { expect: Expect::Operator, open: (r.open - 1) as nat })
        } else {
            None
        },
        None => None,
    }
}

/// The reader after the first `n` tokens, or `None` where one of them
/// cannot stand where it does.
pub open spec fn reading_after(tokens: Seq<Seq<char>>, n: int) -> Option<Reading>
    decreases n,
{
    if n <= 0 {
        Some(Reading { expect: Expect::Operand, open: 0 })
    } else {
        match reading_after(tokens, n - 1) {
            Some(r) => read(r, tokens[n - 1]),
            None => None,
        }
    }
}

/// The tokens form an expression: every token can stand where it does, the
/// last one completes an operand, and no parenthesis is left open.
pub open spec fn is_expression(tokens: Seq<Seq<char>>) -> bool {
    reading_after(tokens, tokens.len() as int) == Some(
        Reading { expect: Expect::Operator, open: 0 },
    )
}

/// The reader can start on a tree of this level: after a sign the operand
/// binds tighter than the sign, after a function name the argument is a
/// literal or stands in parentheses.
spec fn admits(r: Reading, bound: int) -> bool {
    match r.expect {
        Expect::Operand => true,
        Expect::AfterSign => bound >= 5,
        Expect::Argument => bound >= 6,
        Expect::Operator => false,
    }
}

/// The reader after one more token is one step from the reader before it.
proof fn lemma_reading_next(tokens: Seq<Seq<char>>, n: int)
    requires
        0 <= n,
        reading_after(tokens, n) is Some,
    ensures
        reading_after(tokens, n + 1) == read(reading_after(tokens, n)->0, tokens[n]),
{
}

/// The reader reads a tree as one operand: where an operand is due, the
/// tokens of the tree complete it and leave open the parentheses that were
/// open before.
proof fn lemma_read_tree(tokens: Seq<Seq<char>>, n: int, s: Syntax)
    requires
        is_plain(s),
        holds_at(tokens, n, infix_form(s)),
        reading_after(tokens, n) is Some,
        admits(reading_after(tokens, n)->0, level(s)),
    ensures
        reading_after(tokens, n + infix_form(s).len()) == Some(
            (Reading { expect: Expect::Operator, open: reading_after(tokens, n)->0.open }),
        ),
    decreases s,
{
    let whole = infix_form(s);
    lemma_reading_next(tokens, n);
    assert(tokens[n + 0] == whole[0]);
    match s {
        Syntax::Literal(text) => {
            lemma_kinds(text);
        },
        Syntax::Negate(operand) => {
            let inner = infix_form(*operand);
            lemma_operator_texts(BinaryOperator::Add);
            assert(holds_at(whole, 1, inner));
            lemma_holds_part(tokens, n, whole, 1, inner);
            lemma_read_tree(tokens, n + 1, *operand);
        },
        Syntax::Call(f, argument) => {
            let inner = infix_form(*argument);
            lemma_function_texts(f);
            assert(holds_at(whole, 1, inner));
            lemma_holds_part(tokens, n, whole, 1, inner);
            lemma_read_tree(tokens, n + 1, *argument);
        },
        Syntax::Binary(op, left, right) => {
            let first = infix_form(*left);
            let second = infix_form(*right);
            let a = first.len() as int;
            lemma_operator_texts(op);
            assert(holds_at(whole, 0, first));
            lemma_holds_part(tokens, n, whole, 0, first);
            lemma_read_tree(tokens, n, *left);
            assert(tokens[n + a] == whole[a]);
            lemma_reading_next(tokens, n + a);
            assert(holds_at(whole, a + 1, second));
            lemma_holds_part(tokens, n, whole, a + 1, second);
            lemma_read_tree(tokens, n + a + 1, *right);
        },
        Syntax::Paren(inner_tree) => {
            let inner = infix_form(*inner_tree);
            let b = inner.len() as int;
            lemma_operator_texts(BinaryOperator::Add);
            assert(holds_at(whole, 1, inner));
            lemma_holds_part(tokens, n, whole, 1, inner);
            lemma_read_tree(tokens, n + 1, *inner_tree);
            assert(tokens[n + (1 + b)] == whole[1 + b]);
            lemma_reading_next(tokens, n + 1 + b);
        },
    }
}

/// The tokens of a syntax tree in infix order form an expression.
pub proof fn lemma_tree_is_expression(s: Syntax)
    requires
        is_plain(s),
    ensures
        is_expression(infix_form(s)),
{
    lemma_read_tree(infix_form(s), 0, s);
}

} // verus!
