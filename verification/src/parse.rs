//! Every expression has a syntax tree.
//!
//! The reader of the grammar accepts a token sequence; here the same
//! sequence is read once more with pencil and paper, and what is written
//! down is a syntax tree whose infix form is the sequence.

use vstd::prelude::*;
use crate::grammar::{is_expression, read, reading_after, Expect, Reading};
use crate::syntax::{infix_form, is_plain, level, Syntax};
use crate::token::{
    binary_of, function_name, is_operand_text, kind_of, lemma_kinds, operator_text,
    precedence_of, BinaryOperator, Function, TokenKind,
};

verus! {

/// What waits for the operand that follows it.
pub enum Waiting {
    /// An opening parenthesis.
    Open,
    /// A sign.
    Sign,
    /// A function name.
    Name(Function),
    /// A binary operator, with its left operand.
    Operator(BinaryOperator, Syntax),
}

/// The desk of the reader: what waits, the last on top, and the operand
/// that has just been completed, if any.
pub struct Desk {
    pub waiting: Seq<Waiting>,
    pub operand: Option<Syntax>,
}

/// How tightly what waits binds; an opening parenthesis binds nothing.
pub open spec fn rank(w: Waiting) -> int {
    match w {
        Waiting::Open => 0,
        Waiting::Sign => 4,
        Waiting::Name(_) => 5,
        Waiting::Operator(op, _) => precedence_of(TokenKind::Binary(op)),
    }
}

/// The tree that what waits makes of the operand that follows it.
pub open spec fn applied(w: Waiting, operand: Syntax) -> Syntax {
    match w {
        Waiting::Open => operand,
        Waiting::Sign => Syntax::Negate(Box::new(operand)),
        Waiting::Name(f) => Syntax::Call(f, Box::new(operand)),
        Waiting::Operator(op, left) => Syntax::Binary(op, Box::new(left), Box::new(operand)),
    }
}

/// The tokens that what waits was read from.
spec fn piece(w: Waiting) -> Seq<Seq<char>> {
    match w {
        Waiting::Open => seq![seq!['(']],
        Waiting::Sign => seq![seq!['@']],
        Waiting::Name(f) => seq![function_name(f)],
        Waiting::Operator(op, left) => infix_form(left).push(operator_text(op)),
    }
}

/// The tokens that all that waits was read from.
spec fn spelled(waiting: Seq<Waiting>) -> Seq<Seq<char>>
    decreases waiting.len(),
{
    if waiting.len() == 0 {
        Seq::empty()
    } else {
        spelled(waiting.drop_last()) + piece(waiting.last())
    }
}

/// The tokens that the desk was read from.
spec fn written(d: Desk) -> Seq<Seq<char>> {
    match d.operand {
        Some(operand) => spelled(d.waiting) + infix_form(operand),
        None => spelled(d.waiting),
    }
}

/// The number of opening parentheses that wait.
spec fn opened(waiting: Seq<Waiting>) -> nat
    decreases waiting.len(),
{
    if waiting.len() == 0 {
        0
    } else {
        opened(waiting.drop_last()) + if waiting.last() is Open {
            1nat
        } else {
            0nat
        }
    }
}

/// The desk after everything on top that binds at least as tightly as
/// `bound` has taken the operand: down to an opening parenthesis, or to
/// something that binds less tightly.
pub open spec fn settled(waiting: Seq<Waiting>, operand: Syntax, bound: int) -> Desk
    decreases waiting.len(),
{
    if waiting.len() > 0 && !(waiting.last() is Open) && rank(waiting.last()) >= bound {
        settled(waiting.drop_last(), applied(waiting.last(), operand), bound)
    } else {
        Desk { waiting, operand: Some(operand) }
    }
}

/// The desk after one more token, or `None` where the token finds no
/// operand to work on, or one too many.
pub open spec fn noted(d: Desk, token: Seq<char>) -> Option<Desk> {
    match (kind_of(token), d.operand) {
        (Some(TokenKind::Operand), None) => Some(
            Desk { waiting: d.waiting, operand: Some(Syntax::Literal(token)) },
        ),
        (Some(TokenKind::LeftParen), None) => Some(
            Desk { waiting: d.waiting.push(Waiting::Open), operand: None },
        ),
        (Some(TokenKind::Negate), None) => Some(
            Desk { waiting: d.waiting.push(Waiting::Sign), operand: None },
        ),
        (Some(TokenKind::Function(f)), None) => Some(
            Desk { waiting: d.waiting.push(Waiting::Name(f)), operand: None },
        ),
        (Some(TokenKind::Binary(op)), Some(operand)) => {
            let s = settled(d.waiting, operand, precedence_of(TokenKind::Binary(op)));
            Some(
                Desk {
                    waiting: s.waiting.push(Waiting::Operator(op, s.operand->0)),
                    operand: None,
                },
            )
        },
        (Some(TokenKind::RightParen), Some(operand)) => {
            let s = settled(d.waiting, operand, 1);
            if s.waiting.len() > 0 && s.waiting.last() is Open {
                Some(
                    Desk {
                        waiting: s.waiting.drop_last(),
                        operand: Some(Syntax::Paren(Box::new(s.operand->0))),
                    },
                )
            } else {
                None
            }
        },
        _ => None,
    }
}

/// The desk after the first `n` tokens.
pub open spec fn desk_after(tokens: Seq<Seq<char>>, n: int) -> Option<Desk>
    decreases n,
{
    if n <= 0 {
        Some(Desk { waiting: Seq::empty(), operand: None })
    } else {
        match desk_after(tokens, n - 1) {
            Some(d) => noted(d, tokens[n - 1]),
            None => None,
        }
    }
}

/// What waits is in order: a left operand binds at least as tightly as
/// its operator, and each thing that waits binds tighter than the one
/// below it, unless a parenthesis stands between them.
spec fn in_order(waiting: Seq<Waiting>) -> bool {
    &&& forall|k: int|
        0 <= k < waiting.len() ==> (#[trigger] waiting[k] matches Waiting::Operator(op, left)
            ==> is_plain(left) && level(left) >= precedence_of(TokenKind::Binary(op)))
    &&& forall|k: int|
        0 < k < waiting.len() && !(#[trigger] waiting[k] is Open) && !(waiting[k - 1] is Open)
            ==> rank(waiting[k - 1]) < rank(waiting[k])
}

/// The operand can follow what waits on top: it binds tighter.
spec fn fits(waiting: Seq<Waiting>, operand: Syntax) -> bool {
    waiting.len() == 0 || waiting.last() is Open || rank(waiting.last()) < level(operand)
}

/// The desk and the reader agree on the first `n` tokens.
spec fn agrees(d: Desk, r: Reading, tokens: Seq<Seq<char>>, n: int) -> bool {
    &&& 0 <= n <= tokens.len()
    &&& written(d) == tokens.take(n)
    &&& in_order(d.waiting)
    &&& opened(d.waiting) == r.open
    &&& (r.expect is Operator <==> d.operand is Some)
    &&& d.operand matches Some(operand) ==> is_plain(operand) && level(operand) == 6
    &&& match r.expect {
        Expect::Operand => d.waiting.len() == 0 || d.waiting.last() is Open
            || d.waiting.last() is Operator,
        Expect::AfterSign => d.waiting.len() > 0 && d.waiting.last() is Sign,
        Expect::Argument => d.waiting.len() > 0 && d.waiting.last() is Name,
        Expect::Operator => true,
    }
}

/// One more thing that waits adds its piece and, if it is a parenthesis,
/// its count.
proof fn lemma_waiting_push(waiting: Seq<Waiting>, w: Waiting)
    ensures
        spelled(waiting.push(w)) == spelled(waiting) + piece(w),
        opened(waiting.push(w)) == opened(waiting) + if w is Open {
            1nat
        } else {
            0nat
        },
{
    assert(waiting.push(w).drop_last() =~= waiting);
}

/// What waits below the top is in order where all that waits is.
proof fn lemma_rest_in_order(waiting: Seq<Waiting>)
    requires
        in_order(waiting),
        waiting.len() > 0,
    ensures
        in_order(waiting.drop_last()),
{
    let rest = waiting.drop_last();
    assert forall|k: int| 0 <= k < rest.len() implies (#[trigger] rest[k] matches Waiting::Operator(
        op,
        left,
    ) ==> is_plain(left) && level(left) >= precedence_of(TokenKind::Binary(op))) by {
        assert(rest[k] == waiting[k]);
    }
    assert forall|k: int|
        0 < k < rest.len() && !(#[trigger] rest[k] is Open) && !(rest[k - 1] is Open) implies rank(
        rest[k - 1],
    ) < rank(rest[k]) by {
        assert(rest[k] == waiting[k]);
        assert(rest[k - 1] == waiting[k - 1]);
    }
}

/// The tree that the top makes of the operand reads as the top's piece and
/// then the operand.
proof fn lemma_applied_form(top: Waiting, operand: Syntax)
    requires
        !(top is Open),
    ensures
        infix_form(applied(top, operand)) == piece(top) + infix_form(operand),
        level(applied(top, operand)) == rank(top),
{
    assert(infix_form(applied(top, operand)) =~= piece(top) + infix_form(operand));
}

/// When the top takes the operand, the result is plain, it can follow what
/// waits below, and nothing that was read is lost.
proof fn lemma_applied(waiting: Seq<Waiting>, operand: Syntax)
    requires
        in_order(waiting),
        is_plain(operand),
        fits(waiting, operand),
        waiting.len() > 0,
        !(waiting.last() is Open),
    ensures
        is_plain(applied(waiting.last(), operand)),
        in_order(waiting.drop_last()),
        fits(waiting.drop_last(), applied(waiting.last(), operand)),
        spelled(waiting.drop_last()) + infix_form(applied(waiting.last(), operand)) == spelled(
            waiting,
        ) + infix_form(operand),
        opened(waiting.drop_last()) == opened(waiting),
{
    let top = waiting.last();
    let rest = waiting.drop_last();
    let k = waiting.len() - 1;
    assert(waiting[k] == top);
    lemma_rest_in_order(waiting);
    lemma_applied_form(top, operand);
    if rest.len() > 0 {
        assert(waiting[k - 1] == rest.last());
    }
    assert(spelled(rest) + (piece(top) + infix_form(operand)) =~= (spelled(rest) + piece(top))
        + infix_form(operand));
}

/// Settling keeps what was read, the order of what still waits and the
/// open parentheses; the operand stays plain, and nothing that is left on
/// top binds as tightly as the bound.
proof fn lemma_settled(waiting: Seq<Waiting>, operand: Syntax, bound: int)
    requires
        in_order(waiting),
        is_plain(operand),
        fits(waiting, operand),
        1 <= bound,
    ensures
        settled(waiting, operand, bound).operand is Some,
        is_plain(settled(waiting, operand, bound).operand->0),
        in_order(settled(waiting, operand, bound).waiting),
        fits(settled(waiting, operand, bound).waiting, settled(waiting, operand, bound).operand->0),
        written(settled(waiting, operand, bound)) == spelled(waiting) + infix_form(operand),
        opened(settled(waiting, operand, bound).waiting) == opened(waiting),
        level(settled(waiting, operand, bound).operand->0) >= bound || settled(
            waiting,
            operand,
            bound,
        ).operand->0 == operand,
        settled(waiting, operand, bound).waiting.len() == 0 || settled(
            waiting,
            operand,
            bound,
        ).waiting.last() is Open || rank(settled(waiting, operand, bound).waiting.last()) < bound,
    decreases waiting.len(),
{
    if waiting.len() > 0 && !(waiting.last() is Open) && rank(waiting.last()) >= bound {
        lemma_applied(waiting, operand);
        lemma_applied_form(waiting.last(), operand);
        lemma_settled(waiting.drop_last(), applied(waiting.last(), operand), bound);
    }
}

/// A token of a kind is the text of that kind.
proof fn lemma_kind_texts(token: Seq<char>)
    ensures
        kind_of(token) matches Some(TokenKind::Binary(op)) ==> token == operator_text(op),
        kind_of(token) matches Some(TokenKind::Function(f)) ==> token == function_name(f),
        kind_of(token) == Some(TokenKind::Negate) ==> token == seq!['@'],
        kind_of(token) == Some(TokenKind::LeftParen) ==> token == seq!['('],
        kind_of(token) == Some(TokenKind::RightParen) ==> token == seq![')'],
        kind_of(token) == Some(TokenKind::Operand) ==> is_operand_text(token),
{
    lemma_kinds(token);
    if token.len() == 1 {
        assert(token =~= seq![token[0]]);
        if binary_of(token[0]) is Some {
            assert(token =~= operator_text(binary_of(token[0])->0));
        }
    }
}

/// A token that the reader accepts is noted on the desk, and the two go
/// on agreeing.
proof fn lemma_noted(d: Desk, r: Reading, tokens: Seq<Seq<char>>, n: int)
    requires
        agrees(d, r, tokens, n),
        n < tokens.len(),
        read(r, tokens[n]) is Some,
    ensures
        noted(d, tokens[n]) is Some,
        agrees(noted(d, tokens[n])->0, read(r, tokens[n])->0, tokens, n + 1),
{
    let token = tokens[n];
    let next = read(r, token)->0;
    lemma_kind_texts(token);
    assert(tokens.take(n + 1) =~= tokens.take(n).push(token));
    match kind_of(token) {
        Some(TokenKind::Operand) => {
            let e = noted(d, token)->0;
            assert(written(e) =~= written(d).push(token));
        },
        Some(TokenKind::LeftParen) => {
            lemma_waiting_push(d.waiting, Waiting::Open);
            let e = noted(d, token)->0;
            assert(written(e) =~= written(d).push(token));
            lemma_pushed_in_order(d.waiting, Waiting::Open);
        },
        Some(TokenKind::Negate) => {
            lemma_waiting_push(d.waiting, Waiting::Sign);
            let e = noted(d, token)->0;
            assert(written(e) =~= written(d).push(token));
            lemma_pushed_in_order(d.waiting, Waiting::Sign);
        },
        Some(TokenKind::Function(f)) => {
            lemma_waiting_push(d.waiting, Waiting::Name(f));
            let e = noted(d, token)->0;
            assert(written(e) =~= written(d).push(token));
            lemma_pushed_in_order(d.waiting, Waiting::Name(f));
        },
        Some(TokenKind::Binary(op)) => {
            let operand = d.operand->0;
            let p = precedence_of(TokenKind::Binary(op));
            lemma_settled(d.waiting, operand, p);
            let s = settled(d.waiting, operand, p);
            let w = Waiting::Operator(op, s.operand->0);
            lemma_waiting_push(s.waiting, w);
            let e = noted(d, token)->0;
            assert(written(e) =~= written(d).push(token));
            lemma_pushed_in_order(s.waiting, w);
        },
        Some(TokenKind::RightParen) => {
            let operand = d.operand->0;
            lemma_settled(d.waiting, operand, 1);
            let s = settled(d.waiting, operand, 1);
            lemma_opened_top(s.waiting);
            let rest = s.waiting.drop_last();
            let e = noted(d, token)->0;
            assert(spelled(s.waiting) == spelled(rest) + piece(Waiting::Open));
            assert(written(e) =~= written(d).push(token));
            lemma_rest_in_order(s.waiting);
        },
        None => {},
    }
}

/// Where a parenthesis is open, settling down to the lowest bound stops at
/// an opening parenthesis.
proof fn lemma_opened_top(waiting: Seq<Waiting>)
    requires
        waiting.len() == 0 || waiting.last() is Open || rank(waiting.last()) < 1,
    ensures
        opened(waiting) > 0 ==> waiting.len() > 0 && waiting.last() is Open,
        opened(waiting) == 0 ==> waiting.len() == 0,
{
    if waiting.len() > 0 {
        assert(waiting[waiting.len() - 1] == waiting.last());
    }
}

/// What is pushed where it binds tighter than the top leaves what waits in
/// order.
proof fn lemma_pushed_in_order(waiting: Seq<Waiting>, w: Waiting)
    requires
        in_order(waiting),
        w is Open || waiting.len() == 0 || waiting.last() is Open || rank(waiting.last()) < rank(w),
        w matches Waiting::Operator(op, left) ==> is_plain(left) && level(left) >= precedence_of(
            TokenKind::Binary(op),
        ),
    ensures
        in_order(waiting.push(w)),
{
    let pushed = waiting.push(w);
    assert forall|k: int| 0 <= k < pushed.len() implies (#[trigger] pushed[k] matches
        Waiting::Operator(op, left) ==> is_plain(left) && level(left) >= precedence_of(
        TokenKind::Binary(op),
    )) by {
        if k < waiting.len() {
            assert(pushed[k] == waiting[k]);
        }
    }
    assert forall|k: int|
        0 < k < pushed.len() && !(#[trigger] pushed[k] is Open) && !(pushed[k - 1]
            is Open) implies rank(pushed[k - 1]) < rank(pushed[k]) by {
        if k < waiting.len() {
            assert(pushed[k] == waiting[k]);
            assert(pushed[k - 1] == waiting[k - 1]);
        } else {
            assert(pushed[k - 1] == waiting.last());
        }
    }
}

/// As far as the reader accepts the tokens, they are noted on the desk,
/// and the two agree.
proof fn lemma_desk(tokens: Seq<Seq<char>>, n: int)
    requires
        0 <= n <= tokens.len(),
        reading_after(tokens, n) is Some,
    ensures
        desk_after(tokens, n) is Some,
        agrees(desk_after(tokens, n)->0, reading_after(tokens, n)->0, tokens, n),
    decreases n,
{
    if n > 0 {
        lemma_desk(tokens, n - 1);
        lemma_noted(desk_after(tokens, n - 1)->0, reading_after(tokens, n - 1)->0, tokens, n - 1);
    } else {
        assert(tokens.take(0) =~= Seq::<Seq<char>>::empty());
    }
}

/// The syntax tree that an expression is read as.
pub open spec fn tree_of(tokens: Seq<Seq<char>>) -> Syntax
    recommends
        is_expression(tokens),
{
    let d = desk_after(tokens, tokens.len() as int)->0;
    settled(d.waiting, d.operand->0, 1).operand->0
}

/// Every expression has a syntax tree: a tree that needs no further
/// parentheses and whose infix form is the expression, token for token.
pub proof fn lemma_expression_has_tree(tokens: Seq<Seq<char>>)
    requires
        is_expression(tokens),
    ensures
        is_plain(tree_of(tokens)),
        infix_form(tree_of(tokens)) == tokens,
{
    let n = tokens.len() as int;
    lemma_desk(tokens, n);
    let d = desk_after(tokens, n)->0;
    let operand = d.operand->0;
    lemma_settled(d.waiting, operand, 1);
    let s = settled(d.waiting, operand, 1);
    lemma_opened_top(s.waiting);
    assert(tokens.take(n) =~= tokens);
    assert(spelled(s.waiting) + infix_form(s.operand->0) =~= infix_form(s.operand->0));
}

} // verus!
