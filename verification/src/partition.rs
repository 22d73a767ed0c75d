//! The lexemes partition the text: together they are the text without its
//! white space, and each is a token of the kind that the lexer took it for.

use vstd::prelude::*;
use crate::lexer::{
    digits_end, has_at, is_symbol, lemma_digits_end, lemma_lexeme_end, lemma_number_end,
    lemma_run_end, lemma_run_holds_no_space, lemma_run_holds_no_start, lexeme_end, lexemes,
    lexemes_from, name_at, number_end, peek, starts_lexeme, symbol,
};
use crate::text::{is_digit, is_space};
use crate::token::{
    function_name, function_of, is_operand_text, is_operator_char, kind_of, lemma_function_texts,
    lemma_kinds, TokenKind,
};

verus! {

/// The text from `i` on without its white space.
pub open spec fn squeezed_from(s: Seq<char>, i: int) -> Seq<char>
    decreases s.len() - i,
{
    if !(0 <= i < s.len()) {
        Seq::empty()
    } else if is_space(s[i]) {
        squeezed_from(s, i + 1)
    } else {
        seq![s[i]] + squeezed_from(s, i + 1)
    }
}

/// The texts one after another, with nothing between them.
pub open spec fn chained(texts: Seq<Seq<char>>) -> Seq<char>
    decreases texts.len(),
{
    if texts.len() == 0 {
        Seq::empty()
    } else {
        texts[0] + chained(texts.skip(1))
    }
}

/// No lexeme holds white space.
proof fn lemma_lexeme_holds_no_space(s: Seq<char>, i: int)
    requires
        0 <= i < s.len(),
        !is_space(s[i]),
    ensures
        forall|k: int| i <= k < lexeme_end(s, i) ==> !is_space(#[trigger] s[k]),
{
    lemma_lexeme_end(s, i);
    lemma_number_end(s, i);
    lemma_digits_end(s, i);
    let d = digits_end(s, i);
    if number_end(s, i) > i {
        if d + 1 <= s.len() {
            lemma_digits_end(s, d + 1);
        }
    } else if is_symbol(peek(s, i)) {
    } else if name_at(s, i) is Some {
        let name = function_name(name_at(s, i)->0);
        assert(has_at(s, i, name));
        assert forall|k: int| i <= k < i + name.len() implies !is_space(#[trigger] s[k]) by {
            assert(peek(s, i + (k - i)) == name[k - i]);
        }
    } else {
        lemma_run_holds_no_space(s, i + 1);
    }
}

/// A stretch of the text without white space is kept as it is.
proof fn lemma_squeezed_stretch(s: Seq<char>, i: int, e: int)
    requires
        0 <= i <= e <= s.len(),
        forall|k: int| i <= k < e ==> !is_space(#[trigger] s[k]),
    ensures
        squeezed_from(s, i) == s.subrange(i, e) + squeezed_from(s, e),
    decreases e - i,
{
    if i < e {
        lemma_squeezed_stretch(s, i + 1, e);
        assert(seq![s[i]] + (s.subrange(i + 1, e) + squeezed_from(s, e)) =~= s.subrange(i, e)
            + squeezed_from(s, e));
    } else {
        assert(s.subrange(i, e) + squeezed_from(s, e) =~= squeezed_from(s, e));
    }
}

/// The lexemes from `i` on, one after another, are the text from `i` on
/// without its white space.
proof fn lemma_lexemes_chain(s: Seq<char>, i: int)
    requires
        0 <= i,
    ensures
        chained(lexemes_from(s, i)) == squeezed_from(s, i),
    decreases s.len() - i,
{
    if i < s.len() {
        if is_space(s[i]) {
            lemma_lexemes_chain(s, i + 1);
        } else {
            lemma_lexeme_end(s, i);
            let e = lexeme_end(s, i);
            let rest = lexemes_from(s, e);
            let all = seq![s.subrange(i, e)] + rest;
            lemma_lexemes_chain(s, e);
            lemma_lexeme_holds_no_space(s, i);
            lemma_squeezed_stretch(s, i, e);
            assert(all.skip(1) =~= rest);
            assert(all[0] == s.subrange(i, e));
        }
    }
}

/// Nothing of the text is lost or added: its lexemes, one after another,
/// are the text without its white space.
pub proof fn lemma_lexemes_cover_text(s: Seq<char>)
    ensures
        chained(lexemes(s)) == squeezed_from(s, 0),
{
    lemma_lexemes_chain(s, 0);
}

/// The text of a numeric literal that the lexer cut is an operand.
pub proof fn lemma_number_is_operand(s: Seq<char>, i: int)
    requires
        0 <= i < s.len(),
        number_end(s, i) > i,
    ensures
        is_operand_text(s.subrange(i, number_end(s, i))),
{
    lemma_number_end(s, i);
    lemma_digits_end(s, i);
    let d = digits_end(s, i);
    let e = number_end(s, i);
    let t = s.subrange(i, e);
    if peek(s, d) == '.' && is_digit(peek(s, d + 1)) {
        lemma_digits_end(s, d + 1);
        assert(is_digit(s[d + 1]));
        assert(e > d + 1);
        assert(t.last() == s[e - 1]);
        assert forall|a: int, b: int|
            0 <= a < b < t.len() && #[trigger] t[a] == '.' implies #[trigger] t[b] != '.' by {
            assert(t[a] == s[i + a]);
            assert(t[b] == s[i + b]);
            if i + a < d {
                assert(is_digit(s[i + a]));
            }
            if i + b > d {
                assert(is_digit(s[i + b]));
            }
        }
        assert forall|k: int| 0 <= k < t.len() implies is_digit(#[trigger] t[k]) || t[k] == '.' by {
            assert(t[k] == s[i + k]);
            if i + k < d {
                assert(is_digit(s[i + k]));
            } else if i + k > d {
                assert(is_digit(s[i + k]));
            }
        }
    } else {
        assert(t.last() == s[e - 1]);
        assert forall|k: int| 0 <= k < t.len() implies is_digit(#[trigger] t[k]) by {
            assert(t[k] == s[i + k]);
        }
    }
}

/// A parenthesis or operator character that the lexer cut is that symbol.
proof fn lemma_symbol_is_token(s: Seq<char>, i: int)
    requires
        0 <= i < s.len(),
        number_end(s, i) <= i,
        is_symbol(s[i]),
    ensures
        s.subrange(i, lexeme_end(s, i)) == seq![s[i]],
        kind_of(s.subrange(i, lexeme_end(s, i))) is Some,
        kind_of(s.subrange(i, lexeme_end(s, i))) != Some(TokenKind::Operand),
{
    let t = s.subrange(i, i + 1);
    assert(t =~= seq![s[i]]);
    assert(t[0] == s[i]);
    assert(t.last() == s[i]);
    lemma_kinds(t);
}

/// A function name that the lexer cut is that function.
proof fn lemma_name_is_token(s: Seq<char>, i: int)
    requires
        0 <= i < s.len(),
        number_end(s, i) <= i,
        !is_symbol(s[i]),
        name_at(s, i) is Some,
    ensures
        kind_of(s.subrange(i, lexeme_end(s, i))) == Some(TokenKind::Function(name_at(s, i)->0)),
{
    lemma_lexeme_end(s, i);
    let f = name_at(s, i)->0;
    let name = function_name(f);
    let t = s.subrange(i, lexeme_end(s, i));
    assert(has_at(s, i, name));
    assert forall|k: int| 0 <= k < name.len() implies t[k] == name[k] by {
        assert(peek(s, i + k) == name[k]);
    }
    assert(t =~= name);
    lemma_function_texts(f);
}

/// A run of unrecognized characters is no token that a later stage knows.
proof fn lemma_run_is_no_token(s: Seq<char>, i: int)
    requires
        0 <= i < s.len(),
        !is_space(s[i]),
        !starts_lexeme(s, i),
    ensures
        kind_of(s.subrange(i, lexeme_end(s, i))) is None,
{
    lemma_lexeme_end(s, i);
    lemma_number_end(s, i);
    let e = lexeme_end(s, i);
    let t = s.subrange(i, e);
    assert(t[0] == s[i]);
    if is_operand_text(t) {
        lemma_operand_starts_number(s, i, e);
    }
    if function_of(t) is Some {
        let name = function_name(function_of(t)->0);
        assert(t == name);
        assert forall|k: int| 0 <= k < name.len() implies peek(s, i + k) == #[trigger] name[k] by {
            assert(t[k] == s[i + k]);
        }
        assert(has_at(s, i, name));
    }
}

/// Every lexeme is a token of the kind that the lexer took it for: a
/// numeric literal is an operand, a parenthesis or operator character is
/// that symbol, a function name is that function, and a run of anything
/// else is no token that a later stage knows.
pub proof fn lemma_lexeme_kind(s: Seq<char>, i: int)
    requires
        0 <= i < s.len(),
        !is_space(s[i]),
    ensures
        number_end(s, i) > i ==> kind_of(s.subrange(i, lexeme_end(s, i))) == Some(
            TokenKind::Operand,
        ),
        number_end(s, i) <= i && is_symbol(s[i]) ==> s.subrange(i, lexeme_end(s, i)) == seq![s[i]]
            && kind_of(s.subrange(i, lexeme_end(s, i))) is Some,
        number_end(s, i) <= i && !is_symbol(s[i]) && name_at(s, i) is Some ==> kind_of(
            s.subrange(i, lexeme_end(s, i)),
        ) == Some(TokenKind::Function(name_at(s, i)->0)),
        !starts_lexeme(s, i) ==> kind_of(s.subrange(i, lexeme_end(s, i))) is None,
{
    if number_end(s, i) > i {
        lemma_number_is_operand(s, i);
    } else if is_symbol(s[i]) {
        lemma_symbol_is_token(s, i);
    } else if name_at(s, i) is Some {
        lemma_name_is_token(s, i);
    } else {
        lemma_run_is_no_token(s, i);
    }
}

/// Where a stretch of the text is an operand, a numeric literal starts at
/// its first character.
proof fn lemma_operand_starts_number(s: Seq<char>, i: int, e: int)
    requires
        0 <= i < e <= s.len(),
        is_operand_text(s.subrange(i, e)),
    ensures
        starts_lexeme(s, i),
{
    let t = s.subrange(i, e);
    assert(t[0] == s[i]);
    assert(is_digit(t[0]) || t[0] == '.');
    if is_digit(s[i]) {
        lemma_digits_end(s, i + 1);
        assert(digits_end(s, i) > i);
        lemma_number_end(s, i);
        lemma_digits_end(s, i);
        if digits_end(s, i) + 1 <= s.len() {
            lemma_digits_end(s, digits_end(s, i) + 1);
        }
        assert(number_end(s, i) > i);
        assert(starts_lexeme(s, i));
    } else {
        assert(is_digit(t.last()));
        assert(t.len() >= 2);
        assert(t[1] == s[i + 1]);
        assert(t[1] != '.');
        assert(is_digit(t[1]));
        lemma_digits_end(s, i + 2);
        assert(digits_end(s, i) == i);
        assert(digits_end(s, i + 1) > i + 1);
        assert(number_end(s, i) > i);
        assert(starts_lexeme(s, i));
    }
}

/// A text that ends in a parenthesis or an operator character is that
/// character alone.
spec fn ends_alone(t: Seq<char>) -> bool {
    t.len() > 0 && (is_symbol(t.last()) ==> t.len() == 1)
}

/// A parenthesis or operator character ends no lexeme but its own.
proof fn lemma_lexeme_ends_alone(s: Seq<char>, i: int)
    requires
        0 <= i < s.len(),
        !is_space(s[i]),
    ensures
        ends_alone(s.subrange(i, lexeme_end(s, i))),
{
    lemma_lexeme_end(s, i);
    lemma_number_end(s, i);
    let e = lexeme_end(s, i);
    let t = s.subrange(i, e);
    assert(t.last() == s[e - 1]);
    if number_end(s, i) > i {
        lemma_number_is_operand(s, i);
    } else if is_symbol(s[i]) {
    } else if name_at(s, i) is Some {
        let name = function_name(name_at(s, i)->0);
        assert(has_at(s, i, name));
        assert(peek(s, i + (name.len() - 1)) == name[name.len() - 1]);
    } else {
        lemma_run_end(s, i + 1);
        lemma_run_holds_no_start(s, i + 1);
        if e - 1 > i {
            assert(!starts_lexeme(s, e - 1));
        }
    }
}

/// Every lexeme from `i` on ends alone.
proof fn lemma_lexemes_end_alone(s: Seq<char>, i: int, k: int)
    requires
        0 <= i,
        0 <= k < lexemes_from(s, i).len(),
    ensures
        ends_alone(lexemes_from(s, i)[k]),
    decreases s.len() - i,
{
    if i < s.len() {
        if is_space(s[i]) {
            lemma_lexemes_end_alone(s, i + 1, k);
        } else {
            lemma_lexeme_end(s, i);
            if k > 0 {
                lemma_lexemes_end_alone(s, lexeme_end(s, i), k - 1);
            } else {
                lemma_lexeme_ends_alone(s, i);
            }
        }
    }
}

/// Whether a `-` negates is decided by the character before it, white
/// space apart: the lexeme before it is an operator or an opening
/// parenthesis exactly if it ends in an operator character or in `(`.
pub proof fn lemma_sign_by_character(s: Seq<char>, k: int)
    requires
        0 < k < lexemes(s).len(),
    ensures
        lexemes(s)[k - 1].len() > 0,
        (lexemes(s)[k - 1] == symbol('(') || (lexemes(s)[k - 1].len() == 1 && is_operator_char(
            lexemes(s)[k - 1][0],
        ))) <==> (lexemes(s)[k - 1].last() == '(' || is_operator_char(lexemes(s)[k - 1].last())),
{
    lemma_lexemes_end_alone(s, 0, k - 1);
    let t = lexemes(s)[k - 1];
    if t.len() == 1 {
        assert(t.last() == t[0]);
        assert(t =~= symbol(t[0]));
    }
}

} // verus!
