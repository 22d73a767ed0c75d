//! Padding changes no token: the lexemes of a padded expression are the
//! lexemes of the expression itself.
//!
//! The proof rests on one observation. Where a lexeme ends is decided by its
//! own characters as soon as white space follows it, and in the padded form
//! white space, or the end of the text, follows every lexeme.

use vstd::prelude::*;
use crate::lexer::{
    digits_end, has_at, is_symbol, joined, lemma_digits_end, lemma_lexeme_end, lemma_number_end,
    lemma_run_end, lexeme_end, lexemes, lexemes_from, name_at, number_end, padded, peek, run_end,
    starts_lexeme, tokens_of,
};
use crate::text::{is_digit, is_space};
use crate::token::{function_name, Function};

verus! {

/// A text that is one lexeme by itself.
spec fn is_lexeme(t: Seq<char>) -> bool {
    t.len() > 0 && !is_space(t[0]) && lexeme_end(t, 0) == t.len()
}

/// Where the text `m` starts in the joined form of `texts`.
spec fn offset(texts: Seq<Seq<char>>, m: int) -> int
    decreases m,
{
    if m <= 0 {
        0
    } else {
        offset(texts, m - 1) + texts[m - 1].len() + 1
    }
}

/// `n` characters of `u` from `q` on are those of `s` from `p` on, and what
/// follows them in `u` is white space or the end of the text.
spec fn alike(s: Seq<char>, p: int, u: Seq<char>, q: int, n: int) -> bool {
    &&& 0 <= p
    &&& 0 <= q
    &&& 0 <= n
    &&& p + n <= s.len()
    &&& q + n <= u.len()
    &&& forall|k: int| 0 <= k < n ==> #[trigger] u[q + k] == s[p + k]
    &&& is_space(peek(u, q + n))
}

/// Digits up to a character that is none are a run of digits.
proof fn lemma_digits_run(u: Seq<char>, j: int, m: int)
    requires
        0 <= j,
        0 <= m,
        j + m <= u.len(),
        forall|k: int| 0 <= k < m ==> is_digit(#[trigger] u[j + k]),
        !is_digit(peek(u, j + m)),
    ensures
        digits_end(u, j) == j + m,
    decreases m,
{
    if m > 0 {
        assert(is_digit(u[j + 0]));
        assert forall|k: int| 0 <= k < m - 1 implies is_digit(#[trigger] u[j + 1 + k]) by {
            assert(u[j + 1 + k] == u[j + (k + 1)]);
        }
        lemma_digits_run(u, j + 1, m - 1);
    }
}

/// A name that does not stand in `s` does not stand in a text that is alike.
proof fn lemma_name_alike(
    s: Seq<char>,
    p: int,
    u: Seq<char>,
    q: int,
    n: int,
    name: Seq<char>,
)
    requires
        alike(s, p, u, q, n),
        forall|k: int| 0 <= k < name.len() ==> !is_space(#[trigger] name[k]),
        !has_at(s, p, name),
    ensures
        !has_at(u, q, name),
{
    if has_at(u, q, name) {
        if name.len() <= n {
            assert forall|k: int| 0 <= k < name.len() implies peek(s, p + k)
                == #[trigger] name[k] by {
                assert(u[q + k] == s[p + k]);
                assert(peek(u, q + k) == name[k]);
            }
        } else {
            assert(peek(u, q + n) == name[n]);
        }
    }
}

/// No function name holds white space.
proof fn lemma_names_hold_no_space(f: Function)
    ensures
        forall|k: int|
            0 <= k < function_name(f).len() ==> !is_space(#[trigger] function_name(f)[k]),
        1 < function_name(f).len() <= 6,
{
}

/// The same name, or none, stands at the start of two texts that are alike,
/// if the name in the first lies within what is alike.
proof fn lemma_name_at_alike(s: Seq<char>, p: int, u: Seq<char>, q: int, n: int)
    requires
        alike(s, p, u, q, n),
        name_at(s, p) is Some ==> function_name(name_at(s, p)->0).len() <= n,
    ensures
        name_at(u, q) == name_at(s, p),
{
    lemma_names_hold_no_space(Function::Sin);
    lemma_names_hold_no_space(Function::Cos);
    lemma_names_hold_no_space(Function::Tan);
    lemma_names_hold_no_space(Function::Ln);
    lemma_names_hold_no_space(Function::Arcsin);
    lemma_names_hold_no_space(Function::Arccos);
    lemma_names_hold_no_space(Function::Arctan);
    if !has_at(s, p, function_name(Function::Sin)) {
        lemma_name_alike(s, p, u, q, n, function_name(Function::Sin));
    }
    if !has_at(s, p, function_name(Function::Cos)) {
        lemma_name_alike(s, p, u, q, n, function_name(Function::Cos));
    }
    if !has_at(s, p, function_name(Function::Tan)) {
        lemma_name_alike(s, p, u, q, n, function_name(Function::Tan));
    }
    if !has_at(s, p, function_name(Function::Ln)) {
        lemma_name_alike(s, p, u, q, n, function_name(Function::Ln));
    }
    if !has_at(s, p, function_name(Function::Arcsin)) {
        lemma_name_alike(s, p, u, q, n, function_name(Function::Arcsin));
    }
    if !has_at(s, p, function_name(Function::Arccos)) {
        lemma_name_alike(s, p, u, q, n, function_name(Function::Arccos));
    }
    if !has_at(s, p, function_name(Function::Arctan)) {
        lemma_name_alike(s, p, u, q, n, function_name(Function::Arctan));
    }
    if name_at(s, p) is Some {
        let name = function_name(name_at(s, p)->0);
        assert(has_at(s, p, name));
        assert forall|k: int| 0 <= k < name.len() implies peek(u, q + k) == #[trigger] name[k] by {
            assert(u[q + k] == s[p + k]);
            assert(peek(s, p + k) == name[k]);
        }
        assert(has_at(u, q, name));
    }
}

/// Where no numeric literal starts in `s`, none starts in a text that is
/// alike.
proof fn lemma_no_number_alike(s: Seq<char>, p: int, u: Seq<char>, q: int, n: int)
    requires
        alike(s, p, u, q, n),
        n >= 1,
        number_end(s, p) == p,
    ensures
        number_end(u, q) == q,
{
    lemma_digits_end(s, p);
    assert(u[q + 0] == s[p + 0]);
    if is_digit(s[p]) {
        lemma_digits_end(s, p + 1);
        if digits_end(s, p) + 1 <= s.len() {
            lemma_digits_end(s, digits_end(s, p) + 1);
        }
    }
    assert(digits_end(s, p) == p);
    assert(digits_end(u, q) == q);
    if s[p] == '.' {
        if n >= 2 {
            assert(u[q + 1] == s[p + 1]);
            if is_digit(s[p + 1]) {
                lemma_digits_end(s, p + 1);
            }
        }
    }
}

/// Where no recognized lexeme starts in `s`, none starts in a text that is
/// alike.
proof fn lemma_no_start_alike(s: Seq<char>, p: int, u: Seq<char>, q: int, n: int)
    requires
        alike(s, p, u, q, n),
        n >= 1,
        !starts_lexeme(s, p),
    ensures
        !starts_lexeme(u, q),
{
    lemma_number_end(s, p);
    lemma_no_number_alike(s, p, u, q, n);
    assert(u[q + 0] == s[p + 0]);
    lemma_name_at_alike(s, p, u, q, n);
}

/// A run of unrecognized characters ends in the same place in two texts
/// that are alike as far as the run goes.
proof fn lemma_run_alike(s: Seq<char>, p: int, u: Seq<char>, q: int)
    requires
        p <= s.len(),
        alike(s, p, u, q, run_end(s, p) - p),
    ensures
        run_end(u, q) == q + (run_end(s, p) - p),
    decreases s.len() - p,
{
    lemma_run_end(s, p);
    let n = run_end(s, p) - p;
    if p < s.len() && !is_space(s[p]) && !starts_lexeme(s, p) {
        lemma_run_end(s, p + 1);
        assert(u[q + 0] == s[p + 0]);
        lemma_no_start_alike(s, p, u, q, n);
        assert forall|k: int| 0 <= k < n - 1 implies #[trigger] u[q + 1 + k] == s[p + 1 + k] by {
            assert(u[q + (k + 1)] == s[p + (k + 1)]);
        }
        lemma_run_alike(s, p + 1, u, q + 1);
    }
}

/// A lexeme ends in the same place in two texts that are alike as far as
/// the lexeme goes: once white space follows, its own characters decide.
proof fn lemma_lexeme_alike(s: Seq<char>, i: int, u: Seq<char>, j: int)
    requires
        0 <= i < s.len(),
        !is_space(s[i]),
        alike(s, i, u, j, lexeme_end(s, i) - i),
    ensures
        lexeme_end(u, j) == j + (lexeme_end(s, i) - i),
{
    lemma_lexeme_end(s, i);
    let n = lexeme_end(s, i) - i;
    assert(u[j + 0] == s[i + 0]);
    lemma_digits_end(s, i);
    let d = digits_end(s, i);
    if number_end(s, i) > i {
        if peek(s, d) == '.' && is_digit(peek(s, d + 1)) {
            lemma_digits_end(s, d + 1);
            assert forall|k: int| 0 <= k < d - i implies is_digit(#[trigger] u[j + k]) by {
                assert(u[j + k] == s[i + k]);
            }
            assert(u[j + (d - i)] == s[i + (d - i)]);
            lemma_digits_run(u, j, d - i);
            let e = digits_end(s, d + 1);
            assert(u[j + (d - i + 1)] == s[i + (d - i + 1)]);
            assert forall|k: int| 0 <= k < e - (d + 1) implies is_digit(
                #[trigger] u[j + (d - i) + 1 + k],
            ) by {
                assert(u[j + (d - i + 1 + k)] == s[i + (d - i + 1 + k)]);
            }
            lemma_digits_run(u, j + (d - i) + 1, e - (d + 1));
        } else {
            assert forall|k: int| 0 <= k < d - i implies is_digit(#[trigger] u[j + k]) by {
                assert(u[j + k] == s[i + k]);
            }
            lemma_digits_run(u, j, d - i);
        }
    } else {
        lemma_number_end(s, i);
        lemma_no_number_alike(s, i, u, j, n);
        if is_symbol(peek(s, i)) {
        } else {
            if name_at(s, i) is Some {
                lemma_name_at_alike(s, i, u, j, n);
            } else {
                lemma_name_at_alike(s, i, u, j, n);
                lemma_run_end(s, i + 1);
                assert forall|k: int| 0 <= k < n - 1 implies #[trigger] u[j + 1 + k] == s[i + 1
                    + k] by {
                    assert(u[j + (k + 1)] == s[i + (k + 1)]);
                }
                lemma_run_alike(s, i + 1, u, j + 1);
            }
        }
    }
}

/// Every lexeme of a text is one lexeme by itself.
proof fn lemma_lexemes_stand_alone(s: Seq<char>, i: int, k: int)
    requires
        0 <= i,
        0 <= k < lexemes_from(s, i).len(),
    ensures
        is_lexeme(lexemes_from(s, i)[k]),
    decreases s.len() - i,
{
    if i < s.len() {
        if is_space(s[i]) {
            lemma_lexemes_stand_alone(s, i + 1, k);
        } else {
            lemma_lexeme_end(s, i);
            let e = lexeme_end(s, i);
            if k > 0 {
                lemma_lexemes_stand_alone(s, e, k - 1);
            } else {
                let t = s.subrange(i, e);
                assert(lexemes_from(s, i)[0] == t);
                lemma_lexeme_alike(s, i, t, 0);
            }
        }
    }
}

/// Where a text starts in the joined form depends on the texts before it
/// alone.
proof fn lemma_offset_prefix(a: Seq<Seq<char>>, b: Seq<Seq<char>>, m: int)
    requires
        m <= a.len(),
        m <= b.len(),
        forall|k: int| 0 <= k < m ==> a[k] == b[k],
    ensures
        offset(a, m) == offset(b, m),
    decreases m,
{
    if m > 0 {
        lemma_offset_prefix(a, b, m - 1);
    }
}

/// The joined form holds every text where its offset says, with a blank
/// after each but the last, which ends the joined form.
proof fn lemma_joined_at(texts: Seq<Seq<char>>, m: int)
    requires
        0 <= m < texts.len(),
    ensures
        0 <= offset(texts, m),
        offset(texts, m) + texts[m].len() <= joined(texts).len(),
        joined(texts).subrange(offset(texts, m), offset(texts, m) + texts[m].len()) == texts[m],
        m == texts.len() - 1 ==> offset(texts, m) + texts[m].len() == joined(texts).len(),
        m < texts.len() - 1 ==> offset(texts, m) + texts[m].len() < joined(texts).len()
            && joined(texts)[offset(texts, m) + texts[m].len()] == ' ',
    decreases texts.len(),
{
    let whole = joined(texts);
    if texts.len() == 1 {
        assert(whole.subrange(0, texts[0].len() as int) =~= texts[0]);
    } else {
        let front = texts.drop_last();
        let last = texts.len() - 1;
        lemma_joined_at(front, last - 1);
        lemma_offset_prefix(front, texts, last - 1);
        assert(offset(texts, last) == joined(front).len() + 1);
        if m < last {
            lemma_joined_at(front, m);
            lemma_offset_prefix(front, texts, m);
            assert(whole.subrange(offset(texts, m), offset(texts, m) + texts[m].len())
                =~= joined(front).subrange(offset(front, m), offset(front, m) + front[m].len()));
        } else {
            assert(whole.subrange(offset(texts, m), offset(texts, m) + texts[m].len())
                =~= texts[m]);
        }
    }
}

/// The joined form of texts that are lexemes by themselves has those texts
/// as its lexemes.
proof fn lemma_joined_lexemes(texts: Seq<Seq<char>>, m: int)
    requires
        forall|k: int| 0 <= k < texts.len() ==> is_lexeme(#[trigger] texts[k]),
        0 <= m <= texts.len(),
    ensures
        lexemes_from(joined(texts), offset(texts, m)) == texts.skip(m),
    decreases texts.len() - m,
{
    let whole = joined(texts);
    if m == texts.len() {
        if m > 0 {
            lemma_joined_at(texts, m - 1);
        }
        assert(texts.skip(m) =~= Seq::<Seq<char>>::empty());
    } else {
        let t = texts[m];
        let at = offset(texts, m);
        lemma_joined_at(texts, m);
        assert(is_lexeme(t));
        assert(whole.subrange(at, at + t.len())[0] == t[0]);
        assert(whole[at] == t[0]);
        assert forall|k: int| 0 <= k < t.len() implies #[trigger] whole[at + k] == t[0 + k] by {
            assert(whole.subrange(at, at + t.len())[k] == t[k]);
        }
        lemma_lexeme_alike(t, 0, whole, at);
        let end = at + t.len();
        assert(lexeme_end(whole, at) == end);
        assert(whole.subrange(at, end) == t);
        lemma_joined_lexemes(texts, m + 1);
        assert(offset(texts, m + 1) == end + 1);
        if m < texts.len() - 1 {
            assert(is_space(whole[end]));
            assert(lexemes_from(whole, end) == lexemes_from(whole, end + 1));
        } else {
            assert(end == whole.len());
            assert(lexemes_from(whole, end) == lexemes_from(whole, end + 1));
        }
        assert(lexemes_from(whole, at) == seq![t] + lexemes_from(whole, end));
        assert(texts.skip(m) =~= seq![t] + texts.skip(m + 1));
    }
}

/// Padding is idempotent and changes no token: an expression and its
/// padded form have the same lexemes, the same tokens and the same padded
/// form.
pub proof fn lemma_padding_is_stable(s: Seq<char>)
    ensures
        lexemes(padded(s)) == lexemes(s),
        tokens_of(padded(s)) == tokens_of(s),
        padded(padded(s)) == padded(s),
{
    let texts = lexemes(s);
    assert forall|k: int| 0 <= k < texts.len() implies is_lexeme(#[trigger] texts[k]) by {
        lemma_lexemes_stand_alone(s, 0, k);
    }
    lemma_joined_lexemes(texts, 0);
    assert(texts.skip(0) =~= texts);
}

} // verus!
