//! The lexer: from the text of an expression to its tokens.
//!
//! The text is cut into lexemes: numeric literals, parentheses, function
//! names, operator characters, and runs of anything else. White space only
//! separates. A `-` that stands where an operand is due negates, and is
//! written `@` in the token sequence.

use vstd::prelude::*;
use crate::stability::lemma_padding_is_stable;
use crate::text::{chars_of, digit, is_digit, is_space, space};
use crate::token::{function_name, is_operator_char, Function};

verus! {

/// The character at `i`, with a blank wherever the text has none.
pub open spec fn peek(s: Seq<char>, i: int) -> char {
    if 0 <= i < s.len() {
        s[i]
    } else {
        ' '
    }
}

/// The first position from `i` on that holds no digit.
pub open spec fn digits_end(s: Seq<char>, i: int) -> int
    decreases s.len() - i,
{
    if 0 <= i < s.len() && is_digit(s[i]) {
        digits_end(s, i + 1)
    } else {
        i
    }
}

/// Where the numeric literal that starts at `i` ends: digits, then a `.`
/// only if a digit follows it, then digits. The result is `i` where no
/// literal starts at `i`.
pub open spec fn number_end(s: Seq<char>, i: int) -> int {
    let d = digits_end(s, i);
    if peek(s, d) == '.' && is_digit(peek(s, d + 1)) {
        digits_end(s, d + 1)
    } else {
        d
    }
}

/// The text has `name` at `i`.
pub open spec fn has_at(s: Seq<char>, i: int, name: Seq<char>) -> bool {
    forall|k: int| 0 <= k < name.len() ==> peek(s, i + k) == #[trigger] name[k]
}

/// The function whose name stands at `i`.
pub open spec fn name_at(s: Seq<char>, i: int) -> Option<Function> {
    if has_at(s, i, function_name(Function::Sin)) {
        Some(Function::Sin)
    } else if has_at(s, i, function_name(Function::Cos)) {
        Some(Function::Cos)
    } else if has_at(s, i, function_name(Function::Tan)) {
        Some(Function::Tan)
    } else if has_at(s, i, function_name(Function::Ln)) {
        Some(Function::Ln)
    } else if has_at(s, i, function_name(Function::Arcsin)) {
        Some(Function::Arcsin)
    } else if has_at(s, i, function_name(Function::Arccos)) {
        Some(Function::Arccos)
    } else if has_at(s, i, function_name(Function::Arctan)) {
        Some(Function::Arctan)
    } else {
        None
    }
}

/// A parenthesis or an operator character: a lexeme by itself.
pub open spec fn is_symbol(c: char) -> bool {
    c == '(' || c == ')' || is_operator_char(c)
}

/// A recognized lexeme starts at `i`.
pub open spec fn starts_lexeme(s: Seq<char>, i: int) -> bool {
    number_end(s, i) > i || is_symbol(peek(s, i)) || name_at(s, i) is Some
}

/// Where a run of unrecognized characters that has reached `j` ends: at
/// white space, at the start of a recognized lexeme, or at the end of the
/// text.
pub open spec fn run_end(s: Seq<char>, j: int) -> int
    decreases s.len() - j,
{
    if 0 <= j < s.len() && !is_space(s[j]) && !starts_lexeme(s, j) {
        run_end(s, j + 1)
    } else {
        j
    }
}

/// Where the lexeme that starts at `i` ends, for `i` a position that holds
/// no white space.
pub open spec fn lexeme_end(s: Seq<char>, i: int) -> int {
    if number_end(s, i) > i {
        number_end(s, i)
    } else if is_symbol(peek(s, i)) {
        i + 1
    } else if name_at(s, i) is Some {
        i + function_name(name_at(s, i)->0).len()
    } else {
        run_end(s, i + 1)
    }
}

/// The lexemes of the text from `i` on.
pub open spec fn lexemes_from(s: Seq<char>, i: int) -> Seq<Seq<char>>
    decreases s.len() - i,
    via lexemes_from_decreases
{
    if !(0 <= i < s.len()) {
        Seq::empty()
    } else if is_space(s[i]) {
        lexemes_from(s, i + 1)
    } else {
        seq![s.subrange(i, lexeme_end(s, i))] + lexemes_from(s, lexeme_end(s, i))
    }
}

#[via_fn]
proof fn lexemes_from_decreases(s: Seq<char>, i: int) {
    if 0 <= i < s.len() && !is_space(s[i]) {
        lemma_lexeme_end(s, i);
    }
}

/// The lexemes of a text.
pub open spec fn lexemes(s: Seq<char>) -> Seq<Seq<char>> {
    lexemes_from(s, 0)
}

/// The single-character text `c`.
pub open spec fn symbol(c: char) -> Seq<char> {
    seq![c]
}

/// A `-` at `i` negates: it opens the sequence, or follows an operator or
/// an opening parenthesis.
pub open spec fn is_sign(lexemes: Seq<Seq<char>>, i: int) -> bool {
    &&& 0 <= i < lexemes.len()
    &&& lexemes[i] == symbol('-')
    &&& (i == 0 || lexemes[i - 1] == symbol('(') || (lexemes[i - 1].len() == 1 && is_operator_char(
        lexemes[i - 1][0],
    )))
}

/// The lexemes with `@` for every `-` that negates.
pub open spec fn with_signs(lexemes: Seq<Seq<char>>) -> Seq<Seq<char>> {
    Seq::new(
        lexemes.len(),
        |i: int|
            if is_sign(lexemes, i) {
                symbol('@')
            } else {
                lexemes[i]
            },
    )
}

/// The tokens of an expression.
pub open spec fn tokens_of(s: Seq<char>) -> Seq<Seq<char>> {
    with_signs(lexemes(s))
}

/// The texts in order, with one blank between neighbours.
pub open spec fn joined(texts: Seq<Seq<char>>) -> Seq<char>
    decreases texts.len(),
{
    if texts.len() == 0 {
        Seq::empty()
    } else if texts.len() == 1 {
        texts[0]
    } else {
        joined(texts.drop_last()) + symbol(' ') + texts.last()
    }
}

/// The padded form of an expression: its lexemes, one blank between
/// neighbours, none at either end.
pub open spec fn padded(s: Seq<char>) -> Seq<char> {
    joined(lexemes(s))
}

/// A run of digits ends at or after its start and within the text.
pub(crate) proof fn lemma_digits_end(s: Seq<char>, i: int)
    requires
        0 <= i <= s.len(),
    ensures
        i <= digits_end(s, i) <= s.len(),
        forall|k: int| i <= k < digits_end(s, i) ==> is_digit(#[trigger] s[k]),
        !is_digit(peek(s, digits_end(s, i))),
    decreases s.len() - i,
{
    if i < s.len() && is_digit(s[i]) {
        lemma_digits_end(s, i + 1);
    }
}

/// A numeric literal ends at or after its start and within the text.
pub(crate) proof fn lemma_number_end(s: Seq<char>, i: int)
    requires
        0 <= i <= s.len(),
    ensures
        i <= number_end(s, i) <= s.len(),
{
    lemma_digits_end(s, i);
    if digits_end(s, i) + 1 <= s.len() {
        lemma_digits_end(s, digits_end(s, i) + 1);
    }
}

/// A run of unrecognized characters ends at or after the position it has
/// reached and within the text.
pub(crate) proof fn lemma_run_end(s: Seq<char>, j: int)
    requires
        0 <= j <= s.len(),
    ensures
        j <= run_end(s, j) <= s.len(),
    decreases s.len() - j,
{
    if j < s.len() && !is_space(s[j]) && !starts_lexeme(s, j) {
        lemma_run_end(s, j + 1);
    }
}

/// No recognized lexeme starts inside a run of unrecognized characters.
pub(crate) proof fn lemma_run_holds_no_start(s: Seq<char>, j: int)
    requires
        0 <= j <= s.len(),
    ensures
        forall|k: int| j <= k < run_end(s, j) ==> !#[trigger] starts_lexeme(s, k),
    decreases s.len() - j,
{
    if j < s.len() && !is_space(s[j]) && !starts_lexeme(s, j) {
        lemma_run_holds_no_start(s, j + 1);
    }
}

/// A run of unrecognized characters holds no white space.
pub(crate) proof fn lemma_run_holds_no_space(s: Seq<char>, j: int)
    requires
        0 <= j <= s.len(),
    ensures
        forall|k: int| j <= k < run_end(s, j) ==> !is_space(#[trigger] s[k]),
    decreases s.len() - j,
{
    if j < s.len() && !is_space(s[j]) && !starts_lexeme(s, j) {
        lemma_run_holds_no_space(s, j + 1);
    }
}

/// A lexeme is never empty and lies within the text.
pub proof fn lemma_lexeme_end(s: Seq<char>, i: int)
    requires
        0 <= i < s.len(),
    ensures
        i < lexeme_end(s, i) <= s.len(),
{
    lemma_digits_end(s, i);
    let d = digits_end(s, i);
    if d + 1 <= s.len() {
        lemma_digits_end(s, d + 1);
    }
    lemma_run_end(s, i + 1);
    if name_at(s, i) is Some {
        let name = function_name(name_at(s, i)->0);
        assert(has_at(s, i, name));
        let last = name.len() - 1;
        assert(peek(s, i + last) == name[last]);
    }
}

/// The end of the digits from `from` on.
fn scan_digits(chars: &Vec<char>, from: usize) -> (end: usize)
    requires
        from <= chars.len(),
    ensures
        end == digits_end(chars@, from as int),
        from <= end <= chars.len(),
{
    let mut end = from;
    while end < chars.len() && digit(chars[end])
        invariant
            from <= end <= chars.len(),
            digits_end(chars@, from as int) == digits_end(chars@, end as int),
        decreases chars.len() - end,
    {
        end += 1;
    }
    end
}

/// The end of the numeric literal at `from`; `from` itself where none
/// starts there.
fn scan_number(chars: &Vec<char>, from: usize) -> (end: usize)
    requires
        from <= chars.len(),
    ensures
        end == number_end(chars@, from as int),
        from <= end <= chars.len(),
{
    let d = scan_digits(chars, from);
    if d < chars.len() && chars[d] == '.' && d + 1 < chars.len() && digit(chars[d + 1]) {
        scan_digits(chars, d + 1)
    } else {
        d
    }
}

/// Tells whether the three characters stand at `from`.
fn three_at(chars: &Vec<char>, from: usize, a: char, b: char, c: char) -> (result: bool)
    requires
        from <= chars.len(),
        a != ' ' && b != ' ' && c != ' ',
    ensures
        result == has_at(chars@, from as int, seq![a, b, c]),
{
    let n = chars.len();
    let result = n - from >= 3 && chars[from] == a && chars[from + 1] == b && chars[from + 2] == c;
    proof {
        let s = chars@;
        let name = seq![a, b, c];
        if has_at(s, from as int, name) {
            assert(peek(s, from + 0) == name[0]);
            assert(peek(s, from + 1) == name[1]);
            assert(peek(s, from + 2) == name[2]);
        }
    }
    result
}

/// The function whose name stands at `from`.
fn scan_name(chars: &Vec<char>, from: usize) -> (result: Option<Function>)
    requires
        from <= chars.len(),
    ensures
        result == name_at(chars@, from as int),
{
    let n = chars.len();
    let ghost s = chars@;
    let ghost i = from as int;
    if three_at(chars, from, 's', 'i', 'n') {
        return Some(Function::Sin);
    }
    if three_at(chars, from, 'c', 'o', 's') {
        return Some(Function::Cos);
    }
    if three_at(chars, from, 't', 'a', 'n') {
        return Some(Function::Tan);
    }
    let ln = n - from >= 2 && chars[from] == 'l' && chars[from + 1] == 'n';
    proof {
        let name = function_name(Function::Ln);
        if has_at(s, i, name) {
            assert(peek(s, i + 0) == name[0]);
            assert(peek(s, i + 1) == name[1]);
        }
    }
    if ln {
        return Some(Function::Ln);
    }
    let arc = three_at(chars, from, 'a', 'r', 'c');
    proof {
        let arc_name = seq!['a', 'r', 'c'];
        assert forall|f: Function|
            f == Function::Arcsin || f == Function::Arccos || f == Function::Arctan implies (has_at(
            s,
            i,
            function_name(f),
        ) <==> has_at(s, i, arc_name) && has_at(s, i + 3, function_name(f).skip(3))) by {
            let name = function_name(f);
            let tail = name.skip(3);
            if has_at(s, i, name) {
                assert(peek(s, i + 0) == name[0]);
                assert(peek(s, i + 1) == name[1]);
                assert(peek(s, i + 2) == name[2]);
                assert(peek(s, i + 3) == name[3]);
                assert(peek(s, i + 4) == name[4]);
                assert(peek(s, i + 5) == name[5]);
            }
            if has_at(s, i, arc_name) && has_at(s, i + 3, tail) {
                assert(peek(s, i + 0) == arc_name[0]);
                assert(peek(s, i + 1) == arc_name[1]);
                assert(peek(s, i + 2) == arc_name[2]);
                assert(peek(s, i + 3 + 0) == tail[0]);
                assert(peek(s, i + 3 + 1) == tail[1]);
                assert(peek(s, i + 3 + 2) == tail[2]);
            }
        }
        assert(function_name(Function::Arcsin).skip(3) =~= seq!['s', 'i', 'n']);
        assert(function_name(Function::Arccos).skip(3) =~= seq!['c', 'o', 's']);
        assert(function_name(Function::Arctan).skip(3) =~= seq!['t', 'a', 'n']);
    }
    if !arc {
        return None;
    }
    if three_at(chars, from + 3, 's', 'i', 'n') {
        Some(Function::Arcsin)
    } else if three_at(chars, from + 3, 'c', 'o', 's') {
        Some(Function::Arccos)
    } else if three_at(chars, from + 3, 't', 'a', 'n') {
        Some(Function::Arctan)
    } else {
        None
    }
}

/// Tells whether `c` is a parenthesis or an operator character.
fn symbol_char(c: char) -> (result: bool)
    ensures
        result == is_symbol(c),
{
    c == '(' || c == ')' || c == '+' || c == '-' || c == '*' || c == '/' || c == '^' || c == '@'
}

/// Tells whether a recognized lexeme starts at `from`.
fn lexeme_starts(chars: &Vec<char>, from: usize) -> (result: bool)
    requires
        from < chars.len(),
    ensures
        result == starts_lexeme(chars@, from as int),
{
    scan_number(chars, from) > from || symbol_char(chars[from]) || scan_name(chars, from).is_some()
}

/// The end of the lexeme that starts at `from`.
fn scan_lexeme(chars: &Vec<char>, from: usize) -> (end: usize)
    requires
        from < chars.len(),
    ensures
        end == lexeme_end(chars@, from as int),
        from < end <= chars.len(),
{
    proof {
        lemma_lexeme_end(chars@, from as int);
    }
    let number = scan_number(chars, from);
    if number > from {
        return number;
    }
    if symbol_char(chars[from]) {
        return from + 1;
    }
    match scan_name(chars, from) {
        Some(Function::Ln) => from + 2,
        Some(Function::Sin) => from + 3,
        Some(Function::Cos) => from + 3,
        Some(Function::Tan) => from + 3,
        Some(_) => from + 6,
        None => {
            let mut end = from + 1;
            while end < chars.len() && !space(chars[end]) && !lexeme_starts(chars, end)
                invariant
                    from < end <= chars.len(),
                    run_end(chars@, from + 1) == run_end(chars@, end as int),
                decreases chars.len() - end,
            {
                end += 1;
            }
            end
        },
    }
}

/// The lexemes of `expression`, in order.
fn lex(expression: &str) -> (result: Vec<String>)
    ensures
        result.deep_view() == lexemes(expression@),
{
    let chars = chars_of(expression);
    let ghost s = expression@;
    let mut result: Vec<String> = Vec::new();
    let mut i: usize = 0;
    while i < chars.len()
        invariant
            chars@ == s,
            s == expression@,
            0 <= i <= chars.len(),
            result.deep_view() + lexemes_from(s, i as int) == lexemes(s),
        decreases chars.len() - i,
    {
        if space(chars[i]) {
            i += 1;
        } else {
            let end = scan_lexeme(&chars, i);
            let ghost before = result.deep_view();
            let lexeme = String::from_str(expression.substring_char(i, end));
            result.push(lexeme);
            proof {
                let piece = s.subrange(i as int, end as int);
                assert(result.deep_view() =~= before + seq![piece]);
                assert((before + seq![piece]) + lexemes_from(s, end as int) =~= before + (
                seq![piece] + lexemes_from(s, end as int)));
            }
            i = end;
        }
    }
    proof {
        assert(result.deep_view() + Seq::<Seq<char>>::empty() =~= result.deep_view());
    }
    result
}

/// Tells whether `token` is the single character `c`.
fn is_symbol_text(token: &str, c: char) -> (result: bool)
    ensures
        result == (token@ == symbol(c)),
{
    let result = token.unicode_len() == 1 && token.get_char(0) == c;
    proof {
        if result {
            assert(token@ =~= symbol(c));
        }
    }
    result
}

/// Tells whether a `-` directly after `token` negates.
fn opens_operand(token: &str) -> (result: bool)
    ensures
        result == (token@ == symbol('(') || (token@.len() == 1 && is_operator_char(token@[0]))),
{
    if token.unicode_len() != 1 {
        return false;
    }
    let c = token.get_char(0);
    proof {
        if c == '(' {
            assert(token@ =~= symbol('('));
        }
    }
    c == '(' || c == '+' || c == '-' || c == '*' || c == '/' || c == '^' || c == '@'
}

/// Inserts one blank around every lexeme of `expression`, collapses each run
/// of white space to one blank and trims both ends.
///
/// The padded form has the tokens of the expression, and padding it again
/// changes nothing.
pub fn space_pad(expression: &str) -> (result: String)
    ensures
        result@ == padded(expression@),
        tokens_of(result@) == tokens_of(expression@),
        padded(result@) == result@,
{
    proof {
        lemma_padding_is_stable(expression@);
    }
    let pieces = lex(expression);
    let ghost texts = pieces.deep_view();
    let mut result = String::new();
    let mut i: usize = 0;
    while i < pieces.len()
        invariant
            0 <= i <= pieces.len(),
            texts == pieces.deep_view(),
            result@ == joined(texts.take(i as int)),
        decreases pieces.len() - i,
    {
        proof {
            reveal_strlit(" ");
            let next = texts.take(i + 1);
            assert(next.drop_last() =~= texts.take(i as int));
            assert(next.last() == pieces@[i as int]@);
            assert(" "@ =~= symbol(' '));
            if i > 0 {
                assert(joined(next) == joined(texts.take(i as int)) + symbol(' ') + next.last());
            } else {
                assert(joined(next) == next[0]);
                assert(Seq::<char>::empty() + next[0] =~= next[0]);
            }
        }
        if i > 0 {
            result.append(" ");
        }
        result.append(pieces[i].as_str());
        i += 1;
    }
    proof {
        assert(texts.take(pieces.len() as int) =~= texts);
    }
    result
}

/// Cuts `expression` into its tokens: numeric literals, parentheses,
/// function names, operator characters and runs of anything else, with `@`
/// for every `-` that negates. White space separates tokens and belongs to
/// none, so no token is empty.
pub fn tokenize(expression: &str) -> (tokens: Vec<String>)
    ensures
        tokens.deep_view() == tokens_of(expression@),
        forall|i: int| 0 <= i < tokens.len() ==> (#[trigger] tokens[i])@.len() > 0,
{
    let pieces = lex(expression);
    let ghost texts = pieces.deep_view();
    let mut tokens: Vec<String> = Vec::new();
    let mut sign_due = true;
    let mut i: usize = 0;
    while i < pieces.len()
        invariant
            0 <= i <= pieces.len(),
            texts == pieces.deep_view(),
            texts == lexemes(expression@),
            tokens.len() == i,
            forall|k: int| 0 <= k < i ==> (#[trigger] tokens[k])@ == with_signs(texts)[k],
            sign_due == (i == 0 || texts[i - 1] == symbol('(') || (texts[i - 1].len() == 1
                && is_operator_char(texts[i - 1][0]))),
        decreases pieces.len() - i,
    {
        let piece = pieces[i].as_str();
        proof {
            assert(texts[i as int] == pieces@[i as int]@);
        }
        if sign_due && is_symbol_text(piece, '-') {
            proof {
                reveal_strlit("@");
                assert("@"@ =~= symbol('@'));
            }
            tokens.push(String::from_str("@"));
        } else {
            tokens.push(pieces[i].clone());
        }
        sign_due = opens_operand(piece);
        i += 1;
    }
    proof {
        assert(tokens.deep_view() =~= with_signs(texts));
        assert forall|k: int| 0 <= k < tokens.len() implies (#[trigger] tokens[k])@.len() > 0 by {
            lemma_lexemes_nonempty(expression@, 0, k);
        }
    }
    tokens
}

/// No lexeme is empty, and none holds white space at its start.
pub proof fn lemma_lexemes_nonempty(s: Seq<char>, i: int, k: int)
    requires
        0 <= i,
        0 <= k < lexemes_from(s, i).len(),
    ensures
        lexemes_from(s, i)[k].len() > 0,
        !is_space(lexemes_from(s, i)[k][0]),
    decreases s.len() - i,
{
    if i < s.len() {
        if is_space(s[i]) {
            lemma_lexemes_nonempty(s, i + 1, k);
        } else {
            lemma_lexeme_end(s, i);
            let e = lexeme_end(s, i);
            if k > 0 {
                lemma_lexemes_nonempty(s, e, k - 1);
            }
        }
    }
}

} // verus!
