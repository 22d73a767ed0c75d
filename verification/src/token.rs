//! Classification of single tokens and the precedence table.
//!
//! A token is a piece of text. Its kind is not stored with it: the
//! predicates here derive it from the text whenever it is needed.

use vstd::prelude::*;
use crate::text::{chars_of, digit, is_digit};

verus! {

/// The operators that take two operands.
#[derive(Clone, Copy, Debug, PartialEq, Eq, Structural)]
pub enum BinaryOperator {
    /// `+`
    Add,
    /// `-`
    Subtract,
    /// `*`
    Multiply,
    /// `/`
    Divide,
    /// `^`
    Power,
}

/// The named functions, each of one argument.
#[derive(Clone, Copy, Debug, PartialEq, Eq, Structural)]
pub enum Function {
    /// `sin`
    Sin,
    /// `cos`
    Cos,
    /// `tan`
    Tan,
    /// `ln`
    Ln,
    /// `arcsin`
    Arcsin,
    /// `arccos`
    Arccos,
    /// `arctan`
    Arctan,
}

/// What a token is.
#[derive(Clone, Copy, Debug, PartialEq, Eq, Structural)]
pub enum TokenKind {
    /// A numeric literal.
    Operand,
    /// One of `+ - * / ^`.
    Binary(BinaryOperator),
    /// The sign marker `@`, which the lexer writes for a `-` that negates.
    Negate,
    /// A function name.
    Function(Function),
    /// `(`
    LeftParen,
    /// `)`
    RightParen,
}

/// The text of a numeric literal: digits with at most one `.` among them,
/// ending in a digit. So `5`, `.5` and `1.5` are literals; `5.`, `.` and the
/// empty text are not.
pub open spec fn is_operand_text(t: Seq<char>) -> bool {
    &&& t.len() > 0
    &&& is_digit(t.last())
    &&& forall|i: int| 0 <= i < t.len() ==> is_digit(#[trigger] t[i]) || t[i] == '.'
    &&& forall|i: int, j: int|
        0 <= i < j < t.len() && #[trigger] t[i] == '.' ==> #[trigger] t[j] != '.'
}

/// The operator that the character `c` stands for, the sign marker apart.
pub open spec fn binary_of(c: char) -> Option<BinaryOperator> {
    if c == '+' {
        Some(BinaryOperator::Add)
    } else if c == '-' {
        Some(BinaryOperator::Subtract)
    } else if c == '*' {
        Some(BinaryOperator::Multiply)
    } else if c == '/' {
        Some(BinaryOperator::Divide)
    } else if c == '^' {
        Some(BinaryOperator::Power)
    } else {
        None
    }
}

/// The text of a binary operator: its one character.
pub open spec fn operator_text(op: BinaryOperator) -> Seq<char> {
    match op {
        BinaryOperator::Add => seq!['+'],
        BinaryOperator::Subtract => seq!['-'],
        BinaryOperator::Multiply => seq!['*'],
        BinaryOperator::Divide => seq!['/'],
        BinaryOperator::Power => seq!['^'],
    }
}

/// The characters that are operators by themselves: `+ - * / ^` and the
/// sign marker `@`.
pub open spec fn is_operator_char(c: char) -> bool {
    binary_of(c) is Some || c == '@'
}

/// The name under which `f` is written.
pub open spec fn function_name(f: Function) -> Seq<char> {
    match f {
        Function::Sin => seq!['s', 'i', 'n'],
        Function::Cos => seq!['c', 'o', 's'],
        Function::Tan => seq!['t', 'a', 'n'],
        Function::Ln => seq!['l', 'n'],
        Function::Arcsin => seq!['a', 'r', 'c', 's', 'i', 'n'],
        Function::Arccos => seq!['a', 'r', 'c', 'c', 'o', 's'],
        Function::Arctan => seq!['a', 'r', 'c', 't', 'a', 'n'],
    }
}

/// The function that `t` names, if `t` is, as a whole, a function name.
pub open spec fn function_of(t: Seq<char>) -> Option<Function> {
    if t == function_name(Function::Sin) {
        Some(Function::Sin)
    } else if t == function_name(Function::Cos) {
        Some(Function::Cos)
    } else if t == function_name(Function::Tan) {
        Some(Function::Tan)
    } else if t == function_name(Function::Ln) {
        Some(Function::Ln)
    } else if t == function_name(Function::Arcsin) {
        Some(Function::Arcsin)
    } else if t == function_name(Function::Arccos) {
        Some(Function::Arccos)
    } else if t == function_name(Function::Arctan) {
        Some(Function::Arctan)
    } else {
        None
    }
}

/// The kind of the token `t`, or `None` where `t` is no token of the
/// expression language.
pub open spec fn kind_of(t: Seq<char>) -> Option<TokenKind> {
    if is_operand_text(t) {
        Some(TokenKind::Operand)
    } else if t.len() == 1 && binary_of(t[0]) is Some {
        Some(TokenKind::Binary(binary_of(t[0])->0))
    } else if t.len() == 1 && t[0] == '@' {
        Some(TokenKind::Negate)
    } else if t.len() == 1 && t[0] == '(' {
        Some(TokenKind::LeftParen)
    } else if t.len() == 1 && t[0] == ')' {
        Some(TokenKind::RightParen)
    } else if function_of(t) is Some {
        Some(TokenKind::Function(function_of(t)->0))
    } else {
        None
    }
}

/// `t` is exactly one operator character.
pub open spec fn is_operator_text(t: Seq<char>) -> bool {
    t.len() == 1 && is_operator_char(t[0])
}

/// `t` is, as a whole, one of the function names.
pub open spec fn is_function_text(t: Seq<char>) -> bool {
    function_of(t) is Some
}

/// How tightly a kind of token binds; higher binds tighter. Only operators
/// and functions have a precedence.
pub open spec fn precedence_of(kind: TokenKind) -> int {
    match kind {
        TokenKind::Binary(BinaryOperator::Add) => 1,
        TokenKind::Binary(BinaryOperator::Subtract) => 1,
        TokenKind::Binary(BinaryOperator::Multiply) => 2,
        TokenKind::Binary(BinaryOperator::Divide) => 2,
        TokenKind::Binary(BinaryOperator::Power) => 3,
        TokenKind::Negate => 4,
        TokenKind::Function(_) => 5,
        _ => 0,
    }
}

/// The precedence of the operator or function `t`.
pub open spec fn precedence(t: Seq<char>) -> int
    recommends
        is_operator_text(t) || is_function_text(t),
{
    match kind_of(t) {
        Some(kind) => precedence_of(kind),
        None => 0,
    }
}

/// The kinds are told apart by the text alone: an operator is one
/// character, a function name is letters, a literal is digits and a dot.
pub proof fn lemma_kinds(t: Seq<char>)
    ensures
        is_operand_text(t) <==> kind_of(t) == Some(TokenKind::Operand),
        is_operator_text(t) <==> (kind_of(t) is Some && (kind_of(t)->0 is Binary || kind_of(t)->0
            is Negate)),
        is_function_text(t) <==> (kind_of(t) is Some && kind_of(t)->0 is Function),
        is_operator_text(t) || is_function_text(t) ==> 1 <= precedence(t) <= 5,
{
    if is_operand_text(t) {
        assert(is_digit(t[t.len() - 1]));
        assert(is_digit(t.last()));
        if function_of(t) is Some {
            let f = function_of(t)->0;
            assert(t == function_name(f));
            assert(!is_digit(function_name(f).last()));
        }
    }
    if t.len() == 1 {
        assert(function_of(t) is None) by {
            if function_of(t) is Some {
                assert(t == function_name(function_of(t)->0));
            }
        }
    }
}

/// The texts of the operators, of the sign marker and of the parentheses
/// are tokens of these kinds, with the precedence of the table.
pub proof fn lemma_operator_texts(op: BinaryOperator)
    ensures
        kind_of(operator_text(op)) == Some(TokenKind::Binary(op)),
        is_operator_text(operator_text(op)),
        precedence(operator_text(op)) == precedence_of(TokenKind::Binary(op)),
        1 <= precedence(operator_text(op)) <= 3,
        kind_of(seq!['@']) == Some(TokenKind::Negate),
        is_operator_text(seq!['@']),
        precedence(seq!['@']) == 4,
        kind_of(seq!['(']) == Some(TokenKind::LeftParen),
        kind_of(seq![')']) == Some(TokenKind::RightParen),
{
    lemma_kinds(operator_text(op));
    lemma_kinds(seq!['@']);
    lemma_kinds(seq!['(']);
    lemma_kinds(seq![')']);
}

/// The name of a function is a token of that function, with precedence 5.
pub proof fn lemma_function_texts(f: Function)
    ensures
        kind_of(function_name(f)) == Some(TokenKind::Function(f)),
        is_function_text(function_name(f)),
        precedence(function_name(f)) == 5,
{
    let name = function_name(f);
    lemma_kinds(name);
    assert(!is_operand_text(name)) by {
        assert(name.last() == name[name.len() - 1]);
    }
    assert(function_name(Function::Sin)[0] == 's');
    assert(function_name(Function::Cos)[0] == 'c');
    assert(function_name(Function::Tan)[0] == 't');
    assert(function_name(Function::Ln)[0] == 'l');
    assert(function_name(Function::Arcsin)[3] == 's');
    assert(function_name(Function::Arccos)[3] == 'c');
    assert(function_name(Function::Arctan)[3] == 't');
    assert(function_name(Function::Arcsin)[0] == 'a');
    assert(function_name(Function::Arccos)[0] == 'a');
    assert(function_name(Function::Arctan)[0] == 'a');
    assert(function_of(name) == Some(f));
}

/// The function named by `chars`, taken as a whole.
fn function_named(chars: &Vec<char>) -> (result: Option<Function>)
    ensures
        result == function_of(chars@),
{
    let n = chars.len();
    let result = if n == 2 {
        if chars[0] == 'l' && chars[1] == 'n' {
            Some(Function::Ln)
        } else {
            None
        }
    } else if n == 3 {
        if chars[0] == 's' && chars[1] == 'i' && chars[2] == 'n' {
            Some(Function::Sin)
        } else if chars[0] == 'c' && chars[1] == 'o' && chars[2] == 's' {
            Some(Function::Cos)
        } else if chars[0] == 't' && chars[1] == 'a' && chars[2] == 'n' {
            Some(Function::Tan)
        } else {
            None
        }
    } else if n == 6 {
        if chars[0] == 'a' && chars[1] == 'r' && chars[2] == 'c' {
            if chars[3] == 's' && chars[4] == 'i' && chars[5] == 'n' {
                Some(Function::Arcsin)
            } else if chars[3] == 'c' && chars[4] == 'o' && chars[5] == 's' {
                Some(Function::Arccos)
            } else if chars[3] == 't' && chars[4] == 'a' && chars[5] == 'n' {
                Some(Function::Arctan)
            } else {
                None
            }
        } else {
            None
        }
    } else {
        None
    };
    proof {
        let t = chars@;
        match result {
            Some(f) => {
                assert(t =~= function_name(f));
            },
            None => {
                if function_of(t) is Some {
                    let f = function_of(t)->0;
                    assert(t == function_name(f));
                    assert(t.len() == function_name(f).len());
                    assert(forall|i: int| 0 <= i < t.len() ==> t[i] == function_name(f)[i]);
                    assert(false);
                }
            },
        }
    }
    result
}

/// Tells whether `chars` is the text of a numeric literal.
fn operand_chars(chars: &Vec<char>) -> (result: bool)
    ensures
        result == is_operand_text(chars@),
{
    let n = chars.len();
    if n == 0 || !digit(chars[n - 1]) {
        return false;
    }
    let mut dots: usize = 0;
    let mut i: usize = 0;
    while i < n
        invariant
            n == chars.len(),
            0 <= i <= n,
            dots <= 1,
            dots <= i,
            forall|k: int| 0 <= k < i ==> is_digit(#[trigger] chars@[k]) || chars@[k] == '.',
            dots == 0 ==> forall|k: int| 0 <= k < i ==> #[trigger] chars@[k] != '.',
            dots == 1 ==> exists|d: int|
                0 <= d < i && chars@[d] == '.' && forall|k: int|
                    0 <= k < i && k != d ==> #[trigger] chars@[k] != '.',
        decreases n - i,
    {
        let c = chars[i];
        if c == '.' {
            if dots == 1 {
                proof {
                    let d = choose|d: int|
                        0 <= d < i && chars@[d] == '.' && forall|k: int|
                            0 <= k < i && k != d ==> #[trigger] chars@[k] != '.';
                    assert(chars@[d] == '.' && chars@[i as int] == '.' && d < i);
                }
                return false;
            }
            proof {
                let d = i as int;
                assert(0 <= d < i + 1 && chars@[d] == '.' && forall|k: int|
                    0 <= k < i + 1 && k != d ==> #[trigger] chars@[k] != '.');
            }
            dots = 1;
        } else if !digit(c) {
            proof {
                assert(!(is_digit(chars@[i as int]) || chars@[i as int] == '.'));
            }
            return false;
        } else {
            proof {
                if dots == 1 {
                    let d = choose|d: int|
                        0 <= d < i && chars@[d] == '.' && forall|k: int|
                            0 <= k < i && k != d ==> #[trigger] chars@[k] != '.';
                    assert(0 <= d < i + 1 && chars@[d] == '.' && forall|k: int|
                        0 <= k < i + 1 && k != d ==> #[trigger] chars@[k] != '.');
                }
            }
        }
        i += 1;
    }
    proof {
        let t = chars@;
        assert(t.last() == t[n - 1]);
        assert forall|a: int, b: int|
            0 <= a < b < t.len() && #[trigger] t[a] == '.' implies #[trigger] t[b] != '.' by {
            if dots == 1 {
                let d = choose|d: int|
                    0 <= d < i && chars@[d] == '.' && forall|k: int|
                        0 <= k < i && k != d ==> #[trigger] chars@[k] != '.';
                if t[b] == '.' {
                    assert(a == d);
                    assert(b == d);
                }
            }
        }
    }
    true
}

/// The kind of the token spelled by `chars`.
fn kind_of_chars(chars: &Vec<char>) -> (kind: Option<TokenKind>)
    ensures
        kind == kind_of(chars@),
{
    if operand_chars(chars) {
        return Some(TokenKind::Operand);
    }
    if chars.len() == 1 {
        let c = chars[0];
        proof {
            lemma_kinds(chars@);
        }
        if c == '+' {
            Some(TokenKind::Binary(BinaryOperator::Add))
        } else if c == '-' {
            Some(TokenKind::Binary(BinaryOperator::Subtract))
        } else if c == '*' {
            Some(TokenKind::Binary(BinaryOperator::Multiply))
        } else if c == '/' {
            Some(TokenKind::Binary(BinaryOperator::Divide))
        } else if c == '^' {
            Some(TokenKind::Binary(BinaryOperator::Power))
        } else if c == '@' {
            Some(TokenKind::Negate)
        } else if c == '(' {
            Some(TokenKind::LeftParen)
        } else if c == ')' {
            Some(TokenKind::RightParen)
        } else {
            None
        }
    } else {
        match function_named(chars) {
            Some(f) => Some(TokenKind::Function(f)),
            None => None,
        }
    }
}

/// Classifies `token`: its kind, or `None` where the text is no token of the
/// expression language.
pub fn classify(token: &str) -> (kind: Option<TokenKind>)
    ensures
        kind == kind_of(token@),
{
    let chars = chars_of(token);
    kind_of_chars(&chars)
}

/// Tells whether `token` is exactly one of `- + * ^ / @`.
pub fn is_operator(token: &str) -> (result: bool)
    ensures
        result == is_operator_text(token@),
{
    proof {
        lemma_kinds(token@);
    }
    match classify(token) {
        Some(TokenKind::Binary(_)) => true,
        Some(TokenKind::Negate) => true,
        _ => false,
    }
}

/// Tells whether `token` is a numeric literal: digits with at most one `.`
/// among them, ending in a digit.
pub fn is_operand(token: &str) -> (result: bool)
    ensures
        result == is_operand_text(token@),
{
    let chars = chars_of(token);
    operand_chars(&chars)
}

/// Tells whether `token` is, as a whole, one of the names
/// `sin cos tan ln arcsin arccos arctan`.
pub fn is_function(token: &str) -> (result: bool)
    ensures
        result == is_function_text(token@),
{
    let chars = chars_of(token);
    function_named(&chars).is_some()
}

/// The precedence of an operator or function: `+ -` have 1, `* /` have 2,
/// `^` has 3, the sign marker `@` has 4 and every function has 5.
pub fn prec(op: &str) -> (result: i8)
    requires
        is_operator_text(op@) || is_function_text(op@),
    ensures
        result == precedence(op@),
        1 <= result <= 5,
{
    proof {
        lemma_kinds(op@);
    }
    match classify(op) {
        Some(TokenKind::Binary(BinaryOperator::Add)) => 1,
        Some(TokenKind::Binary(BinaryOperator::Subtract)) => 1,
        Some(TokenKind::Binary(BinaryOperator::Multiply)) => 2,
        Some(TokenKind::Binary(BinaryOperator::Divide)) => 2,
        Some(TokenKind::Binary(BinaryOperator::Power)) => 3,
        Some(TokenKind::Negate) => 4,
        _ => 5,
    }
}

/// Tells whether `op1` binds at least as tightly as `op2`.
pub fn is_greater_than_or_equal_precedence(op1: &str, op2: &str) -> (result: bool)
    requires
        is_operator_text(op1@) || is_function_text(op1@),
        is_operator_text(op2@) || is_function_text(op2@),
    ensures
        result == (precedence(op1@) >= precedence(op2@)),
{
    prec(op1) >= prec(op2)
}

} // verus!
