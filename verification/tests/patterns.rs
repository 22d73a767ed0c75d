use regex::Regex;
use rustingyard::{space_pad, tokenize};

/// The grammar of lexemes written as patterns: each kind of lexeme is
/// padded in turn, then white space is collapsed and trimmed.
struct Patterns {
    lexemes: Vec<Regex>,
    spaces: Regex,
}

fn patterns() -> Patterns {
    Patterns {
        lexemes: vec![
            Regex::new(r"([0-9]*\.?[0-9]+)").unwrap(),
            Regex::new(r"([()])").unwrap(),
            Regex::new(r"(sin|cos|tan|ln|arcsin|arccos|arctan)").unwrap(),
            Regex::new(r"([-+*/@^])").unwrap(),
        ],
        spaces: Regex::new(r"\s+").unwrap(),
    }
}

fn padded_by_patterns(patterns: &Patterns, expression: &str) -> String {
    let mut text = expression.to_string();
    for lexeme in &patterns.lexemes {
        text = lexeme.replace_all(&text, " $1 ").to_string();
    }
    patterns.spaces.replace_all(&text, " ").trim().to_string()
}

#[test]
fn padding_agrees_with_the_patterns_on_expressions() {
    let patterns = patterns();
    for expression in [
        "1+1+1",
        "2*sin(1)*2",
        "((4-2)*5)+10",
        "4-2*5+10",
        "-3+4",
        "3^2",
        "sin(3.141592653589793)",
        "2*sin(1.5707963267948966)*2",
        "arcsin(1)+arccos(.5)-arctan(0.25)/ln(10)",
        " 12.5 *\t( 3 - .5 ) ",
        "1.2.3",
        "5.",
        "..5",
        "1e5",
        "since",
        "asin(x)",
        "arc2sin",
        "tarcsin",
        "@3",
        "1--3",
        "",
        "   ",
        "1\u{a0}+\u{2003}2",
    ] {
        assert_eq!(padded_by_patterns(&patterns, expression), space_pad(expression));
    }
}

#[test]
fn padding_agrees_with_the_patterns_on_every_short_text() {
    let patterns = patterns();
    let pieces = [
        "1", "20", ".", "-", "+", "*", "^", "(", ")", "@", " ", "x", "s", "sin", "co", "cos", "ta",
        "tan", "l", "ln", "arc", "arcsin", "arccos", "arctan", "n",
    ];
    let mut texts: Vec<String> = vec![String::new()];
    let mut last: Vec<String> = vec![String::new()];
    for _ in 0..3 {
        let mut next = Vec::new();
        for text in &last {
            for piece in pieces {
                next.push(format!("{}{}", text, piece));
            }
        }
        texts.extend(next.iter().cloned());
        last = next;
    }
    assert_eq!(1 + 25 + 625 + 15625, texts.len());
    for text in &texts {
        assert_eq!(padded_by_patterns(&patterns, text), space_pad(text));
    }
}

#[test]
fn tokens_are_the_padded_text_cut_at_blanks_with_signs_marked() {
    let patterns = patterns();
    for expression in ["1+1+1", "2*sin(1)*2", "(3+3)*9", "4 / 2", "1.2.3", "x2+since"] {
        let padded = padded_by_patterns(&patterns, expression);
        let pieces: Vec<String> = padded.split(' ').map(|s| s.to_string()).collect();
        assert_eq!(pieces, tokenize(expression));
    }
    let padded = padded_by_patterns(&patterns, "-3+-4");
    let pieces: Vec<&str> = padded.split(' ').collect();
    assert_eq!(vec!["-", "3", "+", "-", "4"], pieces);
    assert_eq!(vec!["@", "3", "+", "@", "4"], tokenize("-3+-4"));
}
