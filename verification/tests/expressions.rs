use rustingyard::{
    classify, convert2postfix, evaluate_postfix, is_function, is_greater_than_or_equal_precedence,
    is_operand, is_operator, prec, solve, space_pad, tokenize, BinaryOperator, ExprError, Function,
    Operation, TokenKind,
};

fn double_precision(operation: Operation<f64>) -> f64 {
    match operation {
        Operation::Literal(text) => text.parse().unwrap(),
        Operation::Binary(BinaryOperator::Add, left, right) => left + right,
        Operation::Binary(BinaryOperator::Subtract, left, right) => left - right,
        Operation::Binary(BinaryOperator::Multiply, left, right) => left * right,
        Operation::Binary(BinaryOperator::Divide, left, right) => left / right,
        Operation::Binary(BinaryOperator::Power, left, right) => left.powf(right),
        Operation::Negate(value) => value * -1.0,
        Operation::Call(Function::Sin, value) => value.sin(),
        Operation::Call(Function::Cos, value) => value.cos(),
        Operation::Call(Function::Tan, value) => value.tan(),
        Operation::Call(Function::Ln, value) => value.ln(),
        Operation::Call(Function::Arcsin, value) => value.asin(),
        Operation::Call(Function::Arccos, value) => value.acos(),
        Operation::Call(Function::Arctan, value) => value.atan(),
    }
}

/// An arithmetic that writes down what it is asked for.
fn written(operation: Operation<String>) -> String {
    match operation {
        Operation::Literal(text) => text,
        Operation::Binary(op, left, right) => format!("({:?} {} {})", op, left, right),
        Operation::Negate(value) => format!("(Negate {})", value),
        Operation::Call(f, value) => format!("({:?} {})", f, value),
    }
}

fn strings(tokens: &[&str]) -> Vec<String> {
    tokens.iter().map(|t| t.to_string()).collect()
}

fn value(expression: &str) -> Result<f64, ExprError> {
    solve(expression, double_precision)
}

#[test]
fn operators_are_single_characters() {
    for token in ["+", "-", "*", "/", "^", "@"] {
        assert!(is_operator(token));
    }
    for token in ["", "-+", "+ ", "(", ")", "1", "sin", "x", "@@", "|"] {
        assert!(!is_operator(token));
    }
}

#[test]
fn operands_are_numeric_literals() {
    for token in ["4", "0", "10", "1.5", ".5", "0.25", "3.141592653589793", "007"] {
        assert!(is_operand(token));
    }
    for token in ["", ".", "5.", "1.2.3", "..5", "1e5", "+1", "-1", "a1", "1a", " 1", "1 ", "٣"] {
        assert!(!is_operand(token));
    }
}

#[test]
fn functions_are_whole_names() {
    for token in ["sin", "cos", "tan", "ln", "arcsin", "arccos", "arctan"] {
        assert!(is_function(token));
    }
    for token in ["", "si", "sine", "asin", "arc", "arcsi", "arcsinx", "Sin", "log", "sin ", "lnln"] {
        assert!(!is_function(token));
    }
}

#[test]
fn classification_names_the_kind() {
    assert_eq!(Some(TokenKind::Operand), classify("12.5"));
    assert_eq!(Some(TokenKind::Binary(BinaryOperator::Add)), classify("+"));
    assert_eq!(Some(TokenKind::Binary(BinaryOperator::Subtract)), classify("-"));
    assert_eq!(Some(TokenKind::Binary(BinaryOperator::Multiply)), classify("*"));
    assert_eq!(Some(TokenKind::Binary(BinaryOperator::Divide)), classify("/"));
    assert_eq!(Some(TokenKind::Binary(BinaryOperator::Power)), classify("^"));
    assert_eq!(Some(TokenKind::Negate), classify("@"));
    assert_eq!(Some(TokenKind::LeftParen), classify("("));
    assert_eq!(Some(TokenKind::RightParen), classify(")"));
    assert_eq!(Some(TokenKind::Function(Function::Sin)), classify("sin"));
    assert_eq!(Some(TokenKind::Function(Function::Cos)), classify("cos"));
    assert_eq!(Some(TokenKind::Function(Function::Tan)), classify("tan"));
    assert_eq!(Some(TokenKind::Function(Function::Ln)), classify("ln"));
    assert_eq!(Some(TokenKind::Function(Function::Arcsin)), classify("arcsin"));
    assert_eq!(Some(TokenKind::Function(Function::Arccos)), classify("arccos"));
    assert_eq!(Some(TokenKind::Function(Function::Arctan)), classify("arctan"));
    assert_eq!(None, classify(""));
    assert_eq!(None, classify("x"));
    assert_eq!(None, classify("5."));
    assert_eq!(None, classify("()"));
}

#[test]
fn precedence_table() {
    assert_eq!(1, prec("+"));
    assert_eq!(1, prec("-"));
    assert_eq!(2, prec("*"));
    assert_eq!(2, prec("/"));
    assert_eq!(3, prec("^"));
    assert_eq!(4, prec("@"));
    for name in ["sin", "cos", "tan", "ln", "arcsin", "arccos", "arctan"] {
        assert_eq!(5, prec(name));
    }
}

#[test]
fn precedence_comparison() {
    assert!(is_greater_than_or_equal_precedence("*", "+"));
    assert!(is_greater_than_or_equal_precedence("+", "-"));
    assert!(is_greater_than_or_equal_precedence("^", "^"));
    assert!(is_greater_than_or_equal_precedence("sin", "@"));
    assert!(!is_greater_than_or_equal_precedence("+", "*"));
    assert!(!is_greater_than_or_equal_precedence("^", "@"));
    assert!(!is_greater_than_or_equal_precedence("@", "cos"));
}

#[test]
fn empty_and_blank_text_have_no_tokens() {
    assert!(tokenize("").is_empty());
    assert!(tokenize("   \t\n ").is_empty());
    assert_eq!("", space_pad(""));
    assert_eq!("", space_pad("  \t "));
}

#[test]
fn numbers_are_cut_at_their_longest() {
    assert_eq!(strings(&["12.5"]), tokenize("12.5"));
    assert_eq!(strings(&[".5"]), tokenize(".5"));
    assert_eq!(strings(&["1.2", ".3"]), tokenize("1.2.3"));
    assert_eq!(strings(&["5", "."]), tokenize("5."));
    assert_eq!(strings(&[".", ".5"]), tokenize("..5"));
    assert_eq!(strings(&["1", ".", "sin"]), tokenize("1.sin"));
    assert_eq!(strings(&["1", "e", "5"]), tokenize("1e5"));
    assert_eq!(strings(&["10", "20"]), tokenize("10 20"));
}

#[test]
fn names_are_found_inside_runs() {
    assert_eq!(strings(&["arcsin", "(", "1", ")"]), tokenize("arcsin(1)"));
    assert_eq!(strings(&["arccos", "arctan", "ln"]), tokenize("arccosarctanln"));
    assert_eq!(strings(&["a", "sin"]), tokenize("asin"));
    assert_eq!(strings(&["sin", "ce"]), tokenize("since"));
    assert_eq!(strings(&["x", "2"]), tokenize("x2"));
    assert_eq!(strings(&["a|b", "+", "c"]), tokenize("a|b+c"));
    assert_eq!(strings(&["arc", "2", "sin"]), tokenize("arc2sin"));
}

#[test]
fn a_minus_where_an_operand_is_due_negates() {
    assert_eq!(strings(&["@", "3"]), tokenize("-3"));
    assert_eq!(strings(&["@", "3"]), tokenize("  - 3"));
    assert_eq!(strings(&["1", "-", "3"]), tokenize("1-3"));
    assert_eq!(strings(&["1", "-", "@", "3"]), tokenize("1--3"));
    assert_eq!(strings(&["1", "+", "@", "3"]), tokenize("1+-3"));
    assert_eq!(strings(&["1", "+", "@", "3"]), tokenize("1 + - 3"));
    assert_eq!(strings(&["2", "*", "@", "3"]), tokenize("2*-3"));
    assert_eq!(strings(&["2", "/", "@", "3"]), tokenize("2/-3"));
    assert_eq!(strings(&["2", "^", "@", "3"]), tokenize("2^-3"));
    assert_eq!(strings(&["(", "@", "3", ")"]), tokenize("(-3)"));
    assert_eq!(strings(&["(", "1", ")", "-", "3"]), tokenize("(1)-3"));
    assert_eq!(strings(&["sin", "-", "3"]), tokenize("sin-3"));
    assert_eq!(strings(&["@", "@", "3"]), tokenize("--3"));
    assert_eq!(strings(&["1", "-", "@", "@", "3"]), tokenize("1---3"));
    assert_eq!(strings(&["@", "@", "3"]), tokenize("@-3"));
}

#[test]
fn white_space_only_separates() {
    assert_eq!(tokenize("2*sin(1)*2"), tokenize(" 2 *\tsin (1)\n* 2 "));
    assert_eq!(tokenize("1+2"), tokenize("1\u{a0}+\u{2003}2"));
    assert_eq!("1 + 2", space_pad("  1   +\t\t2  "));
    assert_eq!("- 3 + 4", space_pad("-3+4"));
    assert_eq!("sin ( .5 ) ^ 2", space_pad("sin(.5)^2"));
}

#[test]
fn padding_changes_no_token() {
    for expression in [
        "2*sin(1)*2",
        "-3+4",
        "1--3",
        "((4-2)*5)+10",
        "1.2.3",
        "5.",
        "x2 + since",
        "  arcsin( -1 )  ",
        "",
    ] {
        let padded = space_pad(expression);
        assert_eq!(tokenize(expression), tokenize(&padded));
        assert_eq!(padded, space_pad(&padded));
    }
    assert_eq!(tokenize("2*sin(1)*2"), tokenize("2 * sin ( 1 ) * 2"));
}

#[test]
fn tokens_are_the_padded_form_split_at_blanks() {
    let padded = space_pad("(3+3)*9");
    let pieces: Vec<String> = padded.split(' ').map(|s| s.to_string()).collect();
    assert_eq!(pieces, tokenize("(3+3)*9"));
}

#[test]
fn operators_of_equal_precedence_group_from_the_left() {
    assert_eq!(Ok(strings(&["1", "2", "-", "3", "-"])), convert2postfix(tokenize("1-2-3")));
    assert_eq!(Ok(strings(&["8", "4", "/", "2", "/"])), convert2postfix(tokenize("8/4/2")));
    assert_eq!(Ok(strings(&["2", "3", "^", "2", "^"])), convert2postfix(tokenize("2^3^2")));
    assert_eq!(Ok(64.0), value("2^3^2"));
    assert_eq!(Ok(-4.0), value("1-2-3"));
    assert_eq!(Ok(1.0), value("8/4/2"));
}

#[test]
fn tighter_operators_apply_first() {
    assert_eq!(Ok(strings(&["1", "2", "3", "*", "+"])), convert2postfix(tokenize("1+2*3")));
    assert_eq!(convert2postfix(tokenize("1+(2*3)")), convert2postfix(tokenize("1+2*3")));
    assert_eq!(Ok(strings(&["1", "2", "*", "3", "+"])), convert2postfix(tokenize("1*2+3")));
    assert_eq!(convert2postfix(tokenize("(1*2)+3")), convert2postfix(tokenize("1*2+3")));
    assert_eq!(Ok(strings(&["2", "3", "2", "^", "*"])), convert2postfix(tokenize("2*3^2")));
    assert_eq!(Ok(7.0), value("1+2*3"));
    assert_eq!(Ok(5.0), value("1*2+3"));
    assert_eq!(Ok(18.0), value("2*3^2"));
    assert_eq!(Ok(14.0), value("2+3*4"));
    assert_eq!(Ok(20.0), value("(2+3)*4"));
}

#[test]
fn the_sign_binds_tighter_than_binary_operators() {
    assert_eq!(Ok(strings(&["3", "@", "4", "+"])), convert2postfix(tokenize("-3+4")));
    assert_eq!(Ok(strings(&["2", "@", "2", "^"])), convert2postfix(tokenize("-2^2")));
    assert_eq!(Ok(strings(&["2", "3", "@", "^"])), convert2postfix(tokenize("2^-3")));
    assert_eq!(Ok(strings(&["1", "sin", "@"])), convert2postfix(tokenize("-sin(1)")));
    assert_eq!(Ok(strings(&["1", "@", "sin"])), convert2postfix(tokenize("sin(-1)")));
    assert_eq!(Ok(1.0), value("-3+4"));
    assert_eq!(Ok(4.0), value("-2^2"));
    assert_eq!(Ok(0.125), value("2^-3"));
    assert_eq!(Ok(-6.0), value("2*-3"));
    assert_eq!(Ok(5.0), value("2--3"));
}

#[test]
fn parentheses_are_dropped_from_the_output() {
    assert_eq!(Ok(strings(&["1"])), convert2postfix(strings(&["(", "(", "1", ")", ")"])));
    assert_eq!(Ok(strings(&[])), convert2postfix(strings(&["(", ")"])));
    assert_eq!(Ok(strings(&[])), convert2postfix(strings(&[])));
    assert_eq!(
        Ok(strings(&["1", "2", "+", "3", "4", "+", "*"])),
        convert2postfix(tokenize("(1+2)*(3+4)"))
    );
    assert_eq!(
        Ok(strings(&["1", "cos", "sin"])),
        convert2postfix(tokenize("sin(cos(1))"))
    );
}

#[test]
fn a_closing_parenthesis_releases_down_to_its_partner_only() {
    assert_eq!(
        Ok(strings(&["1", "2", "3", "+", "4", "*", "+"])),
        convert2postfix(tokenize("1+(2+3)*4"))
    );
    assert_eq!(Ok(21.0), value("1+(2+3)*4"));
    assert_eq!(Ok(2.0), value("2*(3-(1+1))"));
}

#[test]
fn unbalanced_parentheses_are_rejected() {
    for expression in [")(", "(1", "1)", "((1)", "(1))", "(", ")", "1+(2*3", "sin(1"] {
        assert_eq!(Err(ExprError::UnbalancedParentheses), convert2postfix(tokenize(expression)));
        assert_eq!(Err(ExprError::UnbalancedParentheses), value(expression));
    }
}

#[test]
fn unrecognized_tokens_are_rejected() {
    for expression in ["1 $ 2", "x", "5.", "1.2.3.", "1e5", "asin(1)", "2 | 3", "1 + two"] {
        assert_eq!(Err(ExprError::UnrecognizedToken), convert2postfix(tokenize(expression)));
        assert_eq!(Err(ExprError::UnrecognizedToken), value(expression));
    }
    assert_eq!(
        Err(ExprError::UnrecognizedToken),
        convert2postfix(strings(&["1", "+", ""]))
    );
    assert_eq!(
        Err(ExprError::UnrecognizedToken),
        evaluate_postfix(strings(&["1", "(", "2"]), double_precision)
    );
    assert_eq!(
        Err(ExprError::UnrecognizedToken),
        evaluate_postfix(strings(&["1", "2", "plus"]), double_precision)
    );
}

#[test]
fn the_first_offence_decides() {
    assert_eq!(Err(ExprError::UnbalancedParentheses), convert2postfix(tokenize(") $")));
    assert_eq!(Err(ExprError::UnrecognizedToken), convert2postfix(tokenize("$ )")));
    assert_eq!(Err(ExprError::UnrecognizedToken), convert2postfix(tokenize("( $")));
    assert_eq!(
        Err(ExprError::InsufficientOperands),
        evaluate_postfix(strings(&["+", "x"]), double_precision)
    );
    assert_eq!(
        Err(ExprError::UnrecognizedToken),
        evaluate_postfix(strings(&["x", "+"]), double_precision)
    );
}

#[test]
fn missing_operands_are_rejected() {
    for expression in ["", "1+", "sin", "+", "*2", "1+*2", "-", "()", "sin()", "--3", "sin -1"] {
        assert_eq!(Err(ExprError::InsufficientOperands), value(expression));
    }
    assert_eq!(
        Err(ExprError::InsufficientOperands),
        evaluate_postfix(strings(&["1", "+"]), double_precision)
    );
    assert_eq!(
        Err(ExprError::InsufficientOperands),
        evaluate_postfix(strings(&["@"]), double_precision)
    );
    assert_eq!(
        Err(ExprError::InsufficientOperands),
        evaluate_postfix(strings(&[]), double_precision)
    );
}

#[test]
fn trailing_operands_are_rejected() {
    for expression in ["1 2", "1 2 +3", "(1)(2)", "2 sin(1)", "1.2.3"] {
        assert_eq!(Err(ExprError::TrailingOperands), value(expression));
    }
    assert_eq!(
        Err(ExprError::TrailingOperands),
        evaluate_postfix(strings(&["1", "2", "3", "+"]), double_precision)
    );
}

#[test]
fn the_first_value_popped_is_the_right_operand() {
    assert_eq!(Ok(1.0), evaluate_postfix(strings(&["3", "2", "-"]), double_precision));
    assert_eq!(Ok(1.5), evaluate_postfix(strings(&["3", "2", "/"]), double_precision));
    assert_eq!(Ok(9.0), evaluate_postfix(strings(&["3", "2", "^"]), double_precision));
    assert_eq!(Ok(-3.0), evaluate_postfix(strings(&["3", "@"]), double_precision));
    assert_eq!(
        Ok("(Subtract a b)".to_string()),
        evaluate_postfix(strings(&["1", "2", "-"]), |operation| match operation {
            Operation::Literal(text) => if text == "1" { "a".to_string() } else { "b".to_string() },
            other => written(other),
        })
    );
}

#[test]
fn the_evaluator_asks_for_every_operation_once_and_in_order() {
    assert_eq!(
        Ok("(Add (Subtract 4 (Multiply 2 5)) 10)".to_string()),
        solve("4-2*5+10", written)
    );
    assert_eq!(
        Ok("(Multiply (Multiply 2 (Sin 1)) 2)".to_string()),
        solve("2*sin(1)*2", written)
    );
    assert_eq!(
        Ok("(Power (Power 2 3) 2)".to_string()),
        solve("2^3^2", written)
    );
    assert_eq!(
        Ok("(Add (Negate 3) 4)".to_string()),
        solve("-3+4", written)
    );
    assert_eq!(
        Ok("(Negate (Arctan (Divide 1 (Ln .5))))".to_string()),
        solve("-arctan(1/ln(.5))", written)
    );
}

#[test]
fn every_function_is_applied() {
    assert_eq!(Ok(0.0), value("sin(0)"));
    assert_eq!(Ok(1.0), value("cos(0)"));
    assert_eq!(Ok(0.0), value("tan(0)"));
    assert_eq!(Ok(0.0), value("ln(1)"));
    assert_eq!(Ok(0.0), value("arcsin(0)"));
    assert_eq!(Ok(0.0), value("arccos(1)"));
    assert_eq!(Ok(0.0), value("arctan(0)"));
    assert_eq!(Ok(std::f64::consts::FRAC_PI_2), value("arcsin(1)"));
    assert_eq!(Ok(std::f64::consts::FRAC_PI_4), value("arctan(1)"));
    assert!((value("ln(2.718281828459045)").unwrap() - 1.0).abs() < 1e-12);
    assert!((value("sin(1)").unwrap() - 0.84).abs() < 0.005);
    assert!((value("cos(3.141592653589793)").unwrap() + 1.0).abs() < 0.005);
}

#[test]
fn numeric_edge_cases_are_no_errors() {
    assert_eq!(Ok(f64::INFINITY), value("1/0"));
    assert_eq!(Ok(f64::NEG_INFINITY), value("-1/0"));
    assert!(value("0/0").unwrap().is_nan());
    assert!(value("arcsin(2)").unwrap().is_nan());
    assert!(value("(-8)^.5").unwrap().is_nan());
    assert_eq!(Ok(f64::NEG_INFINITY), value("ln(0)"));
}

#[test]
fn expressions_have_values() {
    assert_eq!(Ok(54.0), value("(3+3)*9"));
    assert_eq!(Ok(4.0), value("4-2*5+10"));
    assert_eq!(Ok(20.0), value("((4-2)*5)+10"));
    assert_eq!(Ok(0.5), value(".5"));
    assert_eq!(Ok(2.5), value(" 1.5 + 1 "));
    assert_eq!(Ok(-1.0), value("-(1)"));
    assert_eq!(Ok(-7.0), value("-(3+4)"));
    assert_eq!(Ok(3.0), value("1 - -2"));
    assert_eq!(Ok(1.0), value("cos 0"));
    assert_eq!(Ok(-1.0), value("-cos(0)"));
    assert_eq!(Ok(1.0), value("cos(0)^2"));
    assert_eq!(Ok(2.0), value("2^cos(0)"));
}

#[test]
fn malformed_input_gives_an_error() {
    assert_eq!(Err(ExprError::UnbalancedParentheses), value(")("));
    assert_eq!(Err(ExprError::InsufficientOperands), value("1+"));
    assert_eq!(Err(ExprError::InsufficientOperands), value("sin"));
}

#[test]
fn the_order_of_operands_and_operators_is_not_held_against_a_sequence() {
    assert_eq!(Ok(strings(&["1", "2", "+"])), convert2postfix(tokenize("1 2 +")));
    assert_eq!(Ok(3.0), value("1 2 +"));
    assert_eq!(Ok(3.0), value("+ 1 2"));
    assert_eq!(Ok(0.0), value("0 sin"));
}

#[test]
fn a_value_needs_one_operand_more_than_binary_operators() {
    for expression in ["1 2", "1 2 3 +", "1 + + 2", "+", "1 + 2 +", "sin", "(", "()"] {
        assert!(value(expression).is_err(), "{}", expression);
    }
}
