use rustingyard::{convert2postfix, solve, tokenize, BinaryOperator, ExprError, Function, Operation};

/// A syntax tree, to hold the library against.
enum Tree {
    Literal(String),
    Negate(Box<Tree>),
    Call(Function, Box<Tree>),
    Binary(BinaryOperator, Box<Tree>, Box<Tree>),
}

fn operator_text(op: BinaryOperator) -> &'static str {
    match op {
        BinaryOperator::Add => "+",
        BinaryOperator::Subtract => "-",
        BinaryOperator::Multiply => "*",
        BinaryOperator::Divide => "/",
        BinaryOperator::Power => "^",
    }
}

fn precedence(op: BinaryOperator) -> u8 {
    match op {
        BinaryOperator::Add | BinaryOperator::Subtract => 1,
        BinaryOperator::Multiply | BinaryOperator::Divide => 2,
        BinaryOperator::Power => 3,
    }
}

fn function_name(f: Function) -> &'static str {
    match f {
        Function::Sin => "sin",
        Function::Cos => "cos",
        Function::Tan => "tan",
        Function::Ln => "ln",
        Function::Arcsin => "arcsin",
        Function::Arccos => "arccos",
        Function::Arctan => "arctan",
    }
}

fn level(tree: &Tree) -> u8 {
    match tree {
        Tree::Literal(_) => 6,
        Tree::Negate(_) => 4,
        Tree::Call(_, _) => 5,
        Tree::Binary(op, _, _) => precedence(*op),
    }
}

/// The tree in infix form, with parentheses only where an operand binds
/// too loosely for its place.
fn infix(tree: &Tree, bound: u8) -> String {
    let plain = match tree {
        Tree::Literal(text) => text.clone(),
        Tree::Negate(operand) => format!("-{}", infix(operand, 5)),
        Tree::Call(f, argument) => format!("{}{}", function_name(*f), infix(argument, 7)),
        Tree::Binary(op, left, right) => {
            let p = precedence(*op);
            format!("{}{}{}", infix(left, p), operator_text(*op), infix(right, p + 1))
        }
    };
    if level(tree) < bound || bound == 7 {
        format!("({})", plain)
    } else {
        plain
    }
}

fn postfix(tree: &Tree, out: &mut Vec<String>) {
    match tree {
        Tree::Literal(text) => out.push(text.clone()),
        Tree::Negate(operand) => {
            postfix(operand, out);
            out.push("@".to_string());
        }
        Tree::Call(f, argument) => {
            postfix(argument, out);
            out.push(function_name(*f).to_string());
        }
        Tree::Binary(op, left, right) => {
            postfix(left, out);
            postfix(right, out);
            out.push(operator_text(*op).to_string());
        }
    }
}

fn double_precision(operation: Operation<f64>) -> f64 {
    match operation {
        Operation::Literal(text) => text.parse().unwrap(),
        Operation::Binary(BinaryOperator::Add, left, right) => left + right,
        Operation::Binary(BinaryOperator::Subtract, left, right) => left - right,
        Operation::Binary(BinaryOperator::Multiply, left, right) => left * right,
        Operation::Binary(BinaryOperator::Divide, left, right) => left / right,
        Operation::Binary(BinaryOperator::Power, left, right) => left.powf(right),
        Operation::Negate(value) => value * -1.0,
        Operation::Call(Function::Sin, value) => value.sin(),
        Operation::Call(Function::Cos, value) => value.cos(),
        Operation::Call(Function::Tan, value) => value.tan(),
        Operation::Call(Function::Ln, value) => value.ln(),
        Operation::Call(Function::Arcsin, value) => value.asin(),
        Operation::Call(Function::Arccos, value) => value.acos(),
        Operation::Call(Function::Arctan, value) => value.atan(),
    }
}

fn value(tree: &Tree) -> f64 {
    match tree {
        Tree::Literal(text) => double_precision(Operation::Literal(text.clone())),
        Tree::Negate(operand) => double_precision(Operation::Negate(value(operand))),
        Tree::Call(f, argument) => double_precision(Operation::Call(*f, value(argument))),
        Tree::Binary(op, left, right) => {
            double_precision(Operation::Binary(*op, value(left), value(right)))
        }
    }
}

/// A small generator of numbers that gives the same trees on every run.
struct Numbers(u64);

impl Numbers {
    fn next(&mut self, below: u64) -> u64 {
        self.0 = self.0.wrapping_mul(6364136223846793005).wrapping_add(1442695040888963407);
        (self.0 >> 33) % below
    }
}

fn tree(numbers: &mut Numbers, depth: u32) -> Tree {
    let choice = if depth == 0 { 0 } else { numbers.next(10) };
    match choice {
        0 | 1 => {
            let literals = ["0", "1", "2", "3", "10", ".5", "1.5", "0.25", "7", "12.125"];
            Tree::Literal(literals[numbers.next(10) as usize].to_string())
        }
        2 => Tree::Negate(Box::new(tree(numbers, depth - 1))),
        3 => {
            let functions = [
                Function::Sin,
                Function::Cos,
                Function::Tan,
                Function::Ln,
                Function::Arcsin,
                Function::Arccos,
                Function::Arctan,
            ];
            Tree::Call(functions[numbers.next(7) as usize], Box::new(tree(numbers, depth - 1)))
        }
        _ => {
            let operators = [
                BinaryOperator::Add,
                BinaryOperator::Subtract,
                BinaryOperator::Multiply,
                BinaryOperator::Divide,
                BinaryOperator::Power,
            ];
            let op = operators[numbers.next(5) as usize];
            let left = tree(numbers, depth - 1);
            let right = tree(numbers, depth - 1);
            Tree::Binary(op, Box::new(left), Box::new(right))
        }
    }
}

#[test]
fn the_infix_form_of_a_tree_is_read_as_the_tree() {
    let mut numbers = Numbers(2024);
    for _ in 0..500 {
        let tree = tree(&mut numbers, 5);
        let text = infix(&tree, 1);
        let mut expected = Vec::new();
        postfix(&tree, &mut expected);
        assert_eq!(Ok(expected), convert2postfix(tokenize(&text)), "{}", text);
    }
}

#[test]
fn the_value_of_an_expression_is_the_value_of_its_tree() {
    let mut numbers = Numbers(7);
    for _ in 0..500 {
        let tree = tree(&mut numbers, 5);
        let text = infix(&tree, 1);
        let expected = value(&tree);
        let found = solve(&text, double_precision).unwrap();
        assert!(
            found.to_bits() == expected.to_bits() || (found.is_nan() && expected.is_nan()),
            "{} gives {} and not {}",
            text,
            found,
            expected
        );
    }
}

#[test]
fn white_space_and_spare_parentheses_change_no_value() {
    let mut numbers = Numbers(99);
    for _ in 0..200 {
        let tree = tree(&mut numbers, 4);
        let text = infix(&tree, 1);
        let spaced = format!(" {}\n", tokenize(&text).join(" \t "));
        let wrapped = format!("(({}))", text);
        let plain = convert2postfix(tokenize(&text));
        assert_eq!(plain, convert2postfix(tokenize(&spaced)), "{}", spaced);
        assert_eq!(plain, convert2postfix(tokenize(&wrapped)), "{}", wrapped);
    }
}

#[test]
fn a_sign_or_function_directly_after_a_function_finds_no_operand() {
    for text in ["sin cos 1", "sin -1", "--1", "-sin-1", "ln ln 2"] {
        assert_eq!(Err(ExprError::InsufficientOperands), solve(text, double_precision), "{}", text);
    }
    for text in ["sin(cos 1)", "sin(-1)", "-(-1)", "-sin(-1)", "ln(ln 2)", "-sin 1", "-cos(0)"] {
        assert!(solve(text, double_precision).is_ok(), "{}", text);
    }
}
