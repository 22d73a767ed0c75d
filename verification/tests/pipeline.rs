use rustingyard::{
    convert2postfix, evaluate_postfix, is_operator, solve, space_pad, tokenize, BinaryOperator,
    ExprError, Function, Operation,
};

fn double_precision(operation: Operation<f64>) -> f64 {
    match operation {
        Operation::Literal(text) => text.parse().unwrap(),
        Operation::Binary(BinaryOperator::Add, left, right) => left + right,
        Operation::Binary(BinaryOperator::Subtract, left, right) => left - right,
        Operation::Binary(BinaryOperator::Multiply, left, right) => left * right,
        Operation::Binary(BinaryOperator::Divide, left, right) => left / right,
        Operation::Binary(BinaryOperator::Power, left, right) => left.powf(right),
        Operation::Negate(value) => value * -1.0,
        Operation::Call(Function::Sin, value) => value.sin(),
        Operation::Call(Function::Cos, value) => value.cos(),
        Operation::Call(Function::Tan, value) => value.tan(),
        Operation::Call(Function::Ln, value) => value.ln(),
        Operation::Call(Function::Arcsin, value) => value.asin(),
        Operation::Call(Function::Arccos, value) => value.acos(),
        Operation::Call(Function::Arctan, value) => value.atan(),
    }
}

fn postfix(expression: &str) -> Vec<String> {
    convert2postfix(tokenize(expression)).unwrap()
}

fn evaluate(expression: &str) -> f64 {
    evaluate_postfix(postfix(expression), double_precision).unwrap()
}

#[test]
fn it_works() {
    assert_eq!(Err(ExprError::InsufficientOperands), solve("", double_precision));
    assert_eq!(Ok(3.0), solve("1+1+1", double_precision));
}

#[test]
fn tokenize_test() {
    assert_eq!(vec!["1", "+", "1", "+", "1"], tokenize("1+1+1"));
    assert_eq!(vec!["1", "-", "1", "-", "1"], tokenize("1-1-1"));
    assert_eq!(vec!["1", "/", "1", "/", "1"], tokenize("1/1/1"));
    assert_eq!(vec!["1", "*", "1", "*", "1"], tokenize("1*1*1"));
    assert_eq!(vec!["1", "+", "1", "*", "1"], tokenize("1+1*1"));
    assert_eq!(vec!["1", "+", "(", "1", "*", "1", ")"], tokenize("1+(1*1)"));
    assert_eq!(vec!["@", "3", "+", "4"], tokenize("-3+4"));
    assert_eq!(vec!["sin", "(", "1", ")"], tokenize("sin(1)"));
    assert_eq!(vec!["2", "*", "sin", "(", "1", ")", "*", "2"], tokenize("2*sin(1)*2"));
    assert_eq!(vec!["3", "^", "2"], tokenize("3^2"));
    assert_eq!(vec!["(", "3", "+", "3", ")", "*", "9"], tokenize("(3+3)*9"));
}

#[test]
fn convert_to_postfix_test() {
    assert_eq!(vec!["1", "1", "+", "1", "+"], postfix("1+1+1"));
    assert_eq!(vec!["3", "3", "+", "9", "*"], postfix("(3+3)*9"));
    assert_eq!(vec!["4", "2", "-", "5", "*", "10", "+"], postfix("((4-2)*5)+10"));
    assert_eq!(vec!["4", "2", "5", "*", "-", "10", "+"], postfix("4-2*5+10"));
    assert_eq!(vec!["1", "sin"], postfix("sin(1)"));
    assert_eq!(vec!["2", "1", "sin", "*"], postfix("2*sin(1)"));
    assert_eq!(vec!["2", "1", "sin", "*", "2", "*"], postfix("2*sin(1)*2"));
    assert_eq!(vec!["3", "2", "^"], postfix("3^2"));
}

#[test]
fn evaluate_postfix_test() {
    assert_eq!(3.0, evaluate("1+1+1"));
    assert_eq!(6.0, evaluate("2+2+2"));
    assert_eq!(6.0, evaluate("1+2+3"));
    assert_eq!(9.0, evaluate("3+3+3"));
    assert_eq!(0.0, evaluate("0+0+0"));
    assert_eq!(9.0, evaluate("3*3"));
    assert_eq!(4.0, evaluate("4-2*5+10"));

    assert_eq!(30.0, evaluate("3+3*9"));
    assert_eq!(54.0, evaluate("(3+3)*9"));

    assert_eq!(1.0, evaluate("2-1"));

    assert_eq!(1.0, evaluate("-3+4"));

    assert_eq!(2.0, evaluate("4/2"));
    assert_eq!(2.0, evaluate("4 / 2"));

    assert_eq!(9.0, evaluate("3^2"));

    assert_eq!(0.0_f64, evaluate(&format!("sin({})", std::f64::consts::PI)).round());
    assert_eq!(0.0_f64, evaluate("sin(0)").round());
    assert_eq!("0.84", format!("{:.2}", evaluate("sin(1)")));
    assert_eq!("1.00", format!("{:.2}", evaluate(&format!("sin({})", std::f64::consts::PI / 2.0))));
    assert_eq!("2.00", format!("{:.2}", evaluate(&format!("2*sin({})", std::f64::consts::PI / 2.0))));
    assert_eq!("2.00", format!("{:.2}", evaluate(&format!("sin({})*2", std::f64::consts::PI / 2.0))));
    assert_eq!("4.00", format!("{:.2}", evaluate(&format!("2*sin({})*2", std::f64::consts::PI / 2.0))));
    assert_eq!("1.57", format!("{:.2}", evaluate("arcsin(1)")));
    assert_eq!("0.54", format!("{:.2}", evaluate("cos(1)")));
    assert_eq!("-1.00", format!("{:.2}", evaluate(&format!("cos({})", std::f64::consts::PI))));
}

#[test]
fn is_operator_test() {
    assert!(is_operator("+"));
    assert!(is_operator("-"));
    assert!(is_operator("*"));
    assert!(is_operator("/"));
    assert!(is_operator("^"));
    assert!(is_operator("@"));
}

#[test]
fn space_pad_test() {
    assert_eq!("2 * sin ( 1 ) * 2", space_pad("2*sin(1)*2"));
}
