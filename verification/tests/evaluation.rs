use belasova::ast::{BinaryOperator, Decimal, Expression, Program, Statement};
use belasova::interpreter::{Arithmetic, Interpreter};
use belasova::parser::parse;

fn number(decimal: &Decimal) -> f64 {
    std::str::from_utf8(decimal.as_bytes()).unwrap().parse::<f64>().unwrap()
}

type Binary = fn(f64, f64) -> f64;

fn floats() -> Arithmetic<fn(&Decimal) -> f64, Binary, Binary, Binary, Binary> {
    Arithmetic {
        number,
        add: |left, right| left + right,
        subtract: |left, right| left - right,
        multiply: |left, right| left * right,
        divide: |left, right| left / right,
    }
}

fn values(source: &str) -> Vec<f64> {
    let program = parse(source).unwrap();
    Interpreter::new().interpret(program, &floats())
}

fn lines(source: &str) -> Vec<String> {
    values(source).iter().map(|value| format!("{}", value)).collect()
}

fn literal(text: &str) -> Expression {
    Expression::Number(Decimal::new(text.as_bytes()).unwrap())
}

fn binary(left: Expression, op: BinaryOperator, right: Expression) -> Expression {
    Expression::BinaryOp { left: Box::new(left), op, right: Box::new(right) }
}

#[test]
fn multiplication_binds_tighter_than_addition() {
    assert_eq!(lines("puts 2 + 3 * 4"), vec!["14"]);
    assert_eq!(values("puts 2 + 3 * 4"), vec![14.0]);
    assert_ne!(values("puts 2 + 3 * 4"), vec![20.0]);
}

#[test]
fn subtraction_groups_to_the_left() {
    assert_eq!(lines("puts 10 - 2 - 3"), vec!["5"]);
    assert_ne!(values("puts 10 - 2 - 3"), vec![11.0]);
}

#[test]
fn division_groups_to_the_left() {
    assert_eq!(values("puts 8 / 4 / 2"), vec![1.0]);
    assert_eq!(values("puts 2 * 3 / 4"), vec![1.5]);
}

#[test]
fn parentheses_override_precedence() {
    assert_eq!(lines("puts (2 + 3) * 4"), vec!["20"]);
    assert_eq!(values("puts 2 * (3 + 4) * 5"), vec![70.0]);
    assert_eq!(values("puts ((((7))))"), vec![7.0]);
    assert_eq!(values("puts 10 - (2 - 3)"), vec![11.0]);
}

#[test]
fn mixed_tiers() {
    assert_eq!(values("puts 2 * 3 + 4 * 5"), vec![26.0]);
    assert_eq!(values("puts 2 - 3 * 4 - 5"), vec![-15.0]);
    assert_eq!(values("puts 1 + 2 * 3 - 4 / 8"), vec![6.5]);
}

#[test]
fn division_by_zero_is_infinite() {
    let result = values("puts 1 / 0");
    assert_eq!(result.len(), 1);
    assert!(result[0].is_infinite() && result[0] > 0.0);
    assert_eq!(lines("puts 1 / 0"), vec!["inf"]);
}

#[test]
fn zero_by_zero_is_not_a_number() {
    let result = values("puts 0 / 0");
    assert_eq!(result.len(), 1);
    assert!(result[0].is_nan());
    assert_eq!(lines("puts 0 / 0"), vec!["NaN"]);
}

#[test]
fn division_by_zero_does_not_stop_the_program() {
    assert_eq!(lines("puts 1 / 0\nputs 2"), vec!["inf", "2"]);
}

#[test]
fn integer_and_decimal_numerals() {
    assert_eq!(values("puts 5"), vec![5.0]);
    assert_eq!(values("puts 5.25"), vec![5.25]);
    assert_eq!(lines("puts 5"), vec!["5"]);
    assert_eq!(lines("puts 5.25"), vec!["5.25"]);
    assert_eq!(values("puts 5 + 5.25"), vec![10.25]);
    assert_eq!(values("puts 007"), vec![7.0]);
    assert_eq!(values("puts 0.5"), vec![0.5]);
}

#[test]
fn one_line_for_each_statement_in_order() {
    assert_eq!(lines(""), Vec::<String>::new());
    assert_eq!(lines("puts 1"), vec!["1"]);
    assert_eq!(lines("puts 1\nputs 2\nputs 3"), vec!["1", "2", "3"]);
    assert_eq!(lines("puts 3 puts 2 puts 1"), vec!["3", "2", "1"]);
    let program = parse("puts 1 + 1\nputs 2 * 2\nputs 9 / 3\nputs 0 - 1").unwrap();
    let count = program.statements.len();
    let result = Interpreter::new().interpret(program, &floats());
    assert_eq!(count, 4);
    assert_eq!(result, vec![2.0, 4.0, 3.0, -1.0]);
}

#[test]
fn a_very_long_numeral_keeps_all_its_digits() {
    let source = "puts 123456789012345678901234567890.5";
    assert_eq!(values(source), vec![123456789012345678901234567890.5]);
    let digits = "9".repeat(400);
    let result = values(&format!("puts {}", digits));
    assert!(result[0].is_infinite());
}

#[test]
fn evaluate_expression_reduces_a_tree() {
    let tree = binary(
        binary(literal("10"), BinaryOperator::Subtract, literal("2")),
        BinaryOperator::Multiply,
        literal("0.5"),
    );
    let value = Interpreter::new().evaluate_expression(&tree, &floats());
    assert_eq!(value, 4.0);
    let single = Interpreter::new().evaluate_expression(&literal("3.75"), &floats());
    assert_eq!(single, 3.75);
}

#[test]
fn each_operator_has_its_own_function() {
    let names = Arithmetic {
        number: |decimal: &Decimal| String::from_utf8(decimal.as_bytes().to_vec()).unwrap(),
        add: |left: String, right: String| format!("add({}, {})", left, right),
        subtract: |left: String, right: String| format!("subtract({}, {})", left, right),
        multiply: |left: String, right: String| format!("multiply({}, {})", left, right),
        divide: |left: String, right: String| format!("divide({}, {})", left, right),
    };
    let program = parse("puts 1 + 2 - 3 * 4 / 5").unwrap();
    let shown = Interpreter::new().interpret(program, &names);
    assert_eq!(shown, vec!["subtract(add(1, 2), divide(multiply(3, 4), 5))"]);
    for (source, name) in [
        ("puts 1 + 2", "add(1, 2)"),
        ("puts 1 - 2", "subtract(1, 2)"),
        ("puts 1 * 2", "multiply(1, 2)"),
        ("puts 1 / 2", "divide(1, 2)"),
    ] {
        assert_eq!(Interpreter::new().interpret(parse(source).unwrap(), &names), vec![name]);
    }
}

#[test]
fn the_left_operand_is_reduced_before_the_right_one() {
    let order = std::cell::RefCell::new(Vec::new());
    let note = |text: String| {
        order.borrow_mut().push(text);
        0u8
    };
    let noting = Arithmetic {
        number: |decimal: &Decimal| note(String::from_utf8(decimal.as_bytes().to_vec()).unwrap()),
        add: |_: u8, _: u8| note(String::from("+")),
        subtract: |_: u8, _: u8| note(String::from("-")),
        multiply: |_: u8, _: u8| note(String::from("*")),
        divide: |_: u8, _: u8| note(String::from("/")),
    };
    let program = parse("puts (1 - 2) * (3 + 4) - 5 / 6").unwrap();
    Interpreter::new().interpret(program, &noting);
    assert_eq!(
        *order.borrow(),
        vec!["1", "2", "-", "3", "4", "+", "*", "5", "6", "/", "-"]
    );
}

#[test]
fn evaluation_gives_the_same_value_each_time() {
    let program = parse("puts 1 / 3 + 2 / 7").unwrap();
    let first = Interpreter::new().interpret(program.clone(), &floats());
    let second = Interpreter::new().interpret(program, &floats());
    assert_eq!(first, second);
}

#[test]
fn a_program_built_by_hand_runs() {
    let program = Program {
        statements: vec![
            Statement::Puts(binary(literal("1"), BinaryOperator::Add, literal("2"))),
            Statement::Puts(literal("4")),
        ],
    };
    assert_eq!(Interpreter::new().interpret(program, &floats()), vec![3.0, 4.0]);
}

#[test]
fn exact_integers_as_values() {
    let integers = Arithmetic {
        number: |decimal: &Decimal| {
            std::str::from_utf8(decimal.as_bytes()).unwrap().parse::<i64>().unwrap()
        },
        add: |left: i64, right: i64| left + right,
        subtract: |left: i64, right: i64| left - right,
        multiply: |left: i64, right: i64| left * right,
        divide: |left: i64, right: i64| left / right,
    };
    let program = parse("puts 7 * (6 - 2) + 1\nputs 9 / 2").unwrap();
    assert_eq!(Interpreter::new().interpret(program, &integers), vec![29, 4]);
}
