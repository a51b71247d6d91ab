use calculator::eval::{EvalError, Evaluator, Operation};
use calculator::lex::radix::Node as Trie;
use calculator::lex::{Lexer, Op};
use calculator::parse::ast::{Binary, Node, Unary};
use calculator::{calculate, Failure};

type Function = Box<dyn Fn(Vec<f64>) -> f64>;

fn arithmetic(operation: Operation<f64>) -> f64 {
    match operation {
        Operation::Constant(text) => text.parse::<f64>().unwrap_or(f64::NAN),
        Operation::Unary(Unary::Pos, x) => x,
        Operation::Unary(Unary::Neg, x) => -x,
        Operation::Binary(Binary::Add, x, y) => x + y,
        Operation::Binary(Binary::Sub, x, y) => x - y,
        Operation::Binary(Binary::Mul, x, y) => x * y,
        Operation::Binary(Binary::Div, x, y) => x / y,
        Operation::Binary(Binary::Pow, x, y) => x.powf(y),
    }
}

fn evaluator() -> Evaluator<f64, fn(Operation<f64>) -> f64, Function> {
    let five: Function = Box::new(|_: Vec<f64>| 5f64);
    let sum: Function = Box::new(|args: Vec<f64>| args.iter().sum());
    let count: Function = Box::new(|args: Vec<f64>| args.len() as f64);
    let first: Function = Box::new(|args: Vec<f64>| args[0] - args[1]);
    Evaluator::new(arithmetic as fn(Operation<f64>) -> f64)
        .names(vec![
            ("pi".to_string(), std::f64::consts::PI),
            ("x".to_string(), 1.5),
        ])
        .functions(vec![
            ("five".to_string(), five),
            ("sum".to_string(), sum),
            ("count".to_string(), count),
            ("minus".to_string(), first),
        ])
}

fn run(text: &str) -> Result<Vec<f64>, Failure> {
    calculate(&mut Lexer::new(text), &evaluator())
}

fn values(text: &str) -> Vec<f64> {
    run(text).unwrap()
}

fn value(text: &str) -> f64 {
    let all = values(text);
    assert_eq!(all.len(), 1);
    all[0]
}

fn eval_error(text: &str) -> EvalError {
    match run(text) {
        Err(Failure::Eval(e)) => e,
        other => panic!("expected an evaluation error, got {:?}", other),
    }
}

#[test]
fn precedence_shows_in_the_value() {
    assert_eq!(value("1+2*3"), 7.0);
    assert_eq!(value("(1+2)*3"), 9.0);
    assert_eq!(value("2**3**2"), 512.0);
}

#[test]
fn sign_applies_to_the_whole_power() {
    assert_eq!(value("-2**2"), -4.0);
    assert_eq!(value("(-2)**2"), 4.0);
    assert_eq!(value("+3"), 3.0);
    assert_eq!(value("2**-1"), 0.5);
}

#[test]
fn each_operator_computes_its_formula() {
    assert_eq!(value("7+2"), 9.0);
    assert_eq!(value("7-2"), 5.0);
    assert_eq!(value("7*2"), 14.0);
    assert_eq!(value("7/2"), 3.5);
    assert_eq!(value("7**2"), 49.0);
    assert_eq!(value("10-4-3"), 3.0);
    assert_eq!(value("16/4/2"), 2.0);
}

#[test]
fn names_and_calls_are_told_apart() {
    assert_eq!(value("pi"), std::f64::consts::PI);
    assert_eq!(value("five()"), 5.0);
    assert_eq!(value("sum(1,2,3)"), 6.0);
    assert_eq!(value("sum()"), 0.0);
    assert_eq!(value("count(x, x, pi, 4)"), 4.0);
    assert_eq!(value("sum(five(), 2*x)"), 8.0);
}

#[test]
fn arguments_arrive_in_order() {
    assert_eq!(value("minus(10, 4)"), 6.0);
    assert_eq!(value("minus(4, 10)"), -6.0);
}

#[test]
fn unknown_name_fails() {
    assert_eq!(eval_error("ghost"), EvalError::NameNotFound);
    assert_eq!(eval_error("1+ghost*2"), EvalError::NameNotFound);
    assert_eq!(eval_error("five"), EvalError::NameNotFound);
}

#[test]
fn unknown_function_fails() {
    assert_eq!(eval_error("ghost()"), EvalError::FunctionNotFound);
    assert_eq!(eval_error("pi()"), EvalError::FunctionNotFound);
    assert_eq!(eval_error("sum(1, ghost(2))"), EvalError::FunctionNotFound);
}

#[test]
fn first_failure_from_the_left_wins() {
    assert_eq!(eval_error("ghost + spirit()"), EvalError::NameNotFound);
    assert_eq!(eval_error("spirit() + ghost"), EvalError::FunctionNotFound);
    assert_eq!(eval_error("spirit(ghost)"), EvalError::NameNotFound);
    assert_eq!(eval_error("sum(spirit(), ghost)"), EvalError::FunctionNotFound);
}

#[test]
fn blanks_do_not_change_the_value() {
    assert_eq!(value("1+2"), 3.0);
    assert_eq!(value("1 + 2"), 3.0);
    assert_eq!(value("1\n+\t2"), 3.0);
}

#[test]
fn statements_are_evaluated_in_order() {
    assert_eq!(values("1 2*3 five()"), vec![1.0, 6.0, 5.0]);
    assert_eq!(values(""), Vec::<f64>::new());
    assert_eq!(values("1 -2"), vec![-1.0]);
}

#[test]
fn one_failing_statement_fails_the_batch() {
    assert_eq!(eval_error("1 ghost 3"), EvalError::NameNotFound);
}

#[test]
fn division_by_zero_is_infinite() {
    assert_eq!(value("1/0"), f64::INFINITY);
    assert_eq!(value("-1/0"), f64::NEG_INFINITY);
    assert!(value("0/0").is_nan());
}

#[test]
fn negative_base_with_fractional_exponent_is_not_a_number() {
    assert!(value("(-8)**(1/3)").is_nan());
    assert!(value("(-8)**(1/3) + 1").is_nan());
}

#[test]
fn lexing_and_parsing_failures_are_told_apart() {
    match run("(1") {
        Err(Failure::Parse(e)) => assert_eq!(e, calculator::parse::ParseError::MissingParen),
        other => panic!("expected a parse error, got {:?}", other),
    }
    match run("1 $") {
        Err(Failure::Parse(e)) => assert_eq!(e, calculator::parse::ParseError::UnexpectedToken),
        other => panic!("expected a parse error, got {:?}", other),
    }
}

#[test]
fn evaluate_walks_a_tree_built_by_hand() {
    let tree = Node::BinOp(
        Binary::Sub,
        Box::new(Node::Call(
            "sum".to_string(),
            vec![Node::Const("1.5".to_string()), Node::Id("x".to_string())],
        )),
        Box::new(Node::UnOp(Unary::Neg, Box::new(Node::Const("2".to_string())))),
    );
    assert_eq!(evaluator().evaluate(&tree), Ok(5.0));
}

#[test]
fn last_binding_of_a_name_counts() {
    let five: Function = Box::new(|_: Vec<f64>| 5f64);
    let six: Function = Box::new(|_: Vec<f64>| 6f64);
    let evaluator = Evaluator::new(arithmetic as fn(Operation<f64>) -> f64)
        .names(vec![("a".to_string(), 1.0), ("b".to_string(), 2.0), ("a".to_string(), 3.0)])
        .functions(vec![("f".to_string(), five), ("f".to_string(), six)]);
    assert_eq!(
        calculate(&mut Lexer::new("a b f()"), &evaluator).unwrap(),
        vec![3.0, 2.0, 6.0]
    );
}

#[test]
fn builders_replace_the_environment() {
    let none: Vec<(String, Function)> = Vec::new();
    let evaluator = Evaluator::new(arithmetic as fn(Operation<f64>) -> f64)
        .names(vec![("a".to_string(), 1.0)])
        .functions(none)
        .names(vec![("b".to_string(), 2.0)]);
    assert_eq!(
        evaluator.evaluate(&Node::Id("a".to_string())),
        Err(EvalError::NameNotFound)
    );
    assert_eq!(evaluator.evaluate(&Node::Id("b".to_string())), Ok(2.0));
}

#[test]
fn empty_environment_binds_nothing() {
    let evaluator: Evaluator<f64, fn(Operation<f64>) -> f64, Function> =
        Evaluator::new(arithmetic as fn(Operation<f64>) -> f64);
    assert_eq!(
        evaluator.evaluate(&Node::Id("pi".to_string())),
        Err(EvalError::NameNotFound)
    );
    assert_eq!(
        evaluator.evaluate(&Node::Call("five".to_string(), vec![])),
        Err(EvalError::FunctionNotFound)
    );
    assert_eq!(evaluator.evaluate(&Node::Const("2.5".to_string())), Ok(2.5));
}

#[test]
fn other_number_types_work_as_well() {
    let count = |operation: Operation<i64>| -> i64 {
        match operation {
            Operation::Constant(text) => text.parse::<i64>().unwrap_or(0),
            Operation::Unary(Unary::Pos, x) => x,
            Operation::Unary(Unary::Neg, x) => -x,
            Operation::Binary(Binary::Add, x, y) => x + y,
            Operation::Binary(Binary::Sub, x, y) => x - y,
            Operation::Binary(Binary::Mul, x, y) => x * y,
            Operation::Binary(Binary::Div, x, y) => x / y,
            Operation::Binary(Binary::Pow, x, y) => x.pow(y as u32),
        }
    };
    let none: Vec<(String, fn(Vec<i64>) -> i64)> = Vec::new();
    let evaluator = Evaluator::new(count).functions(none);
    assert_eq!(
        calculate(&mut Lexer::new("7/2 2**10 (-3*4)"), &evaluator).unwrap(),
        vec![3, 1024, -12]
    );
}

#[test]
fn lexing_failure_ends_the_calculation() {
    let mut table: Trie<Op> = Trie::new();
    table.insert("+", Op::Add);
    let mut lexer = Lexer::with_operators("1+2", table);
    assert_eq!(calculate(&mut lexer, &evaluator()).unwrap(), vec![3.0]);
    let mut table: Trie<Op> = Trie::new();
    table.insert("+", Op::Add);
    let mut lexer = Lexer::with_operators("1+2 3*4", table);
    match calculate(&mut lexer, &evaluator()) {
        Err(Failure::Lex(e)) => assert_eq!(e.message(), "encountered an incomplete operator"),
        other => panic!("expected a lexing error, got {:?}", other),
    }
}

#[test]
fn failures_tell_what_went_wrong() {
    assert_eq!(run("ghost").unwrap_err().message(), "name not found");
    assert_eq!(run("ghost()").unwrap_err().message(), "function not found");
    assert_eq!(run("(1").unwrap_err().message(), "expected closing parenthesis");
    assert_eq!(run("1+").unwrap_err().message(), "unexpected end of input");
    assert_eq!(run("1+)").unwrap_err().message(), "unexpected lexeme");
    assert_eq!(run("1.2.3").unwrap_err().message(), "invalid numeric constant");
}

#[test]
fn calculation_goes_on_from_where_the_lexer_stands() {
    let mut lexer = Lexer::new("1+2");
    assert_eq!(calculate(&mut lexer, &evaluator()).unwrap(), vec![3.0]);
    assert_eq!(calculate(&mut lexer, &evaluator()).unwrap(), Vec::<f64>::new());
}

#[test]
fn long_sum_adds_up() {
    let text = "1+".repeat(500) + "1";
    assert_eq!(value(&text), 501.0);
}

#[test]
fn constant_text_goes_to_the_arithmetic_as_written() {
    assert_eq!(value("007"), 7.0);
    assert_eq!(value("5."), 5.0);
    assert_eq!(value("0.125"), 0.125);
    assert_eq!(value("2.5*4"), 10.0);
}
