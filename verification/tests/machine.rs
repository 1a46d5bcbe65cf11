use rustack::element::{Block, Element, NativeOperation};
use rustack::errors::{ArithmeticError, Error, EvalError, Kind, ParseError};
use rustack::parser::Parser;
use rustack::stack::Stack;
use rustack::virtual_machine::{parse_batch, VirtualMachine};

fn create_block(tokens: Vec<Element>) -> Block {
    Block::from_vec(tokens)
}

fn run_lines(src: &str) -> Stack {
    let mut stack = Stack::new();
    let mut parser = Parser::new();
    for line in src.lines() {
        for element in parser.parse(String::from(line)).unwrap() {
            stack.evaluate(element).unwrap();
        }
    }
    stack
}

fn run_expecting_error(src: &str) -> EvalError {
    let mut stack = Stack::new();
    let mut parser = Parser::new();
    for line in src.lines() {
        for element in parser.parse(String::from(line)).unwrap() {
            if let Err(e) = stack.evaluate(element) {
                return e;
            }
        }
    }
    panic!("no evaluation error");
}

#[test]
fn test_add() {
    let mut stack = Stack::new();
    stack.evaluate(Element::Number(45)).unwrap();
    stack.evaluate(Element::Number(55)).unwrap();

    stack.evaluate(Element::Operation("+".to_string())).unwrap();

    assert_eq!(stack.list()[0], Element::Number(100));
}

#[test]
fn test_process() {
    let stack = run_lines("1 2 + { 3 4 }");

    assert_eq!(
        *stack.list(),
        vec![
            Element::Number(3),
            Element::Block(create_block(vec![Element::Number(3), Element::Number(4)]))
        ]
    )
}

#[test]
fn test_if_true() {
    let stack = run_lines("{ 1 -1 + } { 100 } { -100 } if");

    assert_eq!(*stack.list(), vec![Element::Number(-100)])
}

#[test]
fn test_if_false() {
    let stack = run_lines("{ 1 1 + } { 100 } { -100 } if");

    assert_eq!(*stack.list(), vec![Element::Number(100)])
}

#[test]
fn test_var() {
    let stack = run_lines("/x 10 def /y 20 def x y *");

    assert_eq!(*stack.list(), vec![Element::Number(200)]);
}

#[test]
fn test_var_if() {
    let stack = run_lines("/x 10 def /y 20 def { x y < } { x } { y } if");

    assert_eq!(*stack.list(), vec![Element::Number(10)]);
}

#[test]
fn stack_test_multiline() {
    let lines = "\n/x 10 def\n/y 20 def\n\n{ x y < }\n{ x }\n{ y }\nif\n";
    let stack = run_lines(lines);

    assert_eq!(*stack.list(), vec![Element::Number(10)]);
}

#[test]
fn test_function() {
    let lines = "\n/double { 2 * } def\n10 double\n";
    let stack = run_lines(lines);

    assert_eq!(*stack.list(), vec![Element::Number(20)]);
}

#[test]
fn test_for() {
    let stack = run_lines("/x 0 def 1 100 { /x x 1 + def } for x");

    assert_eq!(*stack.list(), vec![Element::Number(100)]);
}

#[test]
fn test_while() {
    let stack = run_lines("/x 0 def { x 3 < } { x 1 + /x exch def } while x");

    assert_eq!(*stack.list(), vec![Element::Number(3)]);
}

#[test]
fn arithmetic_exact_values() {
    assert_eq!(*run_lines("1 2 +").list(), vec![Element::Number(3)]);
    assert_eq!(*run_lines("7 3 -").list(), vec![Element::Number(4)]);
    assert_eq!(*run_lines("6 7 *").list(), vec![Element::Number(42)]);
    assert_eq!(*run_lines("7 2 /").list(), vec![Element::Number(3)]);
    // division truncates toward zero
    assert_eq!(*run_lines("-7 2 /").list(), vec![Element::Number(-3)]);
    assert_eq!(*run_lines("1 2 <").list(), vec![Element::Number(1)]);
    assert_eq!(*run_lines("2 1 <").list(), vec![Element::Number(0)]);
}

#[test]
fn arithmetic_wraps_around() {
    assert_eq!(
        *run_lines("2147483647 1 +").list(),
        vec![Element::Number(i32::MIN)]
    );
    assert_eq!(
        *run_lines("-2147483648 -1 /").list(),
        vec![Element::Number(i32::MIN)]
    );
}

#[test]
fn divide_by_zero_fails() {
    assert_eq!(
        run_expecting_error("10 0 /"),
        EvalError::ArithmeticError(ArithmeticError::DivideByZero)
    );
}

#[test]
fn underflow_leaves_stack_empty() {
    let mut stack = Stack::new();
    let result = stack.evaluate(Element::Operation("+".to_string()));

    assert_eq!(result, Err(EvalError::StackUnderflow));
    assert_eq!(*stack.list(), vec![]);
}

#[test]
fn undefined_operation_reports_name() {
    assert_eq!(
        run_expecting_error("nope"),
        EvalError::UndefinedOperation("nope".to_string())
    );
}

#[test]
fn type_mismatch_reports_kinds() {
    assert_eq!(
        run_expecting_error("1 2 3 if"),
        EvalError::TypeError {
            expected: Kind::Block,
            actual: Kind::Number
        }
    );
}

#[test]
fn native_operation_value_is_invalid() {
    let mut stack = Stack::new();
    let result = stack.evaluate(Element::NativeOperation(NativeOperation::Add));

    assert_eq!(result, Err(EvalError::InvalidElement));
}

#[test]
fn stack_shuffles() {
    assert_eq!(
        *run_lines("1 dup").list(),
        vec![Element::Number(1), Element::Number(1)]
    );
    assert_eq!(
        *run_lines("1 2 exch").list(),
        vec![Element::Number(2), Element::Number(1)]
    );
    assert_eq!(*run_lines("1 2 pop").list(), vec![Element::Number(1)]);
    assert_eq!(
        *run_lines("1 2 3 1 index").list(),
        vec![
            Element::Number(1),
            Element::Number(2),
            Element::Number(3),
            Element::Number(2)
        ]
    );
}

#[test]
fn puts_appends_outputs() {
    let stack = run_lines("1 puts 2 3 + puts");

    assert_eq!(*stack.outputs(), vec![1, 5]);
    assert_eq!(*stack.list(), vec![]);
}

#[test]
fn function_sees_caller_values() {
    let stack = run_lines("/x 10 def /double { 2 * } def 10 x double");

    assert_eq!(
        *stack.list(),
        vec![Element::Number(10), Element::Number(20)]
    );
}

#[test]
fn redefinition_wins_for_later_calls() {
    let stack = run_lines("/d { 2 * } def /d { 3 * } def 5 d");

    assert_eq!(*stack.list(), vec![Element::Number(15)]);
}

#[test]
fn captured_block_resolves_at_call_time() {
    // g names d before d exists; the name is looked up only when g runs
    let stack = run_lines("/g { d } def /d { 4 * } def 5 g");
    assert_eq!(*stack.list(), vec![Element::Number(20)]);

    // and a redefinition of d reaches calls made through the older g
    let stack = run_lines("/d { 2 * } def /g { d } def /d { 3 * } def 5 g");
    assert_eq!(*stack.list(), vec![Element::Number(15)]);
}

#[test]
fn local_definition_does_not_leak() {
    let stack = run_lines("/x 1 def /f { /x 99 def x } def f x");

    // inside f the local x is 99; after f returns, x is 1 again
    assert_eq!(
        *stack.list(),
        vec![Element::Number(99), Element::Number(1)]
    );
}

#[test]
fn machine_survives_an_error() {
    let mut machine = VirtualMachine::new();
    assert_eq!(
        machine.evaluate(Element::Operation("+".to_string())),
        Err(EvalError::StackUnderflow)
    );
    machine.evaluate(Element::Number(2)).unwrap();
    machine.evaluate(Element::Number(3)).unwrap();
    machine.evaluate(Element::Operation("*".to_string())).unwrap();
    assert_eq!(*machine.stack().list(), vec![Element::Number(6)]);
}

#[test]
fn element_renders_as_text() {
    assert_eq!(Element::Number(0).to_string(), "0");
    assert_eq!(Element::Number(-12).to_string(), "-12");
    assert_eq!(Element::Number(2147483647).to_string(), "2147483647");
    assert_eq!(Element::Number(i32::MIN).to_string(), "-2147483648");
    assert_eq!(Element::Operation("+".to_string()).to_string(), "+");
    assert_eq!(Element::Symbol("x".to_string()).to_string(), "x");
    assert_eq!(Element::Block(create_block(vec![])).to_string(), "<Block>");
    assert_eq!(
        Element::NativeOperation(NativeOperation::Add).to_string(),
        "<NativeOp>"
    );
}

#[test]
fn parse_batch_collects_outputs() {
    let lines = vec![
        String::from("/x 0 def"),
        String::from("1 100 { /x x 1 + def } for"),
        String::from("x puts"),
    ];

    assert_eq!(parse_batch(lines), Ok(vec![100]));
}

#[test]
fn parse_batch_reports_first_error() {
    assert_eq!(
        parse_batch(vec![String::from("1 }")]),
        Err(Error::Parse(ParseError::UnmatchedCloseBrace))
    );
    assert_eq!(
        parse_batch(vec![String::from("1 0 /")]),
        Err(Error::Eval(EvalError::ArithmeticError(
            ArithmeticError::DivideByZero
        )))
    );
}
