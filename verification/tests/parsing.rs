use rustack::element::{Block, Element};
use rustack::errors::ParseError;
use rustack::parser::Parser;

fn create_block(tokens: Vec<Element>) -> Block {
    Block::from_vec(tokens)
}

fn parse_lines(src: &str) -> Vec<Element> {
    let mut parser = Parser::new();
    let mut actual = Vec::new();
    for line in src.lines() {
        for element in parser.parse(String::from(line)).unwrap() {
            actual.push(element);
        }
    }
    actual
}

#[test]
fn block_test_block() {
    let mut parser = Parser::new();
    let mut iter = parser.parse(String::from("{ 3 4 }")).unwrap().into_iter();
    let actual = iter.next().unwrap();

    assert_eq!(
        actual,
        Element::Block(create_block(vec![Element::Number(3), Element::Number(4)]))
    );
}

#[test]
fn block_test_group2() {
    let mut parser = Parser::new();
    let actual: Vec<Element> = parser.parse(String::from("{ { 3 } 4 }")).unwrap();

    assert_eq!(
        actual,
        vec![Element::Block(create_block(vec![
            Element::Block(create_block(vec![Element::Number(3)])),
            Element::Number(4)
        ]))]
    );
}

#[test]
fn block_test_multiline() {
    let lines = "\n{ { 3\n{ 5\n}\n}\n}\n";
    let actual = parse_lines(lines);

    assert_eq!(
        actual,
        vec![Element::Block(create_block(vec![Element::Block(
            create_block(vec![
                Element::Number(3),
                Element::Block(create_block(vec![Element::Number(5)]))
            ])
        )]))]
    );
}

#[test]
fn parser_test_block() {
    let mut parser = Parser::new();
    let mut iter = parser.parse(String::from("{ 3 4 }")).unwrap().into_iter();
    let actual = iter.next().unwrap();

    assert_eq!(
        actual,
        Element::Block(create_block(vec![Element::Number(3), Element::Number(4)]))
    );
}

#[test]
fn parser_test_group() {
    let mut parser = Parser::new();
    let actual: Vec<Element> = parser.parse(String::from("1 2 + { 3 4 }")).unwrap();

    assert_eq!(
        actual,
        vec![
            Element::Number(1),
            Element::Number(2),
            Element::Operation("+".to_string()),
            Element::Block(create_block(vec![Element::Number(3), Element::Number(4)]))
        ]
    );
}

#[test]
fn parser_test_group2() {
    let mut parser = Parser::new();
    let actual: Vec<Element> = parser.parse(String::from("{ { 3 } 4 }")).unwrap();

    assert_eq!(
        actual,
        vec![Element::Block(create_block(vec![
            Element::Block(create_block(vec![Element::Number(3)])),
            Element::Number(4)
        ]))]
    );
}

#[test]
fn parser_test_multiline() {
    let lines = "\n{ { 3\n{ 5\n}\n}\n}\n";
    let actual = parse_lines(lines);

    assert_eq!(
        actual,
        vec![Element::Block(create_block(vec![Element::Block(
            create_block(vec![
                Element::Number(3),
                Element::Block(create_block(vec![Element::Number(5)]))
            ])
        )]))]
    );
}

#[test]
fn split_lines_match_single_line() {
    // the same bracket sequence parsed whole and parsed across
    // arbitrary line boundaries yields the same element tree
    let whole = parse_lines("{ { 3 } 4 }");
    let split = parse_lines("{ { 3\n}\n4 }");

    assert_eq!(whole, split);
    assert_eq!(
        whole,
        vec![Element::Block(create_block(vec![
            Element::Block(create_block(vec![Element::Number(3)])),
            Element::Number(4)
        ]))]
    );
}

#[test]
fn unmatched_close_brace_fails() {
    let mut parser = Parser::new();
    assert_eq!(
        parser.parse(String::from("}")).err(),
        Some(ParseError::UnmatchedCloseBrace)
    );
    // a later well-formed line parses normally: no block is left open
    assert_eq!(
        parser.parse(String::from("7")).unwrap(),
        vec![Element::Number(7)]
    );
}

#[test]
fn classify_words() {
    assert_eq!(Element::parse("12"), Some(Element::Number(12)));
    assert_eq!(Element::parse("-12"), Some(Element::Number(-12)));
    assert_eq!(Element::parse("+5"), Some(Element::Number(5)));
    assert_eq!(Element::parse("-2147483648"), Some(Element::Number(i32::MIN)));
    assert_eq!(Element::parse(""), None);
    assert_eq!(Element::parse("/x"), Some(Element::Symbol("x".to_string())));
    assert_eq!(Element::parse("x"), Some(Element::Operation("x".to_string())));
    // the single numeric kind is the 32-bit integer: everything else
    // reads as an operation word
    assert_eq!(
        Element::parse("3.5"),
        Some(Element::Operation("3.5".to_string()))
    );
    assert_eq!(
        Element::parse("2147483648"),
        Some(Element::Operation("2147483648".to_string()))
    );
    assert_eq!(Element::parse("-"), Some(Element::Operation("-".to_string())));
    assert_eq!(Element::parse("/"), Some(Element::Operation("/".to_string())));
}

#[test]
fn empty_and_spaced_lines() {
    let mut parser = Parser::new();
    assert_eq!(parser.parse(String::from("")).unwrap(), vec![]);
    assert_eq!(
        parser.parse(String::from("  1   2 ")).unwrap(),
        vec![Element::Number(1), Element::Number(2)]
    );
}
