use toylang::lexer::{Lexer, Token};
use toylang::parser::{BinOp, Expr, Function, ParseError, Parser};

fn parse(input: &str) -> Result<Function, ParseError> {
    let lexer = Lexer::new(input);
    let mut parser = Parser::new(lexer);
    parser.parse_function()
}

fn num(n: i32) -> Expr {
    Expr::Number(n)
}

fn bin(l: Expr, op: BinOp, r: Expr) -> Expr {
    Expr::Binary(Box::new(l), op, Box::new(r))
}

fn assert_same_shape(actual: &Expr, expected: &Expr) {
    assert_eq!(format!("{:?}", actual), format!("{:?}", expected));
}

#[test]
fn parses_name_and_params() {
    let f = parse("fn add(a, b) { a + b }").unwrap();
    assert_eq!(f.name, "add");
    assert_eq!(f.params, vec!["a".to_string(), "b".to_string()]);
}

#[test]
fn multiplication_binds_tighter_than_addition() {
    let f = parse("fn f() { 2 + 3 * 4 }").unwrap();
    let expected = bin(num(2), BinOp::Add, bin(num(3), BinOp::Mul, num(4)));
    assert_same_shape(&f.body, &expected);
}

#[test]
fn division_binds_tighter_than_subtraction() {
    let f = parse("fn f() { 9 - 8 / 4 }").unwrap();
    let expected = bin(num(9), BinOp::Sub, bin(num(8), BinOp::Div, num(4)));
    assert_same_shape(&f.body, &expected);
}

#[test]
fn multiplication_then_addition_groups_left() {
    let f = parse("fn f() { 2 * 3 + 4 }").unwrap();
    let expected = bin(bin(num(2), BinOp::Mul, num(3)), BinOp::Add, num(4));
    assert_same_shape(&f.body, &expected);
}

#[test]
fn subtraction_is_left_associative() {
    let f = parse("fn f() { 8 - 3 - 2 }").unwrap();
    let expected = bin(bin(num(8), BinOp::Sub, num(3)), BinOp::Sub, num(2));
    assert_same_shape(&f.body, &expected);
}

#[test]
fn division_is_left_associative() {
    let f = parse("fn f() { 16 / 4 / 2 }").unwrap();
    let expected = bin(bin(num(16), BinOp::Div, num(4)), BinOp::Div, num(2));
    assert_same_shape(&f.body, &expected);
}

#[test]
fn parentheses_override_precedence() {
    let f = parse("fn f() { (1 + 2) * 3 }").unwrap();
    let expected = bin(bin(num(1), BinOp::Add, num(2)), BinOp::Mul, num(3));
    assert_same_shape(&f.body, &expected);
}

#[test]
fn zero_parameter_function_parses() {
    let f = parse("fn z() { 42 }").unwrap();
    assert_eq!(f.name, "z");
    assert!(f.params.is_empty());
    assert_same_shape(&f.body, &num(42));
}

#[test]
fn missing_comma_between_params_is_an_unexpected_token() {
    match parse("fn f(a b) { a }") {
        Err(ParseError::UnexpectedToken { expected, found }) => {
            assert_eq!(expected, Token::RParen);
            assert_eq!(found, Token::Identifier("b".to_string()));
        }
        other => panic!("expected an unexpected-token error, got {:?}", other),
    }
}

#[test]
fn missing_name_is_an_expected_identifier() {
    match parse("fn (a) { a }") {
        Err(ParseError::ExpectedIdentifier { found }) => {
            assert_eq!(found, Token::LParen);
        }
        other => panic!("expected an expected-identifier error, got {:?}", other),
    }
}

#[test]
fn stray_operator_in_body_is_an_unexpected_token() {
    match parse("fn f() { + }") {
        Err(ParseError::UnexpectedToken { found, .. }) => {
            assert_eq!(found, Token::Plus);
        }
        other => panic!("expected an unexpected-token error, got {:?}", other),
    }
}

#[test]
fn lex_failure_surfaces_through_the_parser() {
    match parse("fn f() { 1 # 2 }") {
        Err(ParseError::Lex(e)) => {
            assert!(format!("{:?}", e).contains('#'));
        }
        other => panic!("expected a lexing error, got {:?}", other),
    }
}
