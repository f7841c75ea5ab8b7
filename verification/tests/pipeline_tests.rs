use toylang::compile;
use toylang::lexer::{LexError, Token};
use toylang::parser::ParseError;
use toylang::semantic::SemanticError;
use toylang::CompileError;

#[test]
fn compiling_twice_yields_identical_output() {
    let input = "fn mix(a, b, c) { (a + b) * c - 12 / a }";
    let first = compile(input).unwrap();
    let second = compile(input).unwrap();
    assert_eq!(format!("{:?}", first), format!("{:?}", second));
}

#[test]
fn failing_twice_yields_the_identical_error() {
    let input = "fn f(x) { x + y }";
    let first = compile(input).unwrap_err();
    let second = compile(input).unwrap_err();
    assert_eq!(format!("{:?}", first), format!("{:?}", second));
}

#[test]
fn lex_failure_aborts_the_pipeline() {
    match compile("fn f() { 1 ? 2 }") {
        Err(CompileError::Lex(LexError::UnexpectedCharacter(c, _))) => assert_eq!(c, '?'),
        other => panic!("expected a lexing failure, got {:?}", other),
    }
}

#[test]
fn parse_failure_aborts_the_pipeline() {
    match compile("fn f( { 1 }") {
        Err(CompileError::Parse(ParseError::UnexpectedToken { expected, found })) => {
            assert_eq!(expected, Token::RParen);
            assert_eq!(found, Token::LBrace);
        }
        other => panic!("expected a parsing failure, got {:?}", other),
    }
}

#[test]
fn binding_failure_aborts_the_pipeline() {
    match compile("fn f(x) { x + y }") {
        Err(CompileError::Semantic(SemanticError::UndefinedVariable(name))) => {
            assert_eq!(name, "y")
        }
        other => panic!("expected a binding failure, got {:?}", other),
    }
}

#[test]
fn successful_compilation_returns_the_parsed_function() {
    let (f, ops) = compile("fn add(a, b) { a + b }").unwrap();
    assert_eq!(f.name, "add");
    assert_eq!(f.params.len(), 2);
    assert_eq!(ops.len(), 4);
}
