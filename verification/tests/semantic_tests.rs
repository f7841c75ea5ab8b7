use toylang::lexer::Lexer;
use toylang::parser::Parser;
use toylang::semantic::{SemanticAnalyzer, SemanticError};

fn analyze(input: &str) -> Result<(), SemanticError> {
    let lexer = Lexer::new(input);
    let mut parser = Parser::new(lexer);
    let f = parser.parse_function().unwrap();
    let mut analyzer = SemanticAnalyzer::new();
    analyzer.analyze_function(&f)
}

#[test]
fn unbound_identifier_is_reported() {
    match analyze("fn f(x) { x + y }") {
        Err(SemanticError::UndefinedVariable(name)) => assert_eq!(name, "y"),
        Ok(()) => panic!("expected an undefined-variable error"),
    }
}

#[test]
fn bound_identifiers_pass() {
    assert!(analyze("fn f(x, y) { x + y }").is_ok());
}

#[test]
fn literal_only_body_passes() {
    assert!(analyze("fn z() { 42 }").is_ok());
}

#[test]
fn first_unbound_identifier_in_traversal_order_is_reported() {
    match analyze("fn f(a) { (q + a) * r }") {
        Err(SemanticError::UndefinedVariable(name)) => assert_eq!(name, "q"),
        Ok(()) => panic!("expected an undefined-variable error"),
    }
}
