use toylang::lexer::{LexError, Lexer, Token};

fn lex_all(input: &str) -> Vec<Token> {
    let mut lexer = Lexer::new(input);
    let mut tokens = Vec::new();
    loop {
        match lexer.next_token() {
            Ok(Token::EOF) => break,
            Ok(t) => tokens.push(t),
            Err(e) => panic!("unexpected lex error: {:?}", e),
        }
    }
    tokens
}

#[test]
fn lexes_function_definition() {
    let tokens = lex_all("fn add(a, b) { a + b }");
    let expected = vec![
        Token::Fn,
        Token::Identifier("add".to_string()),
        Token::LParen,
        Token::Identifier("a".to_string()),
        Token::Comma,
        Token::Identifier("b".to_string()),
        Token::RParen,
        Token::LBrace,
        Token::Identifier("a".to_string()),
        Token::Plus,
        Token::Identifier("b".to_string()),
        Token::RBrace,
    ];
    assert_eq!(tokens, expected);
}

#[test]
fn lexes_all_operators_and_punctuation() {
    let tokens = lex_all("+ - * / = ; ( ) { } ,");
    let expected = vec![
        Token::Plus,
        Token::Minus,
        Token::Star,
        Token::Slash,
        Token::Equal,
        Token::Semicolon,
        Token::LParen,
        Token::RParen,
        Token::LBrace,
        Token::RBrace,
        Token::Comma,
    ];
    assert_eq!(tokens, expected);
}

#[test]
fn lexes_keywords_and_identifiers() {
    let tokens = lex_all("fn let foo x1");
    let expected = vec![
        Token::Fn,
        Token::Let,
        Token::Identifier("foo".to_string()),
        Token::Identifier("x1".to_string()),
    ];
    assert_eq!(tokens, expected);
}

#[test]
fn lexes_numbers() {
    let tokens = lex_all("42 0 2147483647");
    let expected = vec![Token::Number(42), Token::Number(0), Token::Number(2147483647)];
    assert_eq!(tokens, expected);
}

#[test]
fn eof_is_idempotent() {
    let mut lexer = Lexer::new("x");
    assert_eq!(lexer.next_token().unwrap(), Token::Identifier("x".to_string()));
    assert_eq!(lexer.next_token().unwrap(), Token::EOF);
    assert_eq!(lexer.next_token().unwrap(), Token::EOF);
    assert_eq!(lexer.next_token().unwrap(), Token::EOF);
}

#[test]
fn unexpected_character_is_reported_with_position() {
    let mut lexer = Lexer::new("a @");
    assert_eq!(lexer.next_token().unwrap(), Token::Identifier("a".to_string()));
    match lexer.next_token() {
        Err(LexError::UnexpectedCharacter(c, p)) => {
            assert_eq!(c, '@');
            assert_eq!(p, 2);
        }
        other => panic!("expected an unexpected-character error, got {:?}", other),
    }
}

#[test]
fn decimal_point_is_a_malformed_number() {
    let mut lexer = Lexer::new("1.5");
    match lexer.next_token() {
        Err(LexError::MalformedNumber(p)) => assert_eq!(p, 0),
        other => panic!("expected a malformed-number error, got {:?}", other),
    }
}

#[test]
fn oversized_number_is_a_malformed_number() {
    let mut lexer = Lexer::new("99999999999999999999");
    match lexer.next_token() {
        Err(LexError::MalformedNumber(p)) => assert_eq!(p, 0),
        other => panic!("expected a malformed-number error, got {:?}", other),
    }
}

fn lexeme_of(t: &Token) -> String {
    match t {
        Token::Fn => "fn".to_string(),
        Token::Let => "let".to_string(),
        Token::Identifier(s) => s.clone(),
        Token::Number(n) => format!("{}", n),
        Token::Plus => "+".to_string(),
        Token::Minus => "-".to_string(),
        Token::Star => "*".to_string(),
        Token::Slash => "/".to_string(),
        Token::Equal => "=".to_string(),
        Token::Semicolon => ";".to_string(),
        Token::LParen => "(".to_string(),
        Token::RParen => ")".to_string(),
        Token::LBrace => "{".to_string(),
        Token::RBrace => "}".to_string(),
        Token::Comma => ",".to_string(),
        Token::EOF => String::new(),
    }
}

#[test]
fn lexemes_reconstruct_the_significant_input() {
    let input = "fn add(a, b) {\n    a + b * 307\n}";
    let tokens = lex_all(input);
    let rebuilt: String = tokens.iter().map(|t| lexeme_of(t)).collect();
    let significant: String = input.chars().filter(|c| !c.is_whitespace()).collect();
    assert_eq!(rebuilt, significant);
}
