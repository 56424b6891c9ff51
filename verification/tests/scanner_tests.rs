use lox_scanner::scanner::Scanner;
use lox_scanner::token::{Literal, TokenType};

#[test]
fn scan_tokens_with_error_test() {
    let source = "var $test = 1234".to_string();

    let mut scanner = Scanner::new(&source);
    let errors = scanner.scan_tokens();

    assert_eq!(errors.len(), 1);
}

#[test]
fn scan_tokens_test() {
    let source = "
        var test = 1234;
        if (test <= 10)
        {
            test = test + 10;
        }
        "
    .to_string();

    let expected = [
        TokenType::Var,
        TokenType::Identifier,
        TokenType::Equal,
        TokenType::Number,
        TokenType::SemiColon,
        TokenType::If,
        TokenType::LeftParen,
        TokenType::Identifier,
        TokenType::LessEqual,
        TokenType::Number,
        TokenType::RightParen,
        TokenType::LeftBrace,
        TokenType::Identifier,
        TokenType::Equal,
        TokenType::Identifier,
        TokenType::Plus,
        TokenType::Number,
        TokenType::SemiColon,
        TokenType::RightBrace,
        TokenType::EOF,
    ];
    let mut scanner = Scanner::new(&source);

    assert!(!scanner.is_at_end());

    let errors = scanner.scan_tokens();

    assert_eq!(errors.len(), 0);
    // 19 tokens in source string + 1 for EOF
    assert_eq!(scanner.tokens.len(), expected.len());
    // 2 extra lines for empty first/last line in string
    assert_eq!(scanner.line, 7);

    let scanner_tokens_mapped: Vec<TokenType> =
        scanner.tokens.iter().map(|t| t.token_type).collect();

    assert_eq!(scanner_tokens_mapped, expected);

    assert!(scanner.is_at_end());
}

#[test]
fn peek_and_advance_test() {
    let source = "var test = 1234".to_string();
    let mut scanner = Scanner::new(&source);
    let source_bytes = source.as_bytes();

    for (index, char) in source.chars().enumerate() {
        if index < source.len() - 1 {
            let b: u8 = source_bytes[index + 1];
            assert_eq!(scanner.peek_next(), b as char);
        }

        assert_eq!(scanner.peek(), char);
        scanner.advance();
    }
}

#[test]
fn create_string_test() {
    let source = "\"Hello \n World\"".to_string();
    let mut scanner = Scanner::new(&source);

    // drop the opening quote first, as the dispatch would have done
    scanner.advance();
    scanner.string();

    assert_eq!(scanner.tokens.len(), 1);

    let string = &scanner.tokens[0];
    assert_eq!(string.token_type, TokenType::String);
    assert_eq!(
        string.literal,
        Some(Literal::String("Hello \n World".to_string()))
    );
    assert_eq!(string.line, 2);
}

#[test]
fn create_double_test() {
    let source = "11.234".to_string();
    let mut scanner = Scanner::new(&source);
    scanner.number();

    assert_eq!(scanner.tokens.len(), 1);

    let number = &scanner.tokens[0];
    assert_eq!(number.token_type, TokenType::Number);
    match &number.literal {
        Some(Literal::Number(text)) => {
            assert_eq!(text, "11.234");
            assert_eq!(text.parse::<f64>().unwrap(), 11.234);
        }
        other => panic!("expected a number literal, got {:?}", other),
    }
    assert_eq!(number.line, 1);
}

#[test]
fn create_number_test() {
    let source = "10".to_string();
    let mut scanner = Scanner::new(&source);
    scanner.number();

    assert_eq!(scanner.tokens.len(), 1);

    let number = &scanner.tokens[0];
    assert_eq!(number.token_type, TokenType::Number);
    match &number.literal {
        Some(Literal::Number(text)) => {
            assert_eq!(text, "10");
            assert_eq!(text.parse::<f64>().unwrap(), 10.0);
        }
        other => panic!("expected a number literal, got {:?}", other),
    }
    assert_eq!(number.line, 1);
}

#[test]
fn create_keyword_test() {
    let source = "var".to_string();
    let mut scanner = Scanner::new(&source);
    scanner.identifier();

    assert_eq!(scanner.tokens.len(), 1);

    let keyword = &scanner.tokens[0];
    assert_eq!(keyword.token_type, TokenType::Var);
    assert_eq!(
        keyword.literal,
        Some(Literal::Identifier("var".to_string()))
    );
    assert_eq!(keyword.line, 1);
}

#[test]
fn create_identifier_test() {
    let source = "hello".to_string();
    let mut scanner = Scanner::new(&source);
    scanner.identifier();

    assert_eq!(scanner.tokens.len(), 1);

    let identifier = &scanner.tokens[0];
    assert_eq!(identifier.token_type, TokenType::Identifier);
    assert_eq!(identifier.literal, None);
    assert_eq!(identifier.line, 1);
}

#[test]
fn is_at_end_test() {
    let source = "Hello world".to_string();
    let mut scanner = Scanner::new(&source);

    scanner.current = source.len();
    assert!(scanner.is_at_end());
}

#[test]
fn is_not_at_end() {
    let source = "Hello world".to_string();
    let mut scanner = Scanner::new(&source);
    assert!(!scanner.is_at_end());

    scanner.current = source.len() - 1;
    assert!(!scanner.is_at_end());
}
