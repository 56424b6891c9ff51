use lox_scanner::scanner::{run, Scanner};
use lox_scanner::token::{Literal, Token, TokenType};

fn scan(source: &str) -> (Vec<Token>, usize) {
    let text = source.to_string();
    let mut scanner = Scanner::new(&text);
    let errors = scanner.scan_tokens();
    let n = errors.len();
    let mut tokens = Vec::new();
    tokens.append(&mut scanner.tokens);
    (tokens, n)
}

#[test]
fn empty_input_yields_only_eof() {
    let (tokens, errors) = scan("");
    assert_eq!(tokens.len(), 1);
    assert_eq!(tokens[0].token_type, TokenType::EOF);
    assert_eq!(tokens[0].lexeme, "");
    assert_eq!(tokens[0].line, 1);
    assert_eq!(errors, 0);
}

#[test]
fn last_token_is_always_eof() {
    for source in ["", "var x = 1;", "\"open", "$ % ^", "// only a comment", "1.2.3"] {
        let (tokens, _) = scan(source);
        let last = tokens.last().unwrap();
        assert_eq!(last.token_type, TokenType::EOF);
        assert_eq!(last.lexeme, "");
    }
}

#[test]
fn token_lines_count_preceding_newlines() {
    let (tokens, errors) = scan("a\nb\n c");
    assert_eq!(errors, 0);
    assert_eq!(tokens.len(), 4);
    assert_eq!(tokens[0].line, 1);
    assert_eq!(tokens[1].line, 2);
    assert_eq!(tokens[2].line, 3);
}

#[test]
fn every_keyword_scans_to_its_kind() {
    let table = [
        ("and", TokenType::And),
        ("class", TokenType::Class),
        ("else", TokenType::Else),
        ("false", TokenType::False),
        ("for", TokenType::For),
        ("fun", TokenType::Fun),
        ("if", TokenType::If),
        ("nil", TokenType::Nil),
        ("or", TokenType::Or),
        ("print", TokenType::Print),
        ("return", TokenType::Return),
        ("super", TokenType::Super),
        ("this", TokenType::This),
        ("true", TokenType::True),
        ("var", TokenType::Var),
        ("while", TokenType::While),
    ];
    for (text, kind) in table {
        let (tokens, errors) = scan(text);
        assert_eq!(errors, 0);
        assert_eq!(tokens.len(), 2);
        assert_eq!(tokens[0].token_type, kind);
        assert_eq!(tokens[0].lexeme, text);
        assert_eq!(tokens[0].literal, Some(Literal::Identifier(text.to_string())));
        assert_eq!(tokens[0].line, 1);
    }
}

#[test]
fn non_keyword_runs_are_plain_identifiers() {
    let (tokens, errors) = scan("vars classy _x a1_2 Form");
    assert_eq!(errors, 0);
    assert_eq!(tokens.len(), 6);
    for token in tokens.iter().take(5) {
        assert_eq!(token.token_type, TokenType::Identifier);
        assert_eq!(token.literal, None);
    }
    assert_eq!(tokens[0].lexeme, "vars");
    assert_eq!(tokens[3].lexeme, "a1_2");
}

#[test]
fn lexemes_concatenate_to_source_without_skipped_parts() {
    let source = "var x = (1.5 + y); // trailing note\n\"s\"";
    let (tokens, errors) = scan(source);
    assert_eq!(errors, 0);
    let rebuilt: String = tokens.iter().map(|t| t.lexeme.as_str()).collect();
    assert_eq!(rebuilt, "varx=(1.5+y);\"s\"");
}

#[test]
fn operators_and_punctuation_kinds() {
    let source = "( ) { } , . - + ; * / ! != = == < <= > >=";
    let (tokens, errors) = scan(source);
    assert_eq!(errors, 0);
    let expected = [
        TokenType::LeftParen,
        TokenType::RightParen,
        TokenType::LeftBrace,
        TokenType::RightBrace,
        TokenType::Comma,
        TokenType::Dot,
        TokenType::Minus,
        TokenType::Plus,
        TokenType::SemiColon,
        TokenType::Star,
        TokenType::Slash,
        TokenType::Bang,
        TokenType::BangEqual,
        TokenType::Equal,
        TokenType::EqualEqual,
        TokenType::Less,
        TokenType::LessEqual,
        TokenType::Greater,
        TokenType::GreaterEqual,
        TokenType::EOF,
    ];
    let kinds: Vec<TokenType> = tokens.iter().map(|t| t.token_type).collect();
    assert_eq!(kinds, expected);
}

#[test]
fn comment_is_discarded_to_end_of_line() {
    let (tokens, errors) = scan("// note\nx");
    assert_eq!(errors, 0);
    assert_eq!(tokens.len(), 2);
    assert_eq!(tokens[0].token_type, TokenType::Identifier);
    assert_eq!(tokens[0].lexeme, "x");
    assert_eq!(tokens[0].line, 2);
}

#[test]
fn unterminated_string_keeps_consumed_body() {
    let (tokens, errors) = scan("\"abc");
    assert_eq!(errors, 0);
    assert_eq!(tokens.len(), 2);
    assert_eq!(tokens[0].token_type, TokenType::String);
    assert_eq!(tokens[0].lexeme, "\"abc");
    assert_eq!(tokens[0].literal, Some(Literal::String("abc".to_string())));
}

#[test]
fn tab_is_whitespace() {
    let (tokens, errors) = scan("a\tb");
    assert_eq!(errors, 0);
    assert_eq!(tokens.len(), 3);
    assert_eq!(tokens[0].lexeme, "a");
    assert_eq!(tokens[1].lexeme, "b");
}

#[test]
fn dot_without_following_digit_is_left_alone() {
    let (tokens, errors) = scan("1. 1.2.3");
    assert_eq!(errors, 0);
    let kinds: Vec<TokenType> = tokens.iter().map(|t| t.token_type).collect();
    assert_eq!(
        kinds,
        [
            TokenType::Number,
            TokenType::Dot,
            TokenType::Number,
            TokenType::Dot,
            TokenType::Number,
            TokenType::EOF,
        ]
    );
    assert_eq!(tokens[2].literal, Some(Literal::Number("1.2".to_string())));
}

#[test]
fn unexpected_character_is_recorded_and_scanning_goes_on() {
    let source = "var $test = 1234".to_string();
    let mut scanner = Scanner::new(&source);
    let errors = scanner.scan_tokens();
    assert_eq!(errors.len(), 1);
    assert_eq!(errors[0].line(), 1);
    assert_eq!(errors[0].reason(), "Unexpected Character");
    let kinds: Vec<TokenType> = scanner.tokens.iter().map(|t| t.token_type).collect();
    assert_eq!(
        kinds,
        [
            TokenType::Var,
            TokenType::Identifier,
            TokenType::Equal,
            TokenType::Number,
            TokenType::EOF,
        ]
    );
}

#[test]
fn string_spanning_lines_is_recorded_on_its_closing_line() {
    let (tokens, errors) = scan("\"Hello \n World\"");
    assert_eq!(errors, 0);
    assert_eq!(tokens.len(), 2);
    assert_eq!(tokens[0].token_type, TokenType::String);
    assert_eq!(tokens[0].literal, Some(Literal::String("Hello \n World".to_string())));
    assert_eq!(tokens[0].line, 2);
}

#[test]
fn run_reports_whether_any_error_was_found() {
    assert!(run("var $ = 1".to_string()));
    assert!(!run("var x = 1;".to_string()));
    assert!(!run("".to_string()));
}
