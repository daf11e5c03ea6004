use ayurox::scanner::{Scanner, TokenType};

fn kinds(source: &str) -> Vec<TokenType> {
    let mut scanner = Scanner::new(source);
    let mut out = Vec::new();
    loop {
        let t = scanner.scan_token();
        let kind = t.token_type;
        out.push(kind);
        if kind == TokenType::Eof {
            return out;
        }
    }
}

#[test]
fn scans_punctuation_and_operators() {
    assert!(kinds("(){};,.-+/*! != = == > >= < <=") == vec![
        TokenType::LeftParen, TokenType::RightParen, TokenType::LeftBrace, TokenType::RightBrace,
        TokenType::Semicolon, TokenType::Comma, TokenType::Dot, TokenType::Minus, TokenType::Plus,
        TokenType::Slash, TokenType::Star, TokenType::Bang, TokenType::BangEqual, TokenType::Equal,
        TokenType::EqualEqual, TokenType::Greater, TokenType::GreaterEqual, TokenType::Less,
        TokenType::LessEqual, TokenType::Eof,
    ]);
}

#[test]
fn scans_keywords_identifiers_and_literals() {
    assert!(kinds("var fun classy class 12.5 \"hi\" _x or and") == vec![
        TokenType::Var, TokenType::Fun, TokenType::Identifier, TokenType::Class, TokenType::Number,
        TokenType::String, TokenType::Identifier, TokenType::Or, TokenType::And, TokenType::Eof,
    ]);
}

#[test]
fn token_positions_and_lines() {
    let mut scanner = Scanner::new("// note\n  abc\n\"x\ny\" 7");
    let t = scanner.scan_token();
    assert!(t.token_type == TokenType::Identifier);
    assert_eq!((t.start, t.length, t.line), (10, 3, 2));
    assert_eq!(scanner.get_source(t.start, t.length), "abc");
    let s = scanner.scan_token();
    assert!(s.token_type == TokenType::String);
    assert_eq!(s.line, 4);
    assert_eq!(scanner.get_source(s.start, s.length), "\"x\ny\"");
    let n = scanner.scan_token();
    assert!(n.token_type == TokenType::Number);
    assert_eq!(scanner.get_source(n.start, n.length), "7");
}

#[test]
fn reports_scan_errors() {
    let mut scanner = Scanner::new("@");
    let t = scanner.scan_token();
    assert!(t.token_type == TokenType::Error);
    assert_eq!(t.error_message.unwrap(), "Unexpected character.");
    let mut scanner = Scanner::new("\"open");
    let t = scanner.scan_token();
    assert!(t.token_type == TokenType::Error);
    assert_eq!(t.error_message.unwrap(), "Unterminated string.");
}

#[test]
fn number_with_trailing_dot_stops_before_it() {
    let mut scanner = Scanner::new("3.");
    let t = scanner.scan_token();
    assert!(t.token_type == TokenType::Number);
    assert_eq!(t.length, 1);
    assert!(scanner.scan_token().token_type == TokenType::Dot);
}
