use rust_interperter::lexer::lex::{Lexer, Token, TokenType};

#[test]
fn test_creation() {
    let expected = Lexer {
        input: "let x = 5;",
        ch: 'l',
        ch_pos: 0,
        reading_position: 1,
    };

    let res = Lexer::new("let x = 5;");
    assert_eq!(expected, res);
}

#[test]
fn read_char() {
    let mut lex = Lexer::new("let x = 5;");
    lex.read_char();
    assert_eq!('e', lex.ch);
}

#[test]
fn read_multiple() {
    let mut lex = Lexer::new("let x = 5;");
    for _ in 0..6 {
        lex.read_char();
    }

    assert_eq!('=', lex.ch)
}

#[test]
fn next_token_test() {
    let mut lex = Lexer::new("(){}=*+-,;");
    let expected = Token {
        token_type: TokenType::LPAREN,
        literal: "(".to_string(),
    };
    let actual = lex.next_token();
    assert_eq!(expected, actual);
}

#[test]
fn test_read_ident() {
    let mut lex = Lexer::new("let");
    let expected = "let";
    assert_eq!(expected, lex.read_ident())
}

#[test]
fn test_determine_kw() {
    let mut lex = Lexer::new("let five");
    let expected = Token {
        token_type: TokenType::IDENT("five".to_string()),
        literal: "five".into(),
    };
    lex.next_token();
    let res = lex.next_token();
    assert_eq!(expected, res);
}

#[test]
fn test_read_number() {
    let mut lex = Lexer::new("123");
    let expected = Token {
        token_type: TokenType::INT(123),
        literal: "123".into(),
    };

    assert_eq!(expected, lex.next_token());
}
