use rust_interperter::lexer::lex::{Lexer, Token, TokenType};

fn tok(token_type: TokenType, literal: &str) -> Token {
    Token {
        token_type,
        literal: literal.to_string(),
    }
}

fn scan_all(input: &'static str) -> Vec<Token> {
    let mut lex = Lexer::new(input);
    let mut out = Vec::new();
    loop {
        let t = lex.next_token();
        let done = t.token_type == TokenType::EOF;
        out.push(t);
        if done {
            break;
        }
    }
    out
}

#[test]
fn punctuation_run() {
    let expected = vec![
        tok(TokenType::LPAREN, "("),
        tok(TokenType::RPAREN, ")"),
        tok(TokenType::LBRACE, "{"),
        tok(TokenType::RBRACE, "}"),
        tok(TokenType::ASSIGN, "="),
        tok(TokenType::ASTERISK, "*"),
        tok(TokenType::PLUS, "+"),
        tok(TokenType::MINUS, "-"),
        tok(TokenType::COMMA, ","),
        tok(TokenType::SEMICOLON, ";"),
        tok(TokenType::EOF, "\0"),
    ];
    assert_eq!(expected, scan_all("(){}=*+-,;"));
}

#[test]
fn remaining_operators() {
    let expected = vec![
        tok(TokenType::BANG, "!"),
        tok(TokenType::SLASH, "/"),
        tok(TokenType::LT, "<"),
        tok(TokenType::GT, ">"),
        tok(TokenType::LBRACKET, "["),
        tok(TokenType::RBRACKET, "]"),
        tok(TokenType::EOF, "\0"),
    ];
    assert_eq!(expected, scan_all("!/<>[]"));
}

#[test]
fn let_then_identifier() {
    let mut lex = Lexer::new("let five");
    assert_eq!(tok(TokenType::LET, "let"), lex.next_token());
    assert_eq!(
        tok(TokenType::IDENT("five".to_string()), "five"),
        lex.next_token()
    );
}

#[test]
fn single_number() {
    let mut lex = Lexer::new("123");
    assert_eq!(tok(TokenType::INT(123), "123"), lex.next_token());
    assert_eq!(tok(TokenType::EOF, "\0"), lex.next_token());
}

#[test]
fn small_program() {
    let expected = vec![
        tok(TokenType::LET, "let"),
        tok(TokenType::IDENT("add".to_string()), "add"),
        tok(TokenType::ASSIGN, "="),
        tok(TokenType::FUNCTION, "fn"),
        tok(TokenType::LPAREN, "("),
        tok(TokenType::IDENT("x".to_string()), "x"),
        tok(TokenType::COMMA, ","),
        tok(TokenType::IDENT("y".to_string()), "y"),
        tok(TokenType::RPAREN, ")"),
        tok(TokenType::LBRACE, "{"),
        tok(TokenType::RETURN, "return"),
        tok(TokenType::IDENT("x".to_string()), "x"),
        tok(TokenType::PLUS, "+"),
        tok(TokenType::IDENT("y".to_string()), "y"),
        tok(TokenType::SEMICOLON, ";"),
        tok(TokenType::RBRACE, "}"),
        tok(TokenType::SEMICOLON, ";"),
        tok(TokenType::EOF, "\0"),
    ];
    assert_eq!(expected, scan_all("let add = fn(x, y) { return x + y; };"));
}

#[test]
fn empty_input() {
    let mut lex = Lexer::new("");
    assert_eq!(tok(TokenType::EOF, "\0"), lex.next_token());
}

#[test]
fn end_of_file_repeats() {
    let mut lex = Lexer::new("a");
    assert_eq!(tok(TokenType::IDENT("a".to_string()), "a"), lex.next_token());
    for _ in 0..5 {
        assert_eq!(tok(TokenType::EOF, "\0"), lex.next_token());
    }
}

#[test]
fn every_keyword() {
    let cases = vec![
        ("let", TokenType::LET),
        ("fn", TokenType::FUNCTION),
        ("if", TokenType::IF),
        ("else", TokenType::ELSE),
        ("return", TokenType::RETURN),
        ("true", TokenType::TRUE),
        ("false", TokenType::FALSE),
    ];
    for (spelling, kind) in cases {
        let mut lex = Lexer::new(spelling);
        let t = lex.next_token();
        assert_eq!(kind, t.token_type);
        assert_eq!(spelling, t.literal);
    }
}

#[test]
fn keyword_lookup() {
    assert_eq!(Some(TokenType::LET), Lexer::determine_kw("let"));
    assert_eq!(Some(TokenType::FUNCTION), Lexer::determine_kw("fn"));
    assert_eq!(None, Lexer::determine_kw("five"));
    assert_eq!(None, Lexer::determine_kw("letx"));
    assert_eq!(None, Lexer::determine_kw(""));
}

#[test]
fn round_trip_literals() {
    // every character belongs to exactly one literal, except the skipped
    // whitespace; reinserting it reproduces the input
    let input = "let ab =  12;\n\treturn ab;";
    let tokens = scan_all(input);
    let mut rebuilt = String::new();
    let mut pos = 0usize;
    let chars: Vec<char> = input.chars().collect();
    for t in &tokens {
        if t.token_type == TokenType::EOF {
            break;
        }
        while pos < chars.len() && chars[pos].is_ascii_whitespace() {
            rebuilt.push(chars[pos]);
            pos += 1;
        }
        rebuilt.push_str(&t.literal);
        pos += t.literal.chars().count();
    }
    while pos < chars.len() {
        rebuilt.push(chars[pos]);
        pos += 1;
    }
    assert_eq!(input, rebuilt);
    // and the scan used no more than one token per character before EOF
    assert!(tokens.len() <= input.len() + 1);
}

#[test]
fn unknown_characters_pass_through() {
    let expected = vec![
        tok(TokenType::IDENT("@".to_string()), "@"),
        tok(TokenType::IDENT("#".to_string()), "#"),
        tok(TokenType::IDENT("$".to_string()), "$"),
        tok(TokenType::EOF, "\0"),
    ];
    assert_eq!(expected, scan_all("@ # $"));
}

#[test]
fn leading_zeros_keep_their_literal() {
    let mut lex = Lexer::new("007");
    assert_eq!(tok(TokenType::INT(7), "007"), lex.next_token());
}

#[test]
fn whitespace_only_input() {
    let mut lex = Lexer::new(" \t\r\n ");
    assert_eq!(tok(TokenType::EOF, "\0"), lex.next_token());
}

#[test]
fn skip_whitespace_stops_at_text() {
    let mut lex = Lexer::new("   abc");
    lex.skip_whitespace();
    assert_eq!('a', lex.ch);
    assert_eq!(3, lex.ch_pos);
}

#[test]
fn read_char_past_end() {
    let mut lex = Lexer::new("a");
    lex.read_char();
    assert_eq!('\0', lex.ch);
    lex.read_char();
    assert_eq!('\0', lex.ch);
    assert_eq!(2, lex.ch_pos);
    assert_eq!(3, lex.reading_position);
}

#[test]
fn new_token_builds_from_char() {
    let t = Lexer::new_token(TokenType::PLUS, '+');
    assert_eq!(tok(TokenType::PLUS, "+"), t);
}

#[test]
fn number_then_letters() {
    // maximal munch: the digit run ends where the letters begin
    let expected = vec![
        tok(TokenType::INT(12), "12"),
        tok(TokenType::IDENT("ab".to_string()), "ab"),
        tok(TokenType::EOF, "\0"),
    ];
    assert_eq!(expected, scan_all("12ab"));
}
