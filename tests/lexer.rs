use monkey::lexer::Lexer;
use monkey::token::{Token, TokenType};
use std::io::{BufReader, Read};
use stringreader::StringReader;

fn lexer_for(src: &str) -> Lexer {
    let mut bytes: Vec<u8> = Vec::new();
    BufReader::new(StringReader::new(src))
        .read_to_end(&mut bytes)
        .expect("Lexer Build");
    Lexer::new(bytes)
}

fn all_tokens(src: &str) -> Vec<Token> {
    let mut lexer = lexer_for(src);
    let mut out = Vec::new();
    loop {
        let tok = lexer.next_token();
        let end = tok.typ == TokenType::EOF;
        out.push(tok);
        if end {
            return out;
        }
    }
}

#[test]
fn test_next_token() {
    let src = r#"
  let five = 5;
  let ten = 10;
  let add = fn(x, y) {
    x + y;
  };

  let result = add(five, ten);

  !-/*5;
  5 < 10 > 5;

  if (5 < 10) {
    return true;
  } else {
    return false;
  }

  10 == 10;
  10 != 9;
  "#;

    let tests: Vec<Token> = vec![
        Token::new(TokenType::LET, "let"),
        Token::new(TokenType::IDENT, "five"),
        Token::new(TokenType::ASSIGN, "="),
        Token::new(TokenType::INT, "5"),
        Token::new(TokenType::SEMICOLON, ";"),
        Token::new(TokenType::LET, "let"),
        Token::new(TokenType::IDENT, "ten"),
        Token::new(TokenType::ASSIGN, "="),
        Token::new(TokenType::INT, "10"),
        Token::new(TokenType::SEMICOLON, ";"),
        Token::new(TokenType::LET, "let"),
        Token::new(TokenType::IDENT, "add"),
        Token::new(TokenType::ASSIGN, "="),
        Token::new(TokenType::FUNCTION, "fn"),
        Token::new(TokenType::LPAREN, "("),
        Token::new(TokenType::IDENT, "x"),
        Token::new(TokenType::COMMA, ","),
        Token::new(TokenType::IDENT, "y"),
        Token::new(TokenType::RPAREN, ")"),
        Token::new(TokenType::LBRACE, "{"),
        Token::new(TokenType::IDENT, "x"),
        Token::new(TokenType::PLUS, "+"),
        Token::new(TokenType::IDENT, "y"),
        Token::new(TokenType::SEMICOLON, ";"),
        Token::new(TokenType::RBRACE, "}"),
        Token::new(TokenType::SEMICOLON, ";"),
        Token::new(TokenType::LET, "let"),
        Token::new(TokenType::IDENT, "result"),
        Token::new(TokenType::ASSIGN, "="),
        Token::new(TokenType::IDENT, "add"),
        Token::new(TokenType::LPAREN, "("),
        Token::new(TokenType::IDENT, "five"),
        Token::new(TokenType::COMMA, ","),
        Token::new(TokenType::IDENT, "ten"),
        Token::new(TokenType::RPAREN, ")"),
        Token::new(TokenType::SEMICOLON, ";"),
        Token::new(TokenType::BANG, "!"),
        Token::new(TokenType::MINUS, "-"),
        Token::new(TokenType::SLASH, "/"),
        Token::new(TokenType::ASTERISK, "*"),
        Token::new(TokenType::INT, "5"),
        Token::new(TokenType::SEMICOLON, ";"),
        Token::new(TokenType::INT, "5"),
        Token::new(TokenType::LT, "<"),
        Token::new(TokenType::INT, "10"),
        Token::new(TokenType::GT, ">"),
        Token::new(TokenType::INT, "5"),
        Token::new(TokenType::SEMICOLON, ";"),
        Token::new(TokenType::IF, "if"),
        Token::new(TokenType::LPAREN, "("),
        Token::new(TokenType::INT, "5"),
        Token::new(TokenType::LT, "<"),
        Token::new(TokenType::INT, "10"),
        Token::new(TokenType::RPAREN, ")"),
        Token::new(TokenType::LBRACE, "{"),
        Token::new(TokenType::RETURN, "return"),
        Token::new(TokenType::TRUE, "true"),
        Token::new(TokenType::SEMICOLON, ";"),
        Token::new(TokenType::RBRACE, "}"),
        Token::new(TokenType::ELSE, "else"),
        Token::new(TokenType::LBRACE, "{"),
        Token::new(TokenType::RETURN, "return"),
        Token::new(TokenType::FALSE, "false"),
        Token::new(TokenType::SEMICOLON, ";"),
        Token::new(TokenType::RBRACE, "}"),
        Token::new(TokenType::INT, "10"),
        Token::new(TokenType::EQ, "=="),
        Token::new(TokenType::INT, "10"),
        Token::new(TokenType::SEMICOLON, ";"),
        Token::new(TokenType::INT, "10"),
        Token::new(TokenType::NOT_EQ, "!="),
        Token::new(TokenType::INT, "9"),
        Token::new(TokenType::SEMICOLON, ";"),
        Token::new(TokenType::EOF, ""),
    ];
    let mut lexer = lexer_for(src);

    for tc in tests {
        let tok = lexer.next_token();
        assert_eq!(tok.typ, tc.typ);
        assert_eq!(tok.lit, tc.lit);
    }
}

#[test]
fn single_character_tokens_in_order_then_end_forever() {
    let mut lexer = lexer_for("=+(){},;");
    let expected = vec![
        (TokenType::ASSIGN, "="),
        (TokenType::PLUS, "+"),
        (TokenType::LPAREN, "("),
        (TokenType::RPAREN, ")"),
        (TokenType::LBRACE, "{"),
        (TokenType::RBRACE, "}"),
        (TokenType::COMMA, ","),
        (TokenType::SEMICOLON, ";"),
    ];
    for (typ, lit) in expected {
        let tok = lexer.next_token();
        assert_eq!(tok.typ, typ);
        assert_eq!(tok.lit, lit);
    }
    for _ in 0..5 {
        let tok = lexer.next_token();
        assert_eq!(tok.typ, TokenType::EOF);
        assert_eq!(tok.lit, "");
    }
}

#[test]
fn double_equals_is_one_equal_token() {
    let toks = all_tokens("==");
    assert_eq!(toks.len(), 2);
    assert_eq!(toks[0].typ, TokenType::EQ);
    assert_eq!(toks[0].lit, "==");
    assert_eq!(toks[1].typ, TokenType::EOF);
}

#[test]
fn bang_equals_is_one_not_equal_token() {
    let toks = all_tokens("!=");
    assert_eq!(toks.len(), 2);
    assert_eq!(toks[0].typ, TokenType::NOT_EQ);
    assert_eq!(toks[0].lit, "!=");
    assert_eq!(toks[1].typ, TokenType::EOF);
}

#[test]
fn lone_assign_and_bang() {
    let toks = all_tokens("= !x");
    assert_eq!(toks[0].typ, TokenType::ASSIGN);
    assert_eq!(toks[1].typ, TokenType::BANG);
    assert_eq!(toks[1].lit, "!");
    assert_eq!(toks[2].typ, TokenType::IDENT);
    assert_eq!(toks[2].lit, "x");
}

#[test]
fn digit_run_is_one_integer_token() {
    let toks = all_tokens("  9876543210abc");
    assert_eq!(toks.len(), 3);
    assert_eq!(toks[0].typ, TokenType::INT);
    assert_eq!(toks[0].lit, "9876543210");
    assert_eq!(toks[1].typ, TokenType::IDENT);
    assert_eq!(toks[1].lit, "abc");
}

#[test]
fn keywords_and_identifiers() {
    let toks = all_tokens("let fn true false if else return lets _x Let");
    let kinds: Vec<TokenType> = toks.iter().map(|t| t.typ).collect();
    assert_eq!(
        kinds,
        vec![
            TokenType::LET,
            TokenType::FUNCTION,
            TokenType::TRUE,
            TokenType::FALSE,
            TokenType::IF,
            TokenType::ELSE,
            TokenType::RETURN,
            TokenType::IDENT,
            TokenType::IDENT,
            TokenType::IDENT,
            TokenType::EOF,
        ]
    );
    assert_eq!(toks[7].lit, "lets");
    assert_eq!(toks[8].lit, "_x");
    assert_eq!(toks[9].lit, "Let");
}

#[test]
fn digits_end_an_identifier() {
    let toks = all_tokens("abc1");
    assert_eq!(toks[0].typ, TokenType::IDENT);
    assert_eq!(toks[0].lit, "abc");
    assert_eq!(toks[1].typ, TokenType::INT);
    assert_eq!(toks[1].lit, "1");
}

#[test]
fn unknown_byte_is_illegal_with_its_decimal_value() {
    let toks = all_tokens("@ 7");
    assert_eq!(toks[0].typ, TokenType::ILLEGAL);
    assert_eq!(toks[0].lit, "64");
    assert_eq!(toks[1].typ, TokenType::INT);
    assert_eq!(toks[1].lit, "7");
    let toks = all_tokens("\u{7f}");
    assert_eq!(toks[0].lit, "127");
    let toks = all_tokens("\u{1}");
    assert_eq!(toks[0].lit, "1");
    let toks = all_tokens("\u{e9}");
    assert_eq!(toks[0].typ, TokenType::ILLEGAL);
    assert_eq!(toks[0].lit, "195");
    assert_eq!(toks[1].typ, TokenType::ILLEGAL);
    assert_eq!(toks[1].lit, "169");
    assert_eq!(toks[2].typ, TokenType::EOF);
}

#[test]
fn empty_and_blank_sources_end_at_once() {
    assert_eq!(all_tokens("").len(), 1);
    let toks = all_tokens(" \t\r\n\u{c} ");
    assert_eq!(toks.len(), 1);
    assert_eq!(toks[0].typ, TokenType::EOF);
}

#[test]
fn token_kind_names() {
    assert_eq!(TokenType::ASSIGN.name(), "=");
    assert_eq!(TokenType::LET.name(), "LET");
    assert_eq!(TokenType::LBRACE.name(), "{");
    assert_eq!(TokenType::NOT_EQ.name(), "!=");
    assert_eq!(TokenType::INT.name(), "INT");
    assert_eq!(TokenType::EOF.name(), "EOF");
}

#[test]
fn token_constructors() {
    let t = Token::new_identifier("return");
    assert_eq!(t.typ, TokenType::RETURN);
    assert_eq!(t.lit, "return");
    let t = Token::new_identifier("returns");
    assert_eq!(t.typ, TokenType::IDENT);
    assert_eq!(t.lit, "returns");
    let t = Token::new_identifier("fn");
    assert_eq!(t.typ, TokenType::FUNCTION);
    let t = Token::new_number("042");
    assert_eq!(t.typ, TokenType::INT);
    assert_eq!(t.lit, "042");
    let t = Token::new(TokenType::PLUS, "+");
    assert_eq!(t.duplicate().lit, "+");
}
