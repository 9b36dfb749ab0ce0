use monkey::ast::{
    ExprStmt, Expression, IdentExpr, InvalidExpr, InvalidStmt, LetStmt, Node, Program,
    ReturnStmt, Statement,
};
use monkey::token::{Token, TokenType};

#[test]
fn nodes_render_as_source_text() {
    let name = IdentExpr::new(Token::new(TokenType::IDENT, "count"));
    assert_eq!(name.text(), "count");
    assert_eq!(name.literal(), "count");
    let value = Expression::Ident(IdentExpr::new(Token::new(TokenType::IDENT, "y")));
    let l = LetStmt::new(Token::new(TokenType::LET, "let"), name, value);
    assert_eq!(l.text(), "let count = y;");
    assert_eq!(l.literal(), "let");
    let r = ReturnStmt::new(
        Token::new(TokenType::RETURN, "return"),
        Expression::Invalid(InvalidExpr::new()),
    );
    assert_eq!(r.text(), "return \u{ab}INVALID_EXPR\u{bb};");
    let e = ExprStmt::new(
        Token::new(TokenType::IDENT, "z"),
        Expression::Ident(IdentExpr::new(Token::new(TokenType::IDENT, "z"))),
    );
    assert_eq!(e.text(), "z");
    assert_eq!(e.literal(), "z");
    assert_eq!(InvalidStmt::new().text(), "\u{ab}INVALID_STMT\u{bb}");
    assert_eq!(InvalidStmt::new().literal(), "");
    let p = Program::new(vec![
        Statement::Return(r),
        Statement::Invalid(InvalidStmt::new()),
        Statement::Let(l),
    ]);
    assert_eq!(p.literal(), "return");
    assert_eq!(
        p.text(),
        "return \u{ab}INVALID_EXPR\u{bb};\n\u{ab}INVALID_STMT\u{bb}\nlet count = y;\n"
    );
    assert!(p.stmts[1].is_invalid());
    assert!(!p.stmts[0].is_invalid());
}
