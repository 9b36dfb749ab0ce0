use monkey::ast::{Node, Statement};
use monkey::lexer::Lexer;
use monkey::parser::Parser;
use std::io::{BufReader, Read};
use stringreader::StringReader;

fn parser_for(src: &str) -> Parser {
    let mut bytes: Vec<u8> = Vec::new();
    BufReader::new(StringReader::new(src))
        .read_to_end(&mut bytes)
        .expect("Lexer Build");
    Parser::new(Lexer::new(bytes))
}

fn check_let_stmt(stmt: &Statement, id: &str) {
    assert_eq!("let", stmt.literal());
    let l = match stmt {
        Statement::Let(l) => l,
        _ => panic!("Wrong Type for Let statement"),
    };
    assert_eq!(l.name.value.as_str(), id);
    assert_eq!(l.name.literal(), id);
}

#[test]
fn test_let_stmts() {
    let src = r#"
  let x = 5;
  let y = 10;
  let foobar = 838383;
  "#;

    let mut parser = parser_for(src);
    let program = parser.program().expect("Parsing program");

    assert_eq!(program.stmts.len(), 3);
    let mut idx = 0;
    for id in vec!["x", "y", "foobar"] {
        check_let_stmt(&program.stmts[idx], id);
        idx += 1;
    }
}

#[test]
fn test_return_stmts() {
    let src = r#"
  return 5;
  return 10;
  return 993322;
  "#;

    let mut parser = parser_for(src);
    let program = parser.program().expect("Parsing program");

    assert_eq!(program.stmts.len(), 3);
    for stmt in program.stmts {
        let r = match &stmt {
            Statement::Return(r) => r,
            _ => panic!("Wrong Type for Return statement"),
        };
        assert_eq!(r.literal(), "return", "returnStmt.literal() not 'return': {}", r.literal());
    }
}

#[test]
fn single_let_statement() {
    let program = parser_for("let x = 5;").program().expect("parses");
    assert_eq!(program.stmts.len(), 1);
    check_let_stmt(&program.stmts[0], "x");
    assert_eq!(program.literal(), "let");
    match &program.stmts[0] {
        Statement::Let(l) => assert!(l.value.is_invalid()),
        _ => panic!("not a let statement"),
    }
}

#[test]
fn missing_assign_is_reported() {
    let mut parser = parser_for("let x 5;");
    let err = match parser.program() {
        Ok(_) => panic!("parsed without the ="),
        Err(e) => e,
    };
    assert!(err.contains("expected ="));
    assert_eq!(err, "syntax error: expected = token, got INT");
    assert_eq!(parser.errors().len(), 1);
}

#[test]
fn missing_identifier_is_reported() {
    let mut parser = parser_for("let = 5;");
    let err = parser.program().err().expect("must fail");
    assert_eq!(err, "syntax error: expected IDENT token, got =");
}

#[test]
fn every_failed_let_is_reported_on_its_own_line() {
    let mut parser = parser_for("let 1; let x 2;");
    let err = parser.program().err().expect("must fail");
    assert_eq!(
        err,
        "syntax error: expected IDENT token, got INT\nsyntax error: expected = token, got INT"
    );
    assert_eq!(parser.errors().len(), 2);
}

#[test]
fn other_statements_are_invalid_without_a_message() {
    let mut parser = parser_for("x;");
    let err = parser.program().err().expect("must fail");
    assert_eq!(err, "");
    assert!(parser.errors().is_empty());
}

#[test]
fn two_return_statements() {
    let program = parser_for("return 5; return 10;").program().expect("parses");
    assert_eq!(program.stmts.len(), 2);
    for stmt in &program.stmts {
        assert!(matches!(stmt, Statement::Return(_)));
        assert_eq!(stmt.literal(), "return");
    }
}

#[test]
fn statement_without_semicolon_ends_at_end_of_input() {
    let program = parser_for("let a = 1 + 2").program().expect("parses");
    assert_eq!(program.stmts.len(), 1);
    let program = parser_for("return").program().expect("parses");
    assert_eq!(program.stmts.len(), 1);
}

#[test]
fn empty_source_is_an_empty_program() {
    let program = parser_for("  ").program().expect("parses");
    assert!(program.stmts.is_empty());
    assert_eq!(program.literal(), "");
    assert_eq!(program.text(), "");
}

#[test]
fn program_renders_each_statement_on_a_line() {
    let program = parser_for("let x = 5; return y;").program().expect("parses");
    assert_eq!(
        program.text(),
        "let x = \u{ab}INVALID_EXPR\u{bb};\nreturn \u{ab}INVALID_EXPR\u{bb};\n"
    );
}

#[test]
fn rendered_program_parses_to_the_same_statements() {
    let program = parser_for("let x = 5;\nreturn 10 + 2;\nlet y = x;").program().expect("parses");
    let text = program.text();
    let again = parser_for(&text).program().expect("reparses");
    assert_eq!(again.stmts.len(), program.stmts.len());
    for (a, b) in program.stmts.iter().zip(again.stmts.iter()) {
        assert_eq!(a.literal(), b.literal());
        assert_eq!(
            matches!(a, Statement::Let(_)),
            matches!(b, Statement::Let(_))
        );
        assert_eq!(
            matches!(a, Statement::Return(_)),
            matches!(b, Statement::Return(_))
        );
    }
}
