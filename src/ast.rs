//! Syntax tree nodes and their rendering as source-like text.
use crate::token::Token;
use vstd::prelude::*;

verus! {

/// What every syntax node offers: the literal of the token it starts with,
/// and a rendering as source-like text.
pub trait Node {
    spec fn literal_spec(&self) -> Seq<char>;

    spec fn text_spec(&self) -> Seq<char>;

    fn literal(&self) -> (r: &str)
        ensures
            r@ == self.literal_spec(),
    ;

    fn text(&self) -> (r: String)
        ensures
            r@ == self.text_spec(),
    ;
}

/// The placeholder for a statement that could not be parsed.
#[derive(Debug)]
pub struct InvalidStmt {}

impl InvalidStmt {
    pub fn new() -> InvalidStmt {
        InvalidStmt {  }
    }
}

/// The placeholder for an expression that was not parsed.
#[derive(Debug)]
pub struct InvalidExpr {}

impl InvalidExpr {
    pub fn new() -> InvalidExpr {
        InvalidExpr {  }
    }
}

/// An identifier used as an expression.
#[derive(Debug)]
pub struct IdentExpr {
    pub token: Token,
    pub value: String,
}

impl IdentExpr {
    pub fn new(tok: Token) -> (e: IdentExpr)
        ensures
            e.token@ == tok@,
            e.value@ == tok.lit@,
    {
        let value = tok.lit.clone();
        IdentExpr { token: tok, value: value }
    }
}

/// The expression forms.
#[derive(Debug)]
pub enum Expression {
    Ident(IdentExpr),
    Invalid(InvalidExpr),
}

impl Expression {
    pub fn is_invalid(&self) -> (r: bool)
        ensures
            r == self is Invalid,
    {
        match self {
            Expression::Invalid(_) => true,
            _ => false,
        }
    }
}

/// `let <name> = <value>;`
#[derive(Debug)]
pub struct LetStmt {
    pub token: Token,
    pub name: IdentExpr,
    pub value: Expression,
}

impl LetStmt {
    pub fn new(tok: Token, id: IdentExpr, val: Expression) -> (s: LetStmt)
        ensures
            s == (LetStmt { token: tok, name: id, value: val }),
    {
        LetStmt { token: tok, name: id, value: val }
    }
}

/// `return <expr>;`
#[derive(Debug)]
pub struct ReturnStmt {
    pub token: Token,
    pub expr: Expression,
}

impl ReturnStmt {
    pub fn new(tok: Token, val: Expression) -> (s: ReturnStmt)
        ensures
            s == (ReturnStmt { token: tok, expr: val }),
    {
        ReturnStmt { token: tok, expr: val }
    }
}

/// An expression standing as a statement.
#[derive(Debug)]
pub struct ExprStmt {
    pub token: Token,
    pub expr: Expression,
}

impl ExprStmt {
    pub fn new(tok: Token, expr: Expression) -> (s: ExprStmt)
        ensures
            s == (ExprStmt { token: tok, expr: expr }),
    {
        ExprStmt { token: tok, expr: expr }
    }
}

/// The statement forms.
#[derive(Debug)]
pub enum Statement {
    Let(LetStmt),
    Return(ReturnStmt),
    Expr(ExprStmt),
    Invalid(InvalidStmt),
}

impl Statement {
    pub fn is_invalid(&self) -> (r: bool)
        ensures
            r == self is Invalid,
    {
        match self {
            Statement::Invalid(_) => true,
            _ => false,
        }
    }
}

/// The statements of a source text, in source order.
#[derive(Debug)]
pub struct Program {
    pub stmts: Vec<Statement>,
}

impl Program {
    pub fn new(stmts: Vec<Statement>) -> (p: Program)
        ensures
            p.stmts@ == stmts@,
    {
        Program { stmts: stmts }
    }
}

pub open spec fn invalid_stmt_text() -> Seq<char> {
    "«INVALID_STMT»"@
}

pub open spec fn invalid_expr_text() -> Seq<char> {
    "«INVALID_EXPR»"@
}

pub open spec fn expr_literal(e: Expression) -> Seq<char> {
    match e {
        Expression::Ident(i) => i.token.lit@,
        Expression::Invalid(_) => Seq::empty(),
    }
}

pub open spec fn expr_text(e: Expression) -> Seq<char> {
    match e {
        Expression::Ident(i) => i.value@,
        Expression::Invalid(_) => invalid_expr_text(),
    }
}

pub open spec fn stmt_literal(s: Statement) -> Seq<char> {
    match s {
        Statement::Let(l) => l.token.lit@,
        Statement::Return(r) => r.token.lit@,
        Statement::Expr(x) => x.token.lit@,
        Statement::Invalid(_) => Seq::empty(),
    }
}

pub open spec fn stmt_text(s: Statement) -> Seq<char> {
    match s {
        Statement::Let(l) => "let "@ + l.name.value@ + " = "@ + expr_text(l.value) + ";"@,
        Statement::Return(r) => "return "@ + expr_text(r.expr) + ";"@,
        Statement::Expr(x) => expr_text(x.expr),
        Statement::Invalid(_) => invalid_stmt_text(),
    }
}

/// Each statement's text followed by a line break, in order.
pub open spec fn stmts_text(ss: Seq<Statement>) -> Seq<char>
    decreases ss.len(),
{
    if ss.len() == 0 {
        Seq::empty()
    } else {
        stmts_text(ss.drop_last()) + stmt_text(ss.last()) + "\n"@
    }
}

pub open spec fn program_literal(ss: Seq<Statement>) -> Seq<char> {
    if ss.len() == 0 {
        Seq::empty()
    } else {
        stmt_literal(ss[0])
    }
}

impl Node for InvalidStmt {
    open spec fn literal_spec(&self) -> Seq<char> {
        Seq::empty()
    }

    open spec fn text_spec(&self) -> Seq<char> {
        invalid_stmt_text()
    }

    fn literal(&self) -> (r: &str) {
        proof {
            reveal_strlit("");
        }
        ""
    }

    fn text(&self) -> (r: String) {
        String::from_str("«INVALID_STMT»")
    }
}

impl Node for InvalidExpr {
    open spec fn literal_spec(&self) -> Seq<char> {
        Seq::empty()
    }

    open spec fn text_spec(&self) -> Seq<char> {
        invalid_expr_text()
    }

    fn literal(&self) -> (r: &str) {
        proof {
            reveal_strlit("");
        }
        ""
    }

    fn text(&self) -> (r: String) {
        String::from_str("«INVALID_EXPR»")
    }
}

impl Node for IdentExpr {
    open spec fn literal_spec(&self) -> Seq<char> {
        self.token.lit@
    }

    open spec fn text_spec(&self) -> Seq<char> {
        self.value@
    }

    fn literal(&self) -> (r: &str) {
        self.token.lit.as_str()
    }

    fn text(&self) -> (r: String) {
        self.value.clone()
    }
}

impl Node for Expression {
    open spec fn literal_spec(&self) -> Seq<char> {
        expr_literal(*self)
    }

    open spec fn text_spec(&self) -> Seq<char> {
        expr_text(*self)
    }

    fn literal(&self) -> (r: &str) {
        match self {
            Expression::Ident(i) => i.literal(),
            Expression::Invalid(i) => i.literal(),
        }
    }

    fn text(&self) -> (r: String) {
        match self {
            Expression::Ident(i) => i.text(),
            Expression::Invalid(i) => i.text(),
        }
    }
}

impl Node for LetStmt {
    open spec fn literal_spec(&self) -> Seq<char> {
        self.token.lit@
    }

    open spec fn text_spec(&self) -> Seq<char> {
        "let "@ + self.name.value@ + " = "@ + expr_text(self.value) + ";"@
    }

    fn literal(&self) -> (r: &str) {
        self.token.lit.as_str()
    }

    fn text(&self) -> (r: String) {
        let mut r = String::from_str("let ");
        r.append(self.name.value.as_str());
        r.append(" = ");
        let v = self.value.text();
        r.append(v.as_str());
        r.append(";");
        r
    }
}

impl Node for ReturnStmt {
    open spec fn literal_spec(&self) -> Seq<char> {
        self.token.lit@
    }

    open spec fn text_spec(&self) -> Seq<char> {
        "return "@ + expr_text(self.expr) + ";"@
    }

    fn literal(&self) -> (r: &str) {
        self.token.lit.as_str()
    }

    fn text(&self) -> (r: String) {
        let mut r = String::from_str("return ");
        let v = self.expr.text();
        r.append(v.as_str());
        r.append(";");
        r
    }
}

impl Node for ExprStmt {
    open spec fn literal_spec(&self) -> Seq<char> {
        self.token.lit@
    }

    open spec fn text_spec(&self) -> Seq<char> {
        expr_text(self.expr)
    }

    fn literal(&self) -> (r: &str) {
        self.token.lit.as_str()
    }

    fn text(&self) -> (r: String) {
        self.expr.text()
    }
}

impl Node for Statement {
    open spec fn literal_spec(&self) -> Seq<char> {
        stmt_literal(*self)
    }

    open spec fn text_spec(&self) -> Seq<char> {
        stmt_text(*self)
    }

    fn literal(&self) -> (r: &str) {
        match self {
            Statement::Let(s) => s.literal(),
            Statement::Return(s) => s.literal(),
            Statement::Expr(s) => s.literal(),
            Statement::Invalid(s) => s.literal(),
        }
    }

    fn text(&self) -> (r: String) {
        match self {
            Statement::Let(s) => s.text(),
            Statement::Return(s) => s.text(),
            Statement::Expr(s) => s.text(),
            Statement::Invalid(s) => s.text(),
        }
    }
}

impl Node for Program {
    open spec fn literal_spec(&self) -> Seq<char> {
        program_literal(self.stmts@)
    }

    open spec fn text_spec(&self) -> Seq<char> {
        stmts_text(self.stmts@)
    }

    fn literal(&self) -> (r: &str) {
        if self.stmts.len() > 0 {
            return self.stmts[0].literal();
        }
        proof {
            reveal_strlit("");
        }
        ""
    }

    fn text(&self) -> (r: String) {
        let mut prog = String::new();
        let mut i: usize = 0;
        while i < self.stmts.len()
            invariant
                i <= self.stmts@.len(),
                prog@ == stmts_text(self.stmts@.subrange(0, i as int)),
            decreases self.stmts@.len() - i,
        {
            let t = self.stmts[i].text();
            prog.append(t.as_str());
            prog.append("\n");
            proof {
                let ss = self.stmts@.subrange(0, i + 1);
                assert(ss.drop_last() =~= self.stmts@.subrange(0, i as int));
            }
            i = i + 1;
        }
        assert(self.stmts@.subrange(0, i as int) =~= self.stmts@);
        prog
    }
}

} // verus!
