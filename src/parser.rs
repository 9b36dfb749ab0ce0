//! The statement parser: what parsing a token stream yields, and the
//! parser that performs it over a scanner.
use crate::ast::{
    Expression, IdentExpr, InvalidExpr, InvalidStmt, LetStmt, Program, ReturnStmt, Statement,
};
use crate::lexer::{
    end_token, lemma_scan_moves, lemma_tokens_well_ended, scan, tokens_from, well_ended, Lexer,
    TokenView,
};
use crate::token::{kind_text, Token, TokenType};
use vstd::prelude::*;

verus! {

/// The token at index `i` of a stream, or the end token past its end.
pub open spec fn tk(ts: Seq<TokenView>, i: nat) -> TokenView {
    if i < ts.len() {
        ts[i as int]
    } else {
        end_token()
    }
}

/// The first index from `i` on that holds a `;` or the end of the stream.
pub open spec fn skip_to_end(ts: Seq<TokenView>, i: nat) -> nat
    decreases ts.len() - i,
{
    if i < ts.len() && ts[i as int].0 != TokenType::SEMICOLON && ts[i as int].0
        != TokenType::EOF {
        skip_to_end(ts, i + 1)
    } else {
        i
    }
}

/// The diagnostic for a token kind that was expected and not found.
pub open spec fn expected_msg(want: TokenType, got: TokenType) -> Seq<char> {
    "syntax error: expected "@ + kind_text(want) + " token, got "@ + kind_text(got)
}

/// The outcome kinds of parsing one statement.
#[derive(Copy, Clone, Debug, PartialEq, Eq, Structural)]
pub enum StmtKind {
    Let,
    Return,
    Invalid,
}

/// What parsing one statement found: its kind, its leading token and, for
/// a `let`, the token of the name it binds.
pub type ParsedStmt = (StmtKind, TokenView, TokenView);

pub open spec fn invalid_parsed() -> ParsedStmt {
    (StmtKind::Invalid, end_token(), end_token())
}

/// One statement parsed with its first token at index `i`: what it is,
/// the index of its last token, and the diagnostics it records.
pub open spec fn parse_stmt(ts: Seq<TokenView>, i: nat) -> (ParsedStmt, nat, Seq<Seq<char>>) {
    let c = tk(ts, i);
    if c.0 == TokenType::LET {
        if tk(ts, i + 1).0 != TokenType::IDENT {
            (invalid_parsed(), i, seq![expected_msg(TokenType::IDENT, tk(ts, i + 1).0)])
        } else if tk(ts, i + 2).0 != TokenType::ASSIGN {
            (invalid_parsed(), i + 1, seq![expected_msg(TokenType::ASSIGN, tk(ts, i + 2).0)])
        } else {
            ((StmtKind::Let, c, tk(ts, i + 1)), skip_to_end(ts, i + 2), Seq::empty())
        }
    } else if c.0 == TokenType::RETURN {
        ((StmtKind::Return, c, end_token()), skip_to_end(ts, i + 1), Seq::empty())
    } else {
        (invalid_parsed(), i, Seq::empty())
    }
}

pub proof fn lemma_skip_to_end_bounds(ts: Seq<TokenView>, i: nat)
    ensures
        i <= skip_to_end(ts, i),
        i <= ts.len() ==> skip_to_end(ts, i) <= ts.len(),
    decreases ts.len() - i,
{
    if i < ts.len() && ts[i as int].0 != TokenType::SEMICOLON && ts[i as int].0
        != TokenType::EOF {
        lemma_skip_to_end_bounds(ts, i + 1);
    }
}

pub proof fn lemma_parse_stmt_moves(ts: Seq<TokenView>, i: nat)
    ensures
        i <= parse_stmt(ts, i).1,
        i < ts.len() ==> parse_stmt(ts, i).1 <= ts.len(),
{
    lemma_skip_to_end_bounds(ts, i + 1);
    lemma_skip_to_end_bounds(ts, i + 2);
}

/// The statements parsed from index `i` to the end of the stream, and the
/// diagnostics recorded on the way.
pub open spec fn parse_all(ts: Seq<TokenView>, i: nat) -> (Seq<ParsedStmt>, Seq<Seq<char>>)
    decreases ts.len() + 1 - i,
    via parse_all_decreases
{
    if tk(ts, i).0 == TokenType::EOF {
        (Seq::empty(), Seq::empty())
    } else {
        let (st, j, es) = parse_stmt(ts, i);
        let (rest, more) = parse_all(ts, j + 1);
        (seq![st] + rest, es + more)
    }
}

#[via_fn]
proof fn parse_all_decreases(ts: Seq<TokenView>, i: nat) {
    if tk(ts, i).0 != TokenType::EOF {
        lemma_parse_stmt_moves(ts, i);
        assert(i < ts.len());
    }
}

/// Lines joined with a line break between each two.
pub open spec fn join_lines(ls: Seq<Seq<char>>) -> Seq<char>
    decreases ls.len(),
{
    if ls.len() == 0 {
        Seq::empty()
    } else if ls.len() == 1 {
        ls[0]
    } else {
        join_lines(ls.drop_last()) + "\n"@ + ls.last()
    }
}

/// Whether a syntax node is what a parse found.
pub open spec fn built_from(st: Statement, p: ParsedStmt) -> bool {
    match st {
        Statement::Let(l) => {
            &&& p.0 == StmtKind::Let
            &&& l.token@ == p.1
            &&& l.name.token@ == p.2
            &&& l.name.value@ == p.2.1
            &&& l.value is Invalid
        },
        Statement::Return(r) => {
            &&& p.0 == StmtKind::Return
            &&& r.token@ == p.1
            &&& r.expr is Invalid
        },
        Statement::Expr(_) => false,
        Statement::Invalid(_) => p.0 == StmtKind::Invalid,
    }
}

pub open spec fn has_invalid(ps: Seq<ParsedStmt>) -> bool {
    exists|k: int| 0 <= k < ps.len() && (#[trigger] ps[k]).0 == StmtKind::Invalid
}

/// The index of the first token the scanner has not yet handed out, for a
/// window whose current token is at index `i`.
pub open spec fn ahead(ts: Seq<TokenView>, i: nat) -> nat {
    if i + 2 < ts.len() {
        i + 2
    } else {
        (ts.len() - 1) as nat
    }
}

/// One scan hands out the next token of a stream that the scanner is
/// known to yield from index `m` on.
pub proof fn lemma_step(s: Seq<u8>, p: nat, ts: Seq<TokenView>, m: nat)
    requires
        well_ended(ts),
        m < ts.len(),
        tokens_from(s, p) == ts.subrange(m as int, ts.len() as int),
    ensures
        (scan(s, p).0, scan(s, p).1) == ts[m as int],
        tokens_from(s, scan(s, p).2) == ts.subrange(
            (if m + 1 < ts.len() {
                m + 1
            } else {
                (ts.len() - 1) as nat
            }) as int,
            ts.len() as int,
        ),
{
    lemma_scan_moves(s, p);
    let t = scan(s, p);
    let q = t.2;
    let all = tokens_from(s, p);
    assert(all[0] == ts[m as int]);
    if t.0 != TokenType::EOF {
        assert(m != ts.len() - 1);
        assert(tokens_from(s, q) =~= all.subrange(1, all.len() as int));
        assert(all.subrange(1, all.len() as int) =~= ts.subrange(m + 1int, ts.len() as int));
    } else {
        if m < ts.len() - 1 {
            assert(ts[m as int].0 != TokenType::EOF);
        }
        assert(tokens_from(s, q) == seq![(t.0, t.1)]);
        assert(ts.subrange(ts.len() - 1, ts.len() as int) =~= seq![ts.last()]);
    }
}

pub proof fn lemma_map_push(ss: Seq<String>, x: String)
    ensures
        ss.push(x).map_values(|e: String| e@) == ss.map_values(|e: String| e@).push(x@),
{
    assert(ss.push(x).map_values(|e: String| e@) =~= ss.map_values(|e: String| e@).push(x@));
}

/// Lines joined with a line break between each two.
fn join_errors(es: &Vec<String>) -> (r: String)
    ensures
        r@ == join_lines(es@.map_values(|e: String| e@)),
{
    let mut r = String::new();
    let mut i: usize = 0;
    while i < es.len()
        invariant
            i <= es@.len(),
            r@ == join_lines(es@.subrange(0, i as int).map_values(|e: String| e@)),
        decreases es@.len() - i,
    {
        let ghost before = es@.subrange(0, i as int).map_values(|e: String| e@);
        let ghost after = es@.subrange(0, i + 1).map_values(|e: String| e@);
        assert(after =~= before.push(es@[i as int]@));
        assert(after.drop_last() =~= before);
        if i > 0 {
            r.append("\n");
        }
        r.append(es[i].as_str());
        i = i + 1;
    }
    assert(es@.subrange(0, i as int) =~= es@);
    r
}

/// A statement parser over a scanner, reading two tokens ahead: the
/// current token and the one after it.
pub struct Parser {
    lexer: Lexer,
    cur: Token,
    peek: Token,
    errors: Vec<String>,
    stream: Ghost<Seq<TokenView>>,
    index: Ghost<nat>,
}

impl Parser {
    /// The tokens that the scanner yields, from the first one the parser
    /// read, up to the end.
    pub closed spec fn stream(&self) -> Seq<TokenView> {
        self.stream@
    }

    /// The index in `stream()` of the current token.
    pub closed spec fn index(&self) -> nat {
        self.index@
    }

    /// The diagnostics recorded so far, in order.
    pub closed spec fn diagnostics(&self) -> Seq<Seq<char>> {
        self.errors@.map_values(|e: String| e@)
    }

    pub closed spec fn wf(&self) -> bool {
        &&& well_ended(self.stream@)
        &&& self.cur@ == tk(self.stream@, self.index@)
        &&& self.peek@ == tk(self.stream@, self.index@ + 1)
        &&& tokens_from(self.lexer.source(), self.lexer.position()) == self.stream@.subrange(
            ahead(self.stream@, self.index@) as int,
            self.stream@.len() as int,
        )
    }

    /// A parser over what `lex` yields from its position, with the first
    /// two tokens read.
    pub fn new(lex: Lexer) -> (p: Parser)
        ensures
            p.wf(),
            p.stream() == tokens_from(lex.source(), lex.position()),
            p.index() == 0,
            p.diagnostics() == Seq::<Seq<char>>::empty(),
    {
        let ghost ts = tokens_from(lex.source(), lex.position());
        proof {
            lemma_tokens_well_ended(lex.source(), lex.position());
            assert(ts.subrange(0, ts.len() as int) =~= ts);
            lemma_step(lex.source(), lex.position(), ts, 0);
        }
        let mut lexer = lex;
        let cur = lexer.next_token();
        let ghost m: nat = if 1 < ts.len() {
            1
        } else {
            0
        };
        proof {
            lemma_step(lexer.source(), lexer.position(), ts, m);
        }
        let peek = lexer.next_token();
        let errors: Vec<String> = Vec::new();
        let p = Parser { lexer, cur, peek, errors, stream: Ghost(ts), index: Ghost(0) };
        assert(p.diagnostics() =~= Seq::<Seq<char>>::empty());
        p
    }

    /// Moves the window one token on.
    fn next_token(&mut self)
        requires
            old(self).wf(),
        ensures
            final(self).wf(),
            final(self).stream() == old(self).stream(),
            final(self).index() == old(self).index() + 1,
            final(self).errors == old(self).errors,
    {
        proof {
            lemma_step(
                self.lexer.source(),
                self.lexer.position(),
                self.stream@,
                ahead(self.stream@, self.index@),
            );
        }
        let t = self.lexer.next_token();
        std::mem::swap(&mut self.cur, &mut self.peek);
        self.peek = t;
        self.index = Ghost(self.index@ + 1);
    }

    fn match_cur(&self, t: TokenType) -> (r: bool)
        ensures
            r == (self.cur@.0 == t),
    {
        self.cur.typ == t
    }

    fn match_peek(&self, t: TokenType) -> (r: bool)
        ensures
            r == (self.peek@.0 == t),
    {
        self.peek.typ == t
    }

    /// Records that `t` was expected where the lookahead token stands.
    fn peek_error(&mut self, t: TokenType)
        ensures
            final(self).diagnostics() == old(self).diagnostics().push(
                expected_msg(t, old(self).peek@.0),
            ),
            final(self).lexer == old(self).lexer,
            final(self).cur == old(self).cur,
            final(self).peek == old(self).peek,
            final(self).stream == old(self).stream,
            final(self).index == old(self).index,
    {
        let mut msg = String::from_str("syntax error: expected ");
        msg.append(t.name());
        msg.append(" token, got ");
        msg.append(self.peek.typ.name());
        proof {
            lemma_map_push(self.errors@, msg);
        }
        self.errors.push(msg);
    }

    /// Moves on when the lookahead token has kind `t`; records a diagnostic
    /// otherwise.
    fn expect_peek(&mut self, t: TokenType) -> (r: bool)
        requires
            old(self).wf(),
        ensures
            final(self).wf(),
            final(self).stream() == old(self).stream(),
            r == (tk(old(self).stream(), old(self).index() + 1).0 == t),
            r ==> final(self).index() == old(self).index() + 1 && final(self).diagnostics()
                == old(self).diagnostics(),
            !r ==> final(self).index() == old(self).index() && final(self).diagnostics()
                == old(self).diagnostics().push(
                expected_msg(t, tk(old(self).stream(), old(self).index() + 1).0),
            ),
    {
        if self.match_peek(t) {
            self.next_token();
            return true;
        }
        self.peek_error(t);
        false
    }

    /// Moves on until the current token is a `;` or the end.
    fn skip_to_semicolon(&mut self)
        requires
            old(self).wf(),
        ensures
            final(self).wf(),
            final(self).stream() == old(self).stream(),
            final(self).index() == skip_to_end(old(self).stream(), old(self).index()),
            final(self).errors == old(self).errors,
    {
        let ghost ts = self.stream@;
        let ghost i0 = self.index@;
        while !self.match_cur(TokenType::SEMICOLON) && !self.match_cur(TokenType::EOF)
            invariant
                self.wf(),
                self.stream@ == ts,
                self.errors == old(self).errors,
                skip_to_end(ts, i0) == skip_to_end(ts, self.index@),
            decreases ts.len() - self.index@,
        {
            self.next_token();
        }
    }

    fn let_stmt(&mut self) -> (r: Option<LetStmt>)
        requires
            old(self).wf(),
            old(self).cur@.0 == TokenType::LET,
        ensures
            final(self).wf(),
            final(self).stream() == old(self).stream(),
            ({
                let (p, j, es) = parse_stmt(old(self).stream(), old(self).index());
                &&& final(self).index() == j
                &&& final(self).diagnostics() == old(self).diagnostics() + es
                &&& match r {
                    Some(l) => built_from(Statement::Let(l), p),
                    None => p.0 == StmtKind::Invalid,
                }
            }),
    {
        let ghost d0 = self.diagnostics();
        let tok = self.cur.duplicate();
        if !self.expect_peek(TokenType::IDENT) {
            assert(self.diagnostics() == d0 + seq![expected_msg(TokenType::IDENT, tk(self.stream@, self.index@ + 1).0)]);
            return None;
        }
        let id = IdentExpr::new(self.cur.duplicate());
        if !self.expect_peek(TokenType::ASSIGN) {
            assert(self.diagnostics() == d0 + seq![expected_msg(TokenType::ASSIGN, tk(self.stream@, self.index@ + 1).0)]);
            return None;
        }
        self.skip_to_semicolon();
        assert(self.diagnostics() == d0 + Seq::<Seq<char>>::empty());
        Some(LetStmt::new(tok, id, Expression::Invalid(InvalidExpr::new())))
    }

    fn return_stmt(&mut self) -> (r: Option<ReturnStmt>)
        requires
            old(self).wf(),
            old(self).cur@.0 == TokenType::RETURN,
        ensures
            final(self).wf(),
            final(self).stream() == old(self).stream(),
            ({
                let (p, j, es) = parse_stmt(old(self).stream(), old(self).index());
                &&& final(self).index() == j
                &&& final(self).diagnostics() == old(self).diagnostics() + es
                &&& match r {
                    Some(s) => built_from(Statement::Return(s), p),
                    None => p.0 == StmtKind::Invalid,
                }
            }),
    {
        let ghost d0 = self.diagnostics();
        let tok = self.cur.duplicate();
        self.next_token();
        self.skip_to_semicolon();
        assert(self.diagnostics() == d0 + Seq::<Seq<char>>::empty());
        Some(ReturnStmt::new(tok, Expression::Invalid(InvalidExpr::new())))
    }

    fn stmt(&mut self) -> (r: Statement)
        requires
            old(self).wf(),
        ensures
            final(self).wf(),
            final(self).stream() == old(self).stream(),
            ({
                let (p, j, es) = parse_stmt(old(self).stream(), old(self).index());
                &&& final(self).index() == j
                &&& final(self).diagnostics() == old(self).diagnostics() + es
                &&& built_from(r, p)
            }),
    {
        let ghost d0 = self.diagnostics();
        match self.cur.typ {
            TokenType::LET => {
                match self.let_stmt() {
                    Some(l) => Statement::Let(l),
                    None => Statement::Invalid(InvalidStmt::new()),
                }
            },
            TokenType::RETURN => {
                match self.return_stmt() {
                    Some(s) => Statement::Return(s),
                    None => Statement::Invalid(InvalidStmt::new()),
                }
            },
            _ => {
                assert(d0 + Seq::<Seq<char>>::empty() == d0);
                Statement::Invalid(InvalidStmt::new())
            },
        }
    }

    /// Parses statements up to the end of the stream. Every statement is
    /// kept, valid or not; the result is the program when all of them are
    /// valid, and otherwise every diagnostic recorded, one per line.
    pub fn program(&mut self) -> (r: Result<Program, String>)
        requires
            old(self).wf(),
        ensures
            final(self).wf(),
            final(self).stream() == old(self).stream(),
            ({
                let (ps, es) = parse_all(old(self).stream(), old(self).index());
                &&& final(self).diagnostics() == old(self).diagnostics() + es
                &&& (r is Ok <==> !has_invalid(ps))
                &&& match r {
                    Ok(p) => p.stmts@.len() == ps.len() && forall|k: int|
                        0 <= k < ps.len() ==> built_from(#[trigger] p.stmts@[k], ps[k]),
                    Err(e) => e@ == join_lines(final(self).diagnostics()),
                }
            }),
    {
        let ghost ts = self.stream@;
        let ghost i0 = self.index@;
        let ghost d0 = self.diagnostics();
        let ghost mut done: Seq<ParsedStmt> = Seq::empty();
        let ghost mut noted: Seq<Seq<char>> = Seq::empty();
        let mut stmts: Vec<Statement> = Vec::new();
        let mut error = false;
        while !self.match_cur(TokenType::EOF)
            invariant
                self.wf(),
                self.stream@ == ts,
                parse_all(ts, i0) == (done + parse_all(ts, self.index@).0, noted + parse_all(
                    ts,
                    self.index@,
                ).1),
                self.diagnostics() == d0 + noted,
                stmts@.len() == done.len(),
                forall|k: int| 0 <= k < done.len() ==> built_from(#[trigger] stmts@[k], done[k]),
                error == has_invalid(done),
            decreases ts.len() + 1 - self.index@,
        {
            let ghost i = self.index@;
            let ghost step = parse_stmt(ts, i);
            proof {
                lemma_parse_stmt_moves(ts, i);
            }
            let st = self.stmt();
            if st.is_invalid() {
                error = true;
            }
            stmts.push(st);
            self.next_token();
            proof {
                let rest = parse_all(ts, step.1 + 1);
                assert(parse_all(ts, i) == (seq![step.0] + rest.0, step.2 + rest.1));
                assert(done + (seq![step.0] + rest.0) =~= done.push(step.0) + rest.0);
                assert(noted + (step.2 + rest.1) =~= (noted + step.2) + rest.1);
                assert(d0 + noted + step.2 =~= d0 + (noted + step.2));
                let nd = done.push(step.0);
                assert(nd[done.len() as int] == step.0);
                if has_invalid(done) {
                    let k = choose|k: int| 0 <= k < done.len() && (#[trigger] done[k]).0 == StmtKind::Invalid;
                    assert(nd[k] == done[k]);
                }
                if has_invalid(nd) && !has_invalid(done) {
                    let k = choose|k: int| 0 <= k < nd.len() && (#[trigger] nd[k]).0 == StmtKind::Invalid;
                    if k < done.len() {
                        assert(nd[k] == done[k]);
                    }
                }
                done = nd;
                noted = noted + step.2;
            }
        }
        assert(done + Seq::<ParsedStmt>::empty() =~= done);
        assert(noted + Seq::<Seq<char>>::empty() =~= noted);
        if error {
            return Err(join_errors(&self.errors));
        }
        Ok(Program::new(stmts))
    }

    /// The diagnostics recorded so far, in order.
    pub fn errors(&self) -> (r: &Vec<String>)
        ensures
            r@.map_values(|e: String| e@) == self.diagnostics(),
    {
        &self.errors
    }
}

} // verus!
