//! Token kinds, the keyword table, and the token value.
use vstd::prelude::*;
use vstd::utf8::{decode_utf8, encode_utf8};

verus! {

/// The closed set of lexical categories.
#[allow(non_camel_case_types)]
#[derive(Copy, Clone, Debug, PartialEq, Eq, Structural)]
pub enum TokenType {
    ILLEGAL,
    EOF,
    // Identifier + Literals
    IDENT,
    INT,
    // Operators
    ASSIGN,
    PLUS,
    MINUS,
    BANG,
    ASTERISK,
    SLASH,
    LT,
    GT,
    EQ,
    NOT_EQ,
    // Delimiters
    COMMA,
    SEMICOLON,
    LPAREN,
    RPAREN,
    LBRACE,
    RBRACE,
    // Keywords
    FUNCTION,
    LET,
    TRUE,
    FALSE,
    IF,
    ELSE,
    RETURN,
}

/// The display string of a kind: the symbol of an operator or delimiter,
/// the upper-case name of a keyword or category.
pub open spec fn kind_text(t: TokenType) -> Seq<char> {
    match t {
        TokenType::ILLEGAL => "ILLEGAL"@,
        TokenType::EOF => "EOF"@,
        TokenType::IDENT => "IDENT"@,
        TokenType::INT => "INT"@,
        TokenType::ASSIGN => "="@,
        TokenType::PLUS => "+"@,
        TokenType::MINUS => "-"@,
        TokenType::BANG => "!"@,
        TokenType::ASTERISK => "*"@,
        TokenType::SLASH => "/"@,
        TokenType::LT => "<"@,
        TokenType::GT => ">"@,
        TokenType::EQ => "=="@,
        TokenType::NOT_EQ => "!="@,
        TokenType::COMMA => ","@,
        TokenType::SEMICOLON => ";"@,
        TokenType::LPAREN => "("@,
        TokenType::RPAREN => ")"@,
        TokenType::LBRACE => "{"@,
        TokenType::RBRACE => "}"@,
        TokenType::FUNCTION => "FUNCTION"@,
        TokenType::LET => "LET"@,
        TokenType::TRUE => "TRUE"@,
        TokenType::FALSE => "FALSE"@,
        TokenType::IF => "IF"@,
        TokenType::ELSE => "ELSE"@,
        TokenType::RETURN => "RETURN"@,
    }
}

impl TokenType {
    /// The display string of this kind, as used in diagnostics.
    pub fn name(&self) -> (r: &'static str)
        ensures
            r@ == kind_text(*self),
    {
        match self {
            TokenType::ILLEGAL => "ILLEGAL",
            TokenType::EOF => "EOF",
            TokenType::IDENT => "IDENT",
            TokenType::INT => "INT",
            TokenType::ASSIGN => "=",
            TokenType::PLUS => "+",
            TokenType::MINUS => "-",
            TokenType::BANG => "!",
            TokenType::ASTERISK => "*",
            TokenType::SLASH => "/",
            TokenType::LT => "<",
            TokenType::GT => ">",
            TokenType::EQ => "==",
            TokenType::NOT_EQ => "!=",
            TokenType::COMMA => ",",
            TokenType::SEMICOLON => ";",
            TokenType::LPAREN => "(",
            TokenType::RPAREN => ")",
            TokenType::LBRACE => "{",
            TokenType::RBRACE => "}",
            TokenType::FUNCTION => "FUNCTION",
            TokenType::LET => "LET",
            TokenType::TRUE => "TRUE",
            TokenType::FALSE => "FALSE",
            TokenType::IF => "IF",
            TokenType::ELSE => "ELSE",
            TokenType::RETURN => "RETURN",
        }
    }
}

/// The kind that an identifier-shaped word gets: a keyword's own kind
/// where the word spells that keyword exactly, `IDENT` otherwise.
pub open spec fn keyword_kind(w: Seq<char>) -> TokenType {
    if w == "let"@ {
        TokenType::LET
    } else if w == "fn"@ {
        TokenType::FUNCTION
    } else if w == "true"@ {
        TokenType::TRUE
    } else if w == "false"@ {
        TokenType::FALSE
    } else if w == "if"@ {
        TokenType::IF
    } else if w == "else"@ {
        TokenType::ELSE
    } else if w == "return"@ {
        TokenType::RETURN
    } else {
        TokenType::IDENT
    }
}

/// A classified piece of source text: its kind and its literal text.
#[derive(Clone, Debug)]
pub struct Token {
    pub typ: TokenType,
    pub lit: String,
}

impl View for Token {
    type V = (TokenType, Seq<char>);

    open spec fn view(&self) -> (TokenType, Seq<char>) {
        (self.typ, self.lit@)
    }
}

/// Whether two byte strings hold the same bytes.
fn same_bytes(a: &[u8], b: &[u8]) -> (r: bool)
    ensures
        r == (a@ == b@),
{
    if a.len() != b.len() {
        return false;
    }
    let mut i: usize = 0;
    while i < a.len()
        invariant
            a@.len() == b@.len(),
            i <= a@.len(),
            forall|k: int| 0 <= k < i ==> a@[k] == b@[k],
        decreases a@.len() - i,
    {
        if a[i] != b[i] {
            return false;
        }
        i = i + 1;
    }
    assert(a@ =~= b@);
    true
}

/// Whether `s` spells the word `w` exactly.
fn spells(s: &str, w: &str) -> (r: bool)
    ensures
        r == (s@ == w@),
{
    broadcast use vstd::utf8::encode_utf8_decode_utf8;

    let r = same_bytes(s.as_bytes(), w.as_bytes());
    if r {
        assert(decode_utf8(encode_utf8(s@)) == s@);
        assert(decode_utf8(encode_utf8(w@)) == w@);
    }
    r
}

impl Token {
    pub fn new(typ: TokenType, lit: &str) -> (t: Token)
        ensures
            t@ == (typ, lit@),
    {
        Token { typ: typ, lit: lit.to_owned() }
    }

    /// Classifies an identifier-shaped word through the keyword table.
    pub fn new_identifier(s: &str) -> (t: Token)
        ensures
            t@ == (keyword_kind(s@), s@),
    {
        let typ = if spells(s, "let") {
            TokenType::LET
        } else if spells(s, "fn") {
            TokenType::FUNCTION
        } else if spells(s, "true") {
            TokenType::TRUE
        } else if spells(s, "false") {
            TokenType::FALSE
        } else if spells(s, "if") {
            TokenType::IF
        } else if spells(s, "else") {
            TokenType::ELSE
        } else if spells(s, "return") {
            TokenType::RETURN
        } else {
            TokenType::IDENT
        };
        Token { typ: typ, lit: s.to_owned() }
    }

    /// An integer token for a run of digits.
    pub fn new_number(s: &str) -> (t: Token)
        ensures
            t@ == (TokenType::INT, s@),
    {
        Token { typ: TokenType::INT, lit: s.to_owned() }
    }

    /// A copy of this token with the same kind and literal.
    pub fn duplicate(&self) -> (t: Token)
        ensures
            t@ == self@,
    {
        Token { typ: self.typ, lit: self.lit.clone() }
    }
}

} // verus!
