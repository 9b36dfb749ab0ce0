//! The scanner: what one scan of a byte source yields, and the scanner that
//! performs it.
use crate::token::{keyword_kind, kind_text, Token, TokenType};
use vstd::prelude::*;

verus! {

/// ASCII whitespace: space, tab, line feed, form feed, carriage return.
pub open spec fn is_space(b: u8) -> bool {
    b == 32 || b == 9 || b == 10 || b == 12 || b == 13
}

/// An ASCII letter or an underscore.
pub open spec fn is_letter(b: u8) -> bool {
    (97 <= b && b <= 122) || (65 <= b && b <= 90) || b == 95
}

pub open spec fn is_digit(b: u8) -> bool {
    48 <= b && b <= 57
}

/// Bytes read as the characters with the same codes.
pub open spec fn chars_of(b: Seq<u8>) -> Seq<char> {
    b.map_values(|x: u8| x as char)
}

/// The decimal digits of `n`.
pub open spec fn decimal(n: nat) -> Seq<char>
    decreases n,
{
    if n < 10 {
        seq![(48 + n) as char]
    } else {
        decimal(n / 10) + seq![(48 + n % 10) as char]
    }
}

/// The first position at or after `i` that does not hold whitespace.
pub open spec fn skip_space(s: Seq<u8>, i: nat) -> nat
    decreases s.len() - i,
{
    if i < s.len() && is_space(s[i as int]) {
        skip_space(s, i + 1)
    } else {
        i
    }
}

/// The end of the run of letters that starts at `i`.
pub open spec fn letters_end(s: Seq<u8>, i: nat) -> nat
    decreases s.len() - i,
{
    if i < s.len() && is_letter(s[i as int]) {
        letters_end(s, i + 1)
    } else {
        i
    }
}

/// The end of the run of digits that starts at `i`.
pub open spec fn digits_end(s: Seq<u8>, i: nat) -> nat
    decreases s.len() - i,
{
    if i < s.len() && is_digit(s[i as int]) {
        digits_end(s, i + 1)
    } else {
        i
    }
}

/// The kind of a byte that is a token on its own, if it is one.
pub open spec fn single_kind(b: u8) -> Option<TokenType> {
    if b == 59 {
        Some(TokenType::SEMICOLON)
    } else if b == 40 {
        Some(TokenType::LPAREN)
    } else if b == 41 {
        Some(TokenType::RPAREN)
    } else if b == 44 {
        Some(TokenType::COMMA)
    } else if b == 43 {
        Some(TokenType::PLUS)
    } else if b == 45 {
        Some(TokenType::MINUS)
    } else if b == 42 {
        Some(TokenType::ASTERISK)
    } else if b == 47 {
        Some(TokenType::SLASH)
    } else if b == 60 {
        Some(TokenType::LT)
    } else if b == 62 {
        Some(TokenType::GT)
    } else if b == 123 {
        Some(TokenType::LBRACE)
    } else if b == 125 {
        Some(TokenType::RBRACE)
    } else {
        None
    }
}

/// The token that a scan of `s` from position `i` yields: its kind, its
/// literal, and the position where the next scan starts.
pub open spec fn scan(s: Seq<u8>, i: nat) -> (TokenType, Seq<char>, nat) {
    let j = skip_space(s, i);
    if j >= s.len() {
        (TokenType::EOF, Seq::empty(), j)
    } else {
        let c = s[j as int];
        let two = j + 1 < s.len() && s[j + 1int] == 61u8;
        if c == 61u8 {
            if two {
                (TokenType::EQ, kind_text(TokenType::EQ), j + 2)
            } else {
                (TokenType::ASSIGN, kind_text(TokenType::ASSIGN), j + 1)
            }
        } else if c == 33u8 {
            if two {
                (TokenType::NOT_EQ, kind_text(TokenType::NOT_EQ), j + 2)
            } else {
                (TokenType::BANG, kind_text(TokenType::BANG), j + 1)
            }
        } else if single_kind(c) is Some {
            let k = single_kind(c)->Some_0;
            (k, kind_text(k), j + 1)
        } else if is_letter(c) {
            let w = chars_of(s.subrange(j as int, letters_end(s, j) as int));
            (keyword_kind(w), w, letters_end(s, j))
        } else if is_digit(c) {
            (TokenType::INT, chars_of(s.subrange(j as int, digits_end(s, j) as int)), digits_end(s, j))
        } else {
            (TokenType::ILLEGAL, decimal(c as nat), j + 1)
        }
    }
}

/// Relies on `String::from_utf8`: a byte string of ASCII codes is valid
/// UTF-8, and each byte becomes the character with the same code.
#[verifier::external_body]
fn ascii_string(b: Vec<u8>) -> (r: String)
    requires
        forall|k: int| 0 <= k < b@.len() ==> b@[k] < 128,
    ensures
        r@ == chars_of(b@),
{
    String::from_utf8(b).unwrap_or_default()
}

fn space_byte(b: u8) -> (r: bool)
    ensures
        r == is_space(b),
{
    b == 32 || b == 9 || b == 10 || b == 12 || b == 13
}

fn letter_byte(b: u8) -> (r: bool)
    ensures
        r == is_letter(b),
{
    (97 <= b && b <= 122) || (65 <= b && b <= 90) || b == 95
}

fn digit_byte(b: u8) -> (r: bool)
    ensures
        r == is_digit(b),
{
    48 <= b && b <= 57
}

fn single_byte(b: u8) -> (r: Option<TokenType>)
    ensures
        r == single_kind(b),
{
    match b {
        59 => Some(TokenType::SEMICOLON),
        40 => Some(TokenType::LPAREN),
        41 => Some(TokenType::RPAREN),
        44 => Some(TokenType::COMMA),
        43 => Some(TokenType::PLUS),
        45 => Some(TokenType::MINUS),
        42 => Some(TokenType::ASTERISK),
        47 => Some(TokenType::SLASH),
        60 => Some(TokenType::LT),
        62 => Some(TokenType::GT),
        123 => Some(TokenType::LBRACE),
        125 => Some(TokenType::RBRACE),
        _ => None,
    }
}

/// The decimal text of a byte value.
fn decimal_text(b: u8) -> (r: String)
    ensures
        r@ == decimal(b as nat),
{
    let mut v: Vec<u8> = Vec::new();
    if b >= 100 {
        v.push(48 + b / 100);
    }
    if b >= 10 {
        v.push(48 + (b / 10) % 10);
    }
    v.push(48 + b % 10);
    proof {
        let n = b as nat;
        if n >= 100 {
            assert(decimal(n / 100) == seq![(48 + n / 100) as char]);
            assert(decimal(n / 10) == decimal(n / 100) + seq![(48 + (n / 10) % 10) as char]);
            assert(decimal(n) == decimal(n / 10) + seq![(48 + n % 10) as char]);
        } else if n >= 10 {
            assert(decimal(n / 10) == seq![(48 + n / 10) as char]);
        }
        assert(chars_of(v@) =~= decimal(n));
    }
    ascii_string(v)
}

/// A scanner over a byte source held in memory.
pub struct Lexer {
    input: Vec<u8>,
    pos: usize,
}

impl Lexer {
    /// The bytes being scanned.
    pub closed spec fn source(&self) -> Seq<u8> {
        self.input@
    }

    /// The position where the next scan starts.
    pub closed spec fn position(&self) -> nat {
        self.pos as nat
    }

    /// A scanner positioned at the first byte of `source`.
    pub fn new(source: Vec<u8>) -> (l: Lexer)
        ensures
            l.source() == source@,
            l.position() == 0,
    {
        Lexer { input: source, pos: 0 }
    }

    /// Scans the next token. At the end of the source this is `EOF`, on
    /// every call from then on.
    pub fn next_token(&mut self) -> (t: Token)
        ensures
            final(self).source() == old(self).source(),
            (t@.0, t@.1, final(self).position()) == scan(old(self).source(), old(self).position()),
    {
        let ghost s = self.input@;
        let ghost i0 = self.pos as nat;
        let len = self.input.len();
        while self.pos < len && space_byte(self.input[self.pos])
            invariant
                self.input@ == s,
                len == s.len(),
                skip_space(s, i0) == skip_space(s, self.pos as nat),
            decreases len - self.pos,
        {
            self.pos = self.pos + 1;
        }
        if self.pos >= len {
            proof {
                reveal_strlit("");
            }
            return Token::new(TokenType::EOF, "");
        }
        let c = self.input[self.pos];
        let two = self.pos + 1 < len && self.input[self.pos + 1] == 61u8;
        if c == 61u8 {
            if two {
                self.pos = self.pos + 2;
                Token::new(TokenType::EQ, TokenType::EQ.name())
            } else {
                self.pos = self.pos + 1;
                Token::new(TokenType::ASSIGN, TokenType::ASSIGN.name())
            }
        } else if c == 33u8 {
            if two {
                self.pos = self.pos + 2;
                Token::new(TokenType::NOT_EQ, TokenType::NOT_EQ.name())
            } else {
                self.pos = self.pos + 1;
                Token::new(TokenType::BANG, TokenType::BANG.name())
            }
        } else if let Some(k) = single_byte(c) {
            self.pos = self.pos + 1;
            Token::new(k, k.name())
        } else if letter_byte(c) {
            let w = self.read_ident();
            Token::new_identifier(w.as_str())
        } else if digit_byte(c) {
            let w = self.read_number();
            Token::new_number(w.as_str())
        } else {
            self.pos = self.pos + 1;
            let w = decimal_text(c);
            Token::new(TokenType::ILLEGAL, w.as_str())
        }
    }

    /// Reads the run of letters that starts at the current position.
    fn read_ident(&mut self) -> (w: String)
        requires
            old(self).position() < old(self).source().len(),
            is_letter(old(self).source()[old(self).position() as int]),
        ensures
            final(self).source() == old(self).source(),
            final(self).position() == letters_end(old(self).source(), old(self).position()),
            w@ == chars_of(
                old(self).source().subrange(old(self).position() as int, final(self).position() as int),
            ),
    {
        let ghost s = self.input@;
        let start = self.pos;
        let mut bytes: Vec<u8> = Vec::new();
        while self.pos < self.input.len() && letter_byte(self.input[self.pos])
            invariant
                self.input@ == s,
                start <= self.pos <= s.len(),
                letters_end(s, start as nat) == letters_end(s, self.pos as nat),
                bytes@ == s.subrange(start as int, self.pos as int),
                forall|k: int| 0 <= k < bytes@.len() ==> is_letter(#[trigger] bytes@[k]),
            decreases s.len() - self.pos,
        {
            bytes.push(self.input[self.pos]);
            self.pos = self.pos + 1;
            assert(bytes@ =~= s.subrange(start as int, self.pos as int));
        }
        ascii_string(bytes)
    }

    /// Reads the run of digits that starts at the current position.
    fn read_number(&mut self) -> (w: String)
        requires
            old(self).position() < old(self).source().len(),
            is_digit(old(self).source()[old(self).position() as int]),
        ensures
            final(self).source() == old(self).source(),
            final(self).position() == digits_end(old(self).source(), old(self).position()),
            w@ == chars_of(
                old(self).source().subrange(old(self).position() as int, final(self).position() as int),
            ),
    {
        let ghost s = self.input@;
        let start = self.pos;
        let mut bytes: Vec<u8> = Vec::new();
        while self.pos < self.input.len() && digit_byte(self.input[self.pos])
            invariant
                self.input@ == s,
                start <= self.pos <= s.len(),
                digits_end(s, start as nat) == digits_end(s, self.pos as nat),
                bytes@ == s.subrange(start as int, self.pos as int),
                forall|k: int| 0 <= k < bytes@.len() ==> is_digit(#[trigger] bytes@[k]),
            decreases s.len() - self.pos,
        {
            bytes.push(self.input[self.pos]);
            self.pos = self.pos + 1;
            assert(bytes@ =~= s.subrange(start as int, self.pos as int));
        }
        ascii_string(bytes)
    }
}

/// A token as the contracts see it: its kind and its literal.
pub type TokenView = (TokenType, Seq<char>);

/// The token that stands past the end of every stream.
pub open spec fn end_token() -> TokenView {
    (TokenType::EOF, Seq::empty())
}

pub proof fn lemma_skip_space_bounds(s: Seq<u8>, i: nat)
    ensures
        i <= skip_space(s, i),
        i <= s.len() ==> skip_space(s, i) <= s.len(),
        i >= s.len() ==> skip_space(s, i) == i,
    decreases s.len() - i,
{
    if i < s.len() && is_space(s[i as int]) {
        lemma_skip_space_bounds(s, i + 1);
    }
}

pub proof fn lemma_letters_end_bounds(s: Seq<u8>, i: nat)
    ensures
        i <= letters_end(s, i),
        i <= s.len() ==> letters_end(s, i) <= s.len(),
        i < s.len() && is_letter(s[i as int]) ==> i < letters_end(s, i),
    decreases s.len() - i,
{
    if i < s.len() && is_letter(s[i as int]) {
        lemma_letters_end_bounds(s, i + 1);
    }
}

pub proof fn lemma_digits_end_bounds(s: Seq<u8>, i: nat)
    ensures
        i <= digits_end(s, i),
        i <= s.len() ==> digits_end(s, i) <= s.len(),
        i < s.len() && is_digit(s[i as int]) ==> i < digits_end(s, i),
    decreases s.len() - i,
{
    if i < s.len() && is_digit(s[i as int]) {
        lemma_digits_end_bounds(s, i + 1);
    }
}

/// A scan that finds a token moves forward and stays within the source; one
/// that finds the end stays at the end.
pub proof fn lemma_scan_moves(s: Seq<u8>, i: nat)
    ensures
        scan(s, i).0 != TokenType::EOF ==> i < scan(s, i).2 <= s.len(),
        scan(s, i).0 == TokenType::EOF ==> {
            &&& scan(s, i).1 == Seq::<char>::empty()
            &&& scan(s, scan(s, i).2) == scan(s, i)
        },
{
    lemma_skip_space_bounds(s, i);
    let j = skip_space(s, i);
    if j < s.len() {
        lemma_letters_end_bounds(s, j);
        lemma_digits_end_bounds(s, j);
    } else {
        lemma_skip_space_bounds(s, j);
    }
}

/// Every token that successive scans yield from position `i`, up to and
/// including the first `EOF`.
pub open spec fn tokens_from(s: Seq<u8>, i: nat) -> Seq<TokenView>
    decreases s.len() - i,
    via tokens_from_decreases
{
    let t = scan(s, i);
    if t.0 == TokenType::EOF {
        seq![(t.0, t.1)]
    } else {
        seq![(t.0, t.1)] + tokens_from(s, t.2)
    }
}

#[via_fn]
proof fn tokens_from_decreases(s: Seq<u8>, i: nat) {
    lemma_scan_moves(s, i);
}

/// A stream ends with the end token and holds no `EOF` before it.
pub open spec fn well_ended(ts: Seq<TokenView>) -> bool {
    &&& ts.len() > 0
    &&& ts.last() == end_token()
    &&& forall|k: int| 0 <= k < ts.len() - 1 ==> (#[trigger] ts[k]).0 != TokenType::EOF
}

pub proof fn lemma_tokens_well_ended(s: Seq<u8>, i: nat)
    ensures
        well_ended(tokens_from(s, i)),
    decreases s.len() - i,
{
    lemma_scan_moves(s, i);
    let t = scan(s, i);
    if t.0 != TokenType::EOF {
        lemma_tokens_well_ended(s, t.2);
        let rest = tokens_from(s, t.2);
        let all = tokens_from(s, i);
        assert(all == seq![(t.0, t.1)] + rest);
        assert forall|k: int| 0 <= k < all.len() - 1 implies (#[trigger] all[k]).0
            != TokenType::EOF by {
            if k > 0 {
                assert(all[k] == rest[k - 1]);
            }
        }
    }
}


pub proof fn lemma_letters_end_run(s: Seq<u8>, i: nat)
    ensures
        forall|k: int| i <= k < letters_end(s, i) ==> is_letter(#[trigger] s[k]),
        letters_end(s, i) >= s.len() || !is_letter(s[letters_end(s, i) as int]),
    decreases s.len() - i,
{
    if i < s.len() && is_letter(s[i as int]) {
        lemma_letters_end_run(s, i + 1);
    }
}

pub proof fn lemma_digits_end_run(s: Seq<u8>, i: nat)
    ensures
        forall|k: int| i <= k < digits_end(s, i) ==> is_digit(#[trigger] s[k]),
        digits_end(s, i) >= s.len() || !is_digit(s[digits_end(s, i) as int]),
    decreases s.len() - i,
{
    if i < s.len() && is_digit(s[i as int]) {
        lemma_digits_end_run(s, i + 1);
    }
}

/// A maximal run of digits scans to exactly one `INT` token, whose literal
/// is the run itself; the next scan starts right after the run.
pub proof fn lemma_digit_run(s: Seq<u8>, i: nat)
    requires
        skip_space(s, i) < s.len(),
        is_digit(s[skip_space(s, i) as int]),
    ensures
        ({
            let j = skip_space(s, i);
            let e = scan(s, i).2;
            &&& j < e <= s.len()
            &&& forall|k: int| j <= k < e ==> is_digit(#[trigger] s[k])
            &&& (e == s.len() || !is_digit(s[e as int]))
            &&& scan(s, i).0 == TokenType::INT
            &&& scan(s, i).1 == chars_of(s.subrange(j as int, e as int))
        }),
{
    let j = skip_space(s, i);
    lemma_digits_end_bounds(s, j);
    lemma_digits_end_run(s, j);
}

/// A maximal run of letters and underscores scans to exactly one token,
/// whose literal is the run itself and whose kind is the keyword's kind
/// where the run spells a keyword, `IDENT` otherwise.
pub proof fn lemma_word_run(s: Seq<u8>, i: nat)
    requires
        skip_space(s, i) < s.len(),
        is_letter(s[skip_space(s, i) as int]),
    ensures
        ({
            let j = skip_space(s, i);
            let e = scan(s, i).2;
            let w = chars_of(s.subrange(j as int, e as int));
            &&& j < e <= s.len()
            &&& forall|k: int| j <= k < e ==> is_letter(#[trigger] s[k])
            &&& (e == s.len() || !is_letter(s[e as int]))
            &&& scan(s, i).0 == keyword_kind(w)
            &&& scan(s, i).1 == w
        }),
{
    let j = skip_space(s, i);
    lemma_letters_end_bounds(s, j);
    lemma_letters_end_run(s, j);
}

/// The bytes `= + ( ) { } , ;`.
pub open spec fn is_punct(b: u8) -> bool {
    b == 61 || b == 43 || b == 40 || b == 41 || b == 123 || b == 125 || b == 44 || b == 59
}

/// The token that a byte of `= + ( ) { } , ;` stands for on its own.
pub open spec fn punct_token(b: u8) -> TokenView {
    if b == 61 {
        (TokenType::ASSIGN, seq![b as char])
    } else {
        (single_kind(b)->Some_0, seq![b as char])
    }
}

/// A source made of `= + ( ) { } , ;` alone, where no `=` directly
/// follows another (`==` is one token), scans to one token per byte, with
/// that byte as its literal, and then to `EOF` on every further scan.
pub proof fn lemma_punctuation_scans(s: Seq<u8>)
    requires
        forall|k: int| 0 <= k < s.len() ==> is_punct(#[trigger] s[k]),
        forall|k: int| 0 <= k < s.len() - 1 && #[trigger] s[k] == 61 ==> s[k + 1] != 61,
    ensures
        forall|k: int|
            0 <= k < s.len() ==> #[trigger] scan(s, k as nat) == (
                punct_token(s[k]).0,
                punct_token(s[k]).1,
                (k + 1) as nat,
            ),
        scan(s, s.len()) == (TokenType::EOF, Seq::<char>::empty(), s.len()),
        tokens_from(s, 0) == s.map_values(|b: u8| punct_token(b)).push(end_token()),
{
    assert forall|k: int| 0 <= k < s.len() implies #[trigger] scan(s, k as nat) == (
        punct_token(s[k]).0,
        punct_token(s[k]).1,
        (k + 1) as nat,
    ) by {
        lemma_punct_scan(s, k as nat);
    }
    lemma_punct_tokens(s, 0);
    assert(s.subrange(0, s.len() as int) =~= s);
}

proof fn lemma_punct_scan(s: Seq<u8>, i: nat)
    requires
        i < s.len(),
        is_punct(s[i as int]),
        i + 1 < s.len() && s[i as int] == 61 ==> s[i + 1int] != 61,
    ensures
        scan(s, i) == (punct_token(s[i as int]).0, punct_token(s[i as int]).1, i + 1),
{
    reveal_strlit("=");
    reveal_strlit("+");
    reveal_strlit("(");
    reveal_strlit(")");
    reveal_strlit("{");
    reveal_strlit("}");
    reveal_strlit(",");
    reveal_strlit(";");
    let b = s[i as int];
    assert(skip_space(s, i) == i);
    assert(kind_text(punct_token(b).0) =~= seq![b as char]);
}

proof fn lemma_punct_tokens(s: Seq<u8>, i: nat)
    requires
        i <= s.len(),
        forall|k: int| 0 <= k < s.len() ==> is_punct(#[trigger] s[k]),
        forall|k: int| 0 <= k < s.len() - 1 && #[trigger] s[k] == 61 ==> s[k + 1] != 61,
    ensures
        tokens_from(s, i) == s.subrange(i as int, s.len() as int).map_values(
            |b: u8| punct_token(b),
        ).push(end_token()),
    decreases s.len() - i,
{
    if i < s.len() {
        lemma_punct_scan(s, i);
        lemma_punct_tokens(s, i + 1);
        assert(s.subrange(i as int, s.len() as int).map_values(|b: u8| punct_token(b)).push(
            end_token(),
        ) =~= seq![punct_token(s[i as int])] + s.subrange(i + 1int, s.len() as int).map_values(
            |b: u8| punct_token(b),
        ).push(end_token()));
    } else {
        assert(s.subrange(i as int, s.len() as int).map_values(|b: u8| punct_token(b)).push(
            end_token(),
        ) =~= seq![end_token()]);
    }
}

} // verus!
