//! What the parser makes of the text that a parsed program renders to.
use crate::ast::{invalid_expr_text, stmt_text, stmts_text, Statement};
use crate::lexer::{
    chars_of, digits_end, end_token, is_digit, is_letter, is_space, lemma_scan_moves,
    lemma_skip_space_bounds, letters_end, scan, skip_space, tokens_from, TokenView,
};
use crate::parser::{
    built_from, has_invalid, lemma_parse_stmt_moves, parse_all, parse_stmt, skip_to_end, tk,
    StmtKind,
};
use crate::token::{keyword_kind, kind_text, TokenType};
use vstd::prelude::*;
use vstd::utf8::{
    char_is_scalar, char_u32_cast, encode_scalar, encode_utf8, has_width_1_encoding,
    is_ascii_chars, is_ascii_chars_encode_utf8,
};

verus! {

proof fn lemma_byte_with_high_bits(y: u8)
    ensures
        (0x80u8 | y) != 59u8,
        (0xC0u8 | y) != 59u8,
        (0xE0u8 | y) != 59u8,
        (0xF0u8 | y) != 59u8,
{
    assert((0x80u8 | y) != 59u8) by (bit_vector);
    assert((0xC0u8 | y) != 59u8) by (bit_vector);
    assert((0xE0u8 | y) != 59u8) by (bit_vector);
    assert((0xF0u8 | y) != 59u8) by (bit_vector);
}

proof fn lemma_one_byte_code(v: u32)
    requires
        v <= 0x7F,
        ((v & 0x7F) as u8) == 59u8,
    ensures
        v == 59,
{
    assert(v == 59) by (bit_vector)
        requires
            v <= 0x7F,
            ((v & 0x7F) as u8) == 59u8,
    ;
}

/// Only `;` encodes to a byte sequence that holds the byte of `;`.
proof fn lemma_scalar_no_semicolon(c: char)
    requires
        c != ';',
    ensures
        forall|k: int| 0 <= k < encode_scalar(c as u32).len() ==> #[trigger] encode_scalar(c as u32)[k] != 59u8,
{
    let v = c as u32;
    char_is_scalar(c);
    char_u32_cast(c, v);
    if has_width_1_encoding(v) {
        if ((v & 0x7F) as u8) == 59u8 {
            lemma_one_byte_code(v);
            assert(c == (59u32 as char));
        }
    } else {
        lemma_byte_with_high_bits(((v >> 6) & 0x1F) as u8);
        lemma_byte_with_high_bits(((v >> 12) & 0x0F) as u8);
        lemma_byte_with_high_bits(((v >> 18) & 0x7) as u8);
        lemma_byte_with_high_bits((v & 0x3F) as u8);
        lemma_byte_with_high_bits(((v >> 6) & 0x3F) as u8);
        lemma_byte_with_high_bits(((v >> 12) & 0x3F) as u8);
    }
}

/// Text without `;` encodes to bytes without the byte of `;`.
proof fn lemma_encode_no_semicolon(cs: Seq<char>)
    requires
        forall|k: int| 0 <= k < cs.len() ==> cs[k] != ';',
    ensures
        forall|k: int| 0 <= k < encode_utf8(cs).len() ==> #[trigger] encode_utf8(cs)[k] != 59u8,
    decreases cs.len(),
{
    if cs.len() > 0 {
        lemma_scalar_no_semicolon(cs[0]);
        lemma_encode_no_semicolon(cs.drop_first());
        let a = encode_scalar(cs[0] as u32);
        let b = encode_utf8(cs.drop_first());
        assert forall|k: int| 0 <= k < encode_utf8(cs).len() implies #[trigger] encode_utf8(cs)[k] != 59u8 by {
            if k < a.len() {
                assert(encode_utf8(cs)[k] == a[k]);
            } else {
                assert(encode_utf8(cs)[k] == b[k - a.len()]);
            }
        }
    }
}

/// Encoding distributes over concatenation.
proof fn lemma_encode_concat(a: Seq<char>, b: Seq<char>)
    ensures
        encode_utf8(a + b) == encode_utf8(a) + encode_utf8(b),
    decreases a.len(),
{
    if a.len() == 0 {
        assert(a + b =~= b);
        assert(encode_utf8(a) + encode_utf8(b) =~= encode_utf8(b));
    } else {
        assert((a + b).drop_first() =~= a.drop_first() + b);
        assert((a + b)[0] == a[0]);
        lemma_encode_concat(a.drop_first(), b);
        assert(encode_utf8(a + b) =~= encode_utf8(a) + encode_utf8(b));
    }
}

proof fn lemma_skip_space_shift(a: Seq<u8>, r: Seq<u8>, p: nat)
    ensures
        skip_space(a + r, a.len() + p) == a.len() + skip_space(r, p),
    decreases r.len() - p,
{
    let s = a + r;
    if p < r.len() {
        assert(s[(a.len() + p) as int] == r[p as int]);
        if is_space(r[p as int]) {
            lemma_skip_space_shift(a, r, p + 1);
        }
    }
}

proof fn lemma_letters_end_shift(a: Seq<u8>, r: Seq<u8>, p: nat)
    ensures
        letters_end(a + r, a.len() + p) == a.len() + letters_end(r, p),
    decreases r.len() - p,
{
    let s = a + r;
    if p < r.len() {
        assert(s[(a.len() + p) as int] == r[p as int]);
        if is_letter(r[p as int]) {
            lemma_letters_end_shift(a, r, p + 1);
        }
    }
}

proof fn lemma_digits_end_shift(a: Seq<u8>, r: Seq<u8>, p: nat)
    ensures
        digits_end(a + r, a.len() + p) == a.len() + digits_end(r, p),
    decreases r.len() - p,
{
    let s = a + r;
    if p < r.len() {
        assert(s[(a.len() + p) as int] == r[p as int]);
        if is_digit(r[p as int]) {
            lemma_digits_end_shift(a, r, p + 1);
        }
    }
}

/// Scanning past a prefix is scanning what follows it.
proof fn lemma_scan_shift(a: Seq<u8>, r: Seq<u8>, p: nat)
    ensures
        scan(a + r, a.len() + p) == (scan(r, p).0, scan(r, p).1, a.len() + scan(r, p).2),
{
    let s = a + r;
    lemma_skip_space_shift(a, r, p);
    let j = skip_space(r, p);
    if j < r.len() {
        assert(s[(a.len() + j) as int] == r[j as int]);
        if j + 1 < r.len() {
            assert(s[(a.len() + j + 1) as int] == r[j + 1int]);
        }
        lemma_letters_end_shift(a, r, j);
        lemma_digits_end_shift(a, r, j);
        lemma_skip_space_bounds(r, p);
        crate::lexer::lemma_letters_end_bounds(r, j);
        crate::lexer::lemma_digits_end_bounds(r, j);
        assert(s.subrange((a.len() + j) as int, (a.len() + letters_end(r, j)) as int) =~= r.subrange(
            j as int,
            letters_end(r, j) as int,
        ));
        assert(s.subrange((a.len() + j) as int, (a.len() + digits_end(r, j)) as int) =~= r.subrange(
            j as int,
            digits_end(r, j) as int,
        ));
    }
}

/// The tokens past a prefix are the tokens of what follows it.
proof fn lemma_tokens_shift(a: Seq<u8>, r: Seq<u8>, p: nat)
    ensures
        tokens_from(a + r, a.len() + p) == tokens_from(r, p),
    decreases r.len() - p,
{
    lemma_scan_shift(a, r, p);
    lemma_scan_moves(r, p);
    let t = scan(r, p);
    if t.0 != TokenType::EOF {
        lemma_tokens_shift(a, r, t.2);
    }
}

proof fn lemma_skip_to_end_shift(pre: Seq<(TokenType, Seq<char>)>, q: Seq<(TokenType, Seq<char>)>, i: nat)
    ensures
        skip_to_end(pre + q, pre.len() + i) == pre.len() + skip_to_end(q, i),
    decreases q.len() - i,
{
    let ts = pre + q;
    if i < q.len() {
        assert(ts[(pre.len() + i) as int] == q[i as int]);
        if q[i as int].0 != TokenType::SEMICOLON && q[i as int].0 != TokenType::EOF {
            lemma_skip_to_end_shift(pre, q, i + 1);
        }
    }
}


proof fn lemma_skip_space_upto(s: Seq<u8>, p: nat, q: nat)
    requires
        p <= q < s.len(),
        !is_space(s[q as int]),
    ensures
        skip_space(s, p) <= q,
    decreases q - p,
{
    if p < q && is_space(s[p as int]) {
        lemma_skip_space_upto(s, p + 1, q);
    }
}

proof fn lemma_letters_end_upto(s: Seq<u8>, p: nat, q: nat)
    requires
        p <= q < s.len(),
        !is_letter(s[q as int]),
    ensures
        letters_end(s, p) <= q,
    decreases q - p,
{
    if p < q && is_letter(s[p as int]) {
        lemma_letters_end_upto(s, p + 1, q);
    }
}

proof fn lemma_digits_end_upto(s: Seq<u8>, p: nat, q: nat)
    requires
        p <= q < s.len(),
        !is_digit(s[q as int]),
    ensures
        digits_end(s, p) <= q,
    decreases q - p,
{
    if p < q && is_digit(s[p as int]) {
        lemma_digits_end_upto(s, p + 1, q);
    }
}

/// Bytes from `p` up to a `;` at `q`, none of them a `;`, scan to tokens
/// that are neither `;` nor the end, then to that `;`.
proof fn lemma_scan_to_semicolon(s: Seq<u8>, p: nat, q: nat)
    requires
        p <= q < s.len(),
        s[q as int] == 59u8,
        forall|k: int| p <= k < q ==> s[k] != 59u8,
    ensures
        ({
            let ts = tokens_from(s, p);
            let k = skip_to_end(ts, 0);
            &&& k < ts.len()
            &&& ts[k as int].0 == TokenType::SEMICOLON
            &&& ts.subrange(k + 1int, ts.len() as int) == tokens_from(s, q + 1)
        }),
    decreases q - p,
{
    let ts = tokens_from(s, p);
    lemma_skip_space_upto(s, p, q);
    lemma_skip_space_bounds(s, p);
    let j = skip_space(s, p);
    lemma_scan_moves(s, p);
    if j == q {
        assert(ts.subrange(1, ts.len() as int) =~= tokens_from(s, q + 1));
    } else {
        lemma_letters_end_upto(s, j, q);
        lemma_digits_end_upto(s, j, q);
        let t = scan(s, p);
        assert(t.0 != TokenType::SEMICOLON);
        assert(t.2 <= q);
        lemma_scan_to_semicolon(s, t.2, q);
        let rest = tokens_from(s, t.2);
        let pre = seq![(t.0, t.1)];
        assert(ts == pre + rest);
        lemma_skip_to_end_shift(pre, rest, 0);
        let k = skip_to_end(ts, 0);
        assert(k == 1 + skip_to_end(rest, 0));
        assert(ts.subrange(k + 1int, ts.len() as int) =~= rest.subrange(
            skip_to_end(rest, 0) + 1int,
            rest.len() as int,
        ));
    }
}

proof fn lemma_parse_stmt_shift(pre: Seq<TokenView>, q: Seq<TokenView>, i: nat)
    ensures
        parse_stmt(pre + q, pre.len() + i) == (
            parse_stmt(q, i).0,
            pre.len() + parse_stmt(q, i).1,
            parse_stmt(q, i).2,
        ),
{
    let ts = pre + q;
    assert forall|d: nat| #[trigger] tk(ts, pre.len() + i + d) == tk(q, i + d) by {
        if i + d < q.len() {
            assert(ts[(pre.len() + i + d) as int] == q[(i + d) as int]);
        }
    }
    assert(tk(ts, pre.len() + i + 0) == tk(q, i + 0));
    assert(tk(ts, pre.len() + i + 1) == tk(q, i + 1));
    assert(tk(ts, pre.len() + i + 2) == tk(q, i + 2));
    lemma_skip_to_end_shift(pre, q, i + 1);
    lemma_skip_to_end_shift(pre, q, i + 2);
}

/// Parsing past a prefix of tokens is parsing what follows it.
proof fn lemma_parse_all_shift(pre: Seq<TokenView>, q: Seq<TokenView>, i: nat)
    ensures
        parse_all(pre + q, pre.len() + i) == parse_all(q, i),
    decreases q.len() + 1 - i,
{
    let ts = pre + q;
    if i < q.len() {
        assert(ts[(pre.len() + i) as int] == q[i as int]);
    }
    if tk(q, i).0 != TokenType::EOF {
        lemma_parse_stmt_shift(pre, q, i);
        lemma_parse_stmt_moves(q, i);
        lemma_parse_all_shift(pre, q, parse_stmt(q, i).1 + 1);
    }
}

/// The text of statements, unfolded from the front.
proof fn lemma_stmts_text_front(ss: Seq<Statement>)
    requires
        ss.len() > 0,
    ensures
        stmts_text(ss) == stmt_text(ss[0]) + "\n"@ + stmts_text(ss.drop_first()),
    decreases ss.len(),
{
    if ss.len() == 1 {
        assert(ss.drop_last() =~= Seq::<Statement>::empty());
        assert(ss.drop_first() =~= Seq::<Statement>::empty());
        assert(stmts_text(ss) =~= stmt_text(ss[0]) + "\n"@ + stmts_text(ss.drop_first()));
    } else {
        lemma_stmts_text_front(ss.drop_last());
        assert(ss.drop_last().drop_first() =~= ss.drop_first().drop_last());
        assert(ss.drop_first().last() == ss.last());
        assert(ss.drop_last()[0] == ss[0]);
        assert(stmts_text(ss) =~= stmt_text(ss[0]) + "\n"@ + stmts_text(ss.drop_first()));
    }
}


/// A character of an identifier: an ASCII letter or an underscore.
pub open spec fn is_word_char(c: char) -> bool {
    ('a' <= c && c <= 'z') || ('A' <= c && c <= 'Z') || c == '_'
}

/// A non-empty run of identifier characters.
pub open spec fn is_word(w: Seq<char>) -> bool {
    w.len() > 0 && forall|k: int| 0 <= k < w.len() ==> is_word_char(#[trigger] w[k])
}

/// A statement the parser builds that renders back to readable source: a
/// `let` binding a word that is no keyword, or a `return`, with no
/// expression parsed in either.
pub open spec fn plain_stmt(st: Statement) -> bool {
    match st {
        Statement::Let(l) => {
            &&& is_word(l.name.value@)
            &&& keyword_kind(l.name.value@) == TokenType::IDENT
            &&& l.value is Invalid
        },
        Statement::Return(r) => r.expr is Invalid,
        _ => false,
    }
}

/// The kind of outcome that a statement node stands for.
pub open spec fn stmt_kind(st: Statement) -> StmtKind {
    match st {
        Statement::Let(_) => StmtKind::Let,
        Statement::Return(_) => StmtKind::Return,
        _ => StmtKind::Invalid,
    }
}

proof fn lemma_word_bytes(w: Seq<char>)
    requires
        forall|k: int| 0 <= k < w.len() ==> is_word_char(#[trigger] w[k]),
    ensures
        encode_utf8(w).len() == w.len(),
        forall|k: int| 0 <= k < w.len() ==> is_letter(#[trigger] encode_utf8(w)[k]),
        chars_of(encode_utf8(w)) == w,
{
    assert(is_ascii_chars(w));
    is_ascii_chars_encode_utf8(w);
    assert forall|k: int| 0 <= k < w.len() implies is_letter(#[trigger] encode_utf8(w)[k]) by {
        assert(w[k] as u8 == encode_utf8(w)[k]);
    }
    assert forall|k: int| 0 <= k < w.len() implies #[trigger] chars_of(encode_utf8(w))[k] == w[k] by {
        assert(w[k] as u8 == encode_utf8(w)[k]);
    }
    assert(chars_of(encode_utf8(w)) =~= w);
}

proof fn lemma_letters_end_exact(s: Seq<u8>, i: nat, e: nat)
    requires
        i <= e <= s.len(),
        forall|k: int| i <= k < e ==> is_letter(#[trigger] s[k]),
        e == s.len() || !is_letter(s[e as int]),
    ensures
        letters_end(s, i) == e,
    decreases e - i,
{
    if i < e {
        lemma_letters_end_exact(s, i + 1, e);
    }
}

/// The bytes from a space before the placeholder expression through the
/// closing `;` and line break scan to tokens up to a `;`, then to the
/// tokens of what follows.
proof fn lemma_tail_tokens(a: Seq<u8>, r: Seq<u8>, p: nat)
    requires
        p + 3 <= a.len(),
        a[p as int] == 32u8,
        a[a.len() - 2] == 59u8,
        a[a.len() - 1] == 10u8,
        forall|k: int| p <= k < a.len() - 2 ==> a[k] != 59u8,
    ensures
        ({
            let ts = tokens_from(a + r, p);
            let k = skip_to_end(ts, 0);
            &&& k < ts.len()
            &&& ts[k as int].0 == TokenType::SEMICOLON
            &&& ts == ts.subrange(0, k + 1int) + tokens_from(r, 0)
        }),
{
    let s = a + r;
    let q = (a.len() - 2) as nat;
    assert forall|k: int| p <= k < q implies s[k] != 59u8 by {
        assert(s[k] == a[k]);
    }
    assert(s[q as int] == a[q as int]);
    lemma_scan_to_semicolon(s, p, q);
    assert(s[q + 1int] == a[q + 1int]);
    assert(skip_space(s, q + 1) == skip_space(s, q + 2));
    assert(scan(s, q + 1) == scan(s, q + 2));
    assert(tokens_from(s, q + 1) == tokens_from(s, q + 2));
    lemma_tokens_shift(a, r, 0);
    let ts = tokens_from(s, p);
    let k = skip_to_end(ts, 0);
    assert(ts =~= ts.subrange(0, k + 1int) + ts.subrange(k + 1int, ts.len() as int));
}

proof fn lemma_placeholder_bytes()
    ensures
        forall|k: int|
            0 <= k < encode_utf8(invalid_expr_text()).len() ==> #[trigger] encode_utf8(
                invalid_expr_text(),
            )[k] != 59u8,
{
    reveal_strlit("«INVALID_EXPR»");
    lemma_encode_no_semicolon(invalid_expr_text());
}


proof fn lemma_ascii_bytes(cs: Seq<char>)
    requires
        is_ascii_chars(cs),
    ensures
        encode_utf8(cs).len() == cs.len(),
        forall|k: int| 0 <= k < cs.len() ==> #[trigger] encode_utf8(cs)[k] == cs[k] as u8,
        chars_of(encode_utf8(cs)) == cs,
{
    is_ascii_chars_encode_utf8(cs);
    assert forall|k: int| 0 <= k < cs.len() implies #[trigger] chars_of(encode_utf8(cs))[k] == cs[k] by {
        assert(cs[k] as u8 == encode_utf8(cs)[k]);
    }
    assert(chars_of(encode_utf8(cs)) =~= cs);
}

/// The text of a `let` statement of a plain program, with its line break,
/// parses back to one `let` statement that binds the same name.
proof fn lemma_let_reparse(st: Statement, r: Seq<u8>)
    requires
        plain_stmt(st),
        st is Let,
    ensures
        ({
            let rest = parse_all(tokens_from(r, 0), 0);
            parse_all(tokens_from(encode_utf8(stmt_text(st) + "\n"@) + r, 0), 0) == (
                seq![(StmtKind::Let, (TokenType::LET, "let"@), (TokenType::IDENT, st->Let_0.name.value@))]
                    + rest.0,
                rest.1,
            )
        }),
{
    reveal_strlit("let ");
    reveal_strlit("let");
    reveal_strlit(" = ");
    reveal_strlit(";");
    reveal_strlit("\n");
    reveal_strlit("=");
    let l = st->Let_0;
    let w = l.name.value@;
    let x = invalid_expr_text();
    let c0 = "let "@;
    let c1 = " = "@;
    let c2 = ";"@;
    let c3 = "\n"@;
    assert(stmt_text(st) + c3 == c0 + w + c1 + x + c2 + c3);
    lemma_encode_concat(c0, w);
    lemma_encode_concat(c0 + w, c1);
    lemma_encode_concat(c0 + w + c1, x);
    lemma_encode_concat(c0 + w + c1 + x, c2);
    lemma_encode_concat(c0 + w + c1 + x + c2, c3);
    assert(is_ascii_chars(c0));
    assert(is_ascii_chars(c1));
    assert(is_ascii_chars(c2));
    assert(is_ascii_chars(c3));
    lemma_ascii_bytes(c0);
    lemma_ascii_bytes(c1);
    lemma_ascii_bytes(c2);
    lemma_ascii_bytes(c3);
    lemma_word_bytes(w);
    lemma_placeholder_bytes();
    let b0 = encode_utf8(c0);
    let bw = encode_utf8(w);
    let b1 = encode_utf8(c1);
    let bx = encode_utf8(x);
    let b2 = encode_utf8(c2);
    let b3 = encode_utf8(c3);
    let n = bw.len();
    let ni = n as int;
    let a = b0 + bw + b1 + bx + b2 + b3;
    assert(encode_utf8(stmt_text(st) + c3) == a);
    let s = a + r;
    let xl = bx.len() as int;
    assert(a.len() == 9 + n + xl);
    assert forall|k: int| 0 <= k < a.len() implies #[trigger] s[k] == a[k] by {}
    assert forall|k: int| 0 <= k < 4 implies #[trigger] a[k] == b0[k] by {}
    assert forall|k: int| 0 <= k < n implies #[trigger] a[4 + k] == bw[k] by {}
    assert forall|k: int| 0 <= k < 3 implies #[trigger] a[4 + ni + k] == b1[k] by {}
    assert forall|k: int| 0 <= k < xl implies #[trigger] a[7 + ni + k] == bx[k] by {}
    assert(a[7 + ni + xl] == b2[0]);
    assert(a[8 + ni + xl] == b3[0]);
    // "let"
    assert(s[0] == 108u8 && s[1] == 101u8 && s[2] == 116u8 && s[3] == 32u8);
    lemma_letters_end_exact(s, 0, 3);
    assert(s.subrange(0, 3) =~= b0.subrange(0, 3));
    assert(chars_of(b0.subrange(0, 3)) =~= "let"@);
    let t0 = (TokenType::LET, "let"@);
    assert(scan(s, 0) == (t0.0, t0.1, 3nat));
    // the name
    assert(skip_space(s, 4) == 4);
    assert(skip_space(s, 3) == 4);
    assert(s[4 + ni] == 32u8);
    lemma_letters_end_exact(s, 4, 4 + n);
    assert(s.subrange(4, 4 + ni) =~= bw);
    let t1 = (TokenType::IDENT, w);
    assert(scan(s, 3) == (t1.0, t1.1, 4 + n));
    // "="
    assert(s[5 + ni] == 61u8 && s[6 + ni] == 32u8);
    assert(skip_space(s, 5 + n) == 5 + n);
    assert(skip_space(s, 4 + n) == 5 + n);
    let t2 = (TokenType::ASSIGN, kind_text(TokenType::ASSIGN));
    assert(scan(s, 4 + n) == (t2.0, t2.1, 6 + n));
    // up to the ";"
    assert forall|k: int| 6 + n <= k < a.len() - 2 implies a[k] != 59u8 by {
        if k > 6 + n {
            assert(a[k] == bx[k - 7 - ni]);
        }
    }
    lemma_tail_tokens(a, r, 6 + n);
    let m = tokens_from(s, 6 + n);
    let k = skip_to_end(m, 0);
    lemma_scan_moves(s, 0);
    lemma_scan_moves(s, 3);
    lemma_scan_moves(s, 4 + n);
    assert(tokens_from(s, 4 + n) == seq![t2] + m);
    assert(tokens_from(s, 3) == seq![t1] + (seq![t2] + m));
    assert(tokens_from(s, 0) == seq![t0] + (seq![t1] + (seq![t2] + m)));
    let head = seq![t0, t1, t2];
    let ts = tokens_from(s, 0);
    assert(ts =~= head + m);
    let pre = head + m.subrange(0, k + 1int);
    let q = tokens_from(r, 0);
    assert(ts =~= pre + q);
    // parsing
    assert(tk(ts, 0) == t0);
    assert(tk(ts, 1) == t1);
    assert(tk(ts, 2) == t2);
    lemma_skip_to_end_shift(head, m, 0);
    assert(skip_to_end(ts, 2) == skip_to_end(ts, 3));
    assert(parse_stmt(ts, 0) == ((StmtKind::Let, t0, t1), 3 + k, Seq::<Seq<char>>::empty()));
    lemma_parse_all_shift(pre, q, 0);
    assert(pre.len() == 4 + k);
    let rest = parse_all(q, 0);
    assert(parse_all(ts, 0) == (seq![(StmtKind::Let, t0, t1)] + rest.0, Seq::<Seq<char>>::empty() + rest.1));
    assert(Seq::<Seq<char>>::empty() + rest.1 =~= rest.1);
}


/// The text of a `return` statement of a plain program, with its line
/// break, parses back to one `return` statement.
proof fn lemma_return_reparse(st: Statement, r: Seq<u8>)
    requires
        plain_stmt(st),
        st is Return,
    ensures
        ({
            let rest = parse_all(tokens_from(r, 0), 0);
            parse_all(tokens_from(encode_utf8(stmt_text(st) + "\n"@) + r, 0), 0) == (
                seq![(StmtKind::Return, (TokenType::RETURN, "return"@), end_token())] + rest.0,
                rest.1,
            )
        }),
{
    reveal_strlit("return ");
    reveal_strlit("return");
    reveal_strlit(";");
    reveal_strlit("\n");
    let x = invalid_expr_text();
    let c0 = "return "@;
    let c2 = ";"@;
    let c3 = "\n"@;
    assert(stmt_text(st) + c3 == c0 + x + c2 + c3);
    lemma_encode_concat(c0, x);
    lemma_encode_concat(c0 + x, c2);
    lemma_encode_concat(c0 + x + c2, c3);
    assert(is_ascii_chars(c0));
    assert(is_ascii_chars(c2));
    assert(is_ascii_chars(c3));
    lemma_ascii_bytes(c0);
    lemma_ascii_bytes(c2);
    lemma_ascii_bytes(c3);
    lemma_placeholder_bytes();
    let b0 = encode_utf8(c0);
    let bx = encode_utf8(x);
    let b2 = encode_utf8(c2);
    let b3 = encode_utf8(c3);
    let a = b0 + bx + b2 + b3;
    assert(encode_utf8(stmt_text(st) + c3) == a);
    let s = a + r;
    let xl = bx.len() as int;
    assert(a.len() == 9 + xl);
    assert forall|k: int| 0 <= k < a.len() implies #[trigger] s[k] == a[k] by {}
    assert forall|k: int| 0 <= k < 7 implies #[trigger] a[k] == b0[k] by {}
    assert forall|k: int| 0 <= k < xl implies #[trigger] a[7 + k] == bx[k] by {}
    assert(a[7 + xl] == b2[0]);
    assert(a[8 + xl] == b3[0]);
    // "return"
    assert(s[0] == 114u8 && s[1] == 101u8 && s[2] == 116u8 && s[3] == 117u8);
    assert(s[4] == 114u8 && s[5] == 110u8 && s[6] == 32u8);
    lemma_letters_end_exact(s, 0, 6);
    assert(s.subrange(0, 6) =~= b0.subrange(0, 6));
    assert(chars_of(b0.subrange(0, 6)) =~= "return"@);
    let t0 = (TokenType::RETURN, "return"@);
    reveal_strlit("let");
    reveal_strlit("fn");
    reveal_strlit("true");
    reveal_strlit("false");
    reveal_strlit("if");
    reveal_strlit("else");
    assert(keyword_kind("return"@) == TokenType::RETURN);
    assert(skip_space(s, 0) == 0);
    assert(scan(s, 0) == (t0.0, t0.1, 6nat));
    // up to the ";"
    assert forall|k: int| 6 <= k < a.len() - 2 implies a[k] != 59u8 by {
        if k > 6 {
            assert(a[k] == bx[k - 7]);
        }
    }
    lemma_tail_tokens(a, r, 6);
    let m = tokens_from(s, 6);
    let k = skip_to_end(m, 0);
    lemma_scan_moves(s, 0);
    assert(tokens_from(s, 0) == seq![t0] + m);
    let head = seq![t0];
    let ts = tokens_from(s, 0);
    let pre = head + m.subrange(0, k + 1int);
    let q = tokens_from(r, 0);
    assert(ts =~= pre + q);
    // parsing
    assert(tk(ts, 0) == t0);
    lemma_skip_to_end_shift(head, m, 0);
    assert(parse_stmt(ts, 0) == ((StmtKind::Return, t0, end_token()), 1 + k, Seq::<Seq<char>>::empty()));
    lemma_parse_all_shift(pre, q, 0);
    assert(pre.len() == 2 + k);
    let rest = parse_all(q, 0);
    assert(parse_all(ts, 0) == (seq![(StmtKind::Return, t0, end_token())] + rest.0, Seq::<Seq<char>>::empty() + rest.1));
    assert(Seq::<Seq<char>>::empty() + rest.1 =~= rest.1);
}

/// Re-parsing what a program of plain statements renders to: the bytes of
/// its text parse to as many statements, each of the same kind as the
/// statement it came from (a `let` binding the same name), with no
/// diagnostic.
pub proof fn lemma_reparse_rendered(ss: Seq<Statement>)
    requires
        forall|k: int| 0 <= k < ss.len() ==> plain_stmt(#[trigger] ss[k]),
    ensures
        ({
            let (ps, es) = parse_all(tokens_from(encode_utf8(stmts_text(ss)), 0), 0);
            &&& ps.len() == ss.len()
            &&& forall|k: int| 0 <= k < ss.len() ==> (#[trigger] ps[k]).0 == stmt_kind(ss[k])
            &&& forall|k: int|
                0 <= k < ss.len() && ss[k] is Let ==> (#[trigger] ps[k]).2.1 == ss[k]->Let_0.name.value@
            &&& es.len() == 0
        }),
    decreases ss.len(),
{
    if ss.len() == 0 {
        assert(encode_utf8(stmts_text(ss)) =~= Seq::<u8>::empty());
        let e = Seq::<u8>::empty();
        assert(skip_space(e, 0) == 0);
        assert(tokens_from(e, 0) == seq![end_token()]);
    } else {
        let rest = ss.drop_first();
        lemma_reparse_rendered(rest);
        lemma_stmts_text_front(ss);
        lemma_encode_concat(stmt_text(ss[0]) + "\n"@, stmts_text(rest));
        let r = encode_utf8(stmts_text(rest));
        assert(encode_utf8(stmts_text(ss)) == encode_utf8(stmt_text(ss[0]) + "\n"@) + r);
        if ss[0] is Let {
            lemma_let_reparse(ss[0], r);
        } else {
            lemma_return_reparse(ss[0], r);
        }
        let (ps, es) = parse_all(tokens_from(encode_utf8(stmts_text(ss)), 0), 0);
        let (ps2, es2) = parse_all(tokens_from(r, 0), 0);
        assert forall|k: int| 0 <= k < ss.len() implies (#[trigger] ps[k]).0 == stmt_kind(ss[k]) by {
            if k > 0 {
                assert(ps[k] == ps2[k - 1]);
                assert(ss[k] == rest[k - 1]);
            }
        }
        assert forall|k: int| 0 <= k < ss.len() && ss[k] is Let implies (#[trigger] ps[k]).2.1
            == ss[k]->Let_0.name.value@ by {
            if k > 0 {
                assert(ps[k] == ps2[k - 1]);
                assert(ss[k] == rest[k - 1]);
            }
        }
    }
}


/// A token that binds a name: an identifier whose literal is a word that
/// spells no keyword.
pub open spec fn name_token(t: TokenView) -> bool {
    t.0 == TokenType::IDENT && is_word(t.1) && keyword_kind(t.1) == TokenType::IDENT
}

/// Every identifier that scanning yields is a word that spells no keyword.
proof fn lemma_scanned_idents(s: Seq<u8>, i: nat)
    ensures
        forall|m: int|
            0 <= m < tokens_from(s, i).len() && (#[trigger] tokens_from(s, i)[m]).0
                == TokenType::IDENT ==> name_token(tokens_from(s, i)[m]),
    decreases s.len() - i,
{
    lemma_scan_moves(s, i);
    let t = scan(s, i);
    let j = skip_space(s, i);
    if t.0 == TokenType::IDENT {
        lemma_skip_space_bounds(s, i);
        crate::lexer::lemma_letters_end_bounds(s, j);
        crate::lexer::lemma_letters_end_run(s, j);
        let e = letters_end(s, j);
        let w = chars_of(s.subrange(j as int, e as int));
        assert forall|k: int| 0 <= k < w.len() implies is_word_char(#[trigger] w[k]) by {
            assert(is_letter(s[j + k]));
        }
    }
    if t.0 != TokenType::EOF {
        lemma_scanned_idents(s, t.2);
        let ts = tokens_from(s, i);
        assert forall|m: int| 0 <= m < ts.len() && (#[trigger] ts[m]).0 == TokenType::IDENT implies name_token(ts[m]) by {
            if m > 0 {
                assert(ts[m] == tokens_from(s, t.2)[m - 1]);
            }
        }
    }
}

/// A `let` that parsing finds binds a name token of the stream.
proof fn lemma_parsed_names(ts: Seq<TokenView>, i: nat)
    requires
        forall|m: int| 0 <= m < ts.len() && (#[trigger] ts[m]).0 == TokenType::IDENT ==> name_token(ts[m]),
    ensures
        forall|k: int|
            0 <= k < parse_all(ts, i).0.len() && (#[trigger] parse_all(ts, i).0[k]).0 == StmtKind::Let
                ==> name_token(parse_all(ts, i).0[k].2),
    decreases ts.len() + 1 - i,
{
    if tk(ts, i).0 != TokenType::EOF {
        lemma_parse_stmt_moves(ts, i);
        let (st, j, es) = parse_stmt(ts, i);
        lemma_parsed_names(ts, j + 1);
        let ps = parse_all(ts, i).0;
        let rest = parse_all(ts, j + 1).0;
        assert forall|k: int| 0 <= k < ps.len() && (#[trigger] ps[k]).0 == StmtKind::Let implies name_token(ps[k].2) by {
            if k > 0 {
                assert(ps[k] == rest[k - 1]);
            } else if i + 1 < ts.len() {
                assert(ts[i + 1int] == tk(ts, i + 1));
            }
        }
    }
}

/// Re-parsing the rendered text of a program that parsing `src` built
/// without error: the bytes of that text parse to as many statements, each
/// of the same kind as the statement it came from (a `let` binding the same
/// name), with no diagnostic.
pub proof fn lemma_reparse_parsed(src: Seq<u8>, stmts: Seq<Statement>)
    requires
        ({
            let ps = parse_all(tokens_from(src, 0), 0).0;
            &&& !has_invalid(ps)
            &&& stmts.len() == ps.len()
            &&& forall|k: int| 0 <= k < ps.len() ==> built_from(#[trigger] stmts[k], ps[k])
        }),
    ensures
        ({
            let (ps2, es2) = parse_all(tokens_from(encode_utf8(stmts_text(stmts)), 0), 0);
            &&& ps2.len() == stmts.len()
            &&& forall|k: int| 0 <= k < stmts.len() ==> (#[trigger] ps2[k]).0 == stmt_kind(stmts[k])
            &&& forall|k: int|
                0 <= k < stmts.len() && stmts[k] is Let ==> (#[trigger] ps2[k]).2.1
                    == stmts[k]->Let_0.name.value@
            &&& es2.len() == 0
        }),
{
    let ts = tokens_from(src, 0);
    let ps = parse_all(ts, 0).0;
    lemma_scanned_idents(src, 0);
    lemma_parsed_names(ts, 0);
    assert forall|k: int| 0 <= k < stmts.len() implies plain_stmt(#[trigger] stmts[k]) by {
        assert(built_from(stmts[k], ps[k]));
        if ps[k].0 == StmtKind::Invalid {
            assert(has_invalid(ps));
        }
    }
    lemma_reparse_rendered(stmts);
}

} // verus!
