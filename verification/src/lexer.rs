//! The lexer: source text to a flat token stream, in a single pass.
//! Malformed input is always a `LexError`, never a panic; the first error
//! met from left to right ends the lex.

use vstd::prelude::*;
use vstd::string::StringSliceAdditionalSpecFns;
use vstd::utf8::{decode_utf8, encode_utf8, valid_utf8, is_char_boundary};
use vstd::string::StringExecFns;
use crate::text::{append_i64, int_text};

verus! {

/// A byte-offset range into the source text, `[start, end)`.
#[derive(Debug, Clone, Copy, PartialEq, Eq, Structural)]
pub struct Span {
    pub start: usize,
    pub end: usize,
}

impl Span {
    pub fn new(start: usize, end: usize) -> (s: Self)
        ensures
            s == (Span { start, end }),
    {
        Span { start, end }
    }
}

#[derive(Debug, Clone, PartialEq, Eq)]
pub enum TokenKind {
    Ident(String),
    Int(i64),
    True,
    False,
    Let,
    Fn,
    If,
    Else,
    While,
    Return,
    And,
    Or,
    Not,
    I64,
    Bool,
    Plus,
    Minus,
    Star,
    Slash,
    Percent,
    EqEq,
    NotEq,
    Lt,
    Le,
    Gt,
    Ge,
    Eq,
    LParen,
    RParen,
    LBrace,
    RBrace,
    Comma,
    Semicolon,
    Colon,
    Arrow,
    Eof,
}

/// The mathematical content of a token kind: an identifier's characters,
/// an integer literal's value, or one of the payload-free kinds.
pub enum LexedKind {
    Ident(Seq<char>),
    Int(i64),
    Fixed(TokenKind),
}

impl View for TokenKind {
    type V = LexedKind;

    open spec fn view(&self) -> LexedKind {
        match self {
            TokenKind::Ident(s) => LexedKind::Ident(s@),
            TokenKind::Int(n) => LexedKind::Int(*n),
            _ => LexedKind::Fixed(*self),
        }
    }
}

#[derive(Debug, Clone, PartialEq, Eq)]
pub struct Token {
    pub kind: TokenKind,
    pub span: Span,
}

/// A token's kind (by its view) and span.
pub open spec fn token_view(t: Token) -> (LexedKind, Span) {
    (t.kind@, t.span)
}

pub open spec fn tokens_view(ts: Seq<Token>) -> Seq<(LexedKind, Span)> {
    ts.map_values(|t: Token| token_view(t))
}

#[derive(Debug, Clone, Copy, PartialEq, Eq, Structural)]
pub enum LexError {
    UnexpectedChar { ch: char, pos: usize },
    IntegerOverflow { pos: usize },
    LoneBang { pos: usize },
}

// ---- The token grammar, over the source's UTF-8 bytes ----

/// Bytes that `char::is_whitespace` accepts when read one byte at a time as a char.
pub open spec fn is_ws_byte(b: u8) -> bool {
    (9 <= b <= 13) || b == 32 || b == 0x85 || b == 0xa0
}

pub open spec fn is_digit_byte(b: u8) -> bool {
    48 <= b <= 57
}

pub open spec fn is_ident_start_byte(b: u8) -> bool {
    (65 <= b <= 90) || (97 <= b <= 122) || b == 95
}

pub open spec fn is_ident_byte(b: u8) -> bool {
    is_ident_start_byte(b) || is_digit_byte(b)
}

/// First index at or after `p` holding a newline, or the end of `s`.
pub open spec fn line_end(s: Seq<u8>, p: nat) -> nat
    decreases s.len() - p,
{
    if p < s.len() && s[p as int] != 10 {
        line_end(s, p + 1)
    } else {
        p
    }
}

/// End of the run of digits starting at `p`.
pub open spec fn digit_end(s: Seq<u8>, p: nat) -> nat
    decreases s.len() - p,
{
    if p < s.len() && is_digit_byte(s[p as int]) {
        digit_end(s, p + 1)
    } else {
        p
    }
}

/// End of the run of identifier bytes starting at `p`.
pub open spec fn ident_end(s: Seq<u8>, p: nat) -> nat
    decreases s.len() - p,
{
    if p < s.len() && is_ident_byte(s[p as int]) {
        ident_end(s, p + 1)
    } else {
        p
    }
}

pub proof fn lemma_line_end(s: Seq<u8>, p: nat)
    ensures
        p <= line_end(s, p),
        p <= s.len() ==> line_end(s, p) <= s.len(),
    decreases s.len() - p,
{
    if p < s.len() && s[p as int] != 10 {
        lemma_line_end(s, p + 1);
    }
}

pub proof fn lemma_digit_end(s: Seq<u8>, p: nat)
    ensures
        p <= digit_end(s, p),
        p <= s.len() ==> digit_end(s, p) <= s.len(),
        forall|i: int| p <= i < digit_end(s, p) ==> is_digit_byte(#[trigger] s[i]),
    decreases s.len() - p,
{
    if p < s.len() && is_digit_byte(s[p as int]) {
        lemma_digit_end(s, p + 1);
    }
}

pub proof fn lemma_ident_end(s: Seq<u8>, p: nat)
    ensures
        p <= ident_end(s, p),
        p <= s.len() ==> ident_end(s, p) <= s.len(),
        forall|i: int| p <= i < ident_end(s, p) ==> is_ident_byte(#[trigger] s[i]),
    decreases s.len() - p,
{
    if p < s.len() && is_ident_byte(s[p as int]) {
        lemma_ident_end(s, p + 1);
    }
}

/// The decimal value of a string of digit bytes.
pub open spec fn digits_value(s: Seq<u8>) -> int
    decreases s.len(),
{
    if s.len() == 0 {
        0
    } else {
        digits_value(s.drop_last()) * 10 + (s.last() - 48)
    }
}

/// The keyword spelled by `w`, if it is one.
pub open spec fn keyword_kind(w: Seq<u8>) -> Option<TokenKind> {
    if w == seq![108u8, 101, 116] {
        Some(TokenKind::Let)
    } else if w == seq![102u8, 110] {
        Some(TokenKind::Fn)
    } else if w == seq![105u8, 102] {
        Some(TokenKind::If)
    } else if w == seq![101u8, 108, 115, 101] {
        Some(TokenKind::Else)
    } else if w == seq![119u8, 104, 105, 108, 101] {
        Some(TokenKind::While)
    } else if w == seq![114u8, 101, 116, 117, 114, 110] {
        Some(TokenKind::Return)
    } else if w == seq![97u8, 110, 100] {
        Some(TokenKind::And)
    } else if w == seq![111u8, 114] {
        Some(TokenKind::Or)
    } else if w == seq![110u8, 111, 116] {
        Some(TokenKind::Not)
    } else if w == seq![105u8, 54, 52] {
        Some(TokenKind::I64)
    } else if w == seq![98u8, 111, 111, 108] {
        Some(TokenKind::Bool)
    } else if w == seq![116u8, 114, 117, 101] {
        Some(TokenKind::True)
    } else if w == seq![102u8, 97, 108, 115, 101] {
        Some(TokenKind::False)
    } else {
        None
    }
}

/// An operator or punctuation token starting at `p`, with its length.
pub open spec fn punct_at(s: Seq<u8>, p: nat) -> Result<(TokenKind, nat), LexError> {
    let c = s[p as int];
    let next_is = |b: u8| p + 1 < s.len() && s[p + 1int] == b;
    if c == 43 {
        Ok((TokenKind::Plus, 1))
    } else if c == 45 {
        if next_is(62) { Ok((TokenKind::Arrow, 2)) } else { Ok((TokenKind::Minus, 1)) }
    } else if c == 42 {
        Ok((TokenKind::Star, 1))
    } else if c == 47 {
        Ok((TokenKind::Slash, 1))
    } else if c == 37 {
        Ok((TokenKind::Percent, 1))
    } else if c == 61 {
        if next_is(61) { Ok((TokenKind::EqEq, 2)) } else { Ok((TokenKind::Eq, 1)) }
    } else if c == 33 {
        if next_is(61) { Ok((TokenKind::NotEq, 2)) } else { Err(LexError::LoneBang { pos: p as usize }) }
    } else if c == 60 {
        if next_is(61) { Ok((TokenKind::Le, 2)) } else { Ok((TokenKind::Lt, 1)) }
    } else if c == 62 {
        if next_is(61) { Ok((TokenKind::Ge, 2)) } else { Ok((TokenKind::Gt, 1)) }
    } else if c == 40 {
        Ok((TokenKind::LParen, 1))
    } else if c == 41 {
        Ok((TokenKind::RParen, 1))
    } else if c == 123 {
        Ok((TokenKind::LBrace, 1))
    } else if c == 125 {
        Ok((TokenKind::RBrace, 1))
    } else if c == 44 {
        Ok((TokenKind::Comma, 1))
    } else if c == 59 {
        Ok((TokenKind::Semicolon, 1))
    } else if c == 58 {
        Ok((TokenKind::Colon, 1))
    } else {
        Err(LexError::UnexpectedChar { ch: c as char, pos: p as usize })
    }
}

/// Puts `t` in front of a successful lex of the rest.
pub open spec fn cons_tok(
    t: (LexedKind, Span),
    rest: Result<Seq<(LexedKind, Span)>, LexError>,
) -> Result<Seq<(LexedKind, Span)>, LexError> {
    match rest {
        Ok(r) => Ok(seq![t] + r),
        Err(e) => Err(e),
    }
}

/// The tokens of `s` from byte `p` on, ending with `Eof`, or the first error.
pub open spec fn lex_from(s: Seq<u8>, p: nat) -> Result<Seq<(LexedKind, Span)>, LexError>
    decreases s.len() - p,
{
    if p >= s.len() {
        Ok(seq![(LexedKind::Fixed(TokenKind::Eof), Span { start: s.len() as usize, end: s.len() as usize })])
    } else {
        let c = s[p as int];
        if is_ws_byte(c) {
            lex_from(s, p + 1)
        } else if c == 47 && p + 1 < s.len() && s[p + 1int] == 47 {
            proof { lemma_line_end(s, p + 2); }
            lex_from(s, line_end(s, p + 2))
        } else if is_digit_byte(c) {
            proof { lemma_digit_end(s, p + 1); }
            let e = digit_end(s, p + 1);
            let v = digits_value(s.subrange(p as int, e as int));
            if v <= i64::MAX {
                cons_tok((LexedKind::Int(v as i64), Span { start: p as usize, end: e as usize }), lex_from(s, e))
            } else {
                Err(LexError::IntegerOverflow { pos: p as usize })
            }
        } else if is_ident_start_byte(c) {
            proof { lemma_ident_end(s, p + 1); }
            let e = ident_end(s, p + 1);
            let w = s.subrange(p as int, e as int);
            let k = match keyword_kind(w) {
                Some(kw) => LexedKind::Fixed(kw),
                None => LexedKind::Ident(decode_utf8(w)),
            };
            cons_tok((k, Span { start: p as usize, end: e as usize }), lex_from(s, e))
        } else {
            match punct_at(s, p) {
                Ok((k, n)) => if n > 0 {
                    cons_tok((LexedKind::Fixed(k), Span { start: p as usize, end: (p + n) as usize }), lex_from(s, p + n))
                } else {
                    Err(LexError::LoneBang { pos: p as usize })
                },
                Err(e) => Err(e),
            }
        }
    }
}

/// The lex of a whole source text, given by its UTF-8 bytes.
pub open spec fn spec_lex(s: Seq<u8>) -> Result<Seq<(LexedKind, Span)>, LexError> {
    lex_from(s, 0)
}

/// `prefix` followed by the tokens of a successful `rest`.
pub open spec fn after(
    prefix: Seq<(LexedKind, Span)>,
    rest: Result<Seq<(LexedKind, Span)>, LexError>,
) -> Result<Seq<(LexedKind, Span)>, LexError> {
    match rest {
        Ok(r) => Ok(prefix + r),
        Err(e) => Err(e),
    }
}


pub proof fn lemma_after_cons(
    prefix: Seq<(LexedKind, Span)>,
    t: (LexedKind, Span),
    rest: Result<Seq<(LexedKind, Span)>, LexError>,
)
    ensures
        after(prefix, cons_tok(t, rest)) == after(prefix.push(t), rest),
{
    match rest {
        Ok(r) => {
            assert(prefix + (seq![t] + r) =~= prefix.push(t) + r);
        },
        Err(_) => {},
    }
}

pub proof fn lemma_tokens_view_push(ts: Seq<Token>, t: Token)
    ensures
        tokens_view(ts.push(t)) == tokens_view(ts).push(token_view(t)),
{
    assert(tokens_view(ts.push(t)) =~= tokens_view(ts).push(token_view(t)));
}

/// Digit strings have non-negative values that only grow as digits are appended.
pub proof fn lemma_digits_value_mono(s: Seq<u8>, k: int)
    requires
        0 <= k <= s.len(),
        forall|i: int| 0 <= i < s.len() ==> is_digit_byte(#[trigger] s[i]),
    ensures
        0 <= digits_value(s.take(k)) <= digits_value(s),
    decreases s.len(),
{
    if k < s.len() {
        assert(s.drop_last().take(k) == s.take(k));
        lemma_digits_value_mono(s.drop_last(), k);
        lemma_digits_value_mono(s.drop_last(), s.len() - 1);
        assert(s.drop_last().take(s.len() - 1) == s.drop_last());
    } else {
        assert(s.take(k) == s);
        if s.len() > 0 {
            lemma_digits_value_mono(s.drop_last(), s.len() - 1);
            assert(s.drop_last().take(s.len() - 1) == s.drop_last());
        }
    }
}

/// In valid UTF-8, the byte after an ASCII byte starts a new character.
pub proof fn lemma_ascii_then_boundary(b: Seq<u8>, i: int)
    requires
        valid_utf8(b),
        0 <= i < b.len(),
        b[i] < 0x80,
    ensures
        is_char_boundary(b, i + 1),
{
    vstd::utf8::is_char_boundary_iff_not_is_continuation_byte(b, i);
    vstd::utf8::valid_utf8_split(b, i);
    let t = b.subrange(i, b.len() as int);
    if i + 1 == b.len() {
        vstd::utf8::is_char_boundary_start_end_of_seq(b);
    } else {
        assert(t[0] == b[i]);
        assert(valid_utf8(vstd::utf8::pop_first_scalar(t)));
        assert(vstd::utf8::pop_first_scalar(t) =~= b.subrange(i + 1, b.len() as int));
        let u = vstd::utf8::pop_first_scalar(t);
        assert(u.len() > 0);
        assert(vstd::utf8::valid_first_scalar(u));
        assert(u[0] == b[i + 1]);
        vstd::utf8::is_char_boundary_iff_not_is_continuation_byte(b, i + 1);
    }
}

fn is_ws(b: u8) -> (r: bool)
    ensures
        r == is_ws_byte(b),
{
    (9 <= b && b <= 13) || b == 32 || b == 0x85 || b == 0xa0
}

fn is_digit(b: u8) -> (r: bool)
    ensures
        r == is_digit_byte(b),
{
    48 <= b && b <= 57
}

fn is_ident_start(b: u8) -> (r: bool)
    ensures
        r == is_ident_start_byte(b),
{
    (65 <= b && b <= 90) || (97 <= b && b <= 122) || b == 95
}

fn is_ident_char(b: u8) -> (r: bool)
    ensures
        r == is_ident_byte(b),
{
    is_ident_start(b) || is_digit(b)
}

/// The value of the digits `b[start..end]`, or `None` when it exceeds `i64::MAX`.
fn digits_to_i64(b: &[u8], start: usize, end: usize) -> (r: Option<i64>)
    requires
        start <= end <= b@.len(),
        forall|i: int| start <= i < end ==> is_digit_byte(#[trigger] b@[i]),
    ensures
        match r {
            Some(v) => v == digits_value(b@.subrange(start as int, end as int)),
            None => digits_value(b@.subrange(start as int, end as int)) > i64::MAX,
        },
{
    let ghost full = b@.subrange(start as int, end as int);
    let mut acc: i64 = 0;
    let mut i = start;
    assert(b@.subrange(start as int, start as int) =~= Seq::<u8>::empty());
    while i < end
        invariant
            start <= i <= end <= b@.len(),
            full == b@.subrange(start as int, end as int),
            forall|j: int| start <= j < end ==> is_digit_byte(#[trigger] b@[j]),
            acc == digits_value(b@.subrange(start as int, i as int)),
        decreases end - i,
    {
        let d = (b[i] - 48) as i64;
        let ghost next = b@.subrange(start as int, i + 1);
        assert(next.drop_last() =~= b@.subrange(start as int, i as int));
        assert(next.last() == b@[i as int]);
        assert(next =~= full.take(i + 1 - start));
        proof { lemma_digits_value_mono(full, i + 1 - start); }
        match acc.checked_mul(10) {
            Some(m) => match m.checked_add(d) {
                Some(n) => {
                    acc = n;
                },
                None => {
                    return None;
                },
            },
            None => {
                proof { lemma_digits_value_mono(full, i - start); assert(full.take(i - start) =~= b@.subrange(start as int, i as int)); }
                return None;
            },
        }
        i += 1;
    }
    assert(full =~= b@.subrange(start as int, i as int));
    Some(acc)
}

/// Whether `b[start..end]` spells `w`.
fn spells(b: &[u8], start: usize, end: usize, w: &[u8]) -> (r: bool)
    requires
        start <= end <= b@.len(),
    ensures
        r == (b@.subrange(start as int, end as int) == w@),
{
    if end - start != w.len() {
        return false;
    }
    let mut i: usize = 0;
    while i < w.len()
        invariant
            end - start == w@.len(),
            start <= end <= b@.len(),
            0 <= i <= w@.len(),
            forall|j: int| 0 <= j < i ==> b@[start + j] == w@[j],
        decreases w.len() - i,
    {
        if b[start + i] != w[i] {
            assert(b@.subrange(start as int, end as int)[i as int] != w@[i as int]);
            return false;
        }
        i += 1;
    }
    assert(b@.subrange(start as int, end as int) =~= w@);
    true
}

/// The keyword spelled by `b[start..end]`, if any.
fn keyword_at(b: &[u8], start: usize, end: usize) -> (r: Option<TokenKind>)
    requires
        start <= end <= b@.len(),
    ensures
        r == keyword_kind(b@.subrange(start as int, end as int)),
{
    let ghost w = b@.subrange(start as int, end as int);
    let kw_let: [u8; 3] = [108u8, 101, 116];
    let kw_fn: [u8; 2] = [102u8, 110];
    let kw_if: [u8; 2] = [105u8, 102];
    let kw_else: [u8; 4] = [101u8, 108, 115, 101];
    let kw_while: [u8; 5] = [119u8, 104, 105, 108, 101];
    let kw_return: [u8; 6] = [114u8, 101, 116, 117, 114, 110];
    let kw_and: [u8; 3] = [97u8, 110, 100];
    let kw_or: [u8; 2] = [111u8, 114];
    let kw_not: [u8; 3] = [110u8, 111, 116];
    let kw_i64: [u8; 3] = [105u8, 54, 52];
    let kw_bool: [u8; 4] = [98u8, 111, 111, 108];
    let kw_true: [u8; 4] = [116u8, 114, 117, 101];
    let kw_false: [u8; 5] = [102u8, 97, 108, 115, 101];
    assert(kw_let@ =~= seq![108u8, 101, 116]);
    assert(kw_fn@ =~= seq![102u8, 110]);
    assert(kw_if@ =~= seq![105u8, 102]);
    assert(kw_else@ =~= seq![101u8, 108, 115, 101]);
    assert(kw_while@ =~= seq![119u8, 104, 105, 108, 101]);
    assert(kw_return@ =~= seq![114u8, 101, 116, 117, 114, 110]);
    assert(kw_and@ =~= seq![97u8, 110, 100]);
    assert(kw_or@ =~= seq![111u8, 114]);
    assert(kw_not@ =~= seq![110u8, 111, 116]);
    assert(kw_i64@ =~= seq![105u8, 54, 52]);
    assert(kw_bool@ =~= seq![98u8, 111, 111, 108]);
    assert(kw_true@ =~= seq![116u8, 114, 117, 101]);
    assert(kw_false@ =~= seq![102u8, 97, 108, 115, 101]);
    if spells(b, start, end, kw_let.as_slice()) {
        Some(TokenKind::Let)
    } else if spells(b, start, end, kw_fn.as_slice()) {
        Some(TokenKind::Fn)
    } else if spells(b, start, end, kw_if.as_slice()) {
        Some(TokenKind::If)
    } else if spells(b, start, end, kw_else.as_slice()) {
        Some(TokenKind::Else)
    } else if spells(b, start, end, kw_while.as_slice()) {
        Some(TokenKind::While)
    } else if spells(b, start, end, kw_return.as_slice()) {
        Some(TokenKind::Return)
    } else if spells(b, start, end, kw_and.as_slice()) {
        Some(TokenKind::And)
    } else if spells(b, start, end, kw_or.as_slice()) {
        Some(TokenKind::Or)
    } else if spells(b, start, end, kw_not.as_slice()) {
        Some(TokenKind::Not)
    } else if spells(b, start, end, kw_i64.as_slice()) {
        Some(TokenKind::I64)
    } else if spells(b, start, end, kw_bool.as_slice()) {
        Some(TokenKind::Bool)
    } else if spells(b, start, end, kw_true.as_slice()) {
        Some(TokenKind::True)
    } else if spells(b, start, end, kw_false.as_slice()) {
        Some(TokenKind::False)
    } else {
        None
    }
}

/// True if `ident` would lex as a keyword rather than an identifier.
pub fn is_reserved_word(ident: &str) -> (r: bool)
    ensures
        r == keyword_kind(ident.spec_bytes()) is Some,
{
    let b = ident.as_bytes();
    assert(b@.subrange(0, b@.len() as int) =~= b@);
    keyword_at(b, 0, b.len()).is_some()
}

/// The operator or punctuation token at `pos`, with its length.
fn punct(b: &[u8], pos: usize) -> (r: Result<(TokenKind, usize), LexError>)
    requires
        pos < b@.len(),
    ensures
        match (r, punct_at(b@, pos as nat)) {
            (Ok((k, n)), Ok((k2, n2))) => k == k2 && n == n2,
            (Err(e), Err(e2)) => e == e2,
            _ => false,
        },
{
    let c = b[pos];
    let next = if pos + 1 < b.len() { b[pos + 1] } else { 0u8 };
    if c == 43 {
        Ok((TokenKind::Plus, 1))
    } else if c == 45 {
        if next == 62 { Ok((TokenKind::Arrow, 2)) } else { Ok((TokenKind::Minus, 1)) }
    } else if c == 42 {
        Ok((TokenKind::Star, 1))
    } else if c == 47 {
        Ok((TokenKind::Slash, 1))
    } else if c == 37 {
        Ok((TokenKind::Percent, 1))
    } else if c == 61 {
        if next == 61 { Ok((TokenKind::EqEq, 2)) } else { Ok((TokenKind::Eq, 1)) }
    } else if c == 33 {
        if next == 61 { Ok((TokenKind::NotEq, 2)) } else { Err(LexError::LoneBang { pos }) }
    } else if c == 60 {
        if next == 61 { Ok((TokenKind::Le, 2)) } else { Ok((TokenKind::Lt, 1)) }
    } else if c == 62 {
        if next == 61 { Ok((TokenKind::Ge, 2)) } else { Ok((TokenKind::Gt, 1)) }
    } else if c == 40 {
        Ok((TokenKind::LParen, 1))
    } else if c == 41 {
        Ok((TokenKind::RParen, 1))
    } else if c == 123 {
        Ok((TokenKind::LBrace, 1))
    } else if c == 125 {
        Ok((TokenKind::RBrace, 1))
    } else if c == 44 {
        Ok((TokenKind::Comma, 1))
    } else if c == 59 {
        Ok((TokenKind::Semicolon, 1))
    } else if c == 58 {
        Ok((TokenKind::Colon, 1))
    } else {
        Err(LexError::UnexpectedChar { ch: c as char, pos })
    }
}

/// The identifier spelled by the ASCII bytes `source[start..end]`, as a string.
fn ascii_substring(source: &str, start: usize, end: usize) -> (r: String)
    requires
        start < end <= source.spec_bytes().len(),
        forall|i: int| start <= i < end ==> #[trigger] source.spec_bytes()[i] < 0x80,
    ensures
        r@ == decode_utf8(source.spec_bytes().subrange(start as int, end as int)),
{
    let ghost sb = source.spec_bytes();
    proof {
        vstd::utf8::encode_utf8_valid_utf8(source@);
        vstd::utf8::is_char_boundary_iff_not_is_continuation_byte(sb, start as int);
    }
    let (_, rest) = source.split_at(start);
    let ghost rb = rest.spec_bytes();
    proof {
        vstd::utf8::encode_utf8_valid_utf8(rest@);
        assert(rb[end - start - 1] == sb[end - 1]);
        lemma_ascii_then_boundary(rb, end - start - 1);
    }
    let (word, _) = rest.split_at(end - start);
    proof {
        assert(word.spec_bytes() =~= sb.subrange(start as int, end as int));
        vstd::utf8::encode_utf8_decode_utf8(word@);
    }
    word.to_owned()
}

/// Tokenizes `source` in full: every token, ending with `Eof`, or the first
/// lexical error met from left to right.
#[verifier::spinoff_prover]
#[verifier::rlimit(30)]
pub fn lex(source: &str) -> (r: Result<Vec<Token>, LexError>)
    ensures
        match r {
            Ok(ts) => spec_lex(source.spec_bytes()) == Ok::<_, LexError>(tokens_view(ts@)),
            Err(e) => spec_lex(source.spec_bytes()) == Err::<Seq<(LexedKind, Span)>, _>(e),
        },
{
    let bytes = source.as_bytes();
    let ghost s = bytes@;
    let mut tokens: Vec<Token> = Vec::new();
    let mut pos: usize = 0;
    assert(tokens_view(tokens@) =~= Seq::<(LexedKind, Span)>::empty());
    proof {
        match lex_from(s, 0) {
            Ok(r) => { assert(Seq::<(LexedKind, Span)>::empty() + r =~= r); },
            Err(_) => {},
        }
    }
    while pos < bytes.len()
        invariant
            s == bytes@,
            s == source.spec_bytes(),
            pos <= s.len(),
            spec_lex(s) == after(tokens_view(tokens@), lex_from(s, pos as nat)),
        decreases bytes.len() - pos,
    {
        let c = bytes[pos];
        if is_ws(c) {
            pos += 1;
            continue;
        }
        if c == 47 && pos + 1 < bytes.len() && bytes[pos + 1] == 47 {
            let mut q = pos + 2;
            while q < bytes.len() && bytes[q] != 10
                invariant
                    s == bytes@,
                    pos + 2 <= q <= s.len(),
                    line_end(s, (pos + 2) as nat) == line_end(s, q as nat),
                decreases bytes.len() - q,
            {
                q += 1;
            }
            pos = q;
            continue;
        }
        let start = pos;
        if is_digit(c) {
            let mut q = pos + 1;
            while q < bytes.len() && is_digit(bytes[q])
                invariant
                    s == bytes@,
                    start + 1 <= q <= s.len(),
                    digit_end(s, (start + 1) as nat) == digit_end(s, q as nat),
                    forall|i: int| start <= i < q ==> is_digit_byte(#[trigger] s[i]),
                decreases bytes.len() - q,
            {
                q += 1;
            }
            match digits_to_i64(bytes, start, q) {
                Some(v) => {
                    let tok = Token { kind: TokenKind::Int(v), span: Span { start, end: q } };
                    proof {
                        lemma_after_cons(tokens_view(tokens@), token_view(tok), lex_from(s, q as nat));
                        lemma_tokens_view_push(tokens@, tok);
                    }
                    tokens.push(tok);
                },
                None => {
                    return Err(LexError::IntegerOverflow { pos: start });
                },
            }
            pos = q;
            continue;
        }
        if is_ident_start(c) {
            let mut q = pos + 1;
            while q < bytes.len() && is_ident_char(bytes[q])
                invariant
                    s == bytes@,
                    start + 1 <= q <= s.len(),
                    ident_end(s, (start + 1) as nat) == ident_end(s, q as nat),
                    is_ident_start_byte(s[start as int]),
                    forall|i: int| start < i < q ==> is_ident_byte(#[trigger] s[i]),
                decreases bytes.len() - q,
            {
                q += 1;
            }
            let kind = match keyword_at(bytes, start, q) {
                Some(k) => k,
                None => TokenKind::Ident(ascii_substring(source, start, q)),
            };
            let tok = Token { kind, span: Span { start, end: q } };
            proof {
                lemma_after_cons(tokens_view(tokens@), token_view(tok), lex_from(s, q as nat));
                lemma_tokens_view_push(tokens@, tok);
            }
            tokens.push(tok);
            pos = q;
            continue;
        }
        match punct(bytes, pos) {
            Ok((kind, n)) => {
                let tok = Token { kind, span: Span { start, end: start + n } };
                proof {
                    lemma_after_cons(tokens_view(tokens@), token_view(tok), lex_from(s, (start + n) as nat));
                    lemma_tokens_view_push(tokens@, tok);
                }
                tokens.push(tok);
                pos = start + n;
            },
            Err(e) => {
                return Err(e);
            },
        }
    }
    let eof = Token { kind: TokenKind::Eof, span: Span { start: bytes.len(), end: bytes.len() } };
    proof {
        lemma_tokens_view_push(tokens@, eof);
        assert(tokens_view(tokens@) + seq![token_view(eof)] =~= tokens_view(tokens@).push(token_view(eof)));
    }
    tokens.push(eof);
    Ok(tokens)
}


/// A successful lex ends with `Eof` and has at most one token per byte, plus `Eof`.
pub proof fn lemma_lex_from_shape(s: Seq<u8>, p: nat)
    requires
        p <= s.len(),
    ensures
        lex_from(s, p) matches Ok(ts) ==> {
            &&& 1 <= ts.len() <= s.len() - p + 1
            &&& ts.last().0 == LexedKind::Fixed(TokenKind::Eof)
        },
    decreases s.len() - p,
{
    if p < s.len() {
        let c = s[p as int];
        if is_ws_byte(c) {
            lemma_lex_from_shape(s, p + 1);
        } else if c == 47 && p + 1 < s.len() && s[p + 1int] == 47 {
            lemma_line_end(s, p + 2);
            lemma_lex_from_shape(s, line_end(s, p + 2));
        } else if is_digit_byte(c) {
            lemma_digit_end(s, p + 1);
            lemma_lex_from_shape(s, digit_end(s, p + 1));
        } else if is_ident_start_byte(c) {
            lemma_ident_end(s, p + 1);
            lemma_lex_from_shape(s, ident_end(s, p + 1));
        } else {
            match punct_at(s, p) {
                Ok((k, n)) => {
                    if n > 0 && p + n <= s.len() {
                        lemma_lex_from_shape(s, p + n);
                    }
                },
                Err(_) => {},
            }
        }
    }
}

pub proof fn lemma_lex_shape(s: Seq<u8>)
    ensures
        spec_lex(s) matches Ok(ts) ==> {
            &&& 1 <= ts.len() <= s.len() + 1
            &&& ts.last().0 == LexedKind::Fixed(TokenKind::Eof)
        },
{
    lemma_lex_from_shape(s, 0);
}

/// Tokens `ts`, lexed from byte `p` of `s` on, are in source order: the
/// end-of-input token comes last and nowhere else, each span lies within
/// bytes `p` to `s.len()`, and each token starts no earlier than the one
/// before it ends.
pub open spec fn lexed_in_order(s: Seq<u8>, p: nat, ts: Seq<(LexedKind, Span)>) -> bool {
    &&& ts.len() >= 1
    &&& ts.last().0 == LexedKind::Fixed(TokenKind::Eof)
    &&& forall|i: int| 0 <= i < ts.len() - 1 ==> (#[trigger] ts[i]).0 != LexedKind::Fixed(TokenKind::Eof)
    &&& forall|i: int| 0 <= i < ts.len() ==> p <= (#[trigger] ts[i]).1.start <= ts[i].1.end <= s.len()
    &&& forall|i: int| 0 <= i < ts.len() - 1 ==> (#[trigger] ts[i]).1.end <= ts[i + 1].1.start
}

proof fn lemma_in_order_cons(s: Seq<u8>, p: nat, e: nat, t: (LexedKind, Span), r: Seq<(LexedKind, Span)>)
    requires
        lexed_in_order(s, e, r),
        t.0 != LexedKind::Fixed(TokenKind::Eof),
        t.1.start == p && p < e && t.1.end == e,
    ensures
        lexed_in_order(s, p, seq![t] + r),
{
    let ts = seq![t] + r;
    assert(ts.last() == r.last());
    assert forall|i: int| 0 <= i < ts.len() - 1 implies (#[trigger] ts[i]).0 != LexedKind::Fixed(TokenKind::Eof) by {
        if i > 0 {
            assert(ts[i] == r[i - 1]);
        }
    }
    assert forall|i: int| 0 <= i < ts.len() implies p <= (#[trigger] ts[i]).1.start <= ts[i].1.end <= s.len() by {
        if i > 0 {
            assert(ts[i] == r[i - 1]);
        } else {
            assert(r[0].1.start <= r[0].1.end);
        }
    }
    assert forall|i: int| 0 <= i < ts.len() - 1 implies (#[trigger] ts[i]).1.end <= ts[i + 1].1.start by {
        assert(ts[i + 1] == r[i]);
        if i > 0 {
            assert(ts[i] == r[i - 1]);
        }
    }
}

proof fn lemma_lex_from_in_order(s: Seq<u8>, p: nat)
    requires
        p <= s.len(),
        s.len() <= usize::MAX,
    ensures
        lex_from(s, p) matches Ok(ts) ==> lexed_in_order(s, p, ts),
    decreases s.len() - p,
{
    if p >= s.len() {
        let ts = seq![(LexedKind::Fixed(TokenKind::Eof), Span { start: s.len() as usize, end: s.len() as usize })];
        assert(lexed_in_order(s, p, ts));
    } else {
        let c = s[p as int];
        if is_ws_byte(c) {
            lemma_lex_from_in_order(s, p + 1);
        } else if c == 47 && p + 1 < s.len() && s[p + 1int] == 47 {
            lemma_line_end(s, p + 2);
            lemma_lex_from_in_order(s, line_end(s, p + 2));
        } else if is_digit_byte(c) {
            lemma_digit_end(s, p + 1);
            let e = digit_end(s, p + 1);
            lemma_lex_from_in_order(s, e);
            let v = digits_value(s.subrange(p as int, e as int));
            if v <= i64::MAX {
                if let Ok(r) = lex_from(s, e) {
                    lemma_in_order_cons(s, p, e, (LexedKind::Int(v as i64), Span { start: p as usize, end: e as usize }), r);
                }
            }
        } else if is_ident_start_byte(c) {
            lemma_ident_end(s, p + 1);
            let e = ident_end(s, p + 1);
            lemma_lex_from_in_order(s, e);
            let w = s.subrange(p as int, e as int);
            let k = match keyword_kind(w) {
                Some(kw) => LexedKind::Fixed(kw),
                None => LexedKind::Ident(decode_utf8(w)),
            };
            if let Ok(r) = lex_from(s, e) {
                lemma_in_order_cons(s, p, e, (k, Span { start: p as usize, end: e as usize }), r);
            }
        } else {
            match punct_at(s, p) {
                Ok((k, n)) => {
                    if n > 0 && p + n <= s.len() {
                        lemma_lex_from_in_order(s, p + n);
                        if let Ok(r) = lex_from(s, p + n) {
                            lemma_in_order_cons(s, p, p + n, (LexedKind::Fixed(k), Span { start: p as usize, end: (p + n) as usize }), r);
                        }
                    }
                },
                Err(_) => {},
            }
        }
    }
}

/// What a successful lex gives back is in source order: the end-of-input
/// token comes last and only there, and the spans lie within the source,
/// each starting no earlier than the one before it ends.
pub proof fn lemma_lex_in_order(s: Seq<u8>)
    requires
        s.len() <= usize::MAX,
    ensures
        spec_lex(s) matches Ok(ts) ==> lexed_in_order(s, 0, ts),
{
    lemma_lex_from_in_order(s, 0);
}

/// The reserved words, as bytes: `let fn if else while return and or not
/// i64 bool true false`.
pub open spec fn reserved_words() -> Seq<Seq<u8>> {
    seq![
        seq![108u8, 101, 116], seq![102u8, 110], seq![105u8, 102], seq![101u8, 108, 115, 101],
        seq![119u8, 104, 105, 108, 101], seq![114u8, 101, 116, 117, 114, 110], seq![97u8, 110, 100],
        seq![111u8, 114], seq![110u8, 111, 116], seq![105u8, 54, 52], seq![98u8, 111, 111, 108],
        seq![116u8, 114, 117, 101], seq![102u8, 97, 108, 115, 101],
    ]
}

/// A word lexes as a keyword exactly when it is one of the thirteen
/// reserved words, which are distinct.
pub proof fn lemma_reserved_words(w: Seq<u8>)
    ensures
        reserved_words().len() == 13,
        forall|i: int, j: int| 0 <= i < j < 13 ==> #[trigger] reserved_words()[i] != #[trigger] reserved_words()[j],
        keyword_kind(w) is Some <==> reserved_words().contains(w),
{
    let r = reserved_words();
    assert forall|i: int, j: int| 0 <= i < j < 13 implies #[trigger] r[i] != #[trigger] r[j] by {
        if r[i].len() == r[j].len() {
            assert(r[i][0] != r[j][0] || r[i][1] != r[j][1] || r[i][r[i].len() - 1] != r[j][r[j].len() - 1]);
        }
    }
    if keyword_kind(w) is Some {
        assert(exists|i: int| 0 <= i < 13 && r[i] == w);
    }
    if r.contains(w) {
        let i = choose|i: int| 0 <= i < r.len() && r[i] == w;
        assert(keyword_kind(r[i]) is Some);
    }
}

/// The bytes that read, as characters, as whitespace: tab, line feed,
/// vertical tab, form feed, carriage return and space, and the two
/// non-ASCII bytes U+0085 and U+00A0 stand for when read one byte at a time.
pub open spec fn whitespace_bytes() -> Set<u8> {
    set![9u8, 10u8, 11u8, 12u8, 13u8, 32u8, 0x85u8, 0xa0u8]
}

/// Whitespace where a token may start is skipped: lexing from a whitespace
/// byte gives exactly what lexing from the byte after it gives.
pub proof fn lemma_whitespace_skipped(s: Seq<u8>, p: nat)
    requires
        p < s.len(),
        whitespace_bytes().contains(s[p as int]),
    ensures
        lex_from(s, p) == lex_from(s, p + 1),
{
}

/// The kinds of the tokens of a successful lex; `None` for a failed one.
pub open spec fn lex_kinds(r: Result<Seq<(LexedKind, Span)>, LexError>) -> Option<Seq<LexedKind>> {
    match r {
        Ok(ts) => Some(ts.map_values(|t: (LexedKind, Span)| t.0)),
        Err(_) => None,
    }
}

proof fn lemma_ends_shift(pre: Seq<u8>, s: Seq<u8>, q: nat)
    requires
        q <= s.len(),
    ensures
        line_end(pre + s, q + pre.len()) == line_end(s, q) + pre.len(),
        digit_end(pre + s, q + pre.len()) == digit_end(s, q) + pre.len(),
        ident_end(pre + s, q + pre.len()) == ident_end(s, q) + pre.len(),
    decreases s.len() - q,
{
    let t = pre + s;
    if q < s.len() {
        assert(t[(q + pre.len()) as int] == s[q as int]);
        lemma_ends_shift(pre, s, q + 1);
    }
}

proof fn lemma_cons_kinds(x: (LexedKind, Span), r1: Result<Seq<(LexedKind, Span)>, LexError>, y: (LexedKind, Span),
    r2: Result<Seq<(LexedKind, Span)>, LexError>)
    requires
        x.0 == y.0,
        lex_kinds(r1) == lex_kinds(r2),
    ensures
        lex_kinds(cons_tok(x, r1)) == lex_kinds(cons_tok(y, r2)),
{
    if let (Ok(a), Ok(b)) = (r1, r2) {
        assert(a.map_values(|t: (LexedKind, Span)| t.0) == b.map_values(|t: (LexedKind, Span)| t.0));
        assert(a.len() == b.len());
        assert((seq![x] + a).map_values(|t: (LexedKind, Span)| t.0) =~= (seq![y] + b).map_values(|t: (LexedKind, Span)| t.0)) by {
            assert forall|i: int| 0 <= i < a.len() implies #[trigger] a[i].0 == b[i].0 by {
                assert(a.map_values(|t: (LexedKind, Span)| t.0)[i] == b.map_values(|t: (LexedKind, Span)| t.0)[i]);
            }
        }
    }
}

/// Lexing only reads forward: from byte `q` of `s`, or from the same byte
/// with any bytes put in front of `s`, gives tokens of the same kinds, or
/// fails either way.
#[verifier::spinoff_prover]
#[verifier::rlimit(80)]
proof fn lemma_lex_from_shift(pre: Seq<u8>, s: Seq<u8>, q: nat)
    requires
        q <= s.len(),
    ensures
        lex_kinds(lex_from(pre + s, q + pre.len())) == lex_kinds(lex_from(s, q)),
    decreases s.len() - q,
{
    let t = pre + s;
    let n = pre.len();
    let qt = q + n;
    assert(t.len() == s.len() + n);
    if q >= s.len() {
        let a = lex_from(t, qt)->Ok_0;
        let b = lex_from(s, q)->Ok_0;
        assert(a.map_values(|x: (LexedKind, Span)| x.0) =~= b.map_values(|x: (LexedKind, Span)| x.0));
    } else {
        let c = s[q as int];
        assert(t[qt as int] == c);
        if q + 1 < s.len() {
            assert(t[qt + 1int] == s[q + 1int]);
        }
        if is_ws_byte(c) {
            lemma_lex_from_shift(pre, s, q + 1);
        } else if c == 47 && q + 1 < s.len() && s[q + 1int] == 47 {
            lemma_line_end(s, q + 2);
            lemma_ends_shift(pre, s, q + 2);
            lemma_lex_from_shift(pre, s, line_end(s, q + 2));
        } else if is_digit_byte(c) {
            lemma_digit_end(s, q + 1);
            lemma_ends_shift(pre, s, q + 1);
            let e = digit_end(s, q + 1);
            assert(t.subrange(qt as int, (e + n) as int) =~= s.subrange(q as int, e as int));
            lemma_lex_from_shift(pre, s, e);
            let v = digits_value(s.subrange(q as int, e as int));
            if v <= i64::MAX {
                lemma_cons_kinds((LexedKind::Int(v as i64), Span { start: qt as usize, end: (e + n) as usize }), lex_from(t, e + n),
                    (LexedKind::Int(v as i64), Span { start: q as usize, end: e as usize }), lex_from(s, e));
            }
        } else if is_ident_start_byte(c) {
            lemma_ident_end(s, q + 1);
            lemma_ends_shift(pre, s, q + 1);
            let e = ident_end(s, q + 1);
            let w = s.subrange(q as int, e as int);
            assert(t.subrange(qt as int, (e + n) as int) =~= w);
            lemma_lex_from_shift(pre, s, e);
            let k = match keyword_kind(w) {
                Some(kw) => LexedKind::Fixed(kw),
                None => LexedKind::Ident(decode_utf8(w)),
            };
            lemma_cons_kinds((k, Span { start: qt as usize, end: (e + n) as usize }), lex_from(t, e + n),
                (k, Span { start: q as usize, end: e as usize }), lex_from(s, e));
        } else {
            match punct_at(s, q) {
                Ok((k, len)) => {
                    assert(punct_at(t, qt) == punct_at(s, q));
                    if len > 0 && q + len <= s.len() {
                        lemma_lex_from_shift(pre, s, q + len);
                        lemma_cons_kinds((LexedKind::Fixed(k), Span { start: qt as usize, end: (qt + len) as usize }),
                            lex_from(t, qt + len), (LexedKind::Fixed(k), Span { start: q as usize, end: (q + len) as usize }),
                            lex_from(s, q + len));
                    }
                },
                Err(_) => {
                    assert(punct_at(t, qt) is Err);
                },
            }
        }
    }
}

/// Whitespace put where the lexer is about to read a token changes no
/// token: lexing `a`, one whitespace byte, then `b`, from the end of `a`
/// on, gives tokens of the same kinds as lexing `a` then `b` from there, or
/// fails just as that does.
pub proof fn lemma_inserted_whitespace(a: Seq<u8>, w: u8, b: Seq<u8>)
    requires
        whitespace_bytes().contains(w),
    ensures
        lex_kinds(lex_from(a + seq![w] + b, a.len())) == lex_kinds(lex_from(a + b, a.len())),
{
    let t = a + seq![w] + b;
    assert(t == (a + seq![w]) + b);
    assert(t[a.len() as int] == w);
    lemma_whitespace_skipped(t, a.len());
    lemma_lex_from_shift(a + seq![w], b, 0);
    lemma_lex_from_shift(a, b, 0);
}

proof fn lemma_line_end_through(t: Seq<u8>, from: nat, to: nat)
    requires
        from <= to <= t.len(),
        forall|i: int| from <= i < to ==> t[i] != 10,
        to == t.len() || t[to as int] == 10,
    ensures
        line_end(t, from) == to,
    decreases to - from,
{
    if from < to {
        lemma_line_end_through(t, from + 1, to);
    }
}

/// A line comment put where the lexer is about to read a token changes no
/// token: lexing `a`, then `//` and text `c` with no line break, then `b`
/// starting a new line (or empty), from the end of `a` on, gives tokens of
/// the same kinds as lexing `a` then `b` from there, or fails just as that
/// does.
pub proof fn lemma_inserted_comment(a: Seq<u8>, c: Seq<u8>, b: Seq<u8>)
    requires
        forall|i: int| 0 <= i < c.len() ==> c[i] != 10,
        b.len() == 0 || b[0] == 10,
    ensures
        lex_kinds(lex_from(a + seq![47u8, 47u8] + c + b, a.len())) == lex_kinds(lex_from(a + b, a.len())),
{
    let pre = a + seq![47u8, 47u8] + c;
    let t = pre + b;
    assert(t == a + seq![47u8, 47u8] + c + b);
    assert(t[a.len() as int] == 47 && t[a.len() + 1int] == 47);
    assert forall|i: int| a.len() + 2 <= i < pre.len() implies t[i] != 10 by {
        assert(t[i] == c[i - a.len() - 2]);
    }
    if b.len() > 0 {
        assert(t[pre.len() as int] == b[0]);
    }
    lemma_line_end_through(t, a.len() + 2, pre.len());
    assert(!is_ws_byte(47));
    lemma_lex_from_shift(pre, b, 0);
    lemma_lex_from_shift(a, b, 0);
}

/// Whitespace in front of a source changes none of its tokens' kinds.
pub proof fn lemma_leading_whitespace(w: u8, s: Seq<u8>)
    requires
        whitespace_bytes().contains(w),
    ensures
        lex_kinds(spec_lex(seq![w] + s)) == lex_kinds(spec_lex(s)),
{
    lemma_inserted_whitespace(Seq::<u8>::empty(), w, s);
    assert(Seq::<u8>::empty() + seq![w] + s =~= seq![w] + s);
    assert(Seq::<u8>::empty() + s =~= s);
}

/// A number identifying each kind of token, payloads aside.
pub open spec fn kind_code(k: TokenKind) -> u8 {
    match k {
        TokenKind::Ident(_) => 0,
        TokenKind::Int(_) => 1,
        TokenKind::True => 2,
        TokenKind::False => 3,
        TokenKind::Let => 4,
        TokenKind::Fn => 5,
        TokenKind::If => 6,
        TokenKind::Else => 7,
        TokenKind::While => 8,
        TokenKind::Return => 9,
        TokenKind::And => 10,
        TokenKind::Or => 11,
        TokenKind::Not => 12,
        TokenKind::I64 => 13,
        TokenKind::Bool => 14,
        TokenKind::Plus => 15,
        TokenKind::Minus => 16,
        TokenKind::Star => 17,
        TokenKind::Slash => 18,
        TokenKind::Percent => 19,
        TokenKind::EqEq => 20,
        TokenKind::NotEq => 21,
        TokenKind::Lt => 22,
        TokenKind::Le => 23,
        TokenKind::Gt => 24,
        TokenKind::Ge => 25,
        TokenKind::Eq => 26,
        TokenKind::LParen => 27,
        TokenKind::RParen => 28,
        TokenKind::LBrace => 29,
        TokenKind::RBrace => 30,
        TokenKind::Comma => 31,
        TokenKind::Semicolon => 32,
        TokenKind::Colon => 33,
        TokenKind::Arrow => 34,
        TokenKind::Eof => 35,
    }
}

/// How a payload-free token kind reads in a message.
pub open spec fn fixed_description(k: TokenKind) -> Seq<char> {
    match k {
        TokenKind::True => "'true'"@,
        TokenKind::False => "'false'"@,
        TokenKind::Let => "'let'"@,
        TokenKind::Fn => "'fn'"@,
        TokenKind::If => "'if'"@,
        TokenKind::Else => "'else'"@,
        TokenKind::While => "'while'"@,
        TokenKind::Return => "'return'"@,
        TokenKind::And => "'and'"@,
        TokenKind::Or => "'or'"@,
        TokenKind::Not => "'not'"@,
        TokenKind::I64 => "'i64'"@,
        TokenKind::Bool => "'bool'"@,
        TokenKind::Plus => "'+'"@,
        TokenKind::Minus => "'-'"@,
        TokenKind::Star => "'*'"@,
        TokenKind::Slash => "'/'"@,
        TokenKind::Percent => "'%'"@,
        TokenKind::EqEq => "'=='"@,
        TokenKind::NotEq => "'!='"@,
        TokenKind::Lt => "'<'"@,
        TokenKind::Le => "'<='"@,
        TokenKind::Gt => "'>'"@,
        TokenKind::Ge => "'>='"@,
        TokenKind::Eq => "'='"@,
        TokenKind::LParen => "'('"@,
        TokenKind::RParen => "')'"@,
        TokenKind::LBrace => "'{'"@,
        TokenKind::RBrace => "'}'"@,
        TokenKind::Comma => "','"@,
        TokenKind::Semicolon => "';'"@,
        TokenKind::Colon => "':'"@,
        TokenKind::Arrow => "'->'"@,
        TokenKind::Eof => "end of input"@,
        _ => "a literal"@,
    }
}

/// How any token kind reads in a message: an identifier with its name, an
/// integer with its value, the others by `fixed_description`.
pub open spec fn kind_text(k: TokenKind) -> Seq<char> {
    match k {
        TokenKind::Ident(s) => "identifier '"@ + s@ + "'"@,
        TokenKind::Int(n) => "integer "@ + int_text(n as int),
        _ => fixed_description(k),
    }
}

impl TokenKind {
    /// A copy of this kind, payload included.
    pub fn duplicate(&self) -> (r: Self)
        ensures
            r == *self,
    {
        match self {
            TokenKind::Ident(name) => TokenKind::Ident(name.clone()),
            TokenKind::Int(n) => TokenKind::Int(*n),
            TokenKind::True => TokenKind::True,
            TokenKind::False => TokenKind::False,
            TokenKind::Let => TokenKind::Let,
            TokenKind::Fn => TokenKind::Fn,
            TokenKind::If => TokenKind::If,
            TokenKind::Else => TokenKind::Else,
            TokenKind::While => TokenKind::While,
            TokenKind::Return => TokenKind::Return,
            TokenKind::And => TokenKind::And,
            TokenKind::Or => TokenKind::Or,
            TokenKind::Not => TokenKind::Not,
            TokenKind::I64 => TokenKind::I64,
            TokenKind::Bool => TokenKind::Bool,
            TokenKind::Plus => TokenKind::Plus,
            TokenKind::Minus => TokenKind::Minus,
            TokenKind::Star => TokenKind::Star,
            TokenKind::Slash => TokenKind::Slash,
            TokenKind::Percent => TokenKind::Percent,
            TokenKind::EqEq => TokenKind::EqEq,
            TokenKind::NotEq => TokenKind::NotEq,
            TokenKind::Lt => TokenKind::Lt,
            TokenKind::Le => TokenKind::Le,
            TokenKind::Gt => TokenKind::Gt,
            TokenKind::Ge => TokenKind::Ge,
            TokenKind::Eq => TokenKind::Eq,
            TokenKind::LParen => TokenKind::LParen,
            TokenKind::RParen => TokenKind::RParen,
            TokenKind::LBrace => TokenKind::LBrace,
            TokenKind::RBrace => TokenKind::RBrace,
            TokenKind::Comma => TokenKind::Comma,
            TokenKind::Semicolon => TokenKind::Semicolon,
            TokenKind::Colon => TokenKind::Colon,
            TokenKind::Arrow => TokenKind::Arrow,
            TokenKind::Eof => TokenKind::Eof,
        }
    }

    /// This kind's identifying number (see `kind_code`).
    pub fn code(&self) -> (c: u8)
        ensures
            c == kind_code(*self),
    {
        match self {
            TokenKind::Ident(_) => 0,
            TokenKind::Int(_) => 1,
            TokenKind::True => 2,
            TokenKind::False => 3,
            TokenKind::Let => 4,
            TokenKind::Fn => 5,
            TokenKind::If => 6,
            TokenKind::Else => 7,
            TokenKind::While => 8,
            TokenKind::Return => 9,
            TokenKind::And => 10,
            TokenKind::Or => 11,
            TokenKind::Not => 12,
            TokenKind::I64 => 13,
            TokenKind::Bool => 14,
            TokenKind::Plus => 15,
            TokenKind::Minus => 16,
            TokenKind::Star => 17,
            TokenKind::Slash => 18,
            TokenKind::Percent => 19,
            TokenKind::EqEq => 20,
            TokenKind::NotEq => 21,
            TokenKind::Lt => 22,
            TokenKind::Le => 23,
            TokenKind::Gt => 24,
            TokenKind::Ge => 25,
            TokenKind::Eq => 26,
            TokenKind::LParen => 27,
            TokenKind::RParen => 28,
            TokenKind::LBrace => 29,
            TokenKind::RBrace => 30,
            TokenKind::Comma => 31,
            TokenKind::Semicolon => 32,
            TokenKind::Colon => 33,
            TokenKind::Arrow => 34,
            TokenKind::Eof => 35,
        }
    }

    /// How this kind reads in a message (`identifier 'x'`, `integer 7`, `';'`).
    pub fn describe(&self) -> (s: String)
        ensures
            s@ == kind_text(*self),
    {
        match self {
            TokenKind::Ident(name) => {
                let mut s = "identifier '".to_owned();
                s.append(name.as_str());
                s.append("'");
                s
            },
            TokenKind::Int(n) => {
                let mut s = "integer ".to_owned();
                append_i64(&mut s, *n);
                s
            },
            _ => self.fixed_text().to_owned(),
        }
    }

    /// How a payload-free kind reads in a message, e.g. `';'`.
    pub fn fixed_text(&self) -> (s: &'static str)
        ensures
            s@ == fixed_description(*self),
    {
        match self {
            TokenKind::True => "'true'",
            TokenKind::False => "'false'",
            TokenKind::Let => "'let'",
            TokenKind::Fn => "'fn'",
            TokenKind::If => "'if'",
            TokenKind::Else => "'else'",
            TokenKind::While => "'while'",
            TokenKind::Return => "'return'",
            TokenKind::And => "'and'",
            TokenKind::Or => "'or'",
            TokenKind::Not => "'not'",
            TokenKind::I64 => "'i64'",
            TokenKind::Bool => "'bool'",
            TokenKind::Plus => "'+'",
            TokenKind::Minus => "'-'",
            TokenKind::Star => "'*'",
            TokenKind::Slash => "'/'",
            TokenKind::Percent => "'%'",
            TokenKind::EqEq => "'=='",
            TokenKind::NotEq => "'!='",
            TokenKind::Lt => "'<'",
            TokenKind::Le => "'<='",
            TokenKind::Gt => "'>'",
            TokenKind::Ge => "'>='",
            TokenKind::Eq => "'='",
            TokenKind::LParen => "'('",
            TokenKind::RParen => "')'",
            TokenKind::LBrace => "'{'",
            TokenKind::RBrace => "'}'",
            TokenKind::Comma => "','",
            TokenKind::Semicolon => "';'",
            TokenKind::Colon => "':'",
            TokenKind::Arrow => "'->'",
            TokenKind::Eof => "end of input",
            _ => "a literal",
        }
    }
}

} // verus!
