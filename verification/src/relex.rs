//! Writing tokens back out as source text, one space between each two, and
//! lexing that text gives back the same tokens.

use vstd::prelude::*;
use crate::lexer::{
    cons_tok, digit_end, digits_value, ident_end, is_digit_byte, is_ident_byte, is_ident_start_byte, is_ws_byte,
    keyword_kind, lex_from, punct_at, spec_lex, LexedKind, Span, TokenKind,
};

verus! {

/// The bytes of an ASCII text.
pub open spec fn ascii_text(cs: Seq<char>) -> Seq<u8> {
    cs.map_values(|c: char| (c as u32) as u8)
}

/// An identifier's spelling: ASCII, a letter or `_` first, then letters,
/// digits and `_`.
pub open spec fn is_word(cs: Seq<char>) -> bool {
    &&& cs.len() >= 1
    &&& forall|i: int| 0 <= i < cs.len() ==> (#[trigger] cs[i] as u32) < 128
    &&& is_ident_start_byte(ascii_text(cs)[0])
    &&& forall|i: int| 0 <= i < cs.len() ==> is_ident_byte(#[trigger] ascii_text(cs)[i])
}

/// The decimal digits of `n`, as bytes.
pub open spec fn decimal(n: nat) -> Seq<u8>
    decreases n,
{
    if n < 10 {
        seq![(48 + n) as u8]
    } else {
        decimal(n / 10).push((48 + n % 10) as u8)
    }
}

/// How source text spells a keyword, operator or punctuation token.
pub open spec fn symbol_text(k: TokenKind) -> Seq<u8> {
    match k {
        TokenKind::True => seq![116u8, 114, 117, 101],
        TokenKind::False => seq![102u8, 97, 108, 115, 101],
        TokenKind::Let => seq![108u8, 101, 116],
        TokenKind::Fn => seq![102u8, 110],
        TokenKind::If => seq![105u8, 102],
        TokenKind::Else => seq![101u8, 108, 115, 101],
        TokenKind::While => seq![119u8, 104, 105, 108, 101],
        TokenKind::Return => seq![114u8, 101, 116, 117, 114, 110],
        TokenKind::And => seq![97u8, 110, 100],
        TokenKind::Or => seq![111u8, 114],
        TokenKind::Not => seq![110u8, 111, 116],
        TokenKind::I64 => seq![105u8, 54, 52],
        TokenKind::Bool => seq![98u8, 111, 111, 108],
        TokenKind::Plus => seq![43u8],
        TokenKind::Minus => seq![45u8],
        TokenKind::Star => seq![42u8],
        TokenKind::Slash => seq![47u8],
        TokenKind::Percent => seq![37u8],
        TokenKind::EqEq => seq![61u8, 61],
        TokenKind::NotEq => seq![33u8, 61],
        TokenKind::Lt => seq![60u8],
        TokenKind::Le => seq![60u8, 61],
        TokenKind::Gt => seq![62u8],
        TokenKind::Ge => seq![62u8, 61],
        TokenKind::Eq => seq![61u8],
        TokenKind::LParen => seq![40u8],
        TokenKind::RParen => seq![41u8],
        TokenKind::LBrace => seq![123u8],
        TokenKind::RBrace => seq![125u8],
        TokenKind::Comma => seq![44u8],
        TokenKind::Semicolon => seq![59u8],
        TokenKind::Colon => seq![58u8],
        TokenKind::Arrow => seq![45u8, 62],
        _ => Seq::empty(),
    }
}

/// How source text spells a token.
pub open spec fn token_text(k: LexedKind) -> Seq<u8> {
    match k {
        LexedKind::Ident(cs) => ascii_text(cs),
        LexedKind::Int(n) => decimal(n as nat),
        LexedKind::Fixed(t) => symbol_text(t),
    }
}

/// A token that source text can spell on its own: an identifier that is
/// not a keyword, a non-negative integer, or a keyword, operator or
/// punctuation mark.
pub open spec fn spellable(k: LexedKind) -> bool {
    match k {
        LexedKind::Ident(cs) => is_word(cs) && keyword_kind(ascii_text(cs)) is None,
        LexedKind::Int(n) => n >= 0,
        LexedKind::Fixed(t) => !(t is Ident || t is Int || t is Eof),
    }
}

/// The tokens spelled out, with one space between each two.
pub open spec fn spaced(ks: Seq<LexedKind>) -> Seq<u8>
    decreases ks.len(),
{
    if ks.len() == 0 {
        Seq::empty()
    } else if ks.len() == 1 {
        token_text(ks[0])
    } else {
        token_text(ks[0]) + seq![32u8] + spaced(ks.drop_first())
    }
}

proof fn lemma_decimal(n: nat)
    ensures
        decimal(n).len() >= 1,
        forall|i: int| 0 <= i < decimal(n).len() ==> is_digit_byte(#[trigger] decimal(n)[i]),
        digits_value(decimal(n)) == n,
    decreases n,
{
    if n < 10 {
        let d = decimal(n);
        assert(d.drop_last() =~= Seq::<u8>::empty());
        assert(d.last() == 48 + n);
        assert(digits_value(d.drop_last()) == 0);
        assert(digits_value(d) == digits_value(d.drop_last()) * 10 + (d.last() - 48));
    } else {
        lemma_decimal(n / 10);
        let d = decimal(n);
        assert(d.drop_last() =~= decimal(n / 10));
        assert(d.last() == 48 + n % 10);
        assert((n / 10) * 10 + n % 10 == n);
        assert(digits_value(d.drop_last()) == n / 10);
        assert(digits_value(d) == digits_value(d.drop_last()) * 10 + (d.last() - 48));
        assert forall|i: int| 0 <= i < d.len() implies is_digit_byte(#[trigger] d[i]) by {
            if i < d.len() - 1 {
                assert(d[i] == decimal(n / 10)[i]);
            }
        }
    }
}

proof fn lemma_digit_run(s: Seq<u8>, p: nat, e: nat)
    requires
        p <= e <= s.len(),
        forall|i: int| p <= i < e ==> is_digit_byte(#[trigger] s[i]),
        e == s.len() || !is_digit_byte(s[e as int]),
    ensures
        digit_end(s, p) == e,
    decreases e - p,
{
    if p < e {
        lemma_digit_run(s, p + 1, e);
    }
}

proof fn lemma_ident_run(s: Seq<u8>, p: nat, e: nat)
    requires
        p <= e <= s.len(),
        forall|i: int| p <= i < e ==> is_ident_byte(#[trigger] s[i]),
        e == s.len() || !is_ident_byte(s[e as int]),
    ensures
        ident_end(s, p) == e,
    decreases e - p,
{
    if p < e {
        lemma_ident_run(s, p + 1, e);
    }
}

proof fn lemma_ascii(cs: Seq<char>)
    requires
        forall|i: int| 0 <= i < cs.len() ==> (#[trigger] cs[i] as u32) < 128,
    ensures
        vstd::utf8::valid_utf8(ascii_text(cs)),
        vstd::utf8::decode_utf8(ascii_text(cs)) == cs,
    decreases cs.len(),
{
    let b = ascii_text(cs);
    if cs.len() > 0 {
        let rest = cs.drop_first();
        assert forall|i: int| 0 <= i < rest.len() implies (#[trigger] rest[i] as u32) < 128 by {
            assert(rest[i] == cs[i + 1]);
        }
        lemma_ascii(rest);
        let b0 = b[0];
        assert((cs[0] as u32) < 128);
        assert(b0 as u32 == cs[0] as u32);
        assert(b0 & 0x7f == b0) by (bit_vector)
            requires
                b0 < 128;
        assert(vstd::utf8::pop_first_scalar(b) =~= ascii_text(rest));
        assert(vstd::utf8::decode_first_scalar(b) == cs[0] as u32);
        vstd::utf8::char_u32_cast(cs[0], vstd::utf8::decode_first_scalar(b));
        assert((vstd::utf8::decode_first_scalar(b) as char) == cs[0]);
        assert(seq![cs[0]] + rest =~= cs);
    } else {
        assert(b =~= Seq::<u8>::empty());
    }
}

/// Lexing at the start of a token's spelling, followed by a space or the
/// end of the text, gives that token and goes on right after it.
proof fn lemma_one(s: Seq<u8>, p: nat, k: LexedKind)
    requires
        spellable(k),
        p + token_text(k).len() <= s.len(),
        s.subrange(p as int, p + token_text(k).len() as int) == token_text(k),
        p + token_text(k).len() == s.len() || s[p + token_text(k).len() as int] == 32,
    ensures
        token_text(k).len() >= 1,
        lex_from(s, p) == cons_tok((k, Span { start: p as usize, end: (p + token_text(k).len()) as usize }),
            lex_from(s, p + token_text(k).len())),
{
    let t = token_text(k);
    let e = p + t.len();
    match k {
        LexedKind::Int(n) => {
            lemma_decimal(n as nat);
            assert forall|i: int| p + 1 <= i < e implies is_digit_byte(#[trigger] s[i]) by {
                assert(s[i] == t[i - p]);
            }
            assert(s[p as int] == t[0]);
            lemma_digit_run(s, p + 1, e);
            assert(s.subrange(p as int, e as int) == t);
        },
        LexedKind::Ident(cs) => {
            lemma_ascii(cs);
            assert forall|i: int| p + 1 <= i < e implies is_ident_byte(#[trigger] s[i]) by {
                assert(s[i] == t[i - p]);
            }
            assert(s[p as int] == t[0]);
            lemma_ident_run(s, p + 1, e);
        },
        LexedKind::Fixed(tk) => {
            assert(s[p as int] == t[0]);
            if t.len() > 1 {
                assert(s[p + 1int] == t[1]);
            }
            if tk is True || tk is False || tk is Let || tk is Fn || tk is If || tk is Else || tk is While || tk is Return
                || tk is And || tk is Or || tk is Not || tk is I64 || tk is Bool {
                assert forall|i: int| p + 1 <= i < e implies is_ident_byte(#[trigger] s[i]) by {
                    assert(s[i] == t[i - p]);
                }
                lemma_ident_run(s, p + 1, e);
                assert(keyword_kind(t) == Some(tk));
            } else {
                assert(punct_at(s, p) == Ok::<(TokenKind, nat), crate::lexer::LexError>((tk, t.len())));
            }
        },
    }
}

/// The kinds of a lexed token sequence.
pub open spec fn kinds_of(ts: Seq<(LexedKind, Span)>) -> Seq<LexedKind> {
    ts.map_values(|t: (LexedKind, Span)| t.0)
}

proof fn lemma_relex_from(s: Seq<u8>, p: nat, ks: Seq<LexedKind>)
    requires
        p <= s.len(),
        s.subrange(p as int, s.len() as int) == spaced(ks),
        forall|i: int| 0 <= i < ks.len() ==> spellable(#[trigger] ks[i]),
    ensures
        lex_from(s, p) matches Ok(ts) && kinds_of(ts) == ks.push(LexedKind::Fixed(TokenKind::Eof)),
    decreases ks.len(),
{
    if ks.len() == 0 {
        assert(s.subrange(p as int, s.len() as int).len() == 0);
        let ts = lex_from(s, p)->Ok_0;
        assert(kinds_of(ts) =~= ks.push(LexedKind::Fixed(TokenKind::Eof)));
    } else {
        let k = ks[0];
        let t = token_text(k);
        let rest = ks.drop_first();
        assert(spellable(k));
        if ks.len() == 1 {
            assert(spaced(ks) == t);
            assert(s.subrange(p as int, p + t.len() as int) =~= t);
            lemma_one(s, p, k);
            let tok = (k, Span { start: p as usize, end: (p + t.len()) as usize });
            let ts = seq![tok] + lex_from(s, p + t.len())->Ok_0;
            assert(kinds_of(ts) =~= ks.push(LexedKind::Fixed(TokenKind::Eof)));
        } else {
            let sp = spaced(ks);
            assert(sp == t + seq![32u8] + spaced(rest));
            assert(s.subrange(p as int, p + t.len() as int) =~= t) by {
                assert forall|i: int| 0 <= i < t.len() implies s.subrange(p as int, p + t.len() as int)[i] == t[i] by {
                    assert(s.subrange(p as int, s.len() as int)[i] == sp[i]);
                }
            }
            assert(s[p + t.len() as int] == 32) by {
                assert(s.subrange(p as int, s.len() as int)[t.len() as int] == sp[t.len() as int]);
            }
            let q = (p + t.len() + 1) as nat;
            assert(s.subrange(q as int, s.len() as int) =~= spaced(rest)) by {
                assert forall|i: int| 0 <= i < spaced(rest).len() implies s.subrange(q as int, s.len() as int)[i] == spaced(rest)[i] by {
                    assert(s.subrange(p as int, s.len() as int)[t.len() + 1 + i] == sp[t.len() + 1 + i]);
                }
            }
            assert forall|i: int| 0 <= i < rest.len() implies spellable(#[trigger] rest[i]) by {
                assert(rest[i] == ks[i + 1]);
            }
            lemma_one(s, p, k);
            lemma_relex_from(s, q, rest);
            assert(lex_from(s, (p + t.len()) as nat) == lex_from(s, q));
            let tok = (k, Span { start: p as usize, end: (p + t.len()) as usize });
            let r = lex_from(s, q)->Ok_0;
            let ts = seq![tok] + r;
            assert(kinds_of(ts) =~= ks.push(LexedKind::Fixed(TokenKind::Eof))) by {
                assert(kinds_of(r) == rest.push(LexedKind::Fixed(TokenKind::Eof)));
                assert forall|i: int| 0 <= i < ts.len() implies #[trigger] kinds_of(ts)[i]
                    == ks.push(LexedKind::Fixed(TokenKind::Eof))[i] by {
                    if i > 0 {
                        assert(ts[i] == r[i - 1]);
                        assert(kinds_of(r)[i - 1] == rest.push(LexedKind::Fixed(TokenKind::Eof))[i - 1]);
                    }
                }
            }
        }
    }
}

/// Tokens that source text can spell, written out with one space between
/// each two, lex back to exactly those tokens, then the end of input.
pub proof fn lemma_spaced_tokens_relex(ks: Seq<LexedKind>)
    requires
        forall|i: int| 0 <= i < ks.len() ==> spellable(#[trigger] ks[i]),
    ensures
        spec_lex(spaced(ks)) matches Ok(ts) && kinds_of(ts) == ks.push(LexedKind::Fixed(TokenKind::Eof)),
{
    let s = spaced(ks);
    assert(s.subrange(0, s.len() as int) =~= s);
    lemma_relex_from(s, 0, ks);
}

} // verus!
