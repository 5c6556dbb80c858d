//! Recursive-descent, precedence-climbing parser that drives the SSA builder
//! directly: every expression and statement becomes typed SSA values and
//! control flow the moment it is recognized, with no syntax tree in between.
//! Type checking is folded in the same way: a binary operator's operand types
//! are checked as soon as both operands are typed values.
//!
//! Two passes run over the token stream. The first records every function's
//! name, parameters and return type (skipping bodies by brace matching), so
//! forward and mutually recursive calls resolve; the second parses each body
//! with the complete signature table at hand.

use vstd::prelude::*;
use vstd::string::StringSliceAdditionalSpecFns;
use crate::block::Terminator;
use crate::block::BasicBlock;
use crate::function::{Function, find_block, lemma_find_block};
use crate::block::term_successors;
use crate::liveness::flow_ready;
use crate::validate::{duplicate_block, target_error};
use crate::inst::{BinOp, InstKind, Instruction, UnOp};
use crate::lexer::{kind_code, kind_text, lex, LexError, Span, Token, TokenKind, spec_lex, lemma_lex_shape,
    tokens_view, LexedKind};
use crate::module::{Module, str_eq, find_function, lemma_find_function};
use crate::ssa_builder::{SsaBuilder, defines, no_phi};
use crate::types::Type;
use crate::value::{BlockId, ValueId};
use crate::text::append_digits;
use vstd::string::StringExecFns;

verus! {

/// A function's parameter types and return type, as every call is checked
/// against them.
#[derive(Debug, Clone, PartialEq, Eq)]
pub struct FnSig {
    pub params: Vec<Type>,
    pub ret_ty: Option<Type>,
}

/// Every way a source text can be rejected.
#[derive(Debug, Clone, PartialEq, Eq)]
pub enum ParseError {
    Lex(LexError),
    UnexpectedToken { expected: String, found: TokenKind, span: Span },
    DuplicateFunction { name: String },
    DuplicateParameter { func: String, name: String },
    UndefinedVariable { name: String, span: Span },
    UndefinedFunction { name: String, span: Span },
    ArgCountMismatch { func: String, expected: usize, given: usize, span: Span },
    TypeMismatch { expected: Type, actual: Type, span: Span },
    UnreachableCode { span: Span },
}

/// The most tokens a parse takes: enough that every block id of a function
/// stays a `u32`.
pub const MAX_TOKENS: usize = 0x4000_0001;

struct Parser {
    tokens: Vec<Token>,
    pos: usize,
    /// The signature table: one entry per function, names distinct.
    sigs: Vec<(String, FnSig)>,
}

/// The comparison operator a token stands for, if any.
pub open spec fn cmp_op_of(k: TokenKind) -> Option<BinOp> {
    match k {
        TokenKind::EqEq => Some(BinOp::CmpEq),
        TokenKind::NotEq => Some(BinOp::CmpNe),
        TokenKind::Lt => Some(BinOp::CmpLt),
        TokenKind::Le => Some(BinOp::CmpLe),
        TokenKind::Gt => Some(BinOp::CmpGt),
        TokenKind::Ge => Some(BinOp::CmpGe),
        _ => None,
    }
}

/// `starts` are the positions, in increasing order and the first at the
/// beginning, of the headers `fn name(params) -> type` that declare the
/// functions `fs`, one for one, in the token sequence `ts`.
pub open spec fn header_positions(ts: Seq<(LexedKind, Span)>, starts: Seq<usize>, fs: Seq<Function>) -> bool {
    &&& starts.len() == fs.len()
    &&& starts.len() > 0 ==> starts[0] == 0
    &&& forall|i: int, j: int| 0 <= i < j < starts.len() ==> (#[trigger] starts[i]) < (#[trigger] starts[j])
    &&& forall|k: int| 0 <= k < starts.len() ==> #[trigger] declares(ts, starts[k] as int, fs[k].name@, fs[k].params@, fs[k].ret_ty->0)
}

/// Just past the `}` that closes the brace block at depth `d` whose content
/// goes on from token `i` of `ts`; `ts.len()` where the input ends first.
pub open spec fn block_close(ts: Seq<(LexedKind, Span)>, i: int, d: int) -> int
    decreases ts.len() - i,
{
    if i < 0 || i >= ts.len() || lexed_code(ts[i].0) == 35 {
        ts.len() as int
    } else if lexed_code(ts[i].0) == 30 {
        if d <= 1 { i + 1 } else { block_close(ts, i + 1, d - 1) }
    } else if lexed_code(ts[i].0) == 29 {
        block_close(ts, i + 1, d + 1)
    } else {
        block_close(ts, i + 1, d)
    }
}

/// Just past the body of the function whose header, with `n` parameters,
/// starts at token `start` of `ts`.
pub open spec fn body_end(ts: Seq<(LexedKind, Span)>, start: int, n: int) -> int {
    block_close(ts, header_close(start, n) + 4, 1)
}

/// The functions `fs` declared at `starts` follow one another: each
/// header starts just past the body before it, and the end of input comes
/// just past the last body.
pub open spec fn bodies_follow(ts: Seq<(LexedKind, Span)>, starts: Seq<usize>, fs: Seq<Function>) -> bool {
    &&& forall|k: int| 0 <= k < starts.len() - 1 ==> #[trigger] starts[k + 1] == body_end(ts, starts[k] as int, fs[k].params@.len() as int)
    &&& starts.len() > 0 ==> {
        let e = body_end(ts, starts.last() as int, fs.last().params@.len() as int);
        0 <= e < ts.len() && lexed_code(ts[e].0) == 35
    }
}

/// Every call in module `m` names one of its functions and passes it as
/// many arguments as that function has parameters.
pub open spec fn calls_resolve(m: Module) -> bool {
    forall|i: int, b: int, q: int| 0 <= i < m.functions@.len() && 0 <= b < m.functions@[i].blocks@.len()
        && 0 <= q < m.functions@[i].blocks@[b].instructions@.len()
        ==> call_resolves(m, #[trigger] m.functions@[i].blocks@[b].instructions@[q])
}

/// If `inst` is a call, it names a function of `m` and passes it as many
/// arguments as that function has parameters.
pub open spec fn call_resolves(m: Module, inst: Instruction) -> bool {
    inst.kind matches InstKind::Call { func, args }
        ==> (find_function(m.functions@, func@) matches Some(ci) && m.functions@[ci].params@.len() == args@.len())
}

/// The lexeme of a type name.
pub open spec fn type_lexeme(t: Type) -> LexedKind {
    match t {
        Type::I64 => LexedKind::Fixed(TokenKind::I64),
        Type::Bool => LexedKind::Fixed(TokenKind::Bool),
    }
}

/// Where the `)` closing the parameter list of a header at `start` with
/// `n` parameters stands.
pub open spec fn header_close(start: int, n: int) -> int {
    if n == 0 { start + 3 } else { start + 2 + 4 * n }
}

/// Parameters `params` are laid out from token `start + 3` on as
/// `name : type`, each of the first `commas` followed by a `,`.
pub open spec fn params_laid(ts: Seq<(LexedKind, Span)>, start: int, params: Seq<(String, Type)>, commas: int) -> bool {
    forall|i: int| 0 <= i < params.len() ==> {
        &&& ts[start + 3 + 4 * i].0 == LexedKind::Ident((#[trigger] params[i]).0@)
        &&& ts[start + 4 + 4 * i].0 == LexedKind::Fixed(TokenKind::Colon)
        &&& ts[start + 5 + 4 * i].0 == type_lexeme(params[i].1)
        &&& i < commas ==> ts[start + 6 + 4 * i].0 == LexedKind::Fixed(TokenKind::Comma)
    }
}

/// The tokens from `start` on are the header `fn name(params) -> ret`.
pub open spec fn declares(ts: Seq<(LexedKind, Span)>, start: int, name: Seq<char>, params: Seq<(String, Type)>, ret: Type) -> bool {
    let close = header_close(start, params.len() as int);
    &&& 0 <= start
    &&& close + 2 < ts.len()
    &&& ts[start].0 == LexedKind::Fixed(TokenKind::Fn)
    &&& ts[start + 1].0 == LexedKind::Ident(name)
    &&& ts[start + 2].0 == LexedKind::Fixed(TokenKind::LParen)
    &&& params_laid(ts, start, params, params.len() - 1)
    &&& ts[close].0 == LexedKind::Fixed(TokenKind::RParen)
    &&& ts[close + 1].0 == LexedKind::Fixed(TokenKind::Arrow)
    &&& ts[close + 2].0 == type_lexeme(ret)
}

/// A header at a given place lists its parameters one way only: where the
/// shorter list closes, the longer has a parameter or a comma.
proof fn lemma_declares_len(ts: Seq<(LexedKind, Span)>, start: int, n1: Seq<char>, p1: Seq<(String, Type)>, r1: Type,
    n2: Seq<char>, p2: Seq<(String, Type)>, r2: Type)
    requires
        declares(ts, start, n1, p1, r1),
        declares(ts, start, n2, p2, r2),
    ensures
        p1.len() == p2.len(),
{
    lemma_closes_where_longer_continues(ts, start, n1, p1, r1, n2, p2, r2);
    lemma_closes_where_longer_continues(ts, start, n2, p2, r2, n1, p1, r1);
}

proof fn lemma_closes_where_longer_continues(ts: Seq<(LexedKind, Span)>, start: int, n1: Seq<char>, p1: Seq<(String, Type)>,
    r1: Type, n2: Seq<char>, p2: Seq<(String, Type)>, r2: Type)
    requires
        declares(ts, start, n1, p1, r1),
        declares(ts, start, n2, p2, r2),
    ensures
        p1.len() >= p2.len(),
{
    if p1.len() < p2.len() {
        if p1.len() == 0 {
            assert(ts[start + 3 + 4 * 0].0 == LexedKind::Ident(p2[0].0@));
        } else {
            let i = p1.len() - 1;
            assert(ts[start + 6 + 4 * i].0 == LexedKind::Fixed(TokenKind::Comma)) by {
                assert(p2[i] == p2[i]);
            }
        }
    }
}

/// Names of a header's parameters, pairwise distinct.
pub open spec fn distinct_names(params: Seq<(String, Type)>) -> bool {
    forall|i: int, j: int| 0 <= i < j < params.len() ==> (#[trigger] params[i]).0@ != (#[trigger] params[j]).0@
}

/// Two headers `fn name` stand in `ts`.
pub open spec fn header_twice(ts: Seq<(LexedKind, Span)>, name: Seq<char>) -> bool {
    exists|a: int, b: int| #![trigger ts[a], ts[b]] 0 <= a < b && b + 1 < ts.len()
        && ts[a].0 == LexedKind::Fixed(TokenKind::Fn) && ts[b].0 == LexedKind::Fixed(TokenKind::Fn)
        && ts[a + 1].0 == LexedKind::Ident(name) && ts[b + 1].0 == LexedKind::Ident(name)
}

/// The header `fn func(` at some token of `ts` names parameter `name` at
/// two places of its parameter list.
pub open spec fn param_twice(ts: Seq<(LexedKind, Span)>, func: Seq<char>, name: Seq<char>) -> bool {
    exists|s: int, a: int, b: int| #![trigger ts[s], ts[a], ts[b]] 0 <= s && s + 3 <= a < b < ts.len()
        && (a - s - 3) % 4 == 0 && (b - s - 3) % 4 == 0
        && ts[s].0 == LexedKind::Fixed(TokenKind::Fn) && ts[s + 1].0 == LexedKind::Ident(func)
        && ts[s + 2].0 == LexedKind::Fixed(TokenKind::LParen)
        && ts[a].0 == LexedKind::Ident(name) && ts[b].0 == LexedKind::Ident(name)
}

/// Some token of `ts` has span `span`.
pub open spec fn span_of_token(ts: Seq<Token>, span: Span) -> bool {
    exists|k: int| 0 <= k < ts.len() && (#[trigger] ts[k]).span == span
}

/// What `e` reports of the source it stems from: the span of one of the
/// tokens `ts`, for an unexpected token that token's kind, and for a name
/// declared twice the two declarations.
pub open spec fn from_tokens(ts: Seq<Token>, e: ParseError) -> bool {
    match e {
        ParseError::UnexpectedToken { found, span, .. } => exists|k: int| 0 <= k < ts.len()
            && (#[trigger] ts[k]).kind == found && ts[k].span == span,
        ParseError::UndefinedVariable { span, .. } => span_of_token(ts, span),
        ParseError::UndefinedFunction { span, .. } => span_of_token(ts, span),
        ParseError::ArgCountMismatch { span, .. } => span_of_token(ts, span),
        ParseError::TypeMismatch { span, .. } => span_of_token(ts, span),
        ParseError::UnreachableCode { span } => span_of_token(ts, span),
        ParseError::DuplicateFunction { name } => header_twice(tokens_view(ts), name@),
        ParseError::DuplicateParameter { func, name } => param_twice(tokens_view(ts), func@, name@),
        _ => true,
    }
}

/// What `e` reports of the source whose tokens are `ts`: where one of them
/// stands, for an unexpected token which one it is, and for a name
/// declared twice the two declarations.
pub open spec fn from_source(ts: Seq<(LexedKind, Span)>, e: ParseError) -> bool {
    match e {
        ParseError::UnexpectedToken { found, span, .. } => exists|k: int| 0 <= k < ts.len()
            && #[trigger] ts[k] == (found@, span),
        ParseError::UndefinedVariable { span, .. } => exists|k: int| 0 <= k < ts.len() && (#[trigger] ts[k]).1 == span,
        ParseError::UndefinedFunction { span, .. } => exists|k: int| 0 <= k < ts.len() && (#[trigger] ts[k]).1 == span,
        ParseError::ArgCountMismatch { span, .. } => exists|k: int| 0 <= k < ts.len() && (#[trigger] ts[k]).1 == span,
        ParseError::TypeMismatch { span, .. } => exists|k: int| 0 <= k < ts.len() && (#[trigger] ts[k]).1 == span,
        ParseError::UnreachableCode { span } => exists|k: int| 0 <= k < ts.len() && (#[trigger] ts[k]).1 == span,
        ParseError::DuplicateFunction { name } => header_twice(ts, name@),
        ParseError::DuplicateParameter { func, name } => param_twice(ts, func@, name@),
        _ => true,
    }
}

proof fn lemma_from_tokens_view(ts: Seq<Token>, e: ParseError)
    requires
        from_tokens(ts, e),
    ensures
        from_source(tokens_view(ts), e),
{
    let tv = tokens_view(ts);
    match e {
        ParseError::UnexpectedToken { found, span, .. } => {
            let k = choose|k: int| 0 <= k < ts.len() && (#[trigger] ts[k]).kind == found && ts[k].span == span;
            assert(tv[k] == (found@, span));
        },
        ParseError::UndefinedVariable { span, .. } | ParseError::UndefinedFunction { span, .. }
        | ParseError::ArgCountMismatch { span, .. } | ParseError::TypeMismatch { span, .. }
        | ParseError::UnreachableCode { span } => {
            let k = choose|k: int| 0 <= k < ts.len() && (#[trigger] ts[k]).span == span;
            assert(tv[k].1 == span);
        },
        _ => {},
    }
}

/// `e` reports that `expected` was wanted where the cursor of `p` stands.
spec fn unexpected_at(p: Parser, e: ParseError, expected: Seq<char>) -> bool {
    e matches ParseError::UnexpectedToken { expected: x, found, span } && x@ == expected
        && found == p.tokens@[p.pos as int].kind && span == p.tokens@[p.pos as int].span
}

impl Parser {
    spec fn wf(&self) -> bool {
        &&& 1 <= self.tokens@.len() <= MAX_TOKENS
        &&& self.tokens@.last().kind == TokenKind::Eof
        &&& self.pos < self.tokens@.len()
    }

    /// The kind of the token at the cursor.
    spec fn cursor_kind(&self) -> TokenKind {
        self.tokens@[self.pos as int].kind
    }

    /// The code of the kind of the token at the cursor.
    spec fn code(&self) -> u8 {
        kind_code(self.tokens@[self.pos as int].kind)
    }

    /// `self` is `prev` with the cursor moved forward.
    spec fn moved_on(&self, prev: &Parser) -> bool {
        &&& self.wf()
        &&& self.tokens@ == prev.tokens@
        &&& self.sigs@ == prev.sigs@
        &&& self.pos > prev.pos
    }

    spec fn left(&self) -> int {
        self.tokens@.len() - self.pos
    }

    proof fn lemma_not_at_end(&self)
        requires
            self.wf(),
            self.code() != 35,
        ensures
            self.pos + 1 < self.tokens@.len(),
    {
        if self.pos + 1 == self.tokens@.len() {
            assert(self.tokens@[self.pos as int] == self.tokens@.last());
        }
    }

    fn new(tokens: Vec<Token>) -> (p: Self)
        requires
            1 <= tokens@.len() <= MAX_TOKENS,
            tokens@.last().kind == TokenKind::Eof,
        ensures
            p.wf(),
            p.pos == 0,
            p.tokens@ == tokens@,
            p.sigs@.len() == 0,
    {
        Parser { tokens, pos: 0, sigs: Vec::new() }
    }

    fn peek(&self) -> (t: &Token)
        requires
            self.wf(),
        ensures
            *t == self.tokens@[self.pos as int],
    {
        &self.tokens[self.pos]
    }

    /// Whether the token at the cursor is of `kind`'s kind.
    fn peek_is(&self, kind: &TokenKind) -> (r: bool)
        requires
            self.wf(),
        ensures
            r == (self.code() == kind_code(*kind)),
    {
        self.tokens[self.pos].kind.code() == kind.code()
    }

    /// Steps past the token at the cursor; the end-of-input token is never
    /// stepped past.
    fn advance(&mut self)
        requires
            old(self).wf(),
        ensures
            final(self).wf(),
            final(self).tokens@ == old(self).tokens@,
            final(self).sigs@ == old(self).sigs@,
            final(self).pos == if old(self).pos + 1 < old(self).tokens@.len() { old(self).pos + 1 } else { old(self).pos as int },
    {
        if self.pos + 1 < self.tokens.len() {
            self.pos += 1;
        }
    }

    fn unexpected(&self, expected: String) -> (e: ParseError)
        requires
            self.wf(),
        ensures
            !(e is Lex),
            e matches ParseError::UnexpectedToken { expected: x, span, found } && x == expected
                && span == self.tokens@[self.pos as int].span && found == self.tokens@[self.pos as int].kind,
    {
        ParseError::UnexpectedToken {
            expected,
            found: self.tokens[self.pos].kind.duplicate(),
            span: self.tokens[self.pos].span,
        }
    }

    /// Consumes a token of `kind`'s kind, or fails naming what was expected.
    fn expect(&mut self, kind: &TokenKind) -> (r: Result<(), ParseError>)
        requires
            old(self).wf(),
            kind_code(*kind) != 35,
        ensures
            r is Ok <==> old(self).code() == kind_code(*kind),
            r is Ok ==> final(self).moved_on(old(self)) && final(self).pos == old(self).pos + 1,
            r matches Err(e) ==> !(e is Lex) && from_tokens(old(self).tokens@, e),
            r matches Err(e) ==> unexpected_at(*old(self), e, kind_text(*kind)),
    {
        if self.peek_is(kind) {
            proof { self.lemma_not_at_end(); }
            self.advance();
            Ok(())
        } else {
            Err(self.unexpected(kind.describe()))
        }
    }

    fn expect_ident(&mut self) -> (r: Result<String, ParseError>)
        requires
            old(self).wf(),
        ensures
            r is Ok <==> old(self).code() == 0,
            r matches Ok(name) ==> final(self).moved_on(old(self)) && final(self).pos == old(self).pos + 1
                && old(self).tokens@[old(self).pos as int].kind@ == LexedKind::Ident(name@),
            r matches Err(e) ==> !(e is Lex) && from_tokens(old(self).tokens@, e),
    {
        match &self.tokens[self.pos].kind {
            TokenKind::Ident(name) => {
                let n = name.clone();
                proof { self.lemma_not_at_end(); }
                self.advance();
                Ok(n)
            },
            _ => Err(self.unexpected("an identifier".to_owned())),
        }
    }

    fn expect_type(&mut self) -> (r: Result<Type, ParseError>)
        requires
            old(self).wf(),
        ensures
            r is Ok <==> (old(self).code() == 13 || old(self).code() == 14),
            r matches Ok(t) ==> final(self).moved_on(old(self)) && final(self).pos == old(self).pos + 1
                && t == (if old(self).code() == 13 { Type::I64 } else { Type::Bool }),
            r matches Err(e) ==> !(e is Lex) && from_tokens(old(self).tokens@, e),
    {
        if self.peek_is(&TokenKind::I64) {
            proof { self.lemma_not_at_end(); }
            self.advance();
            Ok(Type::I64)
        } else if self.peek_is(&TokenKind::Bool) {
            proof { self.lemma_not_at_end(); }
            self.advance();
            Ok(Type::Bool)
        } else {
            Err(self.unexpected("a type ('i64' or 'bool')".to_owned()))
        }
    }

    /// Parses `fn name(params) -> type`, leaving the cursor at the `{` that
    /// follows. Both passes read headers through this one function.
    #[verifier::spinoff_prover]
    fn parse_fn_header(&mut self) -> (r: Result<(String, Vec<(String, Type)>, Option<Type>), ParseError>)
        requires
            old(self).wf(),
        ensures
            r matches Ok((name, params, ret_ty)) ==> {
                &&& final(self).moved_on(old(self))
                &&& distinct_names(params@)
                &&& ret_ty is Some
                &&& old(self).tokens@[old(self).pos + 1].kind@ == LexedKind::Ident(name@)
                &&& old(self).code() == 5
                &&& declares(tokens_view(old(self).tokens@), old(self).pos as int, name@, params@, ret_ty->0)
                &&& final(self).pos == header_close(old(self).pos as int, params@.len() as int) + 3
            },
            r matches Err(e) ==> !(e is Lex) && from_tokens(old(self).tokens@, e),
            old(self).code() != 5 ==> (r matches Err(e) && unexpected_at(*old(self), e, kind_text(TokenKind::Fn))),
            bare_header_at(tokens_view(old(self).tokens@), old(self).pos as int) ==> (r matches Ok((_, params, ret_ty))
                && params@.len() == 0 && final(self).pos == old(self).pos + 6
                && ret_ty == Some(type_of_code(kind_code(old(self).tokens@[old(self).pos + 5].kind)))),
    {
        let ghost ts = tokens_view(self.tokens@);
        proof { lemma_codes_agree(self.tokens@); }
        self.expect(&TokenKind::Fn)?;
        let name = self.expect_ident()?;
        self.expect(&TokenKind::LParen)?;
        let mut params: Vec<(String, Type)> = Vec::new();
        let ghost start = old(self).pos;
        proof {
            assert(ts[start as int].0 == LexedKind::Fixed(TokenKind::Fn));
            assert(ts[start + 1].0 == LexedKind::Ident(name@));
            assert(ts[start + 2].0 == LexedKind::Fixed(TokenKind::LParen));
        }
        if !self.peek_is(&TokenKind::RParen) {
            loop
                invariant_except_break
                    self.pos == start + 3 + 4 * params@.len(),
                    params_laid(ts, start as int, params@, params@.len() as int),
                invariant
                    !bare_header_at(tokens_view(old(self).tokens@), old(self).pos as int),
                    self.wf(),
                    self.tokens@ == old(self).tokens@,
                    self.sigs@ == old(self).sigs@,
                    self.pos > start,
                    distinct_names(params@),
                    ts == tokens_view(self.tokens@),
                    old(self).code() == 5,
                    ts[start as int].0 == LexedKind::Fixed(TokenKind::Fn),
                    ts[start + 1].0 == LexedKind::Ident(name@),
                    ts[start + 2].0 == LexedKind::Fixed(TokenKind::LParen),
                ensures
                    params@.len() >= 1,
                    self.pos == start + 2 + 4 * params@.len(),
                    params_laid(ts, start as int, params@, params@.len() - 1),
                decreases self.tokens@.len() - self.pos,
            {
                let ghost before = params@;
                let pname = self.expect_ident()?;
                assert(ts[start + 3 + 4 * before.len()].0 == LexedKind::Ident(pname@));
                self.expect(&TokenKind::Colon)?;
                let pty = self.expect_type()?;
                let mut k: usize = 0;
                while k < params.len()
                    invariant
                        !bare_header_at(tokens_view(old(self).tokens@), old(self).pos as int),
                        k <= params@.len(),
                        forall|i: int| 0 <= i < k ==> (#[trigger] params@[i]).0@ != pname@,
                        old(self).code() == 5,
                        ts == tokens_view(old(self).tokens@),
                        params_laid(ts, start as int, params@, params@.len() as int),
                        ts[start as int].0 == LexedKind::Fixed(TokenKind::Fn),
                        ts[start + 1].0 == LexedKind::Ident(name@),
                        ts[start + 2].0 == LexedKind::Fixed(TokenKind::LParen),
                        ts[start + 3 + 4 * params@.len()].0 == LexedKind::Ident(pname@),
                        start + 3 + 4 * params@.len() < ts.len(),
                    decreases params.len() - k,
                {
                    if str_eq(params[k].0.as_str(), pname.as_str()) {
                        proof {
                            let a = start + 3 + 4 * k;
                            let b = start + 3 + 4 * params@.len();
                            assert(ts[a].0 == LexedKind::Ident(params@[k as int].0@));
                            assert((a - start - 3) % 4 == 0) by (nonlinear_arith) requires a == start + 3 + 4 * k;
                            assert((b - start - 3) % 4 == 0) by (nonlinear_arith) requires b == start + 3 + 4 * params@.len();
                            assert(ts[start as int] == ts[start as int] && ts[a] == ts[a] && ts[b] == ts[b]);
                            assert(param_twice(ts, name@, pname@));
                        }
                        return Err(ParseError::DuplicateParameter { func: name.clone(), name: pname });
                    }
                    k += 1;
                }
                let ghost before2 = params@;
                params.push((pname, pty));
                assert(distinct_names(params@)) by {
                    assert forall|i: int, j: int| 0 <= i < j < params@.len() implies (#[trigger] params@[i]).0@
                        != (#[trigger] params@[j]).0@ by {
                        if j < before2.len() {
                            assert(params@[i] == before2[i]);
                            assert(params@[j] == before2[j]);
                        } else {
                            assert(params@[i] == before2[i]);
                        }
                    }
                }
                proof {
                    let n = before2.len() as int;
                    assert(ts[start + 3 + 4 * n].0 == LexedKind::Ident(params@[n].0@));
                    assert(ts[start + 4 + 4 * n].0 == LexedKind::Fixed(TokenKind::Colon));
                    assert(ts[start + 5 + 4 * n].0 == type_lexeme(params@[n].1));
                    assert forall|i: int| 0 <= i < n implies #[trigger] params@[i] == before2[i] by {}
                }
                if self.peek_is(&TokenKind::Comma) {
                    proof {
                        self.lemma_not_at_end();
                        let n = before2.len() as int;
                        assert(ts[start + 6 + 4 * n].0 == LexedKind::Fixed(TokenKind::Comma));
                    }
                    self.advance();
                } else {
                    break;
                }
            }
        } else {
            assert(params_laid(ts, start as int, params@, params@.len() - 1));
        }
        let ghost close = self.pos as int;
        assert(close == header_close(start as int, params@.len() as int));
        self.expect(&TokenKind::RParen)?;
        self.expect(&TokenKind::Arrow)?;
        let t = self.expect_type()?;
        proof {
            assert(ts[close].0 == LexedKind::Fixed(TokenKind::RParen));
            assert(ts[close + 1].0 == LexedKind::Fixed(TokenKind::Arrow));
            assert(ts[close + 2].0 == type_lexeme(t));
        }
        let ret_ty = Some(t);
        Ok((name, params, ret_ty))
    }

    /// Skips a `{ ... }` block by brace matching, without reading what is
    /// inside; the first pass uses it to reach the next header.
    fn skip_block(&mut self) -> (r: Result<(), ParseError>)
        requires
            old(self).wf(),
        ensures
            r is Ok ==> final(self).moved_on(old(self)),
            r matches Err(e) ==> !(e is Lex) && from_tokens(old(self).tokens@, e),
            forall|j: int| #[trigger] plain_block_at(*old(self), j) ==> (r is Ok && final(self).pos == j + 1),
            r is Ok ==> final(self).pos == block_close(tokens_view(old(self).tokens@), old(self).pos + 1, 1),
    {
        let ghost ts = tokens_view(self.tokens@);
        proof { lemma_codes_agree(self.tokens@); }
        let ghost target = block_close(ts, old(self).pos + 1, 1);
        self.expect(&TokenKind::LBrace)?;
        let mut depth: i32 = 1;
        while depth > 0
            invariant
                ts == tokens_view(old(self).tokens@),
                target == block_close(ts, old(self).pos + 1, 1),
                forall|i: int| 0 <= i < self.tokens@.len() ==> #[trigger] kind_code(self.tokens@[i].kind) == lexed_code(ts[i].0),
                depth > 0 ==> block_close(ts, self.pos as int, depth as int) == target,
                depth == 0 ==> self.pos == target,
                depth >= 0,
                forall|j: int| #[trigger] plain_block_at(*old(self), j) ==> old(self).pos < self.pos <= j + 1
                    && (self.pos <= j ==> depth == 1) && (self.pos == j + 1 ==> depth == 0),
                self.wf(),
                self.tokens@ == old(self).tokens@,
                self.sigs@ == old(self).sigs@,
                self.pos > old(self).pos,
                depth <= self.pos - old(self).pos,
            decreases self.tokens@.len() - self.pos,
        {
            if self.peek_is(&TokenKind::Eof) {
                let e = self.unexpected("'}'".to_owned());
                return Err(e);
            }
            let ghost pos0 = self.pos as int;
            let ghost d0 = depth as int;
            proof {
                assert(kind_code(self.tokens@[pos0].kind) == lexed_code(ts[pos0].0));
                assert(block_close(ts, pos0, d0) == target);
            }
            if self.peek_is(&TokenKind::LBrace) {
                depth += 1;
            } else if self.peek_is(&TokenKind::RBrace) {
                depth -= 1;
            }
            proof { self.lemma_not_at_end(); }
            self.advance();
        }
        Ok(())
    }
}


/// The type and SSA variable bound to `name` in one scope: its latest
/// declaration there.
pub open spec fn scope_find(scope: Seq<(String, Type, String)>, name: Seq<char>) -> Option<(Type, Seq<char>)>
    decreases scope.len(),
{
    if scope.len() == 0 {
        None
    } else if scope.last().0@ == name {
        Some((scope.last().1, scope.last().2@))
    } else {
        scope_find(scope.drop_last(), name)
    }
}

/// The type and SSA variable bound to `name` in the innermost scope that
/// declares it.
pub open spec fn scopes_find(scopes: Seq<Vec<(String, Type, String)>>, name: Seq<char>) -> Option<(Type, Seq<char>)>
    decreases scopes.len(),
{
    if scopes.len() == 0 {
        None
    } else {
        match scope_find(scopes.last()@, name) {
            Some(t) => Some(t),
            None => scopes_find(scopes.drop_last(), name),
        }
    }
}

/// Whether `k` is a logical `and` or `or` instruction.
pub open spec fn is_logic(k: InstKind) -> bool {
    match k {
        InstKind::Bin(BinOp::And, _, _) | InstKind::Bin(BinOp::Or, _, _) => true,
        _ => false,
    }
}

/// No instruction of `f` is a logical `and` or `or`: the parser turns
/// those into branches and phis.
pub open spec fn logic_free(f: Function) -> bool {
    forall|b: int, q: int| 0 <= b < f.blocks@.len() && 0 <= q < f.blocks@[b].instructions@.len()
        ==> !is_logic((#[trigger] f.blocks@[b].instructions@[q]).kind)
}

/// Per-function state threaded through statement and expression parsing:
/// the SSA builder, the lexical scopes (innermost last), the block being
/// appended to, and the function's return type. Each declaration in a scope
/// names the SSA variable it stands for: a parameter its own name, a `let`
/// its name, `#` and the position of its `let` token, so that a
/// declaration in an inner scope never rebinds an outer one.
struct FnContext {
    builder: SsaBuilder,
    scopes: Vec<Vec<(String, Type, String)>>,
    current_block: BlockId,
    ret_ty: Option<Type>,
}

fn find_in_scope(scope: &Vec<(String, Type, String)>, name: &str) -> (r: Option<(Type, String)>)
    ensures
        match r {
            Some((t, k)) => scope_find(scope@, name@) == Some((t, k@)),
            None => scope_find(scope@, name@) is None,
        },
{
    let mut j: usize = scope.len();
    assert(scope@.take(j as int) =~= scope@);
    while j > 0
        invariant
            j <= scope@.len(),
            scope_find(scope@.take(j as int), name@) == scope_find(scope@, name@),
        decreases j,
    {
        assert(scope@.take(j as int).drop_last() =~= scope@.take(j - 1));
        if str_eq(scope[j - 1].0.as_str(), name) {
            return Some((scope[j - 1].1, scope[j - 1].2.clone()));
        }
        j -= 1;
    }
    None
}

impl FnContext {
    spec fn ok(&self) -> bool {
        &&& self.builder.wf()
        &&& self.current_block.0 < self.builder.n_blocks()
        &&& self.scopes@.len() >= 1
        &&& self.ret_ty == self.builder.func_view().ret_ty
        &&& self.builder.parked_set() == Set::<ValueId>::empty()
        &&& logic_free(self.builder.func_view())
    }

    /// The type `name` is declared with in the innermost scope declaring it,
    /// and the SSA variable that declaration stands for.
    fn lookup_var(&self, name: &str) -> (r: Option<(Type, String)>)
        ensures
            match r {
                Some((t, k)) => scopes_find(self.scopes@, name@) == Some((t, k@)),
                None => scopes_find(self.scopes@, name@) is None,
            },
    {
        let mut i: usize = self.scopes.len();
        assert(self.scopes@.take(i as int) =~= self.scopes@);
        while i > 0
            invariant
                i <= self.scopes@.len(),
                scopes_find(self.scopes@.take(i as int), name@) == scopes_find(self.scopes@, name@),
            decreases i,
        {
            assert(self.scopes@.take(i as int).drop_last() =~= self.scopes@.take(i - 1));
            assert(self.scopes@.take(i as int).last() == self.scopes@[i - 1]);
            match find_in_scope(&self.scopes[i - 1], name) {
                Some(t) => return Some(t),
                None => {},
            }
            i -= 1;
        }
        None
    }
}

/// `c1` extends `c0`: blocks only added, and the blocks `c0` had keep their
/// sealing and predecessors.
spec fn grown(c1: FnContext, c0: FnContext) -> bool {
    &&& c1.ok()
    &&& c1.builder.n_blocks() >= c0.builder.n_blocks()
    &&& forall|b: int| 0 <= b < c0.builder.n_blocks() ==> #[trigger] c1.builder.sealed_at(b) == c0.builder.sealed_at(b)
    &&& forall|b: int| 0 <= b < c0.builder.n_blocks() ==> #[trigger] c1.builder.preds_at(b) == c0.builder.preds_at(b)
    &&& c1.builder.func_view().name == c0.builder.func_view().name
    &&& c1.builder.func_view().params == c0.builder.func_view().params
    &&& c1.builder.func_view().ret_ty == c0.builder.func_view().ret_ty
    &&& c1.builder.func_view().entry == c0.builder.func_view().entry
    &&& c1.scopes@.len() == c0.scopes@.len()
    &&& c1.scopes@.drop_last() == c0.scopes@.drop_last()
    &&& c1.ret_ty == c0.ret_ty
    &&& (c1.current_block == c0.current_block || c1.current_block.0 >= c0.builder.n_blocks())
    &&& c0.builder.grows_defs(&c1.builder)
    &&& forall|b: int| 0 <= b < c0.builder.n_blocks() && b != c0.current_block.0
        ==> (#[trigger] c1.builder.func_view().blocks@[b]).terminator == c0.builder.func_view().blocks@[b].terminator
    &&& c0.builder.phi_free_kept(&c1.builder)
    &&& forall|b: int| c0.builder.n_blocks() <= b < c1.builder.n_blocks() ==> #[trigger] c1.builder.sealed_at(b)
}

/// `term_ok` of block `b` carries over to `c1` when `b` keeps its
/// terminator, sealed blocks keep their seal and predecessors, and sealed
/// single-predecessor blocks gain no phi.
proof fn lemma_term_ok_kept(c0: FnContext, c1: FnContext, b: BlockId)
    requires
        term_ok(c0, b),
        b.0 < c0.builder.n_blocks(),
        c1.builder.n_blocks() >= c0.builder.n_blocks(),
        c1.builder.func_view().blocks@[b.0 as int].terminator == c0.builder.func_view().blocks@[b.0 as int].terminator,
        forall|x: int| 0 <= x < c0.builder.n_blocks() && c0.builder.sealed_at(x)
            ==> #[trigger] c1.builder.sealed_at(x) && c1.builder.preds_at(x) == c0.builder.preds_at(x),
        c0.builder.phi_free_kept(&c1.builder),
    ensures
        term_ok(c1, b),
{
    if let Some(t) = c0.builder.func_view().blocks@[b.0 as int].terminator {
        assert forall|i: int| 0 <= i < term_successors(t).len() implies {
            let s = #[trigger] term_successors(t)[i];
            &&& s.0 < c1.builder.n_blocks()
            &&& c1.builder.sealed_at(s.0 as int)
            &&& c1.builder.preds_at(s.0 as int).len() == 1
            &&& no_phi(c1.builder.func_view(), s.0 as int)
        } by {
            let s = term_successors(t)[i];
            assert(c1.builder.sealed_at(s.0 as int));
            assert(no_phi(c1.builder.func_view(), s.0 as int));
        }
    }
}

/// Block `b` has no terminator yet.
spec fn open_block(c: FnContext, b: BlockId) -> bool {
    c.builder.func_view().blocks@[b.0 as int].terminator is None
}

/// If block `b` has a terminator, each block it leads to is sealed, has `b`
/// as its only predecessor, and holds no phi.
spec fn term_ok(c: FnContext, b: BlockId) -> bool {
    c.builder.func_view().blocks@[b.0 as int].terminator matches Some(t) ==> forall|i: int|
        0 <= i < term_successors(t).len() ==> {
            let s = #[trigger] term_successors(t)[i];
            &&& s.0 < c.builder.n_blocks()
            &&& c.builder.sealed_at(s.0 as int)
            &&& c.builder.preds_at(s.0 as int).len() == 1
            &&& no_phi(c.builder.func_view(), s.0 as int)
        }
}

/// Blocks still to be made, counted against what is left to read: each
/// token read allows three more blocks.
spec fn budget(p: Parser, c: FnContext) -> int {
    c.builder.n_blocks() + 3 * p.left()
}

spec fn ready(p: Parser, c: FnContext) -> bool {
    &&& p.wf()
    &&& c.ok()
    &&& budget(p, c) <= u32::MAX
    &&& calls_known(c.builder.func_view(), p.sigs@)
}

/// Every call in `f` names a function of the signature table `sigs` and
/// passes it as many arguments as it has parameters.
spec fn calls_known(f: Function, sigs: Seq<(String, FnSig)>) -> bool {
    forall|b: int, q: int| 0 <= b < f.blocks@.len() && 0 <= q < f.blocks@[b].instructions@.len()
        ==> call_known(#[trigger] f.blocks@[b].instructions@[q], sigs)
}

/// If `inst` is a call, it names a function of `sigs` and passes it as many
/// arguments as it has parameters.
spec fn call_known(inst: Instruction, sigs: Seq<(String, FnSig)>) -> bool {
    inst.kind matches InstKind::Call { func, args } ==> exists|i: int|
        0 <= i < sigs.len() && (#[trigger] sigs[i]).0@ == func@ && sigs[i].1.params@.len() == args@.len()
}

/// Every block made since `c0`, and the block `c0` was appending to, has a
/// terminator in `c1`, but for the block `c1` is appending to.
spec fn closed(c1: FnContext, c0: FnContext) -> bool {
    forall|b: int| 0 <= b < c1.builder.n_blocks() && (b >= c0.builder.n_blocks() || b == c0.current_block.0)
        && b != c1.current_block.0 ==> (#[trigger] c1.builder.func_view().blocks@[b]).terminator is Some
}

/// From (`p0`, `c0`) to (`p1`, `c1`) by reading zero or more tokens.
spec fn step(p1: Parser, c1: FnContext, p0: Parser, c0: FnContext) -> bool {
    &&& p1.wf()
    &&& p1.tokens@ == p0.tokens@
    &&& p1.sigs@ == p0.sigs@
    &&& p1.pos >= p0.pos
    &&& grown(c1, c0)
    &&& budget(p1, c1) <= budget(p0, c0)
    &&& closed(c1, c0)
    &&& calls_known(c1.builder.func_view(), p1.sigs@)
}

/// From (`p0`, `c0`) to (`p1`, `c1`) by reading at least one token.
spec fn progressed(p1: Parser, c1: FnContext, p0: Parser, c0: FnContext) -> bool {
    step(p1, c1, p0, c0) && p1.pos > p0.pos
}

fn find_sig(sigs: &Vec<(String, FnSig)>, name: &str) -> (r: Option<usize>)
    ensures
        match r {
            Some(i) => i < sigs@.len() && sigs@[i as int].0@ == name@,
            None => forall|i: int| 0 <= i < sigs@.len() ==> (#[trigger] sigs@[i]).0@ != name@,
        },
{
    let mut i: usize = 0;
    while i < sigs.len()
        invariant
            i <= sigs@.len(),
            forall|k: int| 0 <= k < i ==> (#[trigger] sigs@[k]).0@ != name@,
        decreases sigs.len() - i,
    {
        if str_eq(sigs[i].0.as_str(), name) {
            return Some(i);
        }
        i += 1;
    }
    None
}

fn type_mismatch(expected: Type, actual: Type, span: Span) -> (e: ParseError)
    ensures
        e == (ParseError::TypeMismatch { expected, actual, span }),
{
    ParseError::TypeMismatch { expected, actual, span }
}

/// Whether a token of kind `k` can begin an expression: an identifier, a
/// literal, `(`, `-` or `not`.
pub open spec fn starts_expr(k: TokenKind) -> bool {
    let c = kind_code(k);
    c == 0 || c == 1 || c == 2 || c == 3 || c == 12 || c == 16 || c == 27
}

/// Whether `k` is a binary operator: arithmetic, a comparison, `and` or `or`.
pub open spec fn is_operator(k: TokenKind) -> bool {
    let c = kind_code(k);
    c == 10 || c == 11 || (15 <= c && c <= 25)
}

/// The instruction a literal token of kind `k` becomes, defining `v`.
pub open spec fn literal_inst(k: TokenKind, v: ValueId) -> Instruction {
    match k {
        TokenKind::Int(n) => Instruction { id: v, ty: Type::I64, kind: InstKind::ConstI64(n) },
        TokenKind::True => Instruction { id: v, ty: Type::Bool, kind: InstKind::ConstBool(true) },
        _ => Instruction { id: v, ty: Type::Bool, kind: InstKind::ConstBool(false) },
    }
}

/// How tightly a binary operator of kind `k` binds: `or` 1, `and` 2, the
/// comparisons 3, `+ -` 4, `* / %` 5; 0 for any other token.
pub open spec fn op_level(k: TokenKind) -> int {
    let c = kind_code(k);
    if c == 11 { 1 } else if c == 10 { 2 } else if 20 <= c && c <= 25 { 3 } else if c == 15 || c == 16 { 4 } else if 17 <= c
        && c <= 19 { 5 } else { 0 }
}

/// The cursor of `p` is at a literal followed by no operator binding at
/// level `lvl` or tighter: an expression parsed at that level is that
/// literal.
spec fn literal_alone(p: Parser, lvl: int) -> bool {
    &&& p.code() == 1 || p.code() == 2 || p.code() == 3
    &&& p.pos + 1 < p.tokens@.len()
    &&& op_level(p.tokens@[p.pos + 1].kind) < lvl
}

/// From (`p0`, `c0`) to (`p1`, `c1`) the literal at the cursor was read and
/// became value `v` of type `t`, the constant appended to the current block
/// and nothing else changed.
spec fn literal_made(p0: Parser, c0: FnContext, p1: Parser, c1: FnContext, v: ValueId, t: Type) -> bool {
    let inst = literal_inst(p0.cursor_kind(), v);
    let cur = c0.current_block.0 as int;
    &&& t == inst.ty
    &&& p1.pos == p0.pos + 1
    &&& c1.current_block == c0.current_block
    &&& c1.builder.n_blocks() == c0.builder.n_blocks()
    &&& c1.builder.func_view().blocks@[cur].instructions@ == c0.builder.func_view().blocks@[cur].instructions@.push(inst)
    &&& c1.builder.func_view().blocks@[cur].terminator == c0.builder.func_view().blocks@[cur].terminator
    &&& forall|b: int| 0 <= b < c0.builder.n_blocks() && b != cur
        ==> #[trigger] c1.builder.func_view().blocks@[b] == c0.builder.func_view().blocks@[b]
}

/// The cursor of `p` is at `a op b` for boolean literals `a` and `b` and the
/// operator of code `op` (`or` or `and`), followed by no operator.
spec fn bool_pair(p: Parser, op: u8) -> bool {
    &&& p.pos + 3 < p.tokens@.len()
    &&& (p.code() == 2 || p.code() == 3)
    &&& kind_code(p.tokens@[p.pos + 1].kind) == op
    &&& (kind_code(p.tokens@[p.pos + 2].kind) == 2 || kind_code(p.tokens@[p.pos + 2].kind) == 3)
    &&& op_level(p.tokens@[p.pos + 3].kind) == 0
}

/// The short-circuit code of `a or b` (`is_or`) or `a and b` read from
/// (`p0`, `c0`) to (`p1`, `c1`), with `lv`, `sv`, `rv` and `v` the values
/// of `a`, of the constant, of `b` and of the whole. With `n` blocks before:
/// the block being appended to computes `a` and branches on it to block
/// `n` (the short block) when `a` decides the result (true for `or`, false
/// for `and`) and to block `n + 1` otherwise; the short block holds only
/// that constant, block `n + 1` only `b`, both jump to block `n + 2`, whose
/// only instruction is the result, a phi taking the constant from the short
/// block and `b` from block `n + 1`. Parsing goes on in block `n + 2`.
spec fn short_circuit_parts(p0: Parser, c0: FnContext, p1: Parser, c1: FnContext, v: ValueId, is_or: bool,
    lv: ValueId, sv: ValueId, rv: ValueId) -> bool {
    let n = c0.builder.n_blocks() as int;
    let cur = c0.current_block.0 as int;
    let bs0 = c0.builder.func_view().blocks@;
    let bs = c1.builder.func_view().blocks@;
    let short = BlockId(n as u32);
    let rhs = BlockId((n + 1) as u32);
    let join = BlockId((n + 2) as u32);
    &&& p1.pos == p0.pos + 3
    &&& c1.builder.n_blocks() == n + 3
    &&& c1.current_block == join
    &&& bs[cur].instructions@ == bs0[cur].instructions@.push(literal_inst(p0.cursor_kind(), lv))
    &&& bs[cur].terminator == Some(if is_or {
            Terminator::Branch { cond: lv, then_block: short, else_block: rhs }
        } else {
            Terminator::Branch { cond: lv, then_block: rhs, else_block: short }
        })
    &&& bs[n].instructions@ == seq![Instruction { id: sv, ty: Type::Bool, kind: InstKind::ConstBool(is_or) }]
    &&& bs[n].terminator == Some(Terminator::Jump(join))
    &&& bs[n + 1].instructions@ == seq![literal_inst(p0.tokens@[p0.pos + 2].kind, rv)]
    &&& bs[n + 1].terminator == Some(Terminator::Jump(join))
    &&& bs[n + 2].instructions@.len() == 1
    &&& bs[n + 2].instructions@[0].id == v && bs[n + 2].instructions@[0].ty == Type::Bool
    &&& bs[n + 2].instructions@[0].kind matches InstKind::Phi(inc) && inc@ == seq![(short, sv), (rhs, rv)]
}

spec fn short_circuit_made(p0: Parser, c0: FnContext, p1: Parser, c1: FnContext, v: ValueId, is_or: bool) -> bool {
    exists|lv: ValueId, sv: ValueId, rv: ValueId| #[trigger] short_circuit_parts(p0, c0, p1, c1, v, is_or, lv, sv, rv)
}

/// Token `k` of `p` starts `return L;`, `L` a literal of the type that
/// `c`'s function returns.
spec fn return_literal_at(p: Parser, c: FnContext, k: int) -> bool {
    &&& 0 <= k && k + 2 < p.tokens@.len()
    &&& kind_code(p.tokens@[k].kind) == 9
    &&& (kind_code(p.tokens@[k + 1].kind) == 1 || kind_code(p.tokens@[k + 1].kind) == 2 || kind_code(p.tokens@[k + 1].kind) == 3)
    &&& kind_code(p.tokens@[k + 2].kind) == 32
    &&& c.ret_ty == Some(literal_inst(p.tokens@[k + 1].kind, ValueId(0)).ty)
}

/// From `c0` to `c1` the statement `return L;` at token `k` of `p0` was
/// read: the block being appended to gained the constant `L`, value `v`,
/// and now returns it; nothing else changed.
spec fn literal_returned(p0: Parser, c0: FnContext, c1: FnContext, k: int, v: ValueId) -> bool {
    let cur = c0.current_block.0 as int;
    let bs0 = c0.builder.func_view().blocks@;
    let bs1 = c1.builder.func_view().blocks@;
    &&& c1.current_block == c0.current_block
    &&& c1.builder.n_blocks() == c0.builder.n_blocks()
    &&& bs1[cur].instructions@ == bs0[cur].instructions@.push(literal_inst(p0.tokens@[k + 1].kind, v))
    &&& bs1[cur].terminator == Some(Terminator::Return(Some(v)))
    &&& forall|b: int| 0 <= b < c0.builder.n_blocks() && b != cur ==> #[trigger] bs1[b] == bs0[b]
}

spec fn returns_literal(p0: Parser, c0: FnContext, c1: FnContext, k: int) -> bool {
    exists|v: ValueId| #[trigger] literal_returned(p0, c0, c1, k, v)
}

/// The cursor of `p` is at `{ return L;`, `L` a literal of the type that
/// `c`'s function returns, and the block being appended to is still open.
spec fn block_return_literal_head(p: Parser, c: FnContext) -> bool {
    &&& p.pos + 4 < p.tokens@.len()
    &&& p.code() == 29
    &&& return_literal_at(p, c, p.pos + 1)
    &&& c.current_block.0 < c.builder.n_blocks()
    &&& c.builder.func_view().blocks@[c.current_block.0 as int].terminator is None
}

/// The cursor of `p` is at `{ return L; }`, `L` a literal of the type that
/// `c`'s function returns, and the block being appended to is still open.
spec fn block_return_literal_at(p: Parser, c: FnContext) -> bool {
    &&& block_return_literal_head(p, c)
    &&& kind_code(p.tokens@[p.pos + 4].kind) == 30
}

/// The cursor of `p` is at `{ return L;` followed by more than the closing
/// `}`, `L` a literal of the type that `c`'s function returns, and the
/// block being appended to is still open.
spec fn block_return_then_more_at(p: Parser, c: FnContext) -> bool {
    &&& block_return_literal_head(p, c)
    &&& kind_code(p.tokens@[p.pos + 4].kind) != 30
}

/// The tokens from `k` on are `fn NAME() -> T { return L;` and then a token
/// other than `}`, `L` a literal of type `T`.
pub open spec fn return_then_more_fn_at(ts: Seq<(LexedKind, Span)>, k: int) -> bool {
    &&& bare_header_at(ts, k)
    &&& k + 10 < ts.len()
    &&& lexed_code(ts[k + 6].0) == 29
    &&& lexed_code(ts[k + 7].0) == 9
    &&& (lexed_code(ts[k + 8].0) == 1 || lexed_code(ts[k + 8].0) == 2 || lexed_code(ts[k + 8].0) == 3)
    &&& lexed_code(ts[k + 9].0) == 32
    &&& lexed_code(ts[k + 10].0) != 30
    &&& lexed_literal(ts[k + 8].0, ValueId(0)).ty == type_of_code(lexed_code(ts[k + 5].0))
}

/// `ts` is one function `fn NAME() -> T { return L; REST }`, `L` a literal
/// of type `T` and `REST` one or more tokens without braces, and the end of
/// input.
pub open spec fn one_return_then_more_fn(ts: Seq<(LexedKind, Span)>) -> bool {
    &&& ts.len() >= 13
    &&& return_then_more_fn_at(ts, 0)
    &&& lexed_code(ts[ts.len() - 2].0) == 30
    &&& forall|i: int| 10 <= i < ts.len() - 2 ==> lexed_code(#[trigger] ts[i].0) != 29 && lexed_code(ts[i].0) != 30
        && lexed_code(ts[i].0) != 35
}

/// The cursor of `p` is at `if A { return L1; } else { return L2; }`, `A`
/// a boolean literal, `L1` and `L2` literals of the type that `c`'s
/// function returns.
spec fn if_return_literals_at(p: Parser, c: FnContext) -> bool {
    let k = p.pos as int;
    &&& k + 12 < p.tokens@.len()
    &&& p.code() == 6
    &&& (kind_code(p.tokens@[k + 1].kind) == 2 || kind_code(p.tokens@[k + 1].kind) == 3)
    &&& kind_code(p.tokens@[k + 2].kind) == 29
    &&& return_literal_at(p, c, k + 3)
    &&& kind_code(p.tokens@[k + 6].kind) == 30
    &&& kind_code(p.tokens@[k + 7].kind) == 7
    &&& kind_code(p.tokens@[k + 8].kind) == 29
    &&& return_literal_at(p, c, k + 9)
    &&& kind_code(p.tokens@[k + 12].kind) == 30
}

/// What `if A { return L1; } else { return L2; }` at the cursor of `p0`
/// builds from `c0` to `c1`, with `a`, `v1`, `v2` the values of `A`, `L1`,
/// `L2`: with `n` blocks before, the block being appended to computes `A`
/// and branches on it to block `n`, which holds `L1` and returns it, and to
/// block `n + 1`, which holds `L2` and returns it. No join block is made,
/// no other block changes, and parsing goes on in block `n`.
spec fn if_returned_parts(p0: Parser, c0: FnContext, c1: FnContext, a: ValueId, v1: ValueId, v2: ValueId) -> bool {
    let n = c0.builder.n_blocks() as int;
    let cur = c0.current_block.0 as int;
    let k = p0.pos as int;
    let bs0 = c0.builder.func_view().blocks@;
    let bs1 = c1.builder.func_view().blocks@;
    &&& c1.builder.n_blocks() == n + 2
    &&& c1.current_block == BlockId(n as u32)
    &&& bs1[cur].instructions@ == bs0[cur].instructions@.push(literal_inst(p0.tokens@[k + 1].kind, a))
    &&& bs1[cur].terminator == Some(Terminator::Branch { cond: a, then_block: BlockId(n as u32), else_block: BlockId((n + 1) as u32) })
    &&& bs1[n].instructions@ == seq![literal_inst(p0.tokens@[k + 4].kind, v1)]
    &&& bs1[n].terminator == Some(Terminator::Return(Some(v1)))
    &&& bs1[n + 1].instructions@ == seq![literal_inst(p0.tokens@[k + 10].kind, v2)]
    &&& bs1[n + 1].terminator == Some(Terminator::Return(Some(v2)))
    &&& forall|b: int| 0 <= b < n && b != cur ==> #[trigger] bs1[b] == bs0[b]
}

spec fn if_returned(p0: Parser, c0: FnContext, c1: FnContext) -> bool {
    exists|a: ValueId, v1: ValueId, v2: ValueId| #[trigger] if_returned_parts(p0, c0, c1, a, v1, v2)
}

/// The code of a token kind given by its view, as `kind_code` numbers it.
pub open spec fn lexed_code(l: LexedKind) -> u8 {
    match l {
        LexedKind::Ident(_) => 0,
        LexedKind::Int(_) => 1,
        LexedKind::Fixed(k) => kind_code(k),
    }
}

/// The instruction a literal token, given by its view, becomes.
pub open spec fn lexed_literal(l: LexedKind, v: ValueId) -> Instruction {
    match l {
        LexedKind::Int(n) => Instruction { id: v, ty: Type::I64, kind: InstKind::ConstI64(n) },
        LexedKind::Fixed(TokenKind::True) => Instruction { id: v, ty: Type::Bool, kind: InstKind::ConstBool(true) },
        _ => Instruction { id: v, ty: Type::Bool, kind: InstKind::ConstBool(false) },
    }
}

/// The type a type token of code `c` (`i64` 13, `bool` 14) names.
pub open spec fn type_of_code(c: u8) -> Type {
    if c == 13 { Type::I64 } else { Type::Bool }
}

/// The tokens from `k` on are `fn NAME() -> T { return L; }`, `L` a
/// literal of type `T`.
pub open spec fn simple_fn_at(ts: Seq<(LexedKind, Span)>, k: int) -> bool {
    &&& 0 <= k && k + 10 < ts.len()
    &&& lexed_code(ts[k].0) == 5
    &&& lexed_code(ts[k + 1].0) == 0
    &&& lexed_code(ts[k + 2].0) == 27
    &&& lexed_code(ts[k + 3].0) == 28
    &&& lexed_code(ts[k + 4].0) == 34
    &&& (lexed_code(ts[k + 5].0) == 13 || lexed_code(ts[k + 5].0) == 14)
    &&& lexed_code(ts[k + 6].0) == 29
    &&& lexed_code(ts[k + 7].0) == 9
    &&& (lexed_code(ts[k + 8].0) == 1 || lexed_code(ts[k + 8].0) == 2 || lexed_code(ts[k + 8].0) == 3)
    &&& lexed_code(ts[k + 9].0) == 32
    &&& lexed_code(ts[k + 10].0) == 30
    &&& lexed_literal(ts[k + 8].0, ValueId(0)).ty == type_of_code(lexed_code(ts[k + 5].0))
}

/// `f` is the function `fn NAME() -> T { return L; }` at token `k` of `ts`
/// becomes: named `NAME`, no parameters, returning `T`, one block, the
/// entry, that computes the constant `L` and returns it.
pub open spec fn simple_fn_built(ts: Seq<(LexedKind, Span)>, k: int, f: Function) -> bool {
    &&& ts[k + 1].0 == LexedKind::Ident(f.name@)
    &&& f.params@.len() == 0
    &&& f.ret_ty == Some(type_of_code(lexed_code(ts[k + 5].0)))
    &&& f.entry == BlockId(0)
    &&& f.blocks@.len() == 1
    &&& f.blocks@[0].id == BlockId(0)
    &&& exists|v: ValueId| f.blocks@[0].instructions@ == seq![#[trigger] lexed_literal(ts[k + 8].0, v)]
        && f.blocks@[0].terminator == Some(Terminator::Return(Some(v)))
}

proof fn lemma_codes_agree(ts: Seq<Token>)
    ensures
        forall|i: int| 0 <= i < ts.len() ==> #[trigger] kind_code(ts[i].kind) == lexed_code(tokens_view(ts)[i].0),
        forall|i: int, v: ValueId| 0 <= i < ts.len() ==> #[trigger] literal_inst(ts[i].kind, v) == lexed_literal(tokens_view(ts)[i].0, v),
        tokens_view(ts).len() == ts.len(),
{
    assert forall|i: int| 0 <= i < ts.len() implies #[trigger] kind_code(ts[i].kind) == lexed_code(tokens_view(ts)[i].0) by {
        assert(tokens_view(ts)[i] == crate::lexer::token_view(ts[i]));
    }
    assert forall|i: int, v: ValueId| 0 <= i < ts.len() implies #[trigger] literal_inst(ts[i].kind, v) == lexed_literal(tokens_view(ts)[i].0, v) by {
        assert(tokens_view(ts)[i] == crate::lexer::token_view(ts[i]));
    }
}

/// `ts` is one function `fn NAME() -> T { return L; }` and the end of
/// input.
pub open spec fn one_simple_fn(ts: Seq<(LexedKind, Span)>) -> bool {
    ts.len() == 12 && simple_fn_at(ts, 0)
}

/// The cursor of `p` is at a `{` whose matching `}` is token `j`, with no
/// brace between them.
spec fn plain_block_at(p: Parser, j: int) -> bool {
    &&& p.pos < j < p.tokens@.len()
    &&& p.code() == 29
    &&& kind_code(p.tokens@[j].kind) == 30
    &&& forall|i: int| p.pos < i < j ==> kind_code(#[trigger] p.tokens@[i].kind) != 29
        && kind_code(p.tokens@[i].kind) != 30 && kind_code(p.tokens@[i].kind) != 35
}

/// The cursor of `p` is at `(L)`, `L` a literal.
spec fn paren_literal_at(p: Parser) -> bool {
    &&& p.pos + 2 < p.tokens@.len()
    &&& p.code() == 27
    &&& (kind_code(p.tokens@[p.pos + 1].kind) == 1 || kind_code(p.tokens@[p.pos + 1].kind) == 2
        || kind_code(p.tokens@[p.pos + 1].kind) == 3)
    &&& kind_code(p.tokens@[p.pos + 2].kind) == 28
}

/// From (`p0`, `c0`) to (`p1`, `c1`) `(L)` was read: its value `v`, of
/// type `t`, is that of the literal inside, the constant appended to the
/// current block and nothing else changed.
spec fn paren_literal_made(p0: Parser, c0: FnContext, p1: Parser, c1: FnContext, v: ValueId, t: Type) -> bool {
    let inst = literal_inst(p0.tokens@[p0.pos + 1].kind, v);
    let cur = c0.current_block.0 as int;
    &&& t == inst.ty
    &&& p1.pos == p0.pos + 3
    &&& c1.current_block == c0.current_block
    &&& c1.builder.n_blocks() == c0.builder.n_blocks()
    &&& c1.builder.func_view().blocks@[cur].instructions@ == c0.builder.func_view().blocks@[cur].instructions@.push(inst)
    &&& c1.builder.func_view().blocks@[cur].terminator == c0.builder.func_view().blocks@[cur].terminator
    &&& forall|b: int| 0 <= b < c0.builder.n_blocks() && b != cur
        ==> #[trigger] c1.builder.func_view().blocks@[b] == c0.builder.func_view().blocks@[b]
}

/// The last instruction of the block `c` appends to is the call of function
/// `name`, of signature `sig`, with as many arguments as `sig` has
/// parameters, defining value `v` of the type `sig` returns (`i64` where it
/// declares none).
spec fn call_emitted(c: FnContext, v: ValueId, t: Type, name: Seq<char>, sig: FnSig) -> bool {
    let insts = c.builder.func_view().blocks@[c.current_block.0 as int].instructions@;
    &&& insts.len() > 0
    &&& insts.last().id == v
    &&& insts.last().ty == t
    &&& t == (match sig.ret_ty { Some(rt) => rt, None => Type::I64 })
    &&& insts.last().kind matches InstKind::Call { func, args } && func@ == name && args@.len() == sig.params@.len()
}

/// Token `k` of `ts` opens the argument list `(L1, ..., Ln)` of `n >= 1`
/// literals.
pub open spec fn literal_args_at(ts: Seq<Token>, k: int, n: int) -> bool {
    &&& 1 <= n && 0 <= k && k + 2 * n < ts.len()
    &&& kind_code(ts[k].kind) == 27
    &&& forall|j: int| 0 <= j < n ==> {
        let c = kind_code(#[trigger] ts[k + 1 + 2 * j].kind);
        c == 1 || c == 2 || c == 3
    }
    &&& forall|j: int| 0 <= j < n - 1 ==> kind_code(#[trigger] ts[k + 2 + 2 * j].kind) == 31
    &&& kind_code(ts[k + 2 * n].kind) == 28
}

/// The constants the `n` literal arguments from token `k` of `ts` on become,
/// defining values `vs`, in order.
pub open spec fn literal_arg_insts(ts: Seq<Token>, k: int, vs: Seq<ValueId>) -> Seq<Instruction> {
    Seq::new(vs.len(), |j: int| literal_inst(ts[k + 1 + 2 * j].kind, vs[j]))
}

/// From `c0` to `c1` a call with the literal arguments at token `k` of `ts`
/// became, in the block being appended to, one constant per argument and
/// then the call, defining `v`, that passes them in order.
spec fn call_of_literals(ts: Seq<Token>, k: int, c0: FnContext, c1: FnContext, n: int, v: ValueId) -> bool {
    let cur = c0.current_block.0 as int;
    let insts0 = c0.builder.func_view().blocks@[cur].instructions@;
    let insts1 = c1.builder.func_view().blocks@[cur].instructions@;
    exists|vs: Seq<ValueId>| #![trigger literal_arg_insts(ts, k, vs)] vs.len() == n
        && insts1.len() == insts0.len() + n + 1
        && insts1.subrange(0, insts0.len() + n) == insts0 + literal_arg_insts(ts, k, vs)
        && insts1.last().id == v
        && (insts1.last().kind matches InstKind::Call { args, .. } && args@ == vs)
}

/// Token `k` of `ts` is an identifier, not called, that no scope of
/// `scopes` declares.
spec fn unknown_var_token(ts: Seq<Token>, k: int, scopes: Seq<Vec<(String, Type, String)>>) -> bool {
    &&& 0 <= k && k + 1 < ts.len()
    &&& ts[k].kind matches TokenKind::Ident(name) && scopes_find(scopes, name@) is None
    &&& kind_code(ts[k + 1].kind) != 27
}

/// The cursor of `p` is at an identifier, not called, that no scope of `c`
/// declares.
spec fn unknown_var_here(p: Parser, c: FnContext) -> bool {
    unknown_var_token(p.tokens@, p.pos as int, c.scopes@)
}

/// `e` reports the identifier at the cursor of `p` as an undefined variable.
spec fn reports_unknown_here(p: Parser, e: ParseError) -> bool {
    reports_unknown(p.tokens@, p.pos as int, e)
}

/// `e` reports token `k` of `ts`, an identifier, as an undefined variable.
spec fn reports_unknown(ts: Seq<Token>, k: int, e: ParseError) -> bool {
    ts[k].kind matches TokenKind::Ident(name) && e matches ParseError::UndefinedVariable { name: x, span }
        && x@ == name@ && span == ts[k].span
}

/// Token `k` of `ts` starts `return X;`, `X` an identifier that no scope of
/// `c` declares, in a function that returns a value.
spec fn return_unknown_at(ts: Seq<Token>, k: int, c: FnContext) -> bool {
    &&& 0 <= k && kind_code(ts[k].kind) == 9
    &&& unknown_var_token(ts, k + 1, c.scopes@)
    &&& c.ret_ty is Some
}

/// The cursor of `p` is at `{ return X; ...`, `X` an identifier no scope of
/// `c` declares, and the block being appended to is still open.
spec fn block_return_unknown_at(p: Parser, c: FnContext) -> bool {
    &&& p.code() == 29
    &&& return_unknown_at(p.tokens@, p.pos + 1, c)
    &&& c.current_block.0 < c.builder.n_blocks()
    &&& c.builder.func_view().blocks@[c.current_block.0 as int].terminator is None
}

/// Token `k` of `ts` starts `return L;`, `L` a literal whose type is not
/// the type `c`'s function returns.
spec fn return_mistyped_at(ts: Seq<Token>, k: int, c: FnContext) -> bool {
    &&& 0 <= k && k + 2 < ts.len()
    &&& kind_code(ts[k].kind) == 9
    &&& (kind_code(ts[k + 1].kind) == 1 || kind_code(ts[k + 1].kind) == 2 || kind_code(ts[k + 1].kind) == 3)
    &&& kind_code(ts[k + 2].kind) == 32
    &&& c.ret_ty is Some
    &&& c.ret_ty != Some(literal_inst(ts[k + 1].kind, ValueId(0)).ty)
}

/// `e` reports the `return L;` at token `k` of `ts` as returning the type
/// of `L` where `c`'s function returns another, at the `return`.
spec fn reports_mistyped(ts: Seq<Token>, k: int, c: FnContext, e: ParseError) -> bool {
    e == (ParseError::TypeMismatch { expected: c.ret_ty->0, actual: literal_inst(ts[k + 1].kind, ValueId(0)).ty, span: ts[k].span })
}

/// The cursor of `p` is at `{ return L; ...`, `L` a literal of another type
/// than `c`'s function returns, and the block being appended to is open.
spec fn block_return_mistyped_at(p: Parser, c: FnContext) -> bool {
    &&& p.code() == 29
    &&& return_mistyped_at(p.tokens@, p.pos + 1, c)
    &&& c.current_block.0 < c.builder.n_blocks()
    &&& c.builder.func_view().blocks@[c.current_block.0 as int].terminator is None
}

/// The tokens from `k` on are `fn NAME() -> T { return L; }`, `L` a literal
/// not of type `T`.
pub open spec fn mistyped_return_fn_at(ts: Seq<(LexedKind, Span)>, k: int) -> bool {
    &&& bare_header_at(ts, k)
    &&& k + 10 < ts.len()
    &&& lexed_code(ts[k + 6].0) == 29
    &&& lexed_code(ts[k + 7].0) == 9
    &&& (lexed_code(ts[k + 8].0) == 1 || lexed_code(ts[k + 8].0) == 2 || lexed_code(ts[k + 8].0) == 3)
    &&& lexed_code(ts[k + 9].0) == 32
    &&& lexed_code(ts[k + 10].0) == 30
    &&& lexed_literal(ts[k + 8].0, ValueId(0)).ty != type_of_code(lexed_code(ts[k + 5].0))
}

/// `ts` is one function `fn NAME() -> T { return L; }`, `L` a literal not of
/// type `T`, and the end of input.
pub open spec fn one_mistyped_return_fn(ts: Seq<(LexedKind, Span)>) -> bool {
    ts.len() == 12 && mistyped_return_fn_at(ts, 0)
}

/// `e` reports the `return L;` at token `k` of `ts` as a type mismatch at
/// the `return`: the function's type expected, the literal's found.
pub open spec fn reports_mistyped_lexed(ts: Seq<(LexedKind, Span)>, k: int, e: ParseError) -> bool {
    e == (ParseError::TypeMismatch { expected: type_of_code(lexed_code(ts[k - 2].0)), actual: lexed_literal(ts[k + 1].0, ValueId(0)).ty,
        span: ts[k].1 })
}

/// Token `k` of `ts` is a `return` that no expression follows, in a
/// function of `c` that returns a value.
spec fn return_no_expr_at(ts: Seq<Token>, k: int, c: FnContext) -> bool {
    &&& 0 <= k && k + 1 < ts.len()
    &&& kind_code(ts[k].kind) == 9
    &&& !starts_expr(ts[k + 1].kind)
    &&& c.ret_ty is Some
}

/// The cursor of `p` is at `{ return` that no expression follows, and the
/// block being appended to is still open.
spec fn block_return_no_expr_at(p: Parser, c: FnContext) -> bool {
    &&& p.code() == 29
    &&& return_no_expr_at(p.tokens@, p.pos + 1, c)
    &&& c.current_block.0 < c.builder.n_blocks()
    &&& c.builder.func_view().blocks@[c.current_block.0 as int].terminator is None
}

/// `ts` is one function `fn NAME() -> T { return ; }` and the end of input.
pub open spec fn one_return_nothing_fn(ts: Seq<(LexedKind, Span)>) -> bool {
    &&& ts.len() == 11
    &&& bare_header_at(ts, 0)
    &&& lexed_code(ts[6].0) == 29
    &&& lexed_code(ts[7].0) == 9
    &&& lexed_code(ts[8].0) == 32
    &&& lexed_code(ts[9].0) == 30
}

/// `e` reports that an expression was expected at token `k` of `ts`.
pub open spec fn reports_no_expr_lexed(ts: Seq<(LexedKind, Span)>, k: int, e: ParseError) -> bool {
    e matches ParseError::UnexpectedToken { expected, found, span } && expected@ == "an expression"@
        && found@ == ts[k].0 && span == ts[k].1
}

/// The tokens from `k` on are `fn NAME() -> T`.
pub open spec fn bare_header_at(ts: Seq<(LexedKind, Span)>, k: int) -> bool {
    &&& 0 <= k && k + 5 < ts.len()
    &&& lexed_code(ts[k].0) == 5
    &&& lexed_code(ts[k + 1].0) == 0
    &&& lexed_code(ts[k + 2].0) == 27
    &&& lexed_code(ts[k + 3].0) == 28
    &&& lexed_code(ts[k + 4].0) == 34
    &&& (lexed_code(ts[k + 5].0) == 13 || lexed_code(ts[k + 5].0) == 14)
}

/// The tokens from `k` on are `fn NAME() -> T { return X; }`, `X` an
/// identifier.
pub open spec fn unknown_return_fn_at(ts: Seq<(LexedKind, Span)>, k: int) -> bool {
    &&& bare_header_at(ts, k)
    &&& k + 10 < ts.len()
    &&& lexed_code(ts[k + 6].0) == 29
    &&& lexed_code(ts[k + 7].0) == 9
    &&& lexed_code(ts[k + 8].0) == 0
    &&& lexed_code(ts[k + 9].0) == 32
    &&& lexed_code(ts[k + 10].0) == 30
}

/// `ts` is one function `fn NAME() -> T { return X; }`, `X` an identifier,
/// and the end of input.
pub open spec fn one_unknown_return_fn(ts: Seq<(LexedKind, Span)>) -> bool {
    ts.len() == 12 && unknown_return_fn_at(ts, 0)
}

/// `e` reports token `k` of `ts`, an identifier, as an undefined variable.
pub open spec fn reports_unknown_lexed(ts: Seq<(LexedKind, Span)>, k: int, e: ParseError) -> bool {
    e matches ParseError::UndefinedVariable { name, span } && ts[k].0 == LexedKind::Ident(name@) && span == ts[k].1
}

/// The cursor of `p` is at `A OP B`, `A` and `B` integer literals and `OP`
/// a comparison, followed by no arithmetic operator.
spec fn comparison_pair_at(p: Parser) -> bool {
    &&& p.pos + 3 < p.tokens@.len()
    &&& p.code() == 1
    &&& cmp_op_of(p.tokens@[p.pos + 1].kind) is Some
    &&& kind_code(p.tokens@[p.pos + 2].kind) == 1
    &&& op_level(p.tokens@[p.pos + 3].kind) < 4
}

/// The operation the comparison token after the cursor of `p` names.
spec fn pair_op(p: Parser) -> BinOp {
    cmp_op_of(p.tokens@[p.pos + 1].kind)->0
}

/// From (`p0`, `c0`) to (`p1`, `c1`) `A OP B` was read, `A` and `B`
/// literals: the block being appended to gained the constants `A` and `B`,
/// values `a` and `b`, then `v`, operation `op` applied to `a` and `b`, in
/// that order; nothing else changed.
spec fn comparison_made(p0: Parser, c0: FnContext, p1: Parser, c1: FnContext, v: ValueId, op: BinOp) -> bool {
    binary_made(p0, c0, p1, c1, v, op, Type::Bool)
}

/// From (`p0`, `c0`) to (`p1`, `c1`) `A OP B` was read, `A` and `B`
/// literals: the block being appended to gained the constants `A` and `B`,
/// values `a` and `b`, then `v`, of type `t`, operation `op` applied to `a`
/// and `b`, in that order; nothing else changed.
spec fn binary_made(p0: Parser, c0: FnContext, p1: Parser, c1: FnContext, v: ValueId, op: BinOp, t: Type) -> bool {
    let cur = c0.current_block.0 as int;
    let bs0 = c0.builder.func_view().blocks@;
    let bs1 = c1.builder.func_view().blocks@;
    &&& p1.pos == p0.pos + 3
    &&& c1.current_block == c0.current_block
    &&& c1.builder.n_blocks() == c0.builder.n_blocks()
    &&& exists|a: ValueId, b: ValueId| #[trigger] bs1[cur].instructions@ == bs0[cur].instructions@
        .push(literal_inst(p0.tokens@[p0.pos as int].kind, a)).push(literal_inst(p0.tokens@[p0.pos + 2].kind, b))
        .push(Instruction { id: v, ty: t, kind: InstKind::Bin(op, a, b) })
    &&& bs1[cur].terminator == bs0[cur].terminator
    &&& forall|k: int| 0 <= k < c0.builder.n_blocks() && k != cur ==> #[trigger] bs1[k] == bs0[k]
}

proof fn lemma_binary_made(p0: Parser, c0: FnContext, p1: Parser, c1: FnContext, p2: Parser, c2: FnContext,
    p3: Parser, c3: FnContext, c4: FnContext, a: ValueId, b: ValueId, v: ValueId, op: BinOp, t: Type)
    requires
        literal_made(p0, c0, p1, c1, a, Type::I64),
        p2.pos == p1.pos + 1,
        p2.tokens@ == p0.tokens@,
        p3.tokens@ == p0.tokens@,
        c2 == c1,
        literal_made(p2, c2, p3, c3, b, Type::I64),
        c4.current_block == c3.current_block,
        c4.builder.n_blocks() == c3.builder.n_blocks(),
        c4.builder.func_view().blocks@[c3.current_block.0 as int].instructions@
            == c3.builder.func_view().blocks@[c3.current_block.0 as int].instructions@.push(
            Instruction { id: v, ty: t, kind: InstKind::Bin(op, a, b) }),
        c4.builder.func_view().blocks@[c3.current_block.0 as int].terminator
            == c3.builder.func_view().blocks@[c3.current_block.0 as int].terminator,
        forall|k: int| 0 <= k < c3.builder.n_blocks() && k != c3.current_block.0
            ==> #[trigger] c4.builder.func_view().blocks@[k] == c3.builder.func_view().blocks@[k],
    ensures
        binary_made(p0, c0, p3, c4, v, op, t),
{
    let cur = c0.current_block.0 as int;
    assert(p2.tokens@[p2.pos as int].kind == p0.tokens@[p0.pos + 2].kind);
    assert(c4.builder.func_view().blocks@[cur].instructions@ == c0.builder.func_view().blocks@[cur].instructions@
        .push(literal_inst(p0.tokens@[p0.pos as int].kind, a)).push(literal_inst(p0.tokens@[p0.pos + 2].kind, b))
        .push(Instruction { id: v, ty: t, kind: InstKind::Bin(op, a, b) }));
    assert forall|k: int| 0 <= k < c0.builder.n_blocks() && k != cur implies #[trigger] c4.builder.func_view().blocks@[k]
        == c0.builder.func_view().blocks@[k] by {
        assert(c3.builder.func_view().blocks@[k] == c2.builder.func_view().blocks@[k]);
    }
}

/// The arithmetic operation an operator token names: `+` addition, `-`
/// subtraction, `*` multiplication, `/` division, `%` remainder.
pub open spec fn arith_op_of(k: TokenKind) -> Option<BinOp> {
    match k {
        TokenKind::Plus => Some(BinOp::Add),
        TokenKind::Minus => Some(BinOp::Sub),
        TokenKind::Star => Some(BinOp::Mul),
        TokenKind::Slash => Some(BinOp::Div),
        TokenKind::Percent => Some(BinOp::Mod),
        _ => None,
    }
}

/// The cursor of `p` is at `A OP B`, `A` and `B` integer literals and `OP`
/// an arithmetic operator binding at level `lvl` (4 for `+ -`, 5 for
/// `* / %`), followed by no operator binding at that level or tighter.
spec fn arith_pair_at(p: Parser, lvl: int) -> bool {
    &&& p.pos + 3 < p.tokens@.len()
    &&& p.code() == 1
    &&& arith_op_of(p.tokens@[p.pos + 1].kind) is Some
    &&& op_level(p.tokens@[p.pos + 1].kind) == lvl
    &&& kind_code(p.tokens@[p.pos + 2].kind) == 1
    &&& op_level(p.tokens@[p.pos + 3].kind) < lvl
}

/// The operation the arithmetic token after the cursor of `p` names.
spec fn arith_pair_op(p: Parser) -> BinOp {
    arith_op_of(p.tokens@[p.pos + 1].kind)->0
}

/// Each arithmetic operator token names the operation it reads as: on any
/// two integers whose exact result fits in an `i64`, `+` adds and `-`
/// subtracts, and on a nonzero divisor `/` and `%` give a quotient and
/// remainder that rebuild the dividend, the remainder smaller than the
/// divisor and of the dividend's sign; `*` multiplies nonnegative integers
/// whose product fits.
pub proof fn lemma_arith_tokens_mean(x: i64, y: i64)
    ensures
        i64::MIN <= x + y <= i64::MAX ==> crate::interp::spec_eval_bin(arith_op_of(TokenKind::Plus)->0,
            crate::interp::RtValue::I64(x), crate::interp::RtValue::I64(y))
            == Ok::<crate::interp::RtValue, crate::interp::Outcome>(crate::interp::RtValue::I64((x + y) as i64)),
        i64::MIN <= x - y <= i64::MAX ==> crate::interp::spec_eval_bin(arith_op_of(TokenKind::Minus)->0,
            crate::interp::RtValue::I64(x), crate::interp::RtValue::I64(y))
            == Ok::<crate::interp::RtValue, crate::interp::Outcome>(crate::interp::RtValue::I64((x - y) as i64)),
        y != 0 && !(x == i64::MIN && y == -1) ==> (crate::interp::spec_eval_bin(arith_op_of(TokenKind::Slash)->0,
            crate::interp::RtValue::I64(x), crate::interp::RtValue::I64(y)) matches Ok(crate::interp::RtValue::I64(dq))
            && crate::interp::spec_eval_bin(arith_op_of(TokenKind::Percent)->0, crate::interp::RtValue::I64(x),
            crate::interp::RtValue::I64(y)) matches Ok(crate::interp::RtValue::I64(dr))
            && x == y * dq + dr && crate::interp::abs(dr as int) < crate::interp::abs(y as int) && (dr == 0 || (dr < 0) == (x < 0))),
        0 <= x && 0 <= y && x * y <= i64::MAX ==> crate::interp::spec_eval_bin(arith_op_of(TokenKind::Star)->0,
            crate::interp::RtValue::I64(x), crate::interp::RtValue::I64(y))
            == Ok::<crate::interp::RtValue, crate::interp::Outcome>(crate::interp::RtValue::I64((x * y) as i64)),
{
    crate::interp::lemma_eval_bin_meaning(x, y, true, true);
    if 0 <= x && 0 <= y && x * y <= i64::MAX {
        assert(0 <= x * y) by (nonlinear_arith) requires 0 <= x, 0 <= y;
        assert((x as nat * y as nat) % 0x1_0000_0000_0000_0000nat == x * y) by (nonlinear_arith)
            requires 0 <= x, 0 <= y, x * y <= i64::MAX;
    }
}

/// Each comparison token names the comparison it reads as: on any two
/// integers, the operation `==` names is equality, `!=` inequality, `<`,
/// `<=`, `>`, `>=` the integer order they denote.
pub proof fn lemma_comparison_tokens_mean(x: i64, y: i64)
    ensures
        crate::interp::spec_eval_bin(cmp_op_of(TokenKind::EqEq)->0, crate::interp::RtValue::I64(x), crate::interp::RtValue::I64(y))
            == Ok::<crate::interp::RtValue, crate::interp::Outcome>(crate::interp::RtValue::Bool(x == y)),
        crate::interp::spec_eval_bin(cmp_op_of(TokenKind::NotEq)->0, crate::interp::RtValue::I64(x), crate::interp::RtValue::I64(y))
            == Ok::<crate::interp::RtValue, crate::interp::Outcome>(crate::interp::RtValue::Bool(x != y)),
        crate::interp::spec_eval_bin(cmp_op_of(TokenKind::Lt)->0, crate::interp::RtValue::I64(x), crate::interp::RtValue::I64(y))
            == Ok::<crate::interp::RtValue, crate::interp::Outcome>(crate::interp::RtValue::Bool(x < y)),
        crate::interp::spec_eval_bin(cmp_op_of(TokenKind::Le)->0, crate::interp::RtValue::I64(x), crate::interp::RtValue::I64(y))
            == Ok::<crate::interp::RtValue, crate::interp::Outcome>(crate::interp::RtValue::Bool(x <= y)),
        crate::interp::spec_eval_bin(cmp_op_of(TokenKind::Gt)->0, crate::interp::RtValue::I64(x), crate::interp::RtValue::I64(y))
            == Ok::<crate::interp::RtValue, crate::interp::Outcome>(crate::interp::RtValue::Bool(x > y)),
        crate::interp::spec_eval_bin(cmp_op_of(TokenKind::Ge)->0, crate::interp::RtValue::I64(x), crate::interp::RtValue::I64(y))
            == Ok::<crate::interp::RtValue, crate::interp::Outcome>(crate::interp::RtValue::Bool(x >= y)),
        forall|k: TokenKind| #[trigger] cmp_op_of(k) is Some <==> (k == TokenKind::EqEq || k == TokenKind::NotEq || k == TokenKind::Lt
            || k == TokenKind::Le || k == TokenKind::Gt || k == TokenKind::Ge),
{
    crate::interp::lemma_eval_bin_meaning(x, y, true, true);
}

/// `e` reports that an expression was expected at the cursor of `p`.
spec fn no_expr_at(p: Parser, e: ParseError) -> bool {
    no_expr_at_token(p.tokens@, p.pos as int, e)
}

/// `e` reports that an expression was expected at token `k` of `ts`.
spec fn no_expr_at_token(ts: Seq<Token>, k: int, e: ParseError) -> bool {
    e matches ParseError::UnexpectedToken { expected, found, span } && expected@ == "an expression"@
        && found == ts[k].kind && span == ts[k].span
}

/// A statement that starts with keyword `code` (`if`, `while`, `return`)
/// and whose next token cannot begin an expression is rejected there.
spec fn keyword_then_no_expr(p: Parser, code: u8, e: ParseError) -> bool {
    p.pos + 1 < p.tokens@.len() && kind_code(p.tokens@[p.pos as int].kind) == code
        && !starts_expr(p.tokens@[p.pos + 1].kind) ==> no_expr_at_token(p.tokens@, p.pos + 1, e)
}

impl Parser {
    // ---- Expressions ----

    fn parse_expr(&mut self, ctx: &mut FnContext) -> (r: Result<(ValueId, Type), ParseError>)
        requires
            ready(*old(self), *old(ctx)),
            open_block(*old(ctx), old(ctx).current_block),
        ensures
            r is Ok ==> progressed(*final(self), *final(ctx), *old(self), *old(ctx)),
            r is Ok ==> open_block(*final(ctx), final(ctx).current_block) && term_ok(*final(ctx), old(ctx).current_block),
            r matches Ok((v, _)) ==> defines(final(ctx).builder.func_view(), v),
            r matches Err(e) ==> !(e is Lex) && from_tokens(old(self).tokens@, e),
            !starts_expr(old(self).cursor_kind()) ==> (r matches Err(e) && no_expr_at(*old(self), e)),
            literal_alone(*old(self), 1) ==> (r matches Ok((v, t)) && literal_made(*old(self), *old(ctx), *final(self), *final(ctx), v, t)),
            unknown_var_here(*old(self), *old(ctx)) ==> (r matches Err(e) && reports_unknown_here(*old(self), e)),
        decreases old(self).left(), 10nat,
    {
        self.parse_or(ctx)
    }

    #[verifier::spinoff_prover]
    fn parse_or(&mut self, ctx: &mut FnContext) -> (r: Result<(ValueId, Type), ParseError>)
        requires
            ready(*old(self), *old(ctx)),
            open_block(*old(ctx), old(ctx).current_block),
        ensures
            r is Ok ==> progressed(*final(self), *final(ctx), *old(self), *old(ctx)),
            r is Ok ==> open_block(*final(ctx), final(ctx).current_block) && term_ok(*final(ctx), old(ctx).current_block),
            r matches Ok((v, _)) ==> defines(final(ctx).builder.func_view(), v),
            r matches Err(e) ==> !(e is Lex) && from_tokens(old(self).tokens@, e),
            !starts_expr(old(self).cursor_kind()) ==> (r matches Err(e) && no_expr_at(*old(self), e)),
            r is Ok ==> final(self).code() != 11,
            literal_alone(*old(self), 1) ==> (r matches Ok((v, t)) && literal_made(*old(self), *old(ctx), *final(self), *final(ctx), v, t)),
            bool_pair(*old(self), 11) ==> (r matches Ok((v, t)) && t == Type::Bool
                && short_circuit_made(*old(self), *old(ctx), *final(self), *final(ctx), v, true)),
            unknown_var_here(*old(self), *old(ctx)) ==> (r matches Err(e) && reports_unknown_here(*old(self), e)),
        decreases old(self).left(), 9nat,
    {
        let ghost p0 = *self;
        let ghost c0 = *ctx;
        let (mut lhs, mut lty) = self.parse_and(ctx)?;
        let ghost mut iters: int = 0;
        while self.peek_is(&TokenKind::Or)
            invariant
                bool_pair(p0, 11) ==> 0 <= iters <= 1,
                bool_pair(p0, 11) && iters == 0 ==> literal_made(p0, c0, *self, *ctx, lhs, lty),
                bool_pair(p0, 11) && iters == 1 ==> lty == Type::Bool && short_circuit_made(p0, c0, *self, *ctx, lhs, true),
                ready(*self, *ctx),
                progressed(*self, *ctx, p0, c0),
                p0 == *old(self),
                !unknown_var_here(*old(self), *old(ctx)),
                starts_expr(p0.cursor_kind()),
                literal_alone(p0, 1) ==> literal_made(p0, c0, *self, *ctx, lhs, lty),
                c0 == *old(ctx),
                defines(ctx.builder.func_view(), lhs),
                open_block(*ctx, ctx.current_block),
                term_ok(*ctx, c0.current_block),
                c0.current_block.0 < ctx.builder.n_blocks(),
            decreases self.left(),
        {
            let ghost p1 = *self;
            let ghost c1 = *ctx;
            let ghost lv = lhs;
            let ghost first = bool_pair(p0, 11);
            proof {
                if first && iters == 1 {
                    let ghost w = choose|lv: ValueId, sv: ValueId, rv: ValueId| #[trigger] short_circuit_parts(p0, c0, *self, *ctx, lhs, true, lv, sv, rv);
                    assert(short_circuit_parts(p0, c0, *self, *ctx, lhs, true, w.0, w.1, w.2));
                    assert(op_level(self.tokens@[self.pos as int].kind) == 0);
                }
            }
            let span = self.peek().span;
            proof { self.lemma_not_at_end(); }
            self.advance();
            if lty != Type::Bool {
                return Err(type_mismatch(Type::Bool, lty, span));
            }
            let short_block = ctx.builder.new_block();
            let ghost c_s = *ctx;
            let rhs_block = ctx.builder.new_block();
            let ghost c_r = *ctx;
            let join = ctx.builder.new_block();
            let ghost c_a = *ctx;
            proof {
                let cb = ctx.current_block.0 as int;
                assert(c_s.builder.func_view().blocks@[cb] == c1.builder.func_view().blocks@[cb]);
                assert(c_r.builder.func_view().blocks@[cb] == c_s.builder.func_view().blocks@[cb]);
                assert(c_a.builder.func_view().blocks@[cb] == c_r.builder.func_view().blocks@[cb]);
                let sb = short_block.0 as int;
                assert(c_s.builder.func_view().blocks@[sb].terminator is None);
                assert(c_r.builder.func_view().blocks@[sb] == c_s.builder.func_view().blocks@[sb]);
                assert(c_a.builder.func_view().blocks@[sb] == c_r.builder.func_view().blocks@[sb]);
                let rb = rhs_block.0 as int;
                assert(c_a.builder.func_view().blocks@[rb] == c_r.builder.func_view().blocks@[rb]);
            }
            ctx.builder.terminate(ctx.current_block, Terminator::Branch { cond: lhs, then_block: short_block, else_block: rhs_block });
            let ghost c_b = *ctx;
            ctx.builder.seal_block(short_block);
            let ghost c_c = *ctx;
            ctx.builder.seal_block(rhs_block);
            let ghost c_d = *ctx;
            let true_val = ctx.builder.emit(short_block, Type::Bool, InstKind::ConstBool(true));
            let ghost c_e = *ctx;
            assert(c_a.builder.func_view().blocks@[short_block.0 as int].terminator is None);
            assert(c_b.builder.func_view().blocks@[short_block.0 as int].terminator is None);
            assert(c_c.builder.func_view().blocks@[short_block.0 as int].terminator is None);
            assert(c_d.builder.func_view().blocks@[short_block.0 as int].terminator is None);
            assert(ctx.builder.func_view().blocks@[short_block.0 as int].terminator is None);
            ctx.builder.terminate(short_block, Terminator::Jump(join));
            ctx.current_block = rhs_block;
            let ghost c2 = *ctx;
            proof {
                let cur = c1.current_block;
                assert(c_a.builder.func_view().blocks@[short_block.0 as int].instructions@.len() == 0);
                assert(c_a.builder.func_view().blocks@[rhs_block.0 as int].instructions@.len() == 0);
                assert(no_phi(c_a.builder.func_view(), short_block.0 as int));
                assert(no_phi(c_a.builder.func_view(), rhs_block.0 as int));
                assert(c_b.builder.func_view().blocks@[short_block.0 as int] == c_a.builder.func_view().blocks@[short_block.0 as int]);
                assert(c_b.builder.func_view().blocks@[rhs_block.0 as int] == c_a.builder.func_view().blocks@[rhs_block.0 as int]);
                assert(no_phi(c_b.builder.func_view(), short_block.0 as int));
                assert(no_phi(c_b.builder.func_view(), rhs_block.0 as int));
                assert(c_b.builder.preds_at(short_block.0 as int).len() == 1);
                assert(c_b.builder.preds_at(rhs_block.0 as int).len() == 1);
                assert(no_phi(c_c.builder.func_view(), short_block.0 as int));
                assert(c_c.builder.sealed_at(short_block.0 as int));
                assert(c_c.builder.preds_at(short_block.0 as int).len() == 1);
                assert(no_phi(c_c.builder.func_view(), rhs_block.0 as int));
                assert(no_phi(c_d.builder.func_view(), rhs_block.0 as int));
                assert(c_d.builder.sealed_at(rhs_block.0 as int));
                assert(c_d.builder.sealed_at(short_block.0 as int));
                assert(c_d.builder.preds_at(rhs_block.0 as int).len() == 1);
                assert(c_d.builder.preds_at(short_block.0 as int).len() == 1);
                assert(no_phi(c_d.builder.func_view(), short_block.0 as int));
                assert(no_phi(c_e.builder.func_view(), short_block.0 as int));
                assert(no_phi(c_e.builder.func_view(), rhs_block.0 as int));
                assert(no_phi(c2.builder.func_view(), short_block.0 as int));
                assert(no_phi(c2.builder.func_view(), rhs_block.0 as int));
                assert(c2.builder.sealed_at(short_block.0 as int) && c2.builder.sealed_at(rhs_block.0 as int));
                assert(c2.builder.preds_at(short_block.0 as int).len() == 1);
                assert(c2.builder.preds_at(rhs_block.0 as int).len() == 1);
                assert(c_a.builder.preds_at(join.0 as int).len() == 0);
                assert(c_b.builder.preds_at(join.0 as int).len() == 0);
                assert(c_c.builder.preds_at(join.0 as int).len() == 0);
                assert(c_d.builder.preds_at(join.0 as int).len() == 0);
                assert(c_e.builder.preds_at(join.0 as int).len() == 0);
                assert(c2.builder.preds_at(join.0 as int) =~= seq![short_block]);
                if cur == c0.current_block {
                    let t = c2.builder.func_view().blocks@[cur.0 as int].terminator->0;
                    assert(term_successors(t)[0] == short_block);
                    assert(term_successors(t)[1] == rhs_block);
                } else {
                    lemma_term_ok_kept(c1, c2, c0.current_block);
                }
                assert(term_ok(c2, c0.current_block));
            }
            let ghost p2 = *self;
            proof {
                if first {
                    assert(p2.pos == p0.pos + 2);
                    assert(literal_alone(p2, 2));
                }
            }
            let (rval, rty) = self.parse_and(ctx)?;
            if rty != Type::Bool {
                return Err(type_mismatch(Type::Bool, rty, span));
            }
            let rhs_tail = ctx.current_block;
            let ghost c3 = *ctx;
            assert(c3.builder.func_view().blocks@[join.0 as int].terminator is None);
            ctx.builder.terminate(rhs_tail, Terminator::Jump(join));
            let ghost c4 = *ctx;
            ctx.builder.seal_block(join);
            let ghost c5 = *ctx;
            let mut incoming: Vec<(BlockId, ValueId)> = Vec::new();
            incoming.push((short_block, true_val));
            incoming.push((rhs_tail, rval));
            proof {
                assert(c3.builder.preds_at(join.0 as int) == c2.builder.preds_at(join.0 as int));
                assert(c4.builder.preds_at(join.0 as int) == c3.builder.preds_at(join.0 as int).push(rhs_tail));
                assert(c5.builder.preds_at(join.0 as int) == c4.builder.preds_at(join.0 as int));
                assert(crate::ssa_builder::names(incoming@) =~= ctx.builder.preds_at(join.0 as int));
            }
            let ghost inc = incoming;
            lhs = ctx.builder.emit_phi(join, Type::Bool, incoming);
            lty = Type::Bool;
            ctx.current_block = join;
            proof {
                assert(rhs_tail != c0.current_block);
                assert(c0.current_block != rhs_block);
                lemma_term_ok_kept(c2, c3, c0.current_block);
                lemma_term_ok_kept(c3, c4, c0.current_block);
                lemma_term_ok_kept(c4, c5, c0.current_block);
                lemma_term_ok_kept(c5, *ctx, c0.current_block);
            }
            proof {
                if first {
                    let n = c0.builder.n_blocks() as int;
                    let cb = c0.current_block.0 as int;
                    let bsf = ctx.builder.func_view().blocks@;
                    assert(c1.builder.n_blocks() == n && c1.current_block == c0.current_block);
                    assert(short_block.0 == n && rhs_block.0 == n + 1 && join.0 == n + 2);
                    assert(rhs_tail == rhs_block);
                    assert(c_c.builder.func_view() == c_b.builder.func_view());
                    assert(c_d.builder.func_view() == c_c.builder.func_view());
                    assert(c5.builder.func_view() == c4.builder.func_view());
                    // the block that computed `a`
                    assert(c_b.builder.func_view().blocks@[cb].instructions == c_a.builder.func_view().blocks@[cb].instructions);
                    assert(c_e.builder.func_view().blocks@[cb] == c_d.builder.func_view().blocks@[cb]);
                    assert(c2.builder.func_view().blocks@[cb] == c_e.builder.func_view().blocks@[cb]);
                    assert(c3.builder.func_view().blocks@[cb] == c2.builder.func_view().blocks@[cb]);
                    assert(c4.builder.func_view().blocks@[cb] == c3.builder.func_view().blocks@[cb]);
                    assert(bsf[cb] == c5.builder.func_view().blocks@[cb]);
                    // the short block
                    assert(c_b.builder.func_view().blocks@[n] == c_a.builder.func_view().blocks@[n]);
                    assert(c_a.builder.func_view().blocks@[n].instructions@ =~= Seq::<Instruction>::empty());
                    assert(c_e.builder.func_view().blocks@[n].instructions@ =~= seq![Instruction { id: true_val, ty: Type::Bool, kind: InstKind::ConstBool(true) }]);
                    assert(c3.builder.func_view().blocks@[n] == c2.builder.func_view().blocks@[n]);
                    assert(c4.builder.func_view().blocks@[n] == c3.builder.func_view().blocks@[n]);
                    assert(bsf[n] == c5.builder.func_view().blocks@[n]);
                    // the block of `b`
                    assert(c_b.builder.func_view().blocks@[n + 1] == c_a.builder.func_view().blocks@[n + 1]);
                    assert(c_e.builder.func_view().blocks@[n + 1] == c_d.builder.func_view().blocks@[n + 1]);
                    assert(c2.builder.func_view().blocks@[n + 1] == c_e.builder.func_view().blocks@[n + 1]);
                    assert(c_a.builder.func_view().blocks@[n + 1].instructions@ =~= Seq::<Instruction>::empty());
                    assert(p2.cursor_kind() == p0.tokens@[p0.pos + 2].kind);
                    assert(c3.builder.func_view().blocks@[n + 1].instructions@ =~= seq![literal_inst(p0.tokens@[p0.pos + 2].kind, rval)]);
                    assert(bsf[n + 1] == c5.builder.func_view().blocks@[n + 1]);
                    // the join block
                    assert(c_b.builder.func_view().blocks@[n + 2] == c_a.builder.func_view().blocks@[n + 2]);
                    assert(c_e.builder.func_view().blocks@[n + 2] == c_d.builder.func_view().blocks@[n + 2]);
                    assert(c2.builder.func_view().blocks@[n + 2] == c_e.builder.func_view().blocks@[n + 2]);
                    assert(c3.builder.func_view().blocks@[n + 2] == c2.builder.func_view().blocks@[n + 2]);
                    assert(c4.builder.func_view().blocks@[n + 2] == c3.builder.func_view().blocks@[n + 2]);
                    assert(c_a.builder.func_view().blocks@[n + 2].instructions@ =~= Seq::<Instruction>::empty());
                    assert(bsf[n + 2].instructions@ =~= seq![Instruction { id: lhs, ty: Type::Bool, kind: InstKind::Phi(inc) }]);
                    assert(inc@ =~= seq![(short_block, true_val), (rhs_block, rval)]);
                    assert(short_circuit_parts(p0, c0, *self, *ctx, lhs, true, lv, true_val, rval));
                }
                iters = iters + 1;
            }
        }
        proof {
            if bool_pair(p0, 11) && iters == 0 {
                assert(self.pos == p0.pos + 1);
            }
        }
        Ok((lhs, lty))
    }

    #[verifier::spinoff_prover]
    fn parse_and(&mut self, ctx: &mut FnContext) -> (r: Result<(ValueId, Type), ParseError>)
        requires
            ready(*old(self), *old(ctx)),
            open_block(*old(ctx), old(ctx).current_block),
        ensures
            r is Ok ==> progressed(*final(self), *final(ctx), *old(self), *old(ctx)),
            r is Ok ==> open_block(*final(ctx), final(ctx).current_block) && term_ok(*final(ctx), old(ctx).current_block),
            r matches Ok((v, _)) ==> defines(final(ctx).builder.func_view(), v),
            r matches Err(e) ==> !(e is Lex) && from_tokens(old(self).tokens@, e),
            !starts_expr(old(self).cursor_kind()) ==> (r matches Err(e) && no_expr_at(*old(self), e)),
            r is Ok ==> final(self).code() != 10,
            literal_alone(*old(self), 2) ==> (r matches Ok((v, t)) && literal_made(*old(self), *old(ctx), *final(self), *final(ctx), v, t)),
            bool_pair(*old(self), 10) ==> (r matches Ok((v, t)) && t == Type::Bool
                && short_circuit_made(*old(self), *old(ctx), *final(self), *final(ctx), v, false)),
            unknown_var_here(*old(self), *old(ctx)) ==> (r matches Err(e) && reports_unknown_here(*old(self), e)),
        decreases old(self).left(), 8nat,
    {
        let ghost p0 = *self;
        let ghost c0 = *ctx;
        let (mut lhs, mut lty) = self.parse_not(ctx)?;
        let ghost mut iters: int = 0;
        while self.peek_is(&TokenKind::And)
            invariant
                bool_pair(p0, 10) ==> 0 <= iters <= 1,
                bool_pair(p0, 10) && iters == 0 ==> literal_made(p0, c0, *self, *ctx, lhs, lty),
                bool_pair(p0, 10) && iters == 1 ==> lty == Type::Bool && short_circuit_made(p0, c0, *self, *ctx, lhs, false),
                ready(*self, *ctx),
                progressed(*self, *ctx, p0, c0),
                p0 == *old(self),
                !unknown_var_here(*old(self), *old(ctx)),
                starts_expr(p0.cursor_kind()),
                literal_alone(p0, 2) ==> literal_made(p0, c0, *self, *ctx, lhs, lty),
                c0 == *old(ctx),
                defines(ctx.builder.func_view(), lhs),
                open_block(*ctx, ctx.current_block),
                term_ok(*ctx, c0.current_block),
                c0.current_block.0 < ctx.builder.n_blocks(),
            decreases self.left(),
        {
            let ghost c1 = *ctx;
            let ghost lv = lhs;
            let ghost first = bool_pair(p0, 10);
            proof {
                if first && iters == 1 {
                    let ghost w = choose|lv: ValueId, sv: ValueId, rv: ValueId| #[trigger] short_circuit_parts(p0, c0, *self, *ctx, lhs, false, lv, sv, rv);
                    assert(short_circuit_parts(p0, c0, *self, *ctx, lhs, false, w.0, w.1, w.2));
                    assert(op_level(self.tokens@[self.pos as int].kind) == 0);
                }
            }
            let span = self.peek().span;
            proof { self.lemma_not_at_end(); }
            self.advance();
            if lty != Type::Bool {
                return Err(type_mismatch(Type::Bool, lty, span));
            }
            let short_block = ctx.builder.new_block();
            let ghost c_s = *ctx;
            let rhs_block = ctx.builder.new_block();
            let ghost c_r = *ctx;
            let join = ctx.builder.new_block();
            let ghost c_a = *ctx;
            proof {
                let cb = ctx.current_block.0 as int;
                assert(c_s.builder.func_view().blocks@[cb] == c1.builder.func_view().blocks@[cb]);
                assert(c_r.builder.func_view().blocks@[cb] == c_s.builder.func_view().blocks@[cb]);
                assert(c_a.builder.func_view().blocks@[cb] == c_r.builder.func_view().blocks@[cb]);
                let sb = short_block.0 as int;
                assert(c_s.builder.func_view().blocks@[sb].terminator is None);
                assert(c_r.builder.func_view().blocks@[sb] == c_s.builder.func_view().blocks@[sb]);
                assert(c_a.builder.func_view().blocks@[sb] == c_r.builder.func_view().blocks@[sb]);
                let rb = rhs_block.0 as int;
                assert(c_a.builder.func_view().blocks@[rb] == c_r.builder.func_view().blocks@[rb]);
            }
            ctx.builder.terminate(ctx.current_block, Terminator::Branch { cond: lhs, then_block: rhs_block, else_block: short_block });
            let ghost c_b = *ctx;
            ctx.builder.seal_block(short_block);
            let ghost c_c = *ctx;
            ctx.builder.seal_block(rhs_block);
            let ghost c_d = *ctx;
            let false_val = ctx.builder.emit(short_block, Type::Bool, InstKind::ConstBool(false));
            let ghost c_e = *ctx;
            assert(c_a.builder.func_view().blocks@[short_block.0 as int].terminator is None);
            assert(c_b.builder.func_view().blocks@[short_block.0 as int].terminator is None);
            assert(c_c.builder.func_view().blocks@[short_block.0 as int].terminator is None);
            assert(c_d.builder.func_view().blocks@[short_block.0 as int].terminator is None);
            assert(ctx.builder.func_view().blocks@[short_block.0 as int].terminator is None);
            ctx.builder.terminate(short_block, Terminator::Jump(join));
            ctx.current_block = rhs_block;
            let ghost c2 = *ctx;
            proof {
                let cur = c1.current_block;
                assert(c_a.builder.func_view().blocks@[short_block.0 as int].instructions@.len() == 0);
                assert(c_a.builder.func_view().blocks@[rhs_block.0 as int].instructions@.len() == 0);
                assert(no_phi(c_a.builder.func_view(), short_block.0 as int));
                assert(no_phi(c_a.builder.func_view(), rhs_block.0 as int));
                assert(c_b.builder.func_view().blocks@[short_block.0 as int] == c_a.builder.func_view().blocks@[short_block.0 as int]);
                assert(c_b.builder.func_view().blocks@[rhs_block.0 as int] == c_a.builder.func_view().blocks@[rhs_block.0 as int]);
                assert(no_phi(c_b.builder.func_view(), short_block.0 as int));
                assert(no_phi(c_b.builder.func_view(), rhs_block.0 as int));
                assert(c_b.builder.preds_at(short_block.0 as int).len() == 1);
                assert(c_b.builder.preds_at(rhs_block.0 as int).len() == 1);
                assert(no_phi(c_c.builder.func_view(), short_block.0 as int));
                assert(c_c.builder.sealed_at(short_block.0 as int));
                assert(c_c.builder.preds_at(short_block.0 as int).len() == 1);
                assert(no_phi(c_c.builder.func_view(), rhs_block.0 as int));
                assert(no_phi(c_d.builder.func_view(), rhs_block.0 as int));
                assert(c_d.builder.sealed_at(rhs_block.0 as int));
                assert(c_d.builder.sealed_at(short_block.0 as int));
                assert(c_d.builder.preds_at(rhs_block.0 as int).len() == 1);
                assert(c_d.builder.preds_at(short_block.0 as int).len() == 1);
                assert(no_phi(c_d.builder.func_view(), short_block.0 as int));
                assert(no_phi(c_e.builder.func_view(), short_block.0 as int));
                assert(no_phi(c_e.builder.func_view(), rhs_block.0 as int));
                assert(no_phi(c2.builder.func_view(), short_block.0 as int));
                assert(no_phi(c2.builder.func_view(), rhs_block.0 as int));
                assert(c2.builder.sealed_at(short_block.0 as int) && c2.builder.sealed_at(rhs_block.0 as int));
                assert(c2.builder.preds_at(short_block.0 as int).len() == 1);
                assert(c2.builder.preds_at(rhs_block.0 as int).len() == 1);
                assert(c_a.builder.preds_at(join.0 as int).len() == 0);
                assert(c_b.builder.preds_at(join.0 as int).len() == 0);
                assert(c_c.builder.preds_at(join.0 as int).len() == 0);
                assert(c_d.builder.preds_at(join.0 as int).len() == 0);
                assert(c_e.builder.preds_at(join.0 as int).len() == 0);
                assert(c2.builder.preds_at(join.0 as int) =~= seq![short_block]);
                if cur == c0.current_block {
                    let t = c2.builder.func_view().blocks@[cur.0 as int].terminator->0;
                    assert(term_successors(t)[0] == rhs_block);
                    assert(term_successors(t)[1] == short_block);
                } else {
                    lemma_term_ok_kept(c1, c2, c0.current_block);
                }
                assert(term_ok(c2, c0.current_block));
            }
            let ghost p2 = *self;
            proof {
                if first {
                    assert(p2.pos == p0.pos + 2);
                    assert(literal_alone(p2, 3));
                }
            }
            let (rval, rty) = self.parse_not(ctx)?;
            if rty != Type::Bool {
                return Err(type_mismatch(Type::Bool, rty, span));
            }
            let rhs_tail = ctx.current_block;
            let ghost c3 = *ctx;
            assert(c3.builder.func_view().blocks@[join.0 as int].terminator is None);
            ctx.builder.terminate(rhs_tail, Terminator::Jump(join));
            let ghost c4 = *ctx;
            ctx.builder.seal_block(join);
            let ghost c5 = *ctx;
            let mut incoming: Vec<(BlockId, ValueId)> = Vec::new();
            incoming.push((short_block, false_val));
            incoming.push((rhs_tail, rval));
            proof {
                assert(c3.builder.preds_at(join.0 as int) == c2.builder.preds_at(join.0 as int));
                assert(c4.builder.preds_at(join.0 as int) == c3.builder.preds_at(join.0 as int).push(rhs_tail));
                assert(c5.builder.preds_at(join.0 as int) == c4.builder.preds_at(join.0 as int));
                assert(crate::ssa_builder::names(incoming@) =~= ctx.builder.preds_at(join.0 as int));
            }
            let ghost inc = incoming;
            lhs = ctx.builder.emit_phi(join, Type::Bool, incoming);
            lty = Type::Bool;
            ctx.current_block = join;
            proof {
                assert(rhs_tail != c0.current_block);
                assert(c0.current_block != rhs_block);
                lemma_term_ok_kept(c2, c3, c0.current_block);
                lemma_term_ok_kept(c3, c4, c0.current_block);
                lemma_term_ok_kept(c4, c5, c0.current_block);
                lemma_term_ok_kept(c5, *ctx, c0.current_block);
            }
            proof {
                if first {
                    let n = c0.builder.n_blocks() as int;
                    let cb = c0.current_block.0 as int;
                    let bsf = ctx.builder.func_view().blocks@;
                    assert(c1.builder.n_blocks() == n && c1.current_block == c0.current_block);
                    assert(short_block.0 == n && rhs_block.0 == n + 1 && join.0 == n + 2);
                    assert(rhs_tail == rhs_block);
                    assert(c_c.builder.func_view() == c_b.builder.func_view());
                    assert(c_d.builder.func_view() == c_c.builder.func_view());
                    assert(c5.builder.func_view() == c4.builder.func_view());
                    // the block that computed `a`
                    assert(c_b.builder.func_view().blocks@[cb].instructions == c_a.builder.func_view().blocks@[cb].instructions);
                    assert(c_e.builder.func_view().blocks@[cb] == c_d.builder.func_view().blocks@[cb]);
                    assert(c2.builder.func_view().blocks@[cb] == c_e.builder.func_view().blocks@[cb]);
                    assert(c3.builder.func_view().blocks@[cb] == c2.builder.func_view().blocks@[cb]);
                    assert(c4.builder.func_view().blocks@[cb] == c3.builder.func_view().blocks@[cb]);
                    assert(bsf[cb] == c5.builder.func_view().blocks@[cb]);
                    // the short block
                    assert(c_b.builder.func_view().blocks@[n] == c_a.builder.func_view().blocks@[n]);
                    assert(c_a.builder.func_view().blocks@[n].instructions@ =~= Seq::<Instruction>::empty());
                    assert(c_e.builder.func_view().blocks@[n].instructions@ =~= seq![Instruction { id: false_val, ty: Type::Bool, kind: InstKind::ConstBool(false) }]);
                    assert(c3.builder.func_view().blocks@[n] == c2.builder.func_view().blocks@[n]);
                    assert(c4.builder.func_view().blocks@[n] == c3.builder.func_view().blocks@[n]);
                    assert(bsf[n] == c5.builder.func_view().blocks@[n]);
                    // the block of `b`
                    assert(c_b.builder.func_view().blocks@[n + 1] == c_a.builder.func_view().blocks@[n + 1]);
                    assert(c_e.builder.func_view().blocks@[n + 1] == c_d.builder.func_view().blocks@[n + 1]);
                    assert(c2.builder.func_view().blocks@[n + 1] == c_e.builder.func_view().blocks@[n + 1]);
                    assert(c_a.builder.func_view().blocks@[n + 1].instructions@ =~= Seq::<Instruction>::empty());
                    assert(p2.cursor_kind() == p0.tokens@[p0.pos + 2].kind);
                    assert(c3.builder.func_view().blocks@[n + 1].instructions@ =~= seq![literal_inst(p0.tokens@[p0.pos + 2].kind, rval)]);
                    assert(bsf[n + 1] == c5.builder.func_view().blocks@[n + 1]);
                    // the join block
                    assert(c_b.builder.func_view().blocks@[n + 2] == c_a.builder.func_view().blocks@[n + 2]);
                    assert(c_e.builder.func_view().blocks@[n + 2] == c_d.builder.func_view().blocks@[n + 2]);
                    assert(c2.builder.func_view().blocks@[n + 2] == c_e.builder.func_view().blocks@[n + 2]);
                    assert(c3.builder.func_view().blocks@[n + 2] == c2.builder.func_view().blocks@[n + 2]);
                    assert(c4.builder.func_view().blocks@[n + 2] == c3.builder.func_view().blocks@[n + 2]);
                    assert(c_a.builder.func_view().blocks@[n + 2].instructions@ =~= Seq::<Instruction>::empty());
                    assert(bsf[n + 2].instructions@ =~= seq![Instruction { id: lhs, ty: Type::Bool, kind: InstKind::Phi(inc) }]);
                    assert(inc@ =~= seq![(short_block, false_val), (rhs_block, rval)]);
                    assert(short_circuit_parts(p0, c0, *self, *ctx, lhs, false, lv, false_val, rval));
                }
                iters = iters + 1;
            }
        }
        proof {
            if bool_pair(p0, 10) && iters == 0 {
                assert(self.pos == p0.pos + 1);
            }
        }
        Ok((lhs, lty))
    }

    fn parse_not(&mut self, ctx: &mut FnContext) -> (r: Result<(ValueId, Type), ParseError>)
        requires
            ready(*old(self), *old(ctx)),
            open_block(*old(ctx), old(ctx).current_block),
        ensures
            r is Ok ==> progressed(*final(self), *final(ctx), *old(self), *old(ctx)),
            r is Ok ==> open_block(*final(ctx), final(ctx).current_block) && term_ok(*final(ctx), old(ctx).current_block),
            r matches Ok((v, _)) ==> defines(final(ctx).builder.func_view(), v),
            r matches Err(e) ==> !(e is Lex) && from_tokens(old(self).tokens@, e),
            !starts_expr(old(self).cursor_kind()) ==> (r matches Err(e) && no_expr_at(*old(self), e)),
            literal_alone(*old(self), 3) ==> (r matches Ok((v, t)) && literal_made(*old(self), *old(ctx), *final(self), *final(ctx), v, t)),
            unknown_var_here(*old(self), *old(ctx)) ==> (r matches Err(e) && reports_unknown_here(*old(self), e)),
        decreases old(self).left(), 7nat,
    {
        if self.peek_is(&TokenKind::Not) {
            let span = self.peek().span;
            proof { self.lemma_not_at_end(); }
            self.advance();
            let (v, ty) = self.parse_not(ctx)?;
            if ty != Type::Bool {
                return Err(type_mismatch(Type::Bool, ty, span));
            }
            let result = ctx.builder.emit(ctx.current_block, Type::Bool, InstKind::Un(UnOp::Not, v));
            Ok((result, Type::Bool))
        } else {
            self.parse_cmp(ctx)
        }
    }

    /// The comparison operator at the cursor, if there is one.
    fn peek_cmp_op(&self) -> (op: Option<BinOp>)
        requires
            self.wf(),
        ensures
            op == cmp_op_of(self.cursor_kind()),
            op is Some ==> self.code() != 35,
    {
        match self.tokens[self.pos].kind {
            TokenKind::EqEq => Some(BinOp::CmpEq),
            TokenKind::NotEq => Some(BinOp::CmpNe),
            TokenKind::Lt => Some(BinOp::CmpLt),
            TokenKind::Le => Some(BinOp::CmpLe),
            TokenKind::Gt => Some(BinOp::CmpGt),
            TokenKind::Ge => Some(BinOp::CmpGe),
            _ => None,
        }
    }

    fn parse_cmp(&mut self, ctx: &mut FnContext) -> (r: Result<(ValueId, Type), ParseError>)
        requires
            ready(*old(self), *old(ctx)),
            open_block(*old(ctx), old(ctx).current_block),
        ensures
            r is Ok ==> progressed(*final(self), *final(ctx), *old(self), *old(ctx)),
            r is Ok ==> open_block(*final(ctx), final(ctx).current_block) && term_ok(*final(ctx), old(ctx).current_block),
            r matches Ok((v, _)) ==> defines(final(ctx).builder.func_view(), v),
            r matches Err(e) ==> !(e is Lex) && from_tokens(old(self).tokens@, e),
            !starts_expr(old(self).cursor_kind()) ==> (r matches Err(e) && no_expr_at(*old(self), e)),
            literal_alone(*old(self), 3) ==> (r matches Ok((v, t)) && literal_made(*old(self), *old(ctx), *final(self), *final(ctx), v, t)),
            unknown_var_here(*old(self), *old(ctx)) ==> (r matches Err(e) && reports_unknown_here(*old(self), e)),
            comparison_pair_at(*old(self)) ==> (r matches Ok((v, t)) && t == Type::Bool
                && comparison_made(*old(self), *old(ctx), *final(self), *final(ctx), v, pair_op(*old(self)))),
        decreases old(self).left(), 6nat,
    {
        let ghost p0 = *self;
        let ghost c0 = *ctx;
        let ghost pair = comparison_pair_at(p0);
        proof {
            if pair {
                assert(literal_alone(p0, 4));
            }
        }
        let (lhs, lty) = self.parse_add(ctx)?;
        let ghost p1 = *self;
        let ghost c1 = *ctx;
        let op = match self.peek_cmp_op() {
            Some(op) => op,
            None => return Ok((lhs, lty)),
        };
        let span = self.peek().span;
        proof { self.lemma_not_at_end(); }
        self.advance();
        if lty != Type::I64 {
            return Err(type_mismatch(Type::I64, lty, span));
        }
        let ghost p2 = *self;
        proof {
            if pair {
                assert(literal_alone(p2, 4));
            }
        }
        let (rhs, rty) = self.parse_add(ctx)?;
        if rty != Type::I64 {
            return Err(type_mismatch(Type::I64, rty, span));
        }
        let ghost p3 = *self;
        let ghost c3 = *ctx;
        let result = ctx.builder.emit(ctx.current_block, Type::Bool, InstKind::Bin(op, lhs, rhs));
        proof {
            if pair {
                lemma_binary_made(p0, c0, p1, c1, p2, c1, p3, c3, *ctx, lhs, rhs, result, op, Type::Bool);
            }
        }
        Ok((result, Type::Bool))
    }

    fn parse_add(&mut self, ctx: &mut FnContext) -> (r: Result<(ValueId, Type), ParseError>)
        requires
            ready(*old(self), *old(ctx)),
            open_block(*old(ctx), old(ctx).current_block),
        ensures
            r is Ok ==> progressed(*final(self), *final(ctx), *old(self), *old(ctx)),
            r is Ok ==> open_block(*final(ctx), final(ctx).current_block) && term_ok(*final(ctx), old(ctx).current_block),
            r matches Ok((v, _)) ==> defines(final(ctx).builder.func_view(), v),
            r matches Err(e) ==> !(e is Lex) && from_tokens(old(self).tokens@, e),
            !starts_expr(old(self).cursor_kind()) ==> (r matches Err(e) && no_expr_at(*old(self), e)),
            r is Ok ==> final(self).code() != 15 && final(self).code() != 16,
            literal_alone(*old(self), 4) ==> (r matches Ok((v, t)) && literal_made(*old(self), *old(ctx), *final(self), *final(ctx), v, t)),
            unknown_var_here(*old(self), *old(ctx)) ==> (r matches Err(e) && reports_unknown_here(*old(self), e)),
            arith_pair_at(*old(self), 4) ==> (r matches Ok((v, t)) && t == Type::I64
                && binary_made(*old(self), *old(ctx), *final(self), *final(ctx), v, arith_pair_op(*old(self)), Type::I64)),
        decreases old(self).left(), 5nat,
    {
        let ghost p0 = *self;
        let ghost c0 = *ctx;
        let ghost pair = arith_pair_at(p0, 4);
        proof {
            if pair {
                assert(literal_alone(p0, 5));
            }
        }
        let (mut lhs, mut lty) = self.parse_mul(ctx)?;
        let ghost mut iters: int = 0;
        loop
            invariant
                pair == arith_pair_at(p0, 4),
                pair ==> 0 <= iters <= 1,
                pair && iters == 0 ==> literal_made(p0, c0, *self, *ctx, lhs, lty),
                pair && iters == 1 ==> lty == Type::I64 && binary_made(p0, c0, *self, *ctx, lhs, arith_pair_op(p0), Type::I64),
                ready(*self, *ctx),
                progressed(*self, *ctx, p0, c0),
                p0 == *old(self),
                !unknown_var_here(*old(self), *old(ctx)),
                starts_expr(p0.cursor_kind()),
                literal_alone(p0, 4) ==> literal_made(p0, c0, *self, *ctx, lhs, lty),
                c0 == *old(ctx),
                defines(ctx.builder.func_view(), lhs),
                open_block(*ctx, ctx.current_block),
                term_ok(*ctx, c0.current_block),
                c0.current_block.0 < ctx.builder.n_blocks(),
            ensures
                self.code() != 15 && self.code() != 16,
            decreases self.left(),
        {
            let ghost p1 = *self;
            let ghost c1 = *ctx;
            let ghost lhs0 = lhs;
            proof {
                if pair && iters == 1 {
                    assert(op_level(self.tokens@[self.pos as int].kind) < 4);
                }
            }
            let op = if self.peek_is(&TokenKind::Plus) {
                BinOp::Add
            } else if self.peek_is(&TokenKind::Minus) {
                BinOp::Sub
            } else {
                break;
            };
            let span = self.peek().span;
            proof { self.lemma_not_at_end(); }
            self.advance();
            if lty != Type::I64 {
                return Err(type_mismatch(Type::I64, lty, span));
            }
            let ghost c_it = *ctx;
            let ghost p2 = *self;
            proof {
                if pair {
                    assert(iters == 0);
                    assert(op == arith_pair_op(p0));
                    assert(literal_alone(p2, 5));
                }
            }
            let (rhs, rty) = self.parse_mul(ctx)?;
            if rty != Type::I64 {
                return Err(type_mismatch(Type::I64, rty, span));
            }
            let ghost c_r = *ctx;
            proof {
                if c_it.current_block != c0.current_block {
                    lemma_term_ok_kept(c_it, c_r, c0.current_block);
                }
            }
            lhs = ctx.builder.emit(ctx.current_block, Type::I64, InstKind::Bin(op, lhs, rhs));
            proof {
                lemma_term_ok_kept(c_r, *ctx, c0.current_block);
            }
            lty = Type::I64;
            proof {
                if pair {
                    lemma_binary_made(p0, c0, p1, c1, p2, c_it, *self, c_r, *ctx, lhs0, rhs, lhs, op, Type::I64);
                }
                iters = iters + 1;
            }
        }
        proof {
            if pair && iters == 0 {
                assert(self.pos == p0.pos + 1);
            }
        }
        Ok((lhs, lty))
    }

    fn parse_mul(&mut self, ctx: &mut FnContext) -> (r: Result<(ValueId, Type), ParseError>)
        requires
            ready(*old(self), *old(ctx)),
            open_block(*old(ctx), old(ctx).current_block),
        ensures
            r is Ok ==> progressed(*final(self), *final(ctx), *old(self), *old(ctx)),
            r is Ok ==> open_block(*final(ctx), final(ctx).current_block) && term_ok(*final(ctx), old(ctx).current_block),
            r matches Ok((v, _)) ==> defines(final(ctx).builder.func_view(), v),
            r matches Err(e) ==> !(e is Lex) && from_tokens(old(self).tokens@, e),
            !starts_expr(old(self).cursor_kind()) ==> (r matches Err(e) && no_expr_at(*old(self), e)),
            r is Ok ==> final(self).code() != 17 && final(self).code() != 18 && final(self).code() != 19,
            literal_alone(*old(self), 5) ==> (r matches Ok((v, t)) && literal_made(*old(self), *old(ctx), *final(self), *final(ctx), v, t)),
            unknown_var_here(*old(self), *old(ctx)) ==> (r matches Err(e) && reports_unknown_here(*old(self), e)),
            arith_pair_at(*old(self), 5) ==> (r matches Ok((v, t)) && t == Type::I64
                && binary_made(*old(self), *old(ctx), *final(self), *final(ctx), v, arith_pair_op(*old(self)), Type::I64)),
        decreases old(self).left(), 4nat,
    {
        let ghost p0 = *self;
        let ghost c0 = *ctx;
        let ghost pair = arith_pair_at(p0, 5);
        proof {
            if pair {
                assert(literal_alone(p0, 6));
            }
        }
        let (mut lhs, mut lty) = self.parse_unary(ctx)?;
        let ghost mut iters: int = 0;
        loop
            invariant
                pair == arith_pair_at(p0, 5),
                pair ==> 0 <= iters <= 1,
                pair && iters == 0 ==> literal_made(p0, c0, *self, *ctx, lhs, lty),
                pair && iters == 1 ==> lty == Type::I64 && binary_made(p0, c0, *self, *ctx, lhs, arith_pair_op(p0), Type::I64),
                ready(*self, *ctx),
                progressed(*self, *ctx, p0, c0),
                p0 == *old(self),
                !unknown_var_here(*old(self), *old(ctx)),
                starts_expr(p0.cursor_kind()),
                literal_alone(p0, 5) ==> literal_made(p0, c0, *self, *ctx, lhs, lty),
                c0 == *old(ctx),
                defines(ctx.builder.func_view(), lhs),
                open_block(*ctx, ctx.current_block),
                term_ok(*ctx, c0.current_block),
                c0.current_block.0 < ctx.builder.n_blocks(),
            ensures
                self.code() != 17 && self.code() != 18 && self.code() != 19,
            decreases self.left(),
        {
            let ghost p1 = *self;
            let ghost c1 = *ctx;
            let ghost lhs0 = lhs;
            proof {
                if pair && iters == 1 {
                    assert(op_level(self.tokens@[self.pos as int].kind) < 5);
                }
            }
            let op = if self.peek_is(&TokenKind::Star) {
                BinOp::Mul
            } else if self.peek_is(&TokenKind::Slash) {
                BinOp::Div
            } else if self.peek_is(&TokenKind::Percent) {
                BinOp::Mod
            } else {
                break;
            };
            let span = self.peek().span;
            proof { self.lemma_not_at_end(); }
            self.advance();
            if lty != Type::I64 {
                return Err(type_mismatch(Type::I64, lty, span));
            }
            let ghost c_it = *ctx;
            let ghost p2 = *self;
            proof {
                if pair {
                    assert(iters == 0);
                    assert(op == arith_pair_op(p0));
                    assert(literal_alone(p2, 6));
                }
            }
            let (rhs, rty) = self.parse_unary(ctx)?;
            if rty != Type::I64 {
                return Err(type_mismatch(Type::I64, rty, span));
            }
            let ghost c_r = *ctx;
            proof {
                if c_it.current_block != c0.current_block {
                    lemma_term_ok_kept(c_it, c_r, c0.current_block);
                }
            }
            lhs = ctx.builder.emit(ctx.current_block, Type::I64, InstKind::Bin(op, lhs, rhs));
            proof {
                lemma_term_ok_kept(c_r, *ctx, c0.current_block);
            }
            lty = Type::I64;
            proof {
                if pair {
                    lemma_binary_made(p0, c0, p1, c1, p2, c_it, *self, c_r, *ctx, lhs0, rhs, lhs, op, Type::I64);
                }
                iters = iters + 1;
            }
        }
        proof {
            if pair && iters == 0 {
                assert(self.pos == p0.pos + 1);
            }
        }
        Ok((lhs, lty))
    }

    fn parse_unary(&mut self, ctx: &mut FnContext) -> (r: Result<(ValueId, Type), ParseError>)
        requires
            ready(*old(self), *old(ctx)),
            open_block(*old(ctx), old(ctx).current_block),
        ensures
            r is Ok ==> progressed(*final(self), *final(ctx), *old(self), *old(ctx)),
            r is Ok ==> open_block(*final(ctx), final(ctx).current_block) && term_ok(*final(ctx), old(ctx).current_block),
            r matches Ok((v, _)) ==> defines(final(ctx).builder.func_view(), v),
            r matches Err(e) ==> !(e is Lex) && from_tokens(old(self).tokens@, e),
            !starts_expr(old(self).cursor_kind()) ==> (r matches Err(e) && no_expr_at(*old(self), e)),
            literal_alone(*old(self), 6) ==> (r matches Ok((v, t)) && literal_made(*old(self), *old(ctx), *final(self), *final(ctx), v, t)),
            unknown_var_here(*old(self), *old(ctx)) ==> (r matches Err(e) && reports_unknown_here(*old(self), e)),
        decreases old(self).left(), 3nat,
    {
        if self.peek_is(&TokenKind::Minus) {
            let span = self.peek().span;
            proof { self.lemma_not_at_end(); }
            self.advance();
            let (v, ty) = self.parse_unary(ctx)?;
            if ty != Type::I64 {
                return Err(type_mismatch(Type::I64, ty, span));
            }
            let result = ctx.builder.emit(ctx.current_block, Type::I64, InstKind::Un(UnOp::Neg, v));
            Ok((result, Type::I64))
        } else {
            self.parse_primary(ctx)
        }
    }

    #[verifier::spinoff_prover]
    fn parse_primary(&mut self, ctx: &mut FnContext) -> (r: Result<(ValueId, Type), ParseError>)
        requires
            ready(*old(self), *old(ctx)),
            open_block(*old(ctx), old(ctx).current_block),
        ensures
            r is Ok ==> progressed(*final(self), *final(ctx), *old(self), *old(ctx)),
            r is Ok ==> open_block(*final(ctx), final(ctx).current_block) && term_ok(*final(ctx), old(ctx).current_block),
            r matches Ok((v, _)) ==> defines(final(ctx).builder.func_view(), v),
            r matches Err(e) ==> !(e is Lex) && from_tokens(old(self).tokens@, e),
            !starts_expr(old(self).cursor_kind()) ==> (r matches Err(e) && no_expr_at(*old(self), e)),
            match old(self).cursor_kind() {
                TokenKind::Int(n) => r matches Ok((v, t)) && t == Type::I64
                    && final(ctx).builder.func_view().blocks@[old(ctx).current_block.0 as int].instructions@
                        == old(ctx).builder.func_view().blocks@[old(ctx).current_block.0 as int].instructions@.push(
                        Instruction { id: v, ty: Type::I64, kind: InstKind::ConstI64(n) })
                    && final(ctx).current_block == old(ctx).current_block && final(self).pos == old(self).pos + 1,
                TokenKind::True | TokenKind::False => r matches Ok((v, t)) && t == Type::Bool
                    && final(ctx).builder.func_view().blocks@[old(ctx).current_block.0 as int].instructions@
                        == old(ctx).builder.func_view().blocks@[old(ctx).current_block.0 as int].instructions@.push(
                        Instruction { id: v, ty: Type::Bool, kind: InstKind::ConstBool(old(self).code() == 2) })
                    && final(ctx).current_block == old(ctx).current_block && final(self).pos == old(self).pos + 1,
                TokenKind::Ident(name) => old(self).pos + 1 < old(self).tokens@.len()
                    && kind_code(old(self).tokens@[old(self).pos + 1].kind) != 27 ==> match scopes_find(old(ctx).scopes@, name@) {
                        None => r matches Err(ParseError::UndefinedVariable { name: x, span })
                            && x@ == name@ && span == old(self).tokens@[old(self).pos as int].span,
                        Some((t, key)) => r matches Ok((v, t2)) && t2 == t
                            && final(ctx).builder.value_of(old(ctx).current_block.0 as int, key) == Some(v)
                            && final(ctx).current_block == old(ctx).current_block && final(self).pos == old(self).pos + 1,
                    },
                _ => true,
            },
            literal_alone(*old(self), 6) ==> (r matches Ok((v, t)) && literal_made(*old(self), *old(ctx), *final(self), *final(ctx), v, t)),
            paren_literal_at(*old(self)) ==> (r matches Ok((v, t)) && paren_literal_made(*old(self), *old(ctx), *final(self), *final(ctx), v, t)),
            forall|n: int| old(self).code() == 0 && #[trigger] literal_args_at(old(self).tokens@, old(self).pos + 1, n) ==> (r matches Ok((v, _))
                ==> final(ctx).current_block == old(ctx).current_block
                && call_of_literals(old(self).tokens@, old(self).pos + 1, *old(ctx), *final(ctx), n, v)),
            old(self).code() == 0 && old(self).pos + 1 < old(self).tokens@.len() && kind_code(old(self).tokens@[old(self).pos + 1].kind) == 27
                ==> (r matches Ok((v, t)) ==> (old(self).cursor_kind() matches TokenKind::Ident(name)
                && exists|j: int| 0 <= j < old(self).sigs@.len() && (#[trigger] old(self).sigs@[j]).0@ == name@
                && call_emitted(*final(ctx), v, t, name@, old(self).sigs@[j].1))),
            unknown_var_here(*old(self), *old(ctx)) ==> (r matches Err(e) && reports_unknown_here(*old(self), e)),
        decreases old(self).left(), 2nat,
    {
        let span = self.peek().span;
        let code = self.tokens[self.pos].kind.code();
        if code == 1 || code == 2 || code == 3 || code == 27 || code == 0 {
            proof { self.lemma_not_at_end(); }
        }
        match &self.tokens[self.pos].kind {
            TokenKind::Int(n) => {
                let n = *n;
                self.advance();
                Ok((ctx.builder.emit(ctx.current_block, Type::I64, InstKind::ConstI64(n)), Type::I64))
            },
            TokenKind::True => {
                self.advance();
                Ok((ctx.builder.emit(ctx.current_block, Type::Bool, InstKind::ConstBool(true)), Type::Bool))
            },
            TokenKind::False => {
                self.advance();
                Ok((ctx.builder.emit(ctx.current_block, Type::Bool, InstKind::ConstBool(false)), Type::Bool))
            },
            TokenKind::LParen => {
                let ghost p0 = *self;
                let ghost c0 = *ctx;
                self.advance();
                proof {
                    if paren_literal_at(p0) {
                        assert(literal_alone(*self, 1));
                    }
                }
                let ghost p1 = *self;
                let e = self.parse_expr(ctx)?;
                let ghost p2 = *self;
                self.expect(&TokenKind::RParen)?;
                proof {
                    if paren_literal_at(p0) {
                        assert(literal_made(p1, c0, p2, *ctx, e.0, e.1));
                        assert(paren_literal_made(p0, c0, *self, *ctx, e.0, e.1));
                    }
                }
                Ok(e)
            },
            TokenKind::Ident(name) => {
                let name = name.clone();
                self.advance();
                if self.peek_is(&TokenKind::LParen) {
                    self.parse_call(ctx, name, span)
                } else {
                    match ctx.lookup_var(name.as_str()) {
                        None => Err(ParseError::UndefinedVariable { name, span }),
                        Some((ty, key)) => {
                            let v = ctx.builder.read_variable(key.as_str(), ctx.current_block, ty);
                            Ok((v, ty))
                        },
                    }
                }
            },
            _ => Err(self.unexpected("an expression".to_owned())),
        }
    }

    fn parse_call(&mut self, ctx: &mut FnContext, name: String, span: Span) -> (r: Result<(ValueId, Type), ParseError>)
        requires
            ready(*old(self), *old(ctx)),
            open_block(*old(ctx), old(ctx).current_block),
            span_of_token(old(self).tokens@, span),
        ensures
            r is Ok ==> progressed(*final(self), *final(ctx), *old(self), *old(ctx)),
            r is Ok ==> open_block(*final(ctx), final(ctx).current_block) && term_ok(*final(ctx), old(ctx).current_block),
            r matches Ok((v, _)) ==> defines(final(ctx).builder.func_view(), v),
            r matches Err(e) ==> !(e is Lex) && from_tokens(old(self).tokens@, e),
            r matches Ok((v, t)) ==> exists|j: int| 0 <= j < old(self).sigs@.len() && (#[trigger] old(self).sigs@[j]).0@ == name@
                && call_emitted(*final(ctx), v, t, name@, old(self).sigs@[j].1),
            forall|n: int| #[trigger] literal_args_at(old(self).tokens@, old(self).pos as int, n) ==> (r matches Ok((v, _))
                ==> final(ctx).current_block == old(ctx).current_block
                && call_of_literals(old(self).tokens@, old(self).pos as int, *old(ctx), *final(ctx), n, v)),
        decreases old(self).left(), 1nat,
    {
        let ghost p0 = *self;
        let ghost c0 = *ctx;
        let ghost lits = exists|n: int| literal_args_at(p0.tokens@, p0.pos as int, n);
        let ghost n = choose|n: int| literal_args_at(p0.tokens@, p0.pos as int, n);
        let ghost cur = c0.current_block.0 as int;
        let ghost insts0 = c0.builder.func_view().blocks@[cur].instructions@;
        self.expect(&TokenKind::LParen)?;
        let mut args: Vec<ValueId> = Vec::new();
        let mut arg_types: Vec<Type> = Vec::new();
        proof {
            if lits {
                assert(literal_args_at(p0.tokens@, p0.pos as int, n));
                let c = kind_code(p0.tokens@[p0.pos + 1 + 2 * 0].kind);
                assert(c == 1 || c == 2 || c == 3);
            }
        }
        if !self.peek_is(&TokenKind::RParen) {
            loop
                invariant_except_break
                    lits ==> self.pos == p0.pos + 1 + 2 * args@.len() && args@.len() < n,
                invariant
                    lits ==> literal_args_at(p0.tokens@, p0.pos as int, n),
                    lits ==> ctx.current_block == c0.current_block,
                    lits ==> ctx.builder.func_view().blocks@[cur].instructions@ == insts0 + literal_arg_insts(p0.tokens@, p0.pos as int, args@),
                    cur == c0.current_block.0 as int,
                    insts0 == c0.builder.func_view().blocks@[cur].instructions@,
                    ready(*self, *ctx),
                    progressed(*self, *ctx, p0, c0),
                    p0 == *old(self),
                starts_expr(p0.cursor_kind()),
                    c0 == *old(ctx),
                    args@.len() == arg_types@.len(),
                    forall|k: int| 0 <= k < args@.len() ==> defines(ctx.builder.func_view(), #[trigger] args@[k]),
                    open_block(*ctx, ctx.current_block),
                    term_ok(*ctx, c0.current_block),
                    c0.current_block.0 < ctx.builder.n_blocks(),
                ensures
                    lits ==> args@.len() == n && self.pos == p0.pos + 2 * n,
                decreases self.left(),
            {
                let ghost c_it = *ctx;
                let ghost p_it = *self;
                let ghost args0 = args@;
                proof {
                    if lits {
                        let j = args@.len() as int;
                        let c = kind_code(p0.tokens@[p0.pos + 1 + 2 * j].kind);
                        assert(c == 1 || c == 2 || c == 3);
                        if j < n - 1 {
                            assert(kind_code(p0.tokens@[p0.pos + 2 + 2 * j].kind) == 31);
                        }
                        assert(literal_alone(*self, 1));
                    }
                }
                let (v, ty) = self.parse_expr(ctx)?;
                proof {
                    if c_it.current_block != c0.current_block {
                        lemma_term_ok_kept(c_it, *ctx, c0.current_block);
                    }
                }
                args.push(v);
                arg_types.push(ty);
                proof {
                    if lits {
                        assert(literal_made(p_it, c_it, *self, *ctx, v, ty));
                        assert(literal_arg_insts(p0.tokens@, p0.pos as int, args@)
                            =~= literal_arg_insts(p0.tokens@, p0.pos as int, args0).push(literal_inst(p_it.cursor_kind(), v)));
                        assert(ctx.builder.func_view().blocks@[cur].instructions@
                            =~= insts0 + literal_arg_insts(p0.tokens@, p0.pos as int, args@));
                    }
                }
                if self.peek_is(&TokenKind::Comma) {
                    proof { self.lemma_not_at_end(); }
                    self.advance();
                } else {
                    break;
                }
            }
        }
        self.expect(&TokenKind::RParen)?;
        let idx = match find_sig(&self.sigs, name.as_str()) {
            Some(i) => i,
            None => return Err(ParseError::UndefinedFunction { name, span }),
        };
        let n_params = self.sigs[idx].1.params.len();
        if n_params != args.len() {
            return Err(ParseError::ArgCountMismatch { func: name, expected: n_params, given: args.len(), span });
        }
        let mut k: usize = 0;
        while k < arg_types.len()
            invariant
                k <= arg_types@.len(),
                idx < self.sigs@.len(),
                self.sigs@[idx as int].1.params@.len() == arg_types@.len(),
                self.tokens@ == old(self).tokens@,
                span_of_token(old(self).tokens@, span),
            decreases arg_types.len() - k,
        {
            let expected = self.sigs[idx].1.params[k];
            if arg_types[k] != expected {
                return Err(type_mismatch(expected, arg_types[k], span));
            }
            k += 1;
        }
        let ret_ty = match self.sigs[idx].1.ret_ty {
            Some(t) => t,
            None => Type::I64,
        };
        let ghost c_r = *ctx;
        let result = ctx.builder.emit(ctx.current_block, ret_ty, InstKind::Call { func: name, args });
        proof {
            lemma_term_ok_kept(c_r, *ctx, c0.current_block);
            assert(self.sigs@ == old(self).sigs@);
            assert(call_emitted(*ctx, result, ret_ty, name@, old(self).sigs@[idx as int].1));
            assert forall|m: int| #[trigger] literal_args_at(old(self).tokens@, old(self).pos as int, m) implies
                ctx.current_block == old(ctx).current_block
                && call_of_literals(old(self).tokens@, old(self).pos as int, *old(ctx), *ctx, m, result) by {
                assert(lits);
                if m != n {
                    let lo = if m < n { m } else { n };
                    assert(kind_code(p0.tokens@[p0.pos + 2 * lo].kind) == 28);
                    assert(kind_code(p0.tokens@[p0.pos + 2 + 2 * (lo - 1)].kind) == 31);
                }
                let vs = args@;
                let insts1 = ctx.builder.func_view().blocks@[cur].instructions@;
                assert(insts1.subrange(0, insts0.len() + n) =~= insts0 + literal_arg_insts(p0.tokens@, p0.pos as int, vs));
            }
        }
        Ok((result, ret_ty))
    }
}


/// What the parser promises of each function it returns: blocks numbered by
/// position from the entry block 0, each ending in a terminator, every jump
/// or branch to one of them, no logical `and`/`or` instruction (those become
/// branches and phis),
/// distinct parameter names, a declared return type, no phi naming a block
/// twice, a value on every return, every value an instruction, phi entry or
/// terminator reads a parameter or the value of one of the function's
/// instructions, and, as long as parameters and instructions together
/// number at most `u32::MAX`, each value defined once, no instruction
/// defining a parameter, and every phi with one entry per predecessor of
/// its block, each naming one of them.
pub open spec fn parsed_shape(f: Function) -> bool {
    &&& 1 <= f.blocks@.len() <= u32::MAX
    &&& forall|i: int| 0 <= i < f.blocks@.len() ==> (#[trigger] f.blocks@[i]).id == BlockId(i as u32)
    &&& forall|b: int, k: int| 0 <= b < f.blocks@.len() && (#[trigger] f.blocks@[b]).terminator is Some
        && 0 <= k < crate::block::term_successors(f.blocks@[b].terminator->0).len()
        ==> (#[trigger] crate::block::term_successors(f.blocks@[b].terminator->0)[k]).0 < f.blocks@.len()
    &&& f.entry == BlockId(0)
    &&& forall|b: int| 0 <= b < f.blocks@.len() ==> (#[trigger] f.blocks@[b]).terminator is Some
    &&& logic_free(f)
    &&& distinct_names(f.params@)
    &&& f.ret_ty is Some
    &&& forall|b: int, q: int| 0 <= b < f.blocks@.len() && 0 <= q < f.blocks@[b].instructions@.len()
        ==> crate::ssa_builder::phi_names_distinct(#[trigger] f.blocks@[b].instructions@[q])
    &&& crate::ssa_builder::reads_all_defined(f)
    &&& forall|b: int| 0 <= b < f.blocks@.len() ==> crate::ssa_builder::returns_fit(f.ret_ty, (#[trigger] f.blocks@[b]).terminator)
    &&& f.params@.len() + crate::ssa_builder::inst_count(f.blocks@) <= u32::MAX ==> crate::ssa_builder::values_unique(f)
    &&& f.params@.len() + crate::ssa_builder::inst_count(f.blocks@) <= u32::MAX ==> forall|b: int, q: int|
        0 <= b < f.blocks@.len() && 0 <= q < f.blocks@[b].instructions@.len()
        ==> crate::ssa_builder::phi_matches_preds(f, b, #[trigger] f.blocks@[b].instructions@[q])
}

/// The shape a `while` loop leaves behind in `c`, its header being block
/// `h`: the block where the condition ends, the header or one after it,
/// branches to the loop body and to the exit, the two blocks made last
/// before the body, and the exit is where parsing goes on.
spec fn loop_shape(c: FnContext, h: int) -> bool {
    let exit = c.current_block.0 as int;
    exists|cb: int| h <= cb < exit - 1 && branches_to(#[trigger] c.builder.func_view().blocks@[cb], exit - 1, exit)
}

/// The shape an `if` leaves behind in `c`, started in block `start` when
/// the function had `n0` blocks: the block where the condition ends, the
/// start block or a later one, branches to two blocks made after it, one
/// after the other, the `then` arm first.
spec fn if_shape(c: FnContext, n0: int, start: int) -> bool {
    exists|cb: int, t: int, e: int| (cb == start || n0 <= cb) && cb < t && n0 <= t && e == t + 1
        && e < c.builder.n_blocks() && #[trigger] branches_to(c.builder.func_view().blocks@[cb], t, e)
}

/// Block `blk` ends in a branch whose arms are blocks `t` and `e`.
spec fn branches_to(blk: BasicBlock, t: int, e: int) -> bool {
    blk.terminator matches Some(Terminator::Branch { then_block, else_block, .. })
        && then_block.0 == t && else_block.0 == e
}

/// The outermost scope of a function: each parameter, standing for the SSA
/// variable of its own name.
fn param_scope(params: &Vec<(String, Type)>) -> (r: Vec<(String, Type, String)>)
    ensures
        r@.len() == params@.len(),
        forall|i: int| 0 <= i < params@.len() ==> (#[trigger] r@[i]).0 == params@[i].0 && r@[i].1 == params@[i].1
            && r@[i].2 == params@[i].0,
{
    let mut r: Vec<(String, Type, String)> = Vec::new();
    let mut i: usize = 0;
    while i < params.len()
        invariant
            i <= params@.len(),
            r@.len() == i,
            forall|j: int| 0 <= j < i ==> (#[trigger] r@[j]).0 == params@[j].0 && r@[j].1 == params@[j].1
                && r@[j].2 == params@[j].0,
        decreases params.len() - i,
    {
        r.push((params[i].0.clone(), params[i].1, params[i].0.clone()));
        i += 1;
    }
    r
}

impl Parser {
    // ---- Statements ----

    fn parse_block_body(&mut self, ctx: &mut FnContext) -> (r: Result<(), ParseError>)
        requires
            ready(*old(self), *old(ctx)),
        ensures
            r is Ok ==> progressed(*final(self), *final(ctx), *old(self), *old(ctx)),
            r matches Err(e) ==> !(e is Lex) && from_tokens(old(self).tokens@, e),
            r is Ok ==> final(ctx).scopes@ == old(ctx).scopes@,
            block_return_literal_at(*old(self), *old(ctx)) ==> (r is Ok && final(self).pos == old(self).pos + 5
                && returns_literal(*old(self), *old(ctx), *final(ctx), old(self).pos + 1)),
            block_return_unknown_at(*old(self), *old(ctx)) ==> (r matches Err(e)
                && reports_unknown(old(self).tokens@, old(self).pos + 2, e)),
            block_return_mistyped_at(*old(self), *old(ctx)) ==> (r matches Err(e)
                && reports_mistyped(old(self).tokens@, old(self).pos + 1, *old(ctx), e)),
            block_return_then_more_at(*old(self), *old(ctx)) ==> r == Err::<(), ParseError>(ParseError::UnreachableCode {
                span: old(self).tokens@[old(self).pos + 4].span }),
            block_return_no_expr_at(*old(self), *old(ctx)) ==> (r matches Err(e)
                && no_expr_at_token(old(self).tokens@, old(self).pos + 2, e)),
        decreases old(self).left(), 30nat,
    {
        let ghost blk = block_return_literal_head(*self, *ctx);
        let ghost unk = block_return_unknown_at(*self, *ctx);
        let ghost mis = block_return_mistyped_at(*self, *ctx);
        let ghost nox = block_return_no_expr_at(*self, *ctx);
        let ghost mut iters: int = 0;
        self.expect(&TokenKind::LBrace)?;
        ctx.scopes.push(Vec::new());
        assert(ctx.scopes@.drop_last() =~= old(ctx).scopes@);
        let ghost p1 = *self;
        let ghost c1 = *ctx;
        proof {
            if unk {
                let name = old(self).tokens@[old(self).pos + 2].kind->Ident_0;
                assert(ctx.scopes@.last()@.len() == 0);
                assert(scopes_find(ctx.scopes@, name@) == scopes_find(old(ctx).scopes@, name@));
                assert(return_unknown_at(p1.tokens@, p1.pos as int, c1));
            }
        }
        while !self.peek_is(&TokenKind::RBrace)
            invariant
                ready(*self, *ctx),
                step(*self, *ctx, p1, c1),
                p1.pos > old(self).pos,
                p1.tokens@ == old(self).tokens@,
                p1.sigs@ == old(self).sigs@,
                budget(p1, c1) <= budget(*old(self), *old(ctx)),
                grown(c1, *old(ctx)) || c1.scopes@.len() == old(ctx).scopes@.len() + 1,
                c1.builder == old(ctx).builder,
                c1.current_block == old(ctx).current_block,
                c1.ret_ty == old(ctx).ret_ty,
                c1.scopes@.len() == old(ctx).scopes@.len() + 1,
                blk == block_return_literal_head(*old(self), *old(ctx)),
                unk == block_return_unknown_at(*old(self), *old(ctx)),
                unk ==> *self == p1 && *ctx == c1 && return_unknown_at(p1.tokens@, p1.pos as int, c1),
                mis == block_return_mistyped_at(*old(self), *old(ctx)),
                nox == block_return_no_expr_at(*old(self), *old(ctx)),
                nox ==> *self == p1 && *ctx == c1 && return_no_expr_at(p1.tokens@, p1.pos as int, c1),
                mis ==> *self == p1 && *ctx == c1 && return_mistyped_at(p1.tokens@, p1.pos as int, c1)
                    && c1.ret_ty == old(ctx).ret_ty,
                p1.pos == old(self).pos + 1,
                blk ==> 0 <= iters <= 1,
                blk && iters == 0 ==> *self == p1 && *ctx == c1,
                blk && iters == 1 ==> self.pos == old(self).pos + 4 && returns_literal(*old(self), *old(ctx), *ctx, old(self).pos + 1),
            decreases self.left(),
        {
            let ghost p2 = *self;
            let ghost c2 = *ctx;
            proof {
                if blk && iters == 0 {
                    assert(return_literal_at(p2, c2, p2.pos as int));
                }
                if blk && iters == 1 {
                    let v = choose|v: ValueId| #[trigger] literal_returned(*old(self), *old(ctx), *ctx, old(self).pos + 1, v);
                    assert(literal_returned(*old(self), *old(ctx), *ctx, old(self).pos + 1, v));
                }
            }
            if ctx.builder.is_terminated(ctx.current_block) {
                return Err(ParseError::UnreachableCode { span: self.peek().span });
            }
            self.parse_statement(ctx)?;
            proof {
                if blk {
                    assert(iters == 0);
                    let v = choose|v: ValueId| #[trigger] literal_returned(p2, c2, *ctx, p2.pos as int, v);
                    assert(literal_returned(p2, c2, *ctx, p2.pos as int, v));
                    assert(literal_returned(*old(self), *old(ctx), *ctx, old(self).pos + 1, v));
                }
                iters = iters + 1;
            }
        }
        let ghost c3 = *ctx;
        self.expect(&TokenKind::RBrace)?;
        ctx.scopes.pop();
        assert(ctx.scopes@ =~= old(ctx).scopes@);
        proof {
            if blk {
                let v = choose|v: ValueId| #[trigger] literal_returned(*old(self), *old(ctx), c3, old(self).pos + 1, v);
                assert(literal_returned(*old(self), *old(ctx), c3, old(self).pos + 1, v));
                assert(literal_returned(*old(self), *old(ctx), *ctx, old(self).pos + 1, v));
            }
        }
        Ok(())
    }

    /// True if the upcoming tokens are an identifier and `=`: an assignment,
    /// as opposed to a call or a bare variable.
    fn peek_is_assignment(&self) -> (r: bool)
        requires
            self.wf(),
        ensures
            r == (self.code() == 0 && self.pos + 1 < self.tokens@.len() && kind_code(self.tokens@[self.pos + 1].kind) == 26),
    {
        self.peek_is(&TokenKind::Ident(String::new())) && self.pos + 1 < self.tokens.len()
            && self.tokens[self.pos + 1].kind.code() == 26
    }

    fn parse_statement(&mut self, ctx: &mut FnContext) -> (r: Result<(), ParseError>)
        requires
            ready(*old(self), *old(ctx)),
            open_block(*old(ctx), old(ctx).current_block),
        ensures
            r is Ok ==> progressed(*final(self), *final(ctx), *old(self), *old(ctx)),
            r matches Err(e) ==> !(e is Lex) && from_tokens(old(self).tokens@, e),
            return_literal_at(*old(self), *old(ctx), old(self).pos as int) ==> (r is Ok && final(self).pos == old(self).pos + 3
                && returns_literal(*old(self), *old(ctx), *final(ctx), old(self).pos as int)),
            return_unknown_at(old(self).tokens@, old(self).pos as int, *old(ctx)) ==> (r matches Err(e)
                && reports_unknown(old(self).tokens@, old(self).pos + 1, e)),
            return_mistyped_at(old(self).tokens@, old(self).pos as int, *old(ctx)) ==> (r matches Err(e)
                && reports_mistyped(old(self).tokens@, old(self).pos as int, *old(ctx), e)),
            return_no_expr_at(old(self).tokens@, old(self).pos as int, *old(ctx)) ==> (r matches Err(e)
                && no_expr_at_token(old(self).tokens@, old(self).pos + 1, e)),
        decreases old(self).left(), 20nat,
    {
        if self.peek_is(&TokenKind::Let) {
            self.parse_let(ctx)
        } else if self.peek_is(&TokenKind::If) {
            self.parse_if(ctx)
        } else if self.peek_is(&TokenKind::While) {
            self.parse_while(ctx)
        } else if self.peek_is(&TokenKind::Return) {
            self.parse_return(ctx)
        } else if self.peek_is_assignment() {
            self.parse_assign(ctx)
        } else {
            let _ = self.parse_expr(ctx)?;
            self.expect(&TokenKind::Semicolon)?;
            Ok(())
        }
    }

    fn parse_let(&mut self, ctx: &mut FnContext) -> (r: Result<(), ParseError>)
        requires
            ready(*old(self), *old(ctx)),
            open_block(*old(ctx), old(ctx).current_block),
        ensures
            r is Ok ==> progressed(*final(self), *final(ctx), *old(self), *old(ctx)),
            r matches Err(e) ==> !(e is Lex) && from_tokens(old(self).tokens@, e),
            r is Ok ==> (old(self).tokens@[old(self).pos + 1].kind@ matches LexedKind::Ident(name)
                && scopes_find(final(ctx).scopes@, name) matches Some((_, key))
                && final(ctx).builder.value_of(final(ctx).current_block.0 as int, key) is Some),
        decreases old(self).left(), 15nat,
    {
        let let_pos = self.pos;
        self.expect(&TokenKind::Let)?;
        let name = self.expect_ident()?;
        self.expect(&TokenKind::Eq)?;
        let (value, ty) = self.parse_expr(ctx)?;
        self.expect(&TokenKind::Semicolon)?;
        let mut key = name.clone();
        key.append("#");
        append_digits(&mut key, let_pos as u64);
        let last = ctx.scopes.len() - 1;
        let ghost sc = ctx.scopes@;
        ctx.scopes[last].push((name, ty, key.clone()));
        assert(ctx.scopes@.drop_last() =~= sc.drop_last());
        ctx.builder.write_variable(key.as_str(), ctx.current_block, value);
        Ok(())
    }

    fn parse_assign(&mut self, ctx: &mut FnContext) -> (r: Result<(), ParseError>)
        requires
            ready(*old(self), *old(ctx)),
            open_block(*old(ctx), old(ctx).current_block),
        ensures
            r is Ok ==> progressed(*final(self), *final(ctx), *old(self), *old(ctx)),
            r matches Err(e) ==> !(e is Lex) && from_tokens(old(self).tokens@, e),
            r is Ok ==> (old(self).tokens@[old(self).pos as int].kind@ matches LexedKind::Ident(name)
                && scopes_find(final(ctx).scopes@, name) matches Some((_, key))
                && final(ctx).builder.value_of(final(ctx).current_block.0 as int, key) is Some),
        decreases old(self).left(), 15nat,
    {
        let name_span = self.peek().span;
        let name = self.expect_ident()?;
        self.expect(&TokenKind::Eq)?;
        let (value, actual) = self.parse_expr(ctx)?;
        self.expect(&TokenKind::Semicolon)?;
        let (expected, key) = match ctx.lookup_var(name.as_str()) {
            Some(found) => found,
            None => return Err(ParseError::UndefinedVariable { name, span: name_span }),
        };
        if expected != actual {
            return Err(type_mismatch(expected, actual, name_span));
        }
        ctx.builder.write_variable(key.as_str(), ctx.current_block, value);
        Ok(())
    }

    fn parse_return(&mut self, ctx: &mut FnContext) -> (r: Result<(), ParseError>)
        requires
            ready(*old(self), *old(ctx)),
            open_block(*old(ctx), old(ctx).current_block),
        ensures
            r is Ok ==> progressed(*final(self), *final(ctx), *old(self), *old(ctx)),
            r matches Err(e) ==> !(e is Lex) && from_tokens(old(self).tokens@, e),
            old(ctx).ret_ty is Some && old(self).pos + 1 < old(self).tokens@.len() && old(self).code() == 9
                && !starts_expr(old(self).tokens@[old(self).pos + 1].kind) ==> (r matches Err(e) && keyword_then_no_expr(*old(self), 9, e)),
            r is Ok ==> final(ctx).builder.func_view().blocks@[old(ctx).current_block.0 as int].terminator is Some,
            return_literal_at(*old(self), *old(ctx), old(self).pos as int) ==> (r is Ok && final(self).pos == old(self).pos + 3
                && returns_literal(*old(self), *old(ctx), *final(ctx), old(self).pos as int)),
            return_unknown_at(old(self).tokens@, old(self).pos as int, *old(ctx)) ==> (r matches Err(e)
                && reports_unknown(old(self).tokens@, old(self).pos + 1, e)),
            return_mistyped_at(old(self).tokens@, old(self).pos as int, *old(ctx)) ==> (r matches Err(e)
                && reports_mistyped(old(self).tokens@, old(self).pos as int, *old(ctx), e)),
        decreases old(self).left(), 15nat,
    {
        let ghost p0 = *self;
        let ghost c0 = *ctx;
        let span = self.peek().span;
        self.expect(&TokenKind::Return)?;
        proof {
            if return_literal_at(p0, c0, p0.pos as int) || return_mistyped_at(p0.tokens@, p0.pos as int, c0) {
                assert(literal_alone(*self, 1));
            }
        }
        match ctx.ret_ty {
            Some(expected) => {
                let (value, actual) = self.parse_expr(ctx)?;
                if actual != expected {
                    return Err(type_mismatch(expected, actual, span));
                }
                self.expect(&TokenKind::Semicolon)?;
                let ghost c1 = *ctx;
                ctx.builder.terminate(ctx.current_block, Terminator::Return(Some(value)));
                proof {
                    if return_literal_at(p0, c0, p0.pos as int) {
                        let cur = c0.current_block.0 as int;
                        assert(c1.builder.func_view().blocks@[cur].instructions == ctx.builder.func_view().blocks@[cur].instructions);
                        assert(literal_returned(p0, c0, *ctx, p0.pos as int, value));
                    }
                }
            },
            None => {
                self.expect(&TokenKind::Semicolon)?;
                ctx.builder.terminate(ctx.current_block, Terminator::Return(None));
            },
        }
        Ok(())
    }

    #[verifier::spinoff_prover]
    #[verifier::rlimit(40)]
    fn parse_if(&mut self, ctx: &mut FnContext) -> (r: Result<(), ParseError>)
        requires
            ready(*old(self), *old(ctx)),
            open_block(*old(ctx), old(ctx).current_block),
        ensures
            r is Ok ==> progressed(*final(self), *final(ctx), *old(self), *old(ctx)),
            r matches Err(e) ==> !(e is Lex) && from_tokens(old(self).tokens@, e),
            old(self).code() != 6 ==> (r matches Err(e) && unexpected_at(*old(self), e, kind_text(TokenKind::If))),
            old(self).pos + 1 < old(self).tokens@.len() && old(self).code() == 6 && !starts_expr(old(self).tokens@[old(self).pos + 1].kind)
                ==> (r matches Err(e) && keyword_then_no_expr(*old(self), 6, e)),
            r is Ok ==> final(ctx).builder.func_view().blocks@[old(ctx).current_block.0 as int].terminator is Some,
            r is Ok ==> if_shape(*final(ctx), old(ctx).builder.n_blocks() as int, old(ctx).current_block.0 as int),
            if_return_literals_at(*old(self), *old(ctx)) ==> (r is Ok && final(self).pos == old(self).pos + 13
                && if_returned(*old(self), *old(ctx), *final(ctx))),
        decreases old(self).left(), 15nat,
    {
        let ghost p0 = *self;
        let ghost c0 = *ctx;
        let ghost lits = if_return_literals_at(p0, c0);
        let span = self.peek().span;
        self.expect(&TokenKind::If)?;
        proof {
            if lits {
                assert(literal_alone(*self, 1));
            }
        }
        let (cond, cond_ty) = self.parse_expr(ctx)?;
        let ghost c_1 = *ctx;
        if cond_ty != Type::Bool {
            return Err(type_mismatch(Type::Bool, cond_ty, span));
        }
        let cond_end = ctx.current_block;
        let then_block = ctx.builder.new_block();
        let else_block = ctx.builder.new_block();
        let ghost c_2 = *ctx;
        ctx.builder.terminate(ctx.current_block, Terminator::Branch { cond, then_block, else_block });
        let ghost c_3 = *ctx;
        proof {
            assert(no_phi(c_3.builder.func_view(), then_block.0 as int));
            assert(no_phi(c_3.builder.func_view(), else_block.0 as int));
        }
        ctx.builder.seal_block(then_block);
        ctx.builder.seal_block(else_block);

        ctx.current_block = then_block;
        let ghost c_6 = *ctx;
        let ghost p_6 = *self;
        proof {
            if lits {
                assert(c_2.builder.func_view().blocks@[c0.current_block.0 as int] == c_1.builder.func_view().blocks@[c0.current_block.0 as int]);
                assert(c_6.builder.func_view() == c_3.builder.func_view());
                assert(p_6.pos == p0.pos + 2);
                assert(block_return_literal_at(p_6, c_6));
            }
        }
        self.parse_block_body(ctx)?;
        let ghost c_7 = *ctx;
        let ghost p_7 = *self;
        let then_tail = ctx.current_block;
        let then_terminated = ctx.builder.is_terminated(then_tail);

        ctx.current_block = else_block;
        let ghost c_8 = *ctx;
        let ghost mut c_9: FnContext = *ctx;
        let ghost mut v2g: ValueId = ValueId(0);
        let else_terminated = if self.peek_is(&TokenKind::Else) {
            proof { self.lemma_not_at_end(); }
            self.advance();
            if self.peek_is(&TokenKind::If) {
                self.parse_if(ctx)?;
            } else {
                let ghost p_8 = *self;
                proof {
                    if lits {
                        let v1 = choose|v: ValueId| #[trigger] literal_returned(p_6, c_6, c_7, p_6.pos + 1, v);
                        assert(literal_returned(p_6, c_6, c_7, p_6.pos + 1, v1));
                        assert(ctx.builder.func_view().blocks@[else_block.0 as int] == c_6.builder.func_view().blocks@[else_block.0 as int]);
                        assert(self.pos == p0.pos + 8);
                        assert(block_return_literal_at(*self, *ctx));
                    }
                }
                self.parse_block_body(ctx)?;
                proof {
                    if lits {
                        v2g = choose|v: ValueId| #[trigger] literal_returned(p_8, c_8, *ctx, p_8.pos + 1, v);
                        assert(literal_returned(p_8, c_8, *ctx, p_8.pos + 1, v2g));
                        assert(literal_returned(p0, c_8, *ctx, p0.pos + 9, v2g));
                        c_9 = *ctx;
                    }
                }
            }
            ctx.builder.is_terminated(ctx.current_block)
        } else {
            false
        };
        let else_tail = ctx.current_block;

        if then_terminated && else_terminated {
            // Both arms end in their own terminator: a join block would have
            // no predecessor. The cursor stays on a terminated block, so that
            // anything after this `if` is reported as unreachable.
            ctx.current_block = then_tail;
        } else {
            let join = ctx.builder.new_block();
            if !then_terminated {
                ctx.builder.terminate(then_tail, Terminator::Jump(join));
            }
            if !else_terminated {
                ctx.builder.terminate(else_tail, Terminator::Jump(join));
            }
            ctx.builder.seal_block(join);
            ctx.current_block = join;
        }
        proof {
            assert(branches_to(ctx.builder.func_view().blocks@[cond_end.0 as int], then_block.0 as int, else_block.0 as int));
            if lits {
                let n = c0.builder.n_blocks() as int;
                let cur = c0.current_block.0 as int;
                let v1 = choose|v: ValueId| #[trigger] literal_returned(p_6, c_6, c_7, p_6.pos + 1, v);
                assert(literal_returned(p_6, c_6, c_7, p_6.pos + 1, v1));
                assert(literal_returned(p0, c_8, c_9, p0.pos + 9, v2g));
                assert(c_1.builder.n_blocks() == n);
                assert(then_block.0 == n && else_block.0 == n + 1);
                assert(ctx.builder == c_9.builder);
                assert(c_8.builder == c_7.builder);
                assert(c_6.builder.func_view() == c_3.builder.func_view());
                let bs0 = c0.builder.func_view().blocks@;
                let bsf = ctx.builder.func_view().blocks@;
                assert(c_2.builder.func_view().blocks@[cur] == c_1.builder.func_view().blocks@[cur]);
                assert(c_3.builder.func_view().blocks@[cur].instructions == c_2.builder.func_view().blocks@[cur].instructions);
                assert(c_7.builder.func_view().blocks@[cur] == c_6.builder.func_view().blocks@[cur]);
                assert(c_9.builder.func_view().blocks@[cur] == c_8.builder.func_view().blocks@[cur]);
                assert(bsf[cur].instructions@ == bs0[cur].instructions@.push(literal_inst(p0.tokens@[p0.pos + 1].kind, cond)));
                assert(c_3.builder.func_view().blocks@[n] == c_2.builder.func_view().blocks@[n]);
                assert(c_3.builder.func_view().blocks@[n + 1] == c_2.builder.func_view().blocks@[n + 1]);
                assert(c_6.builder.func_view().blocks@[n].instructions@ =~= Seq::<Instruction>::empty());
                assert(c_6.builder.func_view().blocks@[n + 1].instructions@ =~= Seq::<Instruction>::empty());
                assert(c_7.builder.func_view().blocks@[n + 1] == c_6.builder.func_view().blocks@[n + 1]);
                assert(c_9.builder.func_view().blocks@[n] == c_8.builder.func_view().blocks@[n]);
                assert(bsf[n].instructions@ =~= seq![literal_inst(p0.tokens@[p0.pos + 4].kind, v1)]);
                assert(bsf[n + 1].instructions@ =~= seq![literal_inst(p0.tokens@[p0.pos + 10].kind, v2g)]);
                assert forall|b: int| 0 <= b < n && b != cur implies #[trigger] bsf[b] == bs0[b] by {
                    assert(c_1.builder.func_view().blocks@[b] == bs0[b]);
                    assert(c_2.builder.func_view().blocks@[b] == c_1.builder.func_view().blocks@[b]);
                    assert(c_3.builder.func_view().blocks@[b] == c_2.builder.func_view().blocks@[b]);
                    assert(c_7.builder.func_view().blocks@[b] == c_6.builder.func_view().blocks@[b]);
                    assert(c_9.builder.func_view().blocks@[b] == c_8.builder.func_view().blocks@[b]);
                }
                assert(if_returned_parts(p0, c0, *ctx, cond, v1, v2g));
            }
        }
        Ok(())
    }

    #[verifier::spinoff_prover]
    fn parse_while(&mut self, ctx: &mut FnContext) -> (r: Result<(), ParseError>)
        requires
            ready(*old(self), *old(ctx)),
            open_block(*old(ctx), old(ctx).current_block),
        ensures
            r is Ok ==> progressed(*final(self), *final(ctx), *old(self), *old(ctx)),
            r matches Err(e) ==> !(e is Lex) && from_tokens(old(self).tokens@, e),
            old(self).pos + 1 < old(self).tokens@.len() && old(self).code() == 8 && !starts_expr(old(self).tokens@[old(self).pos + 1].kind)
                ==> (r matches Err(e) && keyword_then_no_expr(*old(self), 8, e)),
            r is Ok ==> final(ctx).builder.func_view().blocks@[old(ctx).current_block.0 as int].terminator is Some,
            r is Ok ==> final(ctx).builder.func_view().blocks@[old(ctx).current_block.0 as int].terminator
                == Some(Terminator::Jump(BlockId(old(ctx).builder.n_blocks() as u32))),
            r is Ok ==> loop_shape(*final(ctx), old(ctx).builder.n_blocks() as int),
        decreases old(self).left(), 15nat,
    {
        let ghost c0 = *ctx;
        let header = ctx.builder.new_block();
        ctx.builder.terminate(ctx.current_block, Terminator::Jump(header));
        let ghost entry_block = ctx.current_block;
        ctx.current_block = header;

        self.expect(&TokenKind::While)?;
        let span = self.peek().span;
        let (cond, cond_ty) = self.parse_expr(ctx)?;
        if cond_ty != Type::Bool {
            return Err(type_mismatch(Type::Bool, cond_ty, span));
        }

        // A short-circuit condition ends in a block of its own: the loop's
        // branch goes there, after the whole condition.
        let cond_end = ctx.current_block;
        let body = ctx.builder.new_block();
        let exit = ctx.builder.new_block();
        ctx.builder.terminate(cond_end, Terminator::Branch { cond, then_block: body, else_block: exit });
        ctx.builder.seal_block(body);
        ctx.builder.seal_block(exit);

        ctx.current_block = body;
        self.parse_block_body(ctx)?;
        let body_tail = ctx.current_block;
        if !ctx.builder.is_terminated(body_tail) {
            ctx.builder.terminate(body_tail, Terminator::Jump(header));
        }
        ctx.builder.seal_block(header);

        ctx.current_block = exit;
        proof {
            let cb = cond_end.0 as int;
            assert(ctx.builder.func_view().blocks@[cb].terminator
                == Some(Terminator::Branch { cond, then_block: body, else_block: exit }));
        }
        Ok(())
    }

    // ---- Functions ----

    #[verifier::spinoff_prover]
    fn parse_function(&mut self) -> (r: Result<Function, ParseError>)
        requires
            old(self).wf(),
            1 + 3 * old(self).left() <= u32::MAX,
        ensures
            r is Ok ==> final(self).wf() && final(self).tokens@ == old(self).tokens@ && final(self).sigs@ == old(self).sigs@,
            r matches Ok(f) ==> parsed_shape(f),
            r matches Ok(f) ==> old(self).tokens@[old(self).pos + 1].kind@ == LexedKind::Ident(f.name@),
            r matches Ok(f) ==> declares(tokens_view(old(self).tokens@), old(self).pos as int, f.name@, f.params@, f.ret_ty->0),
            r matches Ok(f) ==> calls_known(f, old(self).sigs@),
            r matches Err(e) ==> !(e is Lex) && from_tokens(old(self).tokens@, e),
            simple_fn_at(tokens_view(old(self).tokens@), old(self).pos as int) ==> (r matches Ok(f)
                && simple_fn_built(tokens_view(old(self).tokens@), old(self).pos as int, f)),
            unknown_return_fn_at(tokens_view(old(self).tokens@), old(self).pos as int) ==> (r matches Err(e)
                && reports_unknown_lexed(tokens_view(old(self).tokens@), old(self).pos + 8, e)),
            mistyped_return_fn_at(tokens_view(old(self).tokens@), old(self).pos as int) ==> (r matches Err(e)
                && reports_mistyped_lexed(tokens_view(old(self).tokens@), old(self).pos + 7, e)),
            return_then_more_fn_at(tokens_view(old(self).tokens@), old(self).pos as int)
                ==> r == Err::<Function, ParseError>(ParseError::UnreachableCode { span: tokens_view(old(self).tokens@)[old(self).pos + 10].1 }),
            old(self).pos == 0 && one_return_nothing_fn(tokens_view(old(self).tokens@)) ==> (r matches Err(e)
                && reports_no_expr_lexed(tokens_view(old(self).tokens@), 8, e)),
    {
        let ghost p0 = *self;
        let ghost simple = simple_fn_at(tokens_view(self.tokens@), self.pos as int);
        let ghost unknown = unknown_return_fn_at(tokens_view(self.tokens@), self.pos as int);
        let ghost mistyped = mistyped_return_fn_at(tokens_view(self.tokens@), self.pos as int);
        let ghost more = return_then_more_fn_at(tokens_view(self.tokens@), self.pos as int);
        let ghost nothing = self.pos == 0 && one_return_nothing_fn(tokens_view(self.tokens@));
        proof { lemma_codes_agree(self.tokens@); }
        let (name, params, ret_ty) = self.parse_fn_header()?;
        let scope = param_scope(&params);
        let builder = SsaBuilder::new(name, params, ret_ty);
        let mut scopes: Vec<Vec<(String, Type, String)>> = Vec::new();
        scopes.push(scope);
        let mut ctx = FnContext { builder, scopes, current_block: BlockId(0), ret_ty };
        ctx.current_block = ctx.builder.entry();
        let ghost c_start = ctx;
        let ghost p_start = *self;
        proof {
            if simple {
                assert(p_start.pos == p0.pos + 6);
                assert(return_literal_at(p_start, c_start, p0.pos + 7));
                assert(block_return_literal_at(p_start, c_start));
            }
            if nothing {
                assert(p_start.pos == 6);
                assert(return_no_expr_at(p_start.tokens@, 7, c_start));
                assert(block_return_no_expr_at(p_start, c_start));
            }
            if more {
                assert(p_start.pos == p0.pos + 6);
                assert(return_literal_at(p_start, c_start, p0.pos + 7));
                assert(block_return_then_more_at(p_start, c_start));
            }
            if mistyped {
                assert(p_start.pos == p0.pos + 6);
                assert(return_mistyped_at(p_start.tokens@, p_start.pos + 1, c_start));
                assert(block_return_mistyped_at(p_start, c_start));
            }
            if unknown {
                assert(p_start.pos == p0.pos + 6);
                let name = p0.tokens@[p0.pos + 8].kind->Ident_0;
                assert(params@.len() == 0);
                assert(c_start.scopes@.len() == 1);
                assert(c_start.scopes@.last()@.len() == 0);
                assert(scope_find(c_start.scopes@.last()@, name@) is None);
                assert(c_start.scopes@.drop_last().len() == 0);
                assert(scopes_find(c_start.scopes@.drop_last(), name@) is None);
                assert(scopes_find(c_start.scopes@, name@) is None);
                assert(return_unknown_at(p_start.tokens@, p_start.pos + 1, c_start));
                assert(block_return_unknown_at(p_start, c_start));
            }
        }
        let body = self.parse_block_body(&mut ctx);
        proof {
            if unknown {
                assert(tokens_view(p0.tokens@)[p0.pos + 8] == crate::lexer::token_view(p0.tokens@[p0.pos + 8]));
            }
            if mistyped {
                assert(tokens_view(p0.tokens@)[p0.pos + 7] == crate::lexer::token_view(p0.tokens@[p0.pos + 7]));
            }
            if more {
                assert(tokens_view(p0.tokens@)[p0.pos + 10] == crate::lexer::token_view(p0.tokens@[p0.pos + 10]));
            }
            if nothing {
                assert(tokens_view(p0.tokens@)[8] == crate::lexer::token_view(p0.tokens@[8]));
            }
        }
        body?;
        if !ctx.builder.is_terminated(ctx.current_block) {
            // The body can end without a `return`.
            let close = &self.tokens[self.pos - 1];
            return Err(ParseError::UnexpectedToken {
                expected: "'return'".to_owned(),
                found: close.kind.duplicate(),
                span: close.span,
            });
        }
        proof {
            ctx.builder.lemma_wf_shape();
            assert(closed(ctx, c_start));
            assert forall|b: int| 0 <= b < ctx.builder.n_blocks() implies (#[trigger] ctx.builder.func_view().blocks@[b]).terminator is Some by {
                if b != ctx.current_block.0 {
                    assert(b >= c_start.builder.n_blocks() || b == c_start.current_block.0);
                }
            }
            assert forall|b: int| 0 <= b < ctx.builder.n_blocks() implies #[trigger] ctx.builder.sealed_at(b) by {
                if b == 0 {
                    assert(c_start.builder.sealed_at(0));
                }
            }
            ctx.builder.lemma_phis_match_preds();
            if simple {
                let v = choose|v: ValueId| #[trigger] literal_returned(p_start, c_start, ctx, p_start.pos + 1, v);
                assert(literal_returned(p_start, c_start, ctx, p_start.pos + 1, v));
                let f = ctx.builder.func_view();
                assert(f.blocks@[0].instructions@ =~= seq![lexed_literal(tokens_view(p0.tokens@)[p0.pos + 8].0, v)]);
                assert(simple_fn_built(tokens_view(p0.tokens@), p0.pos as int, f));
            }
        }
        Ok(ctx.builder.finish())
    }

    // ---- The two passes ----

    #[verifier::spinoff_prover]
    fn parse_module(&mut self) -> (r: Result<Module, ParseError>)
        requires
            old(self).wf(),
            old(self).pos == 0,
            old(self).sigs@.len() == 0,
            1 + 3 * old(self).tokens@.len() <= u32::MAX,
        ensures
            r matches Ok(m) ==> forall|i: int| 0 <= i < m.functions@.len() ==> parsed_shape(#[trigger] m.functions@[i]),
            r matches Ok(m) ==> forall|a: int, b: int| 0 <= a < b < m.functions@.len()
                ==> (#[trigger] m.functions@[a]).name@ != (#[trigger] m.functions@[b]).name@,
            r matches Ok(m) ==> exists|starts: Seq<usize>| header_positions(tokens_view(old(self).tokens@), starts, m.functions@)
                && bodies_follow(tokens_view(old(self).tokens@), starts, m.functions@),
            r matches Ok(m) ==> (m.functions@.len() == 0 <==> old(self).code() == 35),
            r matches Ok(m) ==> calls_resolve(m),
            old(self).code() == 35 ==> r is Ok,
            r matches Err(e) ==> !(e is Lex) && from_tokens(old(self).tokens@, e),
            old(self).code() != 5 && old(self).code() != 35 ==> (r matches Err(e) && unexpected_at(*old(self), e, kind_text(TokenKind::Fn))),
            one_simple_fn(tokens_view(old(self).tokens@)) ==> (r matches Ok(m) && m.functions@.len() == 1
                && simple_fn_built(tokens_view(old(self).tokens@), 0, m.functions@[0])),
            one_unknown_return_fn(tokens_view(old(self).tokens@)) ==> (r matches Err(e)
                && reports_unknown_lexed(tokens_view(old(self).tokens@), 8, e)),
            one_mistyped_return_fn(tokens_view(old(self).tokens@)) ==> (r matches Err(e)
                && reports_mistyped_lexed(tokens_view(old(self).tokens@), 7, e)),
            one_return_then_more_fn(tokens_view(old(self).tokens@))
                ==> r == Err::<Module, ParseError>(ParseError::UnreachableCode { span: tokens_view(old(self).tokens@)[10].1 }),
            one_return_nothing_fn(tokens_view(old(self).tokens@)) ==> (r matches Err(e)
                && reports_no_expr_lexed(tokens_view(old(self).tokens@), 8, e)),
    {
        let ghost single = one_simple_fn(tokens_view(self.tokens@)) || one_unknown_return_fn(tokens_view(self.tokens@))
            || one_mistyped_return_fn(tokens_view(self.tokens@)) || one_return_then_more_fn(tokens_view(self.tokens@))
            || one_return_nothing_fn(tokens_view(self.tokens@));
        proof { lemma_codes_agree(self.tokens@); }
        let mut fn_starts: Vec<usize> = Vec::new();
        let ghost mut hparams: Seq<Seq<(String, Type)>> = Seq::empty();
        let ghost mut hrets: Seq<Type> = Seq::empty();
        while !self.peek_is(&TokenKind::Eof)
            invariant
                single == (one_simple_fn(tokens_view(old(self).tokens@)) || one_unknown_return_fn(tokens_view(old(self).tokens@))
                    || one_mistyped_return_fn(tokens_view(old(self).tokens@)) || one_return_then_more_fn(tokens_view(old(self).tokens@))
                    || one_return_nothing_fn(tokens_view(old(self).tokens@))),
                single ==> fn_starts@.len() <= 1 && (fn_starts@.len() == 0 ==> self.pos == 0)
                    && (fn_starts@.len() == 1 ==> self.pos == old(self).tokens@.len() - 1),
                forall|k: int| 0 <= k < fn_starts@.len() - 1 ==> #[trigger] fn_starts@[k + 1]
                    == body_end(tokens_view(old(self).tokens@), fn_starts@[k] as int, hparams[k].len() as int),
                fn_starts@.len() > 0 ==> self.pos == body_end(tokens_view(old(self).tokens@), fn_starts@.last() as int,
                    hparams.last().len() as int),
                forall|i: int| 0 <= i < old(self).tokens@.len() ==> #[trigger] kind_code(old(self).tokens@[i].kind)
                    == lexed_code(tokens_view(old(self).tokens@)[i].0),
                hparams.len() == self.sigs@.len(),
                hrets.len() == self.sigs@.len(),
                forall|k: int| 0 <= k < fn_starts@.len() ==> #[trigger] declares(tokens_view(old(self).tokens@), fn_starts@[k] as int,
                    self.sigs@[k].0@, hparams[k], hrets[k]) && hparams[k].len() == self.sigs@[k].1.params@.len(),
                self.wf(),
                self.tokens@ == old(self).tokens@,
                fn_starts@.len() == self.sigs@.len(),
                forall|i: int| 0 <= i < fn_starts@.len() ==> #[trigger] fn_starts@[i] + 1 < self.tokens@.len(),
                forall|i: int| 0 <= i < fn_starts@.len() ==> self.tokens@[#[trigger] fn_starts@[i] + 1].kind@
                    == LexedKind::Ident(self.sigs@[i].0@),
                forall|a: int, b: int| 0 <= a < b < self.sigs@.len() ==> (#[trigger] self.sigs@[a]).0@ != (#[trigger] self.sigs@[b]).0@,
                fn_starts@.len() == 0 ==> self.pos == 0,
                old(self).pos == 0,
                fn_starts@.len() > 0 ==> fn_starts@[0] == 0,
                forall|i: int, j: int| 0 <= i < j < fn_starts@.len() ==> (#[trigger] fn_starts@[i]) < (#[trigger] fn_starts@[j]),
                forall|k: int| 0 <= k < fn_starts@.len() ==> #[trigger] fn_starts@[k] < self.pos,
                forall|k: int| 0 <= k < fn_starts@.len() ==> kind_code(self.tokens@[#[trigger] fn_starts@[k] as int].kind) == 5,
            decreases self.left(),
        {
            let start = self.pos;
            proof {
                if single {
                    assert(fn_starts@.len() == 0);
                }
            }
            let (name, params, ret_ty) = self.parse_fn_header()?;
            let found = find_sig(&self.sigs, name.as_str());
            if found.is_some() {
                proof {
                    let ts = tokens_view(old(self).tokens@);
                    let i = found->0 as int;
                    let a = fn_starts@[i] as int;
                    let b = start as int;
                    assert(kind_code(self.tokens@[a].kind) == 5);
                    assert(ts[a].0 == LexedKind::Fixed(TokenKind::Fn));
                    assert(ts[a + 1].0 == LexedKind::Ident(name@));
                    assert(ts[b].0 == LexedKind::Fixed(TokenKind::Fn));
                    assert(ts[b + 1].0 == LexedKind::Ident(name@));
                    assert(header_twice(ts, name@));
                }
                return Err(ParseError::DuplicateFunction { name });
            }
            let ghost sigs0 = self.sigs@;
            let ghost starts0 = fn_starts@;
            let ghost hparams0 = hparams;
            let ghost close = self.pos as int;
            fn_starts.push(start);
            let mut types: Vec<Type> = Vec::new();
            let mut k: usize = 0;
            while k < params.len()
                invariant
                    k <= params@.len(),
                    types@.len() == k,
                decreases params.len() - k,
            {
                types.push(params[k].1);
                k += 1;
            }
            self.sigs.push((name, FnSig { params: types, ret_ty }));
            proof {
                hparams = hparams.push(params@);
                hrets = hrets.push(ret_ty->0);
                assert forall|k: int| 0 <= k < fn_starts@.len() implies #[trigger] declares(tokens_view(old(self).tokens@), fn_starts@[k] as int,
                    self.sigs@[k].0@, hparams[k], hrets[k]) && hparams[k].len() == self.sigs@[k].1.params@.len() by {
                    if k < starts0.len() {
                        assert(fn_starts@[k] == starts0[k]);
                        assert(self.sigs@[k] == sigs0[k]);
                    }
                }
                assert forall|a: int, b: int| 0 <= a < b < self.sigs@.len() implies (#[trigger] self.sigs@[a]).0@
                    != (#[trigger] self.sigs@[b]).0@ by {
                    if b == sigs0.len() {
                        assert(self.sigs@[a] == sigs0[a]);
                    } else {
                        assert(self.sigs@[a] == sigs0[a] && self.sigs@[b] == sigs0[b]);
                    }
                }
                assert forall|i: int| 0 <= i < fn_starts@.len() implies self.tokens@[#[trigger] fn_starts@[i] + 1].kind@
                    == LexedKind::Ident(self.sigs@[i].0@) by {
                    if i < starts0.len() {
                        assert(fn_starts@[i] == starts0[i]);
                        assert(self.sigs@[i] == sigs0[i]);
                    }
                }
            }
            proof {
                if single {
                    assert(self.pos == 6);
                    assert(plain_block_at(*self, old(self).tokens@.len() - 2));
                }
            }
            self.skip_block()?;
            proof {
                let ts = tokens_view(old(self).tokens@);
                assert(close == header_close(start as int, params@.len() as int) + 3);
                assert(hparams.last() == params@);
                assert(self.pos == body_end(ts, fn_starts@.last() as int, hparams.last().len() as int));
                assert forall|k: int| 0 <= k < fn_starts@.len() - 1 implies #[trigger] fn_starts@[k + 1]
                    == body_end(ts, fn_starts@[k] as int, hparams[k].len() as int) by {
                    if k < starts0.len() - 1 {
                        assert(fn_starts@[k + 1] == starts0[k + 1]);
                        assert(fn_starts@[k] == starts0[k]);
                        assert(hparams[k] == hparams0[k]);
                    } else {
                        assert(fn_starts@[k] == starts0.last());
                        assert(hparams[k] == hparams0.last());
                    }
                }
            }
        }
        let ghost end_pos = self.pos as int;
        assert(kind_code(self.tokens@[end_pos].kind) == lexed_code(tokens_view(old(self).tokens@)[end_pos].0));

        proof {
            if old(self).code() == 35 && fn_starts@.len() > 0 {
                assert(kind_code(self.tokens@[fn_starts@[0] as int].kind) == 5);
            }
        }
        proof {
            if single && fn_starts@.len() == 0 {
                assert(self.pos == 0);
            }
        }
        let ghost no_fns = fn_starts@.len() == 0;
        assert(no_fns <==> old(self).code() == 35);
        assert(old(self).code() == 5 || old(self).code() == 35) by {
            if !no_fns {
                assert(kind_code(self.tokens@[fn_starts@[0] as int].kind) == 5);
            }
        }
        self.pos = 0;
        let mut functions: Vec<Function> = Vec::new();
        let mut i: usize = 0;
        while i < fn_starts.len()
            invariant
                single == (one_simple_fn(tokens_view(old(self).tokens@)) || one_unknown_return_fn(tokens_view(old(self).tokens@))
                    || one_mistyped_return_fn(tokens_view(old(self).tokens@)) || one_return_then_more_fn(tokens_view(old(self).tokens@))
                    || one_return_nothing_fn(tokens_view(old(self).tokens@))),
                single ==> fn_starts@.len() == 1,
                forall|k: int| 0 <= k < fn_starts@.len() - 1 ==> #[trigger] fn_starts@[k + 1]
                    == body_end(tokens_view(old(self).tokens@), fn_starts@[k] as int, hparams[k].len() as int),
                fn_starts@.len() > 0 ==> end_pos == body_end(tokens_view(old(self).tokens@), fn_starts@.last() as int,
                    hparams.last().len() as int),
                0 <= end_pos < old(self).tokens@.len(),
                lexed_code(tokens_view(old(self).tokens@)[end_pos].0) == 35,
                one_simple_fn(tokens_view(old(self).tokens@)) && i == 1 ==> simple_fn_built(tokens_view(old(self).tokens@), 0, functions@[0]),
                one_unknown_return_fn(tokens_view(old(self).tokens@)) ==> i == 0,
                one_mistyped_return_fn(tokens_view(old(self).tokens@)) ==> i == 0,
                one_return_then_more_fn(tokens_view(old(self).tokens@)) ==> i == 0,
                one_return_nothing_fn(tokens_view(old(self).tokens@)) ==> i == 0,
                self.wf(),
                self.tokens@ == old(self).tokens@,
                fn_starts@.len() == self.sigs@.len(),
                i <= fn_starts@.len(),
                functions@.len() == i,
                forall|k: int| 0 <= k < fn_starts@.len() ==> #[trigger] fn_starts@[k] + 1 < self.tokens@.len(),
                forall|k: int| 0 <= k < fn_starts@.len() ==> self.tokens@[#[trigger] fn_starts@[k] + 1].kind@
                    == LexedKind::Ident(self.sigs@[k].0@),
                forall|a: int, b: int| 0 <= a < b < self.sigs@.len() ==> (#[trigger] self.sigs@[a]).0@ != (#[trigger] self.sigs@[b]).0@,
                forall|k: int| 0 <= k < functions@.len() ==> parsed_shape(#[trigger] functions@[k]),
                forall|k: int| 0 <= k < functions@.len() ==> (#[trigger] functions@[k]).name@ == self.sigs@[k].0@,
                fn_starts@.len() > 0 ==> fn_starts@[0] == 0,
                forall|a: int, b: int| 0 <= a < b < fn_starts@.len() ==> (#[trigger] fn_starts@[a]) < (#[trigger] fn_starts@[b]),
                forall|k: int| 0 <= k < fn_starts@.len() ==> kind_code(self.tokens@[#[trigger] fn_starts@[k] as int].kind) == 5,
                no_fns == (fn_starts@.len() == 0),
                no_fns == (old(self).code() == 35),
                old(self).code() == 5 || old(self).code() == 35,
                hparams.len() == self.sigs@.len(),
                hrets.len() == self.sigs@.len(),
                forall|k: int| 0 <= k < fn_starts@.len() ==> #[trigger] declares(tokens_view(old(self).tokens@), fn_starts@[k] as int,
                    self.sigs@[k].0@, hparams[k], hrets[k]) && hparams[k].len() == self.sigs@[k].1.params@.len(),
                forall|k: int| 0 <= k < functions@.len() ==> calls_known(#[trigger] functions@[k], self.sigs@),
                forall|k: int| 0 <= k < functions@.len() ==> (#[trigger] functions@[k]).params@.len() == self.sigs@[k].1.params@.len(),
                forall|k: int| 0 <= k < functions@.len() ==> #[trigger] declares(tokens_view(old(self).tokens@), fn_starts@[k] as int,
                    functions@[k].name@, functions@[k].params@, functions@[k].ret_ty->0),
            decreases fn_starts.len() - i,
        {
            proof {
                assert(declares(tokens_view(old(self).tokens@), fn_starts@[i as int] as int, self.sigs@[i as int].0@,
                    hparams[i as int], hrets[i as int]) && hparams[i as int].len() == self.sigs@[i as int].1.params@.len());
            }
            let ghost sigs_head = self.sigs@;
            self.pos = fn_starts[i];
            proof {
                if single {
                    assert(self.pos == 0);
                }
            }
            let ghost p0 = *self;
            let f = self.parse_function()?;
            proof {
                assert(p0.tokens@[fn_starts@[i as int] + 1].kind@ == LexedKind::Ident(f.name@));
                assert(LexedKind::Ident(f.name@) == LexedKind::Ident(self.sigs@[i as int].0@));
            }
            proof {
                lemma_declares_len(tokens_view(old(self).tokens@), fn_starts@[i as int] as int, f.name@, f.params@, f.ret_ty->0,
                    self.sigs@[i as int].0@, hparams[i as int], hrets[i as int]);
            }
            let ghost before = functions@;
            let ghost fv = f;
            functions.push(f);
            proof {
                assert(self.sigs@ == sigs_head);
                assert(hparams[i as int].len() == self.sigs@[i as int].1.params@.len());
                assert(fv.params@.len() == hparams[i as int].len());
                assert(functions@[i as int] == fv);
                assert forall|k: int| 0 <= k < functions@.len() implies calls_known(#[trigger] functions@[k], self.sigs@) by {
                    if k < before.len() {
                        assert(functions@[k] == before[k]);
                    }
                }
                assert forall|k: int| 0 <= k < functions@.len() implies (#[trigger] functions@[k]).params@.len() == self.sigs@[k].1.params@.len() by {
                    if k < before.len() {
                        assert(functions@[k] == before[k]);
                    }
                }
                assert forall|k: int| 0 <= k < fn_starts@.len() implies #[trigger] declares(tokens_view(old(self).tokens@), fn_starts@[k] as int,
                    self.sigs@[k].0@, hparams[k], hrets[k]) && hparams[k].len() == self.sigs@[k].1.params@.len() by {
                    assert(self.sigs@ == sigs_head);
                    assert(declares(tokens_view(old(self).tokens@), fn_starts@[k] as int, sigs_head[k].0@, hparams[k], hrets[k]));
                }
                assert forall|k: int| 0 <= k < functions@.len() implies #[trigger] declares(tokens_view(old(self).tokens@), fn_starts@[k] as int,
                    functions@[k].name@, functions@[k].params@, functions@[k].ret_ty->0) by {
                    if k < before.len() {
                        assert(functions@[k] == before[k]);
                    }
                }
            }
            i += 1;
        }
        proof {
            assert forall|a: int, b: int| 0 <= a < b < functions@.len() implies (#[trigger] functions@[a]).name@
                != (#[trigger] functions@[b]).name@ by {
                assert(functions@[a].name@ == self.sigs@[a].0@);
                assert(functions@[b].name@ == self.sigs@[b].0@);
            }
            assert forall|k: int| 0 <= k < fn_starts@.len() implies #[trigger] fn_starts@[k] + 1 < old(self).tokens@.len()
                && kind_code(old(self).tokens@[fn_starts@[k] as int].kind) == 5
                && old(self).tokens@[fn_starts@[k] + 1].kind@ == LexedKind::Ident(functions@[k].name@) by {
                assert(functions@[k].name@ == self.sigs@[k].0@);
            }
            assert(header_positions(tokens_view(old(self).tokens@), fn_starts@, functions@));
            assert forall|k: int| 0 <= k < fn_starts@.len() implies (#[trigger] functions@[k]).params@.len() == hparams[k].len() by {
                assert(declares(tokens_view(old(self).tokens@), fn_starts@[k] as int, self.sigs@[k].0@, hparams[k], hrets[k]));
                assert(functions@[k].params@.len() == self.sigs@[k].1.params@.len());
            }
            if fn_starts@.len() > 0 {
                let last = fn_starts@.len() - 1;
                assert(functions@[last].params@.len() == hparams[last].len());
                assert(lexed_code(tokens_view(old(self).tokens@)[end_pos].0) == 35);
            }
            assert(bodies_follow(tokens_view(old(self).tokens@), fn_starts@, functions@));
            let m = Module { functions };
            assert forall|i: int, b: int, q: int| 0 <= i < m.functions@.len() && 0 <= b < m.functions@[i].blocks@.len()
                && 0 <= q < m.functions@[i].blocks@[b].instructions@.len()
                implies call_resolves(m, #[trigger] m.functions@[i].blocks@[b].instructions@[q]) by {
                let inst = m.functions@[i].blocks@[b].instructions@[q];
                assert(calls_known(m.functions@[i], self.sigs@));
                assert(call_known(inst, self.sigs@));
                if let InstKind::Call { func, args } = inst.kind {
                    let j = choose|j: int| 0 <= j < self.sigs@.len() && (#[trigger] self.sigs@[j]).0@ == func@
                        && self.sigs@[j].1.params@.len() == args@.len();
                    lemma_find_function(m.functions@, func@);
                    assert(m.functions@[j].name@ == func@);
                    let ci = find_function(m.functions@, func@)->0;
                    if ci != j {
                        if ci < j {
                            assert(m.functions@[ci].name@ != m.functions@[j].name@);
                        } else {
                            assert(m.functions@[j].name@ != m.functions@[ci].name@);
                        }
                    }
                    assert(m.functions@[j].params@.len() == self.sigs@[j].1.params@.len());
                }
            }
            assert(calls_resolve(m));
        }
        Ok(Module { functions })
    }
}

/// Lexes and parses `source` into a module. A lexical error is reported as
/// it is; a source with no tokens is the empty module, and one whose first
/// token is not `fn` is rejected at that token. The functions returned are
/// exactly those declared, in order: each header `fn name(params) -> type`
/// stands at a recorded position, the first at the start, with exactly the
/// function's name, parameters and return type, each next header just past
/// the body before it and the end of input just past the last body
/// (`bodies_follow`). A source that is one function `fn NAME() -> T
/// { return L; }` is accepted, and becomes that function with one block
/// that computes `L` and returns it (`simple_fn_built`); one that is
/// `fn NAME() -> T { return X; }`, `X` an identifier, is rejected with `X`
/// reported, at its span, as an undefined variable; one whose `return`
/// gives a literal of another type than `T` is rejected as a type mismatch
/// at the `return`; and one that goes on after `return L;` is rejected as
/// unreachable code at the first token after it; `fn NAME() -> T
/// { return ; }` is rejected where an expression was expected, at the `;`.
/// Every function has the
/// shape `parsed_shape` describes (blocks numbered from the entry block 0,
/// each ending in a terminator, every jump within them, no `and`/`or`
/// instruction, distinct parameter
/// names, no phi naming a block twice, every value read defined, no value
/// defined twice), no two functions share a name, and every call names a
/// function of the module with as many arguments as it has parameters, so
/// that validation can only find a type mismatch (`lemma_parsed_module_errors`).
/// Every error that carries a span points at a token of the source, an
/// unexpected token is reported as the very token found there, and a
/// function or parameter name is reported as a duplicate only where the
/// source declares it twice.
pub fn parse(source: &str) -> (r: Result<Module, ParseError>)
    requires
        source.spec_bytes().len() < 0x4000_0000,
    ensures
        spec_lex(source.spec_bytes()) matches Err(e) ==> r == Err::<Module, ParseError>(ParseError::Lex(e)),
        r matches Err(ParseError::Lex(e)) ==> spec_lex(source.spec_bytes()) == Err::<Seq<(LexedKind, Span)>, LexError>(e),
        match r {
            Err(ParseError::Lex(_)) => true,
            Err(e) => from_source(spec_lex(source.spec_bytes())->Ok_0, e),
            Ok(_) => true,
        },
        match spec_lex(source.spec_bytes()) {
            Ok(ts) => {
                &&& ts[0].0 == LexedKind::Fixed(TokenKind::Eof) ==> (r matches Ok(m) && m.functions@.len() == 0)
                &&& ts[0].0 != LexedKind::Fixed(TokenKind::Eof) && ts[0].0 != LexedKind::Fixed(TokenKind::Fn)
                    ==> (r matches Err(ParseError::UnexpectedToken { expected, found, span })
                    && expected@ == kind_text(TokenKind::Fn) && found@ == ts[0].0 && span == ts[0].1)
            },
            Err(_) => true,
        },
        match spec_lex(source.spec_bytes()) {
            Ok(ts) => one_simple_fn(ts) ==> (r matches Ok(m) && m.functions@.len() == 1 && simple_fn_built(ts, 0, m.functions@[0])),
            Err(_) => true,
        },
        match spec_lex(source.spec_bytes()) {
            Ok(ts) => one_unknown_return_fn(ts) ==> (r matches Err(e) && reports_unknown_lexed(ts, 8, e)),
            Err(_) => true,
        },
        match spec_lex(source.spec_bytes()) {
            Ok(ts) => one_mistyped_return_fn(ts) ==> (r matches Err(e) && reports_mistyped_lexed(ts, 7, e)),
            Err(_) => true,
        },
        match spec_lex(source.spec_bytes()) {
            Ok(ts) => one_return_then_more_fn(ts) ==> r == Err::<Module, ParseError>(ParseError::UnreachableCode { span: ts[10].1 }),
            Err(_) => true,
        },
        match spec_lex(source.spec_bytes()) {
            Ok(ts) => one_return_nothing_fn(ts) ==> (r matches Err(e) && reports_no_expr_lexed(ts, 8, e)),
            Err(_) => true,
        },
        r matches Ok(m) ==> {
            &&& spec_lex(source.spec_bytes()) is Ok
            &&& exists|starts: Seq<usize>| header_positions(spec_lex(source.spec_bytes())->Ok_0, starts, m.functions@)
                && bodies_follow(spec_lex(source.spec_bytes())->Ok_0, starts, m.functions@)
            &&& calls_resolve(m)
            &&& (m.functions@.len() == 0 <==> spec_lex(source.spec_bytes())->Ok_0[0].0 == LexedKind::Fixed(TokenKind::Eof))
            &&& forall|i: int| 0 <= i < m.functions@.len() ==> parsed_shape(#[trigger] m.functions@[i])
            &&& forall|a: int, b: int| 0 <= a < b < m.functions@.len()
                ==> (#[trigger] m.functions@[a]).name@ != (#[trigger] m.functions@[b]).name@
        },
{
    let tokens = match lex(source) {
        Ok(t) => t,
        Err(e) => return Err(ParseError::Lex(e)),
    };
    proof {
        lemma_lex_shape(source.spec_bytes());
        assert(tokens_view(tokens@).len() == tokens@.len());
        assert(tokens_view(tokens@).last() == crate::lexer::token_view(tokens@.last()));
        assert(tokens_view(tokens@)[0] == crate::lexer::token_view(tokens@[0]));
    }
    let ghost ts = tokens@;
    let mut parser = Parser::new(tokens);
    let r = parser.parse_module();
    proof {
        if r is Err {
            lemma_from_tokens_view(ts, r->Err_0);
        }
    }
    r
}


proof fn lemma_numbered_blocks_distinct(bs: Seq<BasicBlock>, k: nat)
    requires
        bs.len() <= u32::MAX,
        forall|i: int| 0 <= i < bs.len() ==> (#[trigger] bs[i]).id == BlockId(i as u32),
    ensures
        duplicate_block(bs, k) is None,
    decreases bs.len() - k,
{
    if k < bs.len() {
        assert forall|j: int| 0 <= j < k implies bs[j].id != bs[k as int].id by {
            assert(bs[j].id == BlockId(j as u32));
            assert(bs[k as int].id == BlockId(k as u32));
        }
        lemma_numbered_blocks_distinct(bs, k + 1);
    }
}

/// Every function the parser returns passes validation's block checks: its
/// entry block exists, no two of its blocks share an id, and every jump or
/// branch goes to one of its blocks. So its control flow is what liveness
/// analysis needs.
pub proof fn lemma_parsed_blocks_validate(f: Function)
    requires
        parsed_shape(f),
    ensures
        find_block(f.blocks@, f.entry) == Some(0int),
        duplicate_block(f.blocks@, 0) is None,
        forall|i: int, t: BlockId| 0 <= i < f.blocks@.len() && (#[trigger] f.blocks@[i]).terminator is Some
            && term_successors(f.blocks@[i].terminator->0).contains(t) ==> #[trigger] target_error(f, f.blocks@[i].id, t) is None,
        flow_ready(f),
{
    assert(f.blocks@[0].id == BlockId(0));
    lemma_numbered_blocks_distinct(f.blocks@, 0);
    assert forall|i: int, t: BlockId| 0 <= i < f.blocks@.len() && (#[trigger] f.blocks@[i]).terminator is Some
        && term_successors(f.blocks@[i].terminator->0).contains(t) implies #[trigger] target_error(f, f.blocks@[i].id, t) is None by {
        let k = choose|k: int| 0 <= k < term_successors(f.blocks@[i].terminator->0).len()
            && term_successors(f.blocks@[i].terminator->0)[k] == t;
        assert(t.0 < f.blocks@.len());
        assert(f.blocks@[t.0 as int].id == t);
    }
    assert forall|i: int, k: int| 0 <= i < f.blocks@.len() && (#[trigger] f.blocks@[i]).terminator is Some
        && 0 <= k < term_successors(f.blocks@[i].terminator->0).len()
        implies find_block(f.blocks@, #[trigger] term_successors(f.blocks@[i].terminator->0)[k]) is Some by {
        let t = term_successors(f.blocks@[i].terminator->0)[k];
        lemma_find_block(f.blocks@, t);
        assert(f.blocks@[t.0 as int].id == t);
    }
}

} // verus!
