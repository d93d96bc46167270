//! The parser's token-level layer: the token cursor, the newline
//! significance pass that runs before parsing, and the unescaping of
//! interpolated-string chunks.
//!
//! A newline is insignificant only inside parentheses: expressions and
//! argument lists wrap freely there. Inside brackets and braces it is always
//! significant (array elements, map entries, match arms, struct fields and
//! block statements are newline-delimited). At the top level a newline
//! survives when it can end a statement.

use vstd::prelude::*;

use crate::diagnostics::{Diagnostic, DiagnosticView, Span, diagnostics_view};
use crate::text::{chars_of, string_from_chars};

verus! {

// ---------------------------------------------------------------------------
// Tokens
// ---------------------------------------------------------------------------

/// What the token-level passes read of a token: its bracket role, a line
/// break, the end of input, or, for any other token, the lexer's
/// classification of it.
#[derive(Debug, Clone, Copy, PartialEq, Eq, Structural)]
pub enum Token {
    Newline,
    Eof,
    LParen,
    RParen,
    LBracket,
    RBracket,
    LBrace,
    RBrace,
    /// An identifier, a literal, `true`, `false` or `?`: a token a statement
    /// can end with.
    Operand { starts_statement: bool },
    /// Any other token: keywords, operators and punctuation.
    Other { starts_statement: bool, type_keyword: bool },
}

/// A token with its span in the source text.
#[derive(Debug, Clone, Copy, PartialEq, Eq, Structural)]
pub struct SpannedToken {
    pub token: Token,
    pub span: Span,
}

pub open spec fn spec_starts_statement(t: Token) -> bool {
    match t {
        Token::Operand { starts_statement } => starts_statement,
        Token::Other { starts_statement, .. } => starts_statement,
        _ => false,
    }
}

pub open spec fn spec_is_type_keyword(t: Token) -> bool {
    match t {
        Token::Other { type_keyword, .. } => type_keyword,
        _ => false,
    }
}

/// Identifiers, literals, `true`, `false`, `?` and closing brackets can end
/// a statement.
pub open spec fn spec_can_end_statement(t: Token) -> bool {
    match t {
        Token::Operand { .. } => true,
        Token::RParen | Token::RBrace | Token::RBracket => true,
        _ => false,
    }
}

impl Token {
    /// True for a token that begins a statement.
    pub fn starts_statement(&self) -> (b: bool)
        ensures
            b == spec_starts_statement(*self),
    {
        match self {
            Token::Operand { starts_statement } => *starts_statement,
            Token::Other { starts_statement, .. } => *starts_statement,
            _ => false,
        }
    }

    /// True for a keyword that names a type.
    pub fn is_type_keyword(&self) -> (b: bool)
        ensures
            b == spec_is_type_keyword(*self),
    {
        match self {
            Token::Other { type_keyword, .. } => *type_keyword,
            _ => false,
        }
    }
}

/// True for a token a statement can end with.
pub fn can_end_statement(t: &Token) -> (b: bool)
    ensures
        b == spec_can_end_statement(*t),
{
    match t {
        Token::Operand { .. } => true,
        Token::RParen | Token::RBrace | Token::RBracket => true,
        _ => false,
    }
}

// ---------------------------------------------------------------------------
// The parser's token cursor
// ---------------------------------------------------------------------------

/// A parser over a token stream that ends with `Eof`. Recoverable errors
/// are collected, so parsing never stops early.
pub struct Parser<'a> {
    tokens: &'a [SpannedToken],
    pos: usize,
    errors: Vec<Diagnostic>,
}

/// The mathematical value of a [`Parser`]: its tokens, its position and the
/// diagnostics recorded so far.
pub struct ParserView {
    pub tokens: Seq<SpannedToken>,
    pub pos: nat,
    pub errors: Seq<DiagnosticView>,
}

impl<'a> View for Parser<'a> {
    type V = ParserView;

    closed spec fn view(&self) -> ParserView {
        ParserView {
            tokens: self.tokens@,
            pos: self.pos as nat,
            errors: diagnostics_view(self.errors@),
        }
    }
}

/// A token stream the parser accepts: it ends with a synthetic `Eof`.
pub open spec fn ends_with_eof(tokens: Seq<SpannedToken>) -> bool {
    tokens.len() > 0 && tokens.last().token == Token::Eof
}

impl<'a> Parser<'a> {
    /// A parser at the start of `tokens`, with no diagnostics.
    pub fn new(tokens: &'a [SpannedToken]) -> (p: Self)
        requires
            ends_with_eof(tokens@),
        ensures
            p@ == (ParserView { tokens: tokens@, pos: 0, errors: seq![] }),
    {
        let p = Parser { tokens, pos: 0, errors: Vec::new() };
        assert(diagnostics_view(p.errors@) =~= seq![]);
        p
    }

    /// Drains the diagnostics recorded so far.
    pub fn take_errors(&mut self) -> (r: Vec<Diagnostic>)
        ensures
            diagnostics_view(r@) == old(self)@.errors,
            final(self)@ == (ParserView { errors: seq![], ..old(self)@ }),
    {
        let mut taken: Vec<Diagnostic> = Vec::new();
        std::mem::swap(&mut taken, &mut self.errors);
        assert(diagnostics_view(self.errors@) =~= seq![]);
        taken
    }

    /// Records a recoverable diagnostic.
    pub fn record(&mut self, d: Diagnostic)
        ensures
            final(self)@ == (ParserView { errors: old(self)@.errors.push(d@), ..old(self)@ }),
    {
        self.errors.push(d);
        assert(diagnostics_view(self.errors@) =~= diagnostics_view(old(self).errors@).push(d@));
    }
}

/// A parser the cursor operations accept: its stream ends with `Eof` and its
/// position is a token of the stream.
pub open spec fn cursor_ok(v: ParserView) -> bool {
    ends_with_eof(v.tokens) && v.pos < v.tokens.len()
}

/// The first position at or after `pos` that is not a newline.
pub open spec fn past_newlines(tokens: Seq<SpannedToken>, pos: int) -> int
    decreases tokens.len() - pos,
{
    if 0 <= pos < tokens.len() && tokens[pos].token == Token::Newline {
        past_newlines(tokens, pos + 1)
    } else {
        pos
    }
}

/// From `pos`, the position of the next newline or `Eof` and the furthest
/// span end reached on the way (at least `end`).
pub open spec fn statement_end_from(tokens: Seq<SpannedToken>, pos: int, end: int) -> (int, int)
    decreases tokens.len() - pos,
{
    if pos < 0 || pos >= tokens.len() {
        (pos, end)
    } else if tokens[pos].token == Token::Newline || tokens[pos].token == Token::Eof {
        (pos, end)
    } else {
        statement_end_from(
            tokens,
            pos + 1,
            if tokens[pos].span.end > end {
                tokens[pos].span.end as int
            } else {
                end
            },
        )
    }
}

pub proof fn lemma_eof_bounds_scans(tokens: Seq<SpannedToken>, pos: int)
    requires
        ends_with_eof(tokens),
        0 <= pos < tokens.len(),
    ensures
        pos <= past_newlines(tokens, pos) < tokens.len(),
        pos <= spec_skip_to_next_statement(tokens, pos).1 < tokens.len(),
    decreases tokens.len() - pos,
{
    if tokens[pos].token != Token::Eof {
        assert(pos + 1 < tokens.len());
        lemma_eof_bounds_scans(tokens, pos + 1);
    }
}

pub proof fn lemma_statement_end_bounds(tokens: Seq<SpannedToken>, pos: int, end: int)
    requires
        ends_with_eof(tokens),
        0 <= pos < tokens.len(),
    ensures
        pos <= statement_end_from(tokens, pos, end).0 < tokens.len(),
        statement_end_from(tokens, pos, end).1 >= end,
    decreases tokens.len() - pos,
{
    if tokens[pos].token != Token::Eof && tokens[pos].token != Token::Newline {
        lemma_statement_end_bounds(
            tokens,
            pos + 1,
            if tokens[pos].span.end > end {
                tokens[pos].span.end as int
            } else {
                end
            },
        );
    }
}

impl<'a> Parser<'a> {
    /// The current token.
    pub fn peek(&self) -> (t: &SpannedToken)
        requires
            cursor_ok(self@),
        ensures
            *t == self@.tokens[self@.pos as int],
    {
        &self.tokens[self.pos]
    }

    /// The end-of-file span: the last token's, or the empty span at the
    /// start.
    pub fn eof_span(&self) -> (s: Span)
        ensures
            s == (if self@.tokens.len() > 0 {
                self@.tokens.last().span
            } else {
                Span { start: 0, end: 0 }
            }),
    {
        if self.tokens.len() > 0 {
            self.tokens[self.tokens.len() - 1].span
        } else {
            Span::new(0, 0)
        }
    }

    /// True when the current token is `kind`.
    pub fn at(&self, kind: Token) -> (b: bool)
        requires
            cursor_ok(self@),
        ensures
            b == (self@.tokens[self@.pos as int].token == kind),
    {
        self.peek().token == kind
    }

    /// True at the end of the stream.
    pub fn at_eof(&self) -> (b: bool)
        requires
            cursor_ok(self@),
        ensures
            b == (self@.tokens[self@.pos as int].token == Token::Eof),
    {
        self.at(Token::Eof)
    }

    /// Consumes and returns the current token; stays put at `Eof`.
    pub fn advance(&mut self) -> (t: SpannedToken)
        requires
            cursor_ok(old(self)@),
        ensures
            t == old(self)@.tokens[old(self)@.pos as int],
            final(self)@ == (ParserView {
                pos: if t.token == Token::Eof {
                    old(self)@.pos
                } else {
                    old(self)@.pos + 1
                },
                ..old(self)@
            }),
            cursor_ok(final(self)@),
    {
        let token = self.tokens[self.pos];
        if token.token != Token::Eof {
            self.pos += 1;
        }
        token
    }

    /// Skips newline tokens.
    pub fn skip_newlines(&mut self)
        requires
            cursor_ok(old(self)@),
        ensures
            final(self)@ == (ParserView {
                pos: past_newlines(old(self)@.tokens, old(self)@.pos as int) as nat,
                ..old(self)@
            }),
            cursor_ok(final(self)@),
    {
        proof {
            lemma_eof_bounds_scans(self.tokens@, self.pos as int);
        }
        while self.at(Token::Newline)
            invariant
                cursor_ok(self@),
                self@.tokens == old(self)@.tokens,
                self@.errors == old(self)@.errors,
                old(self)@.pos <= self@.pos,
                past_newlines(self@.tokens, old(self)@.pos as int) == past_newlines(self@.tokens, self@.pos as int),
                past_newlines(self@.tokens, self@.pos as int) < self@.tokens.len(),
            decreases self@.tokens.len() - self@.pos,
        {
            let n = self.tokens.len();
            assert(self.pos + 1 < n);
            self.pos += 1;
        }
    }

    /// Moves past the rest of a failed statement: up to and including the
    /// next newline, stopping at `Eof`.
    pub fn skip_to_next_statement(&mut self)
        requires
            cursor_ok(old(self)@),
        ensures
            final(self)@ == (ParserView {
                pos: spec_skip_to_next_statement(old(self)@.tokens, old(self)@.pos as int).1 as nat,
                ..old(self)@
            }),
            cursor_ok(final(self)@),
    {
        proof {
            lemma_eof_bounds_scans(self.tokens@, self.pos as int);
        }
        let mut pos = self.pos;
        let _ = skip_to_next_statement(self.tokens, &mut pos);
        self.pos = pos;
    }

    /// Advances to (not past) the next newline or `Eof`; returns the end of
    /// the consumed region, never less than `end`.
    pub fn skip_to_statement_end(&mut self, end: usize) -> (r: usize)
        requires
            cursor_ok(old(self)@),
        ensures
            final(self)@ == (ParserView {
                pos: statement_end_from(old(self)@.tokens, old(self)@.pos as int, end as int).0 as nat,
                ..old(self)@
            }),
            r == statement_end_from(old(self)@.tokens, old(self)@.pos as int, end as int).1,
            cursor_ok(final(self)@),
    {
        proof {
            lemma_statement_end_bounds(self.tokens@, self.pos as int, end as int);
        }
        let ghost first = end as int;
        let mut end = end;
        loop
            invariant
                cursor_ok(self@),
                self@.tokens == old(self)@.tokens,
                self@.errors == old(self)@.errors,
                statement_end_from(old(self)@.tokens, old(self)@.pos as int, first)
                    == statement_end_from(self@.tokens, self@.pos as int, end as int),
            ensures
                cursor_ok(self@),
                self@.tokens == old(self)@.tokens,
                self@.errors == old(self)@.errors,
                statement_end_from(old(self)@.tokens, old(self)@.pos as int, first) == (
                    self@.pos as int,
                    end as int,
                ),
            decreases self@.tokens.len() - self@.pos,
        {
            let ghost before = self@;
            let token = *self.peek();
            if token.token == Token::Newline || token.token == Token::Eof {
                break ;
            }
            let ghost e0 = end as int;
            if token.span.end > end {
                end = token.span.end;
            }
            assert(statement_end_from(before.tokens, before.pos as int, e0) == statement_end_from(
                before.tokens,
                (before.pos + 1) as int,
                end as int,
            ));
            self.advance();
        }
        end
    }

    /// Moves past a failed statement and the newline ending it; returns the
    /// end of the consumed region, never less than `end`.
    pub fn recover_to_next_statement(&mut self, end: usize) -> (r: usize)
        requires
            cursor_ok(old(self)@),
        ensures
            ({
                let (stop, e) = statement_end_from(old(self)@.tokens, old(self)@.pos as int, end as int);
                &&& r == e
                &&& final(self)@ == (ParserView {
                    pos: if old(self)@.tokens[stop].token == Token::Newline {
                        (stop + 1) as nat
                    } else {
                        stop as nat
                    },
                    ..old(self)@
                })
            }),
            cursor_ok(final(self)@),
    {
        proof {
            lemma_statement_end_bounds(self.tokens@, self.pos as int, end as int);
        }
        let reached = self.skip_to_statement_end(end);
        if self.at(Token::Newline) {
            let n = self.tokens.len();
            assert(self.pos + 1 < n);
            self.pos += 1;
        }
        reached
    }
}

// ---------------------------------------------------------------------------
// Newline significance
// ---------------------------------------------------------------------------

/// The bracket kinds tracked by the newline pass.
#[derive(Debug, Clone, Copy, PartialEq, Eq, Structural)]
pub enum BracketKind {
    Paren,
    Bracket,
    Brace,
}

/// The state of the newline pass after a prefix of the stream.
#[verifier::ext_equal]
pub struct StripState {
    pub stack: Seq<BracketKind>,
    pub out: Seq<SpannedToken>,
    pub errors: Seq<DiagnosticView>,
    pub prev_can_end: bool,
    pub prev_was_type_kw: bool,
    pub index: int,
}

/// The token at or after `pos` where recovery resumes: the first newline
/// (kept, and skipped past) before the end of input.
pub open spec fn spec_skip_to_next_statement(tokens: Seq<SpannedToken>, pos: int) -> (Option<SpannedToken>, int)
    decreases tokens.len() - pos,
{
    if pos < 0 || pos >= tokens.len() {
        (None, pos)
    } else if tokens[pos].token == Token::Eof {
        (None, pos)
    } else if tokens[pos].token == Token::Newline {
        (Some(tokens[pos]), pos + 1)
    } else {
        spec_skip_to_next_statement(tokens, pos + 1)
    }
}

pub proof fn lemma_skip_to_next_statement_bounds(tokens: Seq<SpannedToken>, pos: int)
    requires
        0 <= pos,
    ensures
        spec_skip_to_next_statement(tokens, pos).1 >= pos,
        pos < tokens.len() && tokens[pos].token != Token::Eof && tokens[pos].token != Token::Newline
            ==> spec_skip_to_next_statement(tokens, pos).1 > pos,
    decreases tokens.len() - pos,
{
    if pos < tokens.len() && tokens[pos].token != Token::Eof && tokens[pos].token != Token::Newline {
        lemma_skip_to_next_statement_bounds(tokens, pos + 1);
    }
}

/// The index of the innermost open bracket of kind `k`.
pub open spec fn last_open(stack: Seq<BracketKind>, k: BracketKind) -> Option<int>
    decreases stack.len(),
{
    if stack.len() == 0 {
        None
    } else if stack.last() == k {
        Some(stack.len() - 1)
    } else {
        last_open(stack.drop_last(), k)
    }
}

pub open spec fn closing_kind(t: Token) -> BracketKind {
    match t {
        Token::RParen => BracketKind::Paren,
        Token::RBracket => BracketKind::Bracket,
        _ => BracketKind::Brace,
    }
}

pub open spec fn unbalanced_closing_message(t: Token) -> Seq<char> {
    match t {
        Token::RParen => "unbalanced closing parenthesis"@,
        Token::RBracket => "unbalanced closing bracket"@,
        _ => "unbalanced closing brace"@,
    }
}

pub open spec fn unbalanced_opening_message(k: BracketKind) -> Seq<char> {
    match k {
        BracketKind::Paren => "unbalanced opening parenthesis"@,
        BracketKind::Bracket => "unbalanced opening bracket"@,
        BracketKind::Brace => "unbalanced opening brace"@,
    }
}

/// `s` after keeping `t` with the given flags and moving to the next token.
pub open spec fn keep(s: StripState, t: SpannedToken, can_end: bool, type_kw: bool) -> StripState {
    StripState {
        out: s.out.push(t),
        prev_can_end: can_end,
        prev_was_type_kw: type_kw,
        index: s.index + 1,
        ..s
    }
}

/// One step of the newline pass, at token `s.index`.
pub open spec fn strip_step(tokens: Seq<SpannedToken>, s: StripState) -> StripState {
    let i = s.index;
    let t = tokens[i];
    match t.token {
        Token::Newline => {
            let next_starts = i + 1 < tokens.len() && spec_starts_statement(tokens[i + 1].token);
            let significant = if s.stack.len() > 0 {
                s.stack.last() != BracketKind::Paren
            } else {
                s.prev_can_end || s.prev_was_type_kw || next_starts
            };
            if significant {
                keep(s, t, false, false)
            } else {
                StripState { index: i + 1, ..s }
            }
        },
        Token::LParen => keep(StripState { stack: s.stack.push(BracketKind::Paren), ..s }, t, false, false),
        Token::LBracket => keep(StripState { stack: s.stack.push(BracketKind::Bracket), ..s }, t, false, false),
        Token::LBrace => keep(StripState { stack: s.stack.push(BracketKind::Brace), ..s }, t, false, false),
        Token::RParen | Token::RBracket | Token::RBrace => {
            let expected = closing_kind(t.token);
            if s.stack.len() > 0 && s.stack.last() == expected {
                keep(StripState { stack: s.stack.drop_last(), ..s }, t, true, false)
            } else if last_open(s.stack, expected) is Some {
                keep(
                    StripState { stack: s.stack.take(last_open(s.stack, expected)->0), ..s },
                    t,
                    true,
                    false,
                )
            } else if s.stack.len() == 0 && t.token != Token::RParen {
                keep(s, t, spec_can_end_statement(t.token), false)
            } else {
                let (resume, next) = spec_skip_to_next_statement(tokens, i);
                StripState {
                    stack: seq![],
                    out: match resume {
                        Some(r) => s.out.push(r),
                        None => s.out,
                    },
                    errors: s.errors.push(
                        DiagnosticView { message: unbalanced_closing_message(t.token), span: t.span },
                    ),
                    prev_can_end: false,
                    prev_was_type_kw: false,
                    index: next,
                }
            }
        },
        _ => keep(s, t, spec_can_end_statement(t.token), spec_is_type_keyword(t.token)),
    }
}

/// The newline pass from state `s` to the end of the stream.
pub open spec fn strip_from(tokens: Seq<SpannedToken>, s: StripState) -> StripState
    decreases if s.index < tokens.len() {
        tokens.len() - s.index
    } else {
        0
    },
{
    if s.index < 0 || s.index >= tokens.len() {
        s
    } else {
        let s2 = strip_step(tokens, s);
        if s2.index <= s.index {
            s2
        } else {
            strip_from(tokens, s2)
        }
    }
}

/// The span reported for a bracket left open at the end: the final `Eof`
/// token's, or the empty span at the start.
pub open spec fn eof_span(tokens: Seq<SpannedToken>) -> Span {
    if ends_with_eof(tokens) {
        tokens.last().span
    } else {
        Span { start: 0, end: 0 }
    }
}

/// What the newline pass makes of `tokens`: the tokens kept and the
/// diagnostics recorded.
pub open spec fn spec_strip(tokens: Seq<SpannedToken>) -> (Seq<SpannedToken>, Seq<DiagnosticView>) {
    let s = strip_from(
        tokens,
        StripState {
            stack: seq![],
            out: seq![],
            errors: seq![],
            prev_can_end: false,
            prev_was_type_kw: false,
            index: 0,
        },
    );
    let errors = if s.stack.len() > 0 {
        s.errors.push(DiagnosticView { message: unbalanced_opening_message(s.stack.last()), span: eof_span(tokens) })
    } else {
        s.errors
    };
    (s.out, errors)
}

/// Advances `pos` past every token up to and including the next newline,
/// returning that newline; stops (returning `None`) at `Eof` or the end of
/// the stream.
pub fn skip_to_next_statement(tokens: &[SpannedToken], pos: &mut usize) -> (r: Option<SpannedToken>)
    requires
        *old(pos) <= tokens@.len(),
    ensures
        (r, *final(pos) as int) == spec_skip_to_next_statement(tokens@, *old(pos) as int),
        *old(pos) <= *final(pos) <= tokens@.len(),
{
    while *pos < tokens.len()
        invariant
            *old(pos) <= *pos <= tokens@.len(),
            spec_skip_to_next_statement(tokens@, *old(pos) as int) == spec_skip_to_next_statement(
                tokens@,
                *pos as int,
            ),
        decreases tokens.len() - *pos,
    {
        let token = tokens[*pos];
        if token.token == Token::Eof {
            return None;
        }
        if token.token == Token::Newline {
            *pos = *pos + 1;
            return Some(token);
        }
        *pos = *pos + 1;
    }
    None
}

fn last_open_exec(stack: &Vec<BracketKind>, k: BracketKind) -> (r: Option<usize>)
    ensures
        match r {
            Some(d) => last_open(stack@, k) == Some(d as int) && d < stack@.len(),
            None => last_open(stack@, k) is None,
        },
{
    let mut d = stack.len();
    assert(stack@.take(d as int) =~= stack@);
    while d > 0
        invariant
            d <= stack@.len(),
            last_open(stack@, k) == last_open(stack@.take(d as int), k),
        decreases d,
    {
        assert(stack@.take(d as int).drop_last() =~= stack@.take(d - 1));
        if stack[d - 1] == k {
            return Some(d - 1);
        }
        d -= 1;
    }
    None
}

pub open spec fn strip_state(
    stack: Seq<BracketKind>,
    out: Seq<SpannedToken>,
    errors: Seq<Diagnostic>,
    prev_can_end: bool,
    prev_was_type_kw: bool,
    index: int,
) -> StripState {
    StripState { stack, out, errors: diagnostics_view(errors), prev_can_end, prev_was_type_kw, index }
}

impl<'a> Parser<'a> {
    /// The newline pass with every diagnostic: newlines inside parentheses
    /// are dropped, newlines inside brackets and braces kept, and a
    /// top-level newline kept when the token before it can end a statement,
    /// is a type keyword, or the token after it starts a statement. A
    /// closing bracket that closes an outer bracket closes the inner ones
    /// with it; one that matches nothing is reported, and the pass resumes
    /// after the next newline.
    pub fn strip_insignificant_newlines_with_errors(tokens: Vec<SpannedToken>) -> (r: (
        Vec<SpannedToken>,
        Vec<Diagnostic>,
    ))
        ensures
            (r.0@, diagnostics_view(r.1@)) == spec_strip(tokens@),
    {
        let n = tokens.len();
        let mut stack: Vec<BracketKind> = Vec::new();
        let mut out: Vec<SpannedToken> = Vec::new();
        let mut errors: Vec<Diagnostic> = Vec::new();
        let mut prev_can_end = false;
        let mut prev_was_type_kw = false;
        let mut index: usize = 0;
        let ghost init = StripState {
            stack: seq![],
            out: seq![],
            errors: seq![],
            prev_can_end: false,
            prev_was_type_kw: false,
            index: 0,
        };
        assert(strip_state(stack@, out@, errors@, false, false, 0) == init) by {
            assert(diagnostics_view(errors@) =~= seq![]);
        }
        while index < n
            invariant
                n == tokens@.len(),
                index <= n,
                strip_from(tokens@, init) == strip_from(
                    tokens@,
                    strip_state(stack@, out@, errors@, prev_can_end, prev_was_type_kw, index as int),
                ),
            decreases n - index,
        {
            let ghost s = strip_state(stack@, out@, errors@, prev_can_end, prev_was_type_kw, index as int);
            let ghost s2 = strip_step(tokens@, s);
            let t = tokens[index];
            match t.token {
                Token::Newline => {
                    let next_starts = index + 1 < n && tokens[index + 1].token.starts_statement();
                    let significant = if stack.len() > 0 {
                        stack[stack.len() - 1] != BracketKind::Paren
                    } else {
                        prev_can_end || prev_was_type_kw || next_starts
                    };
                    if significant {
                        out.push(t);
                        prev_can_end = false;
                        prev_was_type_kw = false;
                    }
                },
                Token::LParen | Token::LBracket | Token::LBrace => {
                    let kind = match t.token {
                        Token::LParen => BracketKind::Paren,
                        Token::LBracket => BracketKind::Bracket,
                        _ => BracketKind::Brace,
                    };
                    stack.push(kind);
                    prev_can_end = false;
                    prev_was_type_kw = false;
                    out.push(t);
                },
                Token::RParen | Token::RBracket | Token::RBrace => {
                    let expected = match t.token {
                        Token::RParen => BracketKind::Paren,
                        Token::RBracket => BracketKind::Bracket,
                        _ => BracketKind::Brace,
                    };
                    if stack.len() > 0 && stack[stack.len() - 1] == expected {
                        stack.pop();
                        prev_can_end = true;
                        prev_was_type_kw = false;
                        out.push(t);
                    } else {
                        match last_open_exec(&stack, expected) {
                            Some(depth) => {
                                stack.truncate(depth);
                                prev_can_end = true;
                                prev_was_type_kw = false;
                                out.push(t);
                            },
                            None => {
                                if stack.len() == 0 && t.token != Token::RParen {
                                    prev_can_end = can_end_statement(&t.token);
                                    prev_was_type_kw = false;
                                    out.push(t);
                                } else {
                                    let message = match t.token {
                                        Token::RParen => String::from_str("unbalanced closing parenthesis"),
                                        Token::RBracket => String::from_str("unbalanced closing bracket"),
                                        _ => String::from_str("unbalanced closing brace"),
                                    };
                                    let d = Diagnostic::parse(message, t.span);
                                    errors.push(d);
                                    proof {
                                        assert(diagnostics_view(errors@) =~= s.errors.push(d@));
                                    }
                                    let mut pos = index;
                                    proof {
                                        lemma_skip_to_next_statement_bounds(tokens@, index as int);
                                    }
                                    match skip_to_next_statement(tokens.as_slice(), &mut pos) {
                                        Some(resume) => {
                                            out.push(resume);
                                        },
                                        None => {},
                                    }
                                    stack.clear();
                                    prev_can_end = false;
                                    prev_was_type_kw = false;
                                    assert(strip_state(stack@, out@, errors@, false, false, pos as int) =~= s2);
                                    index = pos;
                                    continue ;
                                }
                            },
                        }
                    }
                },
                _ => {
                    prev_can_end = can_end_statement(&t.token);
                    prev_was_type_kw = t.token.is_type_keyword();
                    out.push(t);
                },
            }
            index += 1;
            assert(strip_state(stack@, out@, errors@, prev_can_end, prev_was_type_kw, index as int) =~= s2);
        }
        let ghost fin = strip_state(stack@, out@, errors@, prev_can_end, prev_was_type_kw, index as int);
        if stack.len() > 0 {
            let eof = if n > 0 && tokens[n - 1].token == Token::Eof {
                tokens[n - 1].span
            } else {
                Span::new(0, 0)
            };
            let message = match stack[stack.len() - 1] {
                BracketKind::Paren => String::from_str("unbalanced opening parenthesis"),
                BracketKind::Bracket => String::from_str("unbalanced opening bracket"),
                BracketKind::Brace => String::from_str("unbalanced opening brace"),
            };
            let d = Diagnostic::parse(message, eof);
            errors.push(d);
            assert(diagnostics_view(errors@) =~= fin.errors.push(d@));
        }
        (out, errors)
    }

    /// The newline pass, failing on its first diagnostic.
    pub fn strip_insignificant_newlines(tokens: Vec<SpannedToken>) -> (r: Result<
        Vec<SpannedToken>,
        Diagnostic,
    >)
        ensures
            match r {
                Ok(kept) => spec_strip(tokens@).1.len() == 0 && kept@ == spec_strip(tokens@).0,
                Err(d) => spec_strip(tokens@).1.len() > 0 && d@ == spec_strip(tokens@).1[0],
            },
    {
        let (kept, mut errors) = Self::strip_insignificant_newlines_with_errors(tokens);
        if errors.len() == 0 {
            Ok(kept)
        } else {
            let d = errors.remove(0);
            Err(d)
        }
    }
}

/// The tokens of `s` other than newlines, in order.
pub open spec fn non_newlines(s: Seq<SpannedToken>) -> Seq<SpannedToken>
    decreases s.len(),
{
    if s.len() == 0 {
        seq![]
    } else if s.last().token == Token::Newline {
        non_newlines(s.drop_last())
    } else {
        non_newlines(s.drop_last()).push(s.last())
    }
}

/// While the pass has reported nothing, what it kept of the tokens before
/// `s.index` is all of them but some newlines.
pub open spec fn strip_inv(tokens: Seq<SpannedToken>, s: StripState) -> bool {
    &&& 0 <= s.index <= tokens.len()
    &&& s.errors.len() == 0 ==> non_newlines(s.out) == non_newlines(tokens.take(s.index))
}

proof fn lemma_strip_step_inv(tokens: Seq<SpannedToken>, s: StripState)
    requires
        strip_inv(tokens, s),
        s.index < tokens.len(),
    ensures
        strip_inv(tokens, strip_step(tokens, s)),
        strip_step(tokens, s).index > s.index,
        strip_step(tokens, s).errors.len() >= s.errors.len(),
{
    let i = s.index;
    let t = tokens[i];
    let s2 = strip_step(tokens, s);
    assert(tokens.take(i + 1).drop_last() =~= tokens.take(i));
    assert(tokens.take(i + 1).last() == t);
    assert(s.out.push(t).drop_last() =~= s.out);
    if t.token != Token::Newline && !(s2.errors.len() > s.errors.len()) {
        assert(s2.out =~= s.out.push(t));
    }
    if t.token == Token::RParen || t.token == Token::RBracket || t.token == Token::RBrace {
        lemma_skip_to_next_statement_bounds(tokens, i);
        lemma_skip_to_next_statement_end(tokens, i);
    }
}

pub proof fn lemma_skip_to_next_statement_end(tokens: Seq<SpannedToken>, pos: int)
    requires
        0 <= pos <= tokens.len(),
    ensures
        spec_skip_to_next_statement(tokens, pos).1 <= tokens.len(),
    decreases tokens.len() - pos,
{
    if pos < tokens.len() && tokens[pos].token != Token::Eof && tokens[pos].token != Token::Newline {
        lemma_skip_to_next_statement_end(tokens, pos + 1);
    }
}

proof fn lemma_strip_from_inv(tokens: Seq<SpannedToken>, s: StripState)
    requires
        strip_inv(tokens, s),
    ensures
        strip_inv(tokens, strip_from(tokens, s)),
        strip_from(tokens, s).index == tokens.len(),
        strip_from(tokens, s).errors.len() >= s.errors.len(),
    decreases tokens.len() - s.index,
{
    if s.index < tokens.len() {
        lemma_strip_step_inv(tokens, s);
        lemma_strip_from_inv(tokens, strip_step(tokens, s));
    }
}

/// A stream on which the newline pass reports nothing keeps every token
/// other than newlines, in order: the pass only ever drops newlines.
pub proof fn lemma_strip_keeps_non_newlines(tokens: Seq<SpannedToken>)
    ensures
        spec_strip(tokens).1.len() == 0 ==> non_newlines(spec_strip(tokens).0) == non_newlines(tokens),
{
    let init = StripState {
        stack: seq![],
        out: seq![],
        errors: seq![],
        prev_can_end: false,
        prev_was_type_kw: false,
        index: 0,
    };
    assert(tokens.take(0) =~= Seq::<SpannedToken>::empty());
    lemma_strip_from_inv(tokens, init);
    assert(tokens.take(tokens.len() as int) =~= tokens);
}

// ---------------------------------------------------------------------------
// Interpolated-string chunks
// ---------------------------------------------------------------------------

/// The character an accepted escape (`\n`, `\t`, `\\`, `\"`) stands for.
pub open spec fn escape_target(c: char) -> char {
    if c == 'n' {
        '\n'
    } else if c == 't' {
        '\t'
    } else {
        c
    }
}

pub open spec fn is_accepted_escape(c: char) -> bool {
    c == 'n' || c == 't' || c == '\\' || c == '"'
}

/// A chunk with its accepted escapes resolved; a backslash before anything
/// else stays a backslash.
pub open spec fn spec_unescape(s: Seq<char>) -> Seq<char>
    decreases s.len(),
{
    if s.len() == 0 {
        seq![]
    } else if s[0] != '\\' {
        seq![s[0]] + spec_unescape(s.drop_first())
    } else if s.len() >= 2 && is_accepted_escape(s[1]) {
        seq![escape_target(s[1])] + spec_unescape(s.skip(2))
    } else {
        seq!['\\'] + spec_unescape(s.drop_first())
    }
}

/// In an interpolated-string chunk, `\n` reads as a line feed, `\t` as a
/// tab, `\\` as one backslash and `\"` as a quote; a backslash before
/// anything else stays a backslash.
pub proof fn lemma_unescape_reads_each_escape(s: Seq<char>)
    requires
        s.len() >= 2,
        s[0] == '\\',
    ensures
        s[1] == 'n' ==> spec_unescape(s) == seq!['\n'] + spec_unescape(s.skip(2)),
        s[1] == 't' ==> spec_unescape(s) == seq!['\t'] + spec_unescape(s.skip(2)),
        s[1] == '\\' ==> spec_unescape(s) == seq!['\\'] + spec_unescape(s.skip(2)),
        s[1] == '"' ==> spec_unescape(s) == seq!['"'] + spec_unescape(s.skip(2)),
        !(s[1] == 'n' || s[1] == 't' || s[1] == '\\' || s[1] == '"') ==> spec_unescape(s) == seq!['\\']
            + spec_unescape(s.drop_first()),
{
}

/// Resolves the escapes of an interpolated-string chunk: `\n`, `\t`, `\\`
/// and `\"`.
pub fn unescape_interp_literal(chunk: &str) -> (r: String)
    ensures
        r@ == spec_unescape(chunk@),
{
    let s = chars_of(chunk);
    let n = s.len();
    let mut out: Vec<char> = Vec::new();
    let mut i: usize = 0;
    assert(out@ + spec_unescape(s@.skip(0)) =~= spec_unescape(s@)) by {
        assert(s@.skip(0) =~= s@);
    }
    while i < n
        invariant
            n == s@.len(),
            s@ == chunk@,
            i <= n,
            out@ + spec_unescape(s@.skip(i as int)) == spec_unescape(s@),
        decreases n - i,
    {
        let ghost rest = s@.skip(i as int);
        let c = s[i];
        if c != '\\' {
            out.push(c);
            i += 1;
            assert(rest.drop_first() =~= s@.skip(i as int));
            assert(out@ + spec_unescape(s@.skip(i as int)) =~= spec_unescape(s@));
        } else if i + 1 < n && (s[i + 1] == 'n' || s[i + 1] == 't' || s[i + 1] == '\\' || s[i + 1] == '"') {
            let e = s[i + 1];
            let mapped = if e == 'n' {
                '\n'
            } else if e == 't' {
                '\t'
            } else {
                e
            };
            out.push(mapped);
            i += 2;
            assert(rest.skip(2) =~= s@.skip(i as int));
            assert(out@ + spec_unescape(s@.skip(i as int)) =~= spec_unescape(s@));
        } else {
            out.push('\\');
            i += 1;
            assert(rest.drop_first() =~= s@.skip(i as int));
            assert(out@ + spec_unescape(s@.skip(i as int)) =~= spec_unescape(s@));
        }
    }
    assert(s@.skip(i as int) =~= Seq::<char>::empty());
    assert(out@ =~= spec_unescape(s@));
    string_from_chars(out.as_slice())
}

} // verus!
