//! The pattern-text parser: turns a `magic` declaration's pattern source
//! into a [`Pattern`]. Both `ruleref IDENT` / `$fragment IDENT` and
//! `… as BIND` bind forms are accepted and mean the same. Elements are
//! whitespace-separated; `//` and `/* */` comments are transparent inside
//! pattern text. Positions are character offsets into the pattern text.

use vstd::prelude::*;

use crate::diagnostics::{Diagnostic, DiagnosticView, Span};
use crate::mega::ctxexpr::{
    CtxExpr, ExprView, at, at_exec, digits_value, error_at, error_exec, error_str, expr_view,
    parse_expr, spec_parse_ctx_expr, trivia, trivia_end, word_at,
};
use crate::mega::profile::{
    CharItem, CharSet, CharSetView, LexProfile, checkmate_scan_profile, cm, lemma_skip_wsc_bounds,
    lemma_word_len, next_word, parse_string_literal, spec_string_literal, word_is, word_len,
};
use crate::order::strings_view;
use crate::text::{chars_of, is_ascii_alpha, is_ascii_digit, push_chars, push_str, string_from_chars};

verus! {

/// What a `$fragment` matches.
#[derive(Debug)]
pub enum FragKind {
    Ident,
    Word,
    Tag,
    Int,
    Float,
    Str,
    Tt,
    Text,
    Template,
    /// Raw text, optionally checked by a grammar rule.
    Raw(Option<Vec<String>>),
    Expr,
    Type,
    Block,
}

/// A parsed pattern: a sequence of elements.
#[derive(Debug)]
pub struct Pattern {
    pub elems: Vec<PatElem>,
}

/// One pattern element and the span of pattern text it was parsed from.
#[derive(Debug)]
pub struct PatElem {
    pub span: Span,
    pub kind: PatKind,
}

/// The kinds of pattern elements.
#[derive(Debug)]
pub enum PatKind {
    Lit { text: String, insensitive: bool },
    Class { set: CharSet, bind: Option<String> },
    Fragment { kind: FragKind, insensitive: bool, validator: Option<Vec<String>>, bind: Option<String> },
    Group { body: Box<Pattern>, bind: Option<String> },
    Any { bind: Option<String> },
    Scan { set: CharSet, bind: Option<String> },
    Until { stop: Box<Pattern>, bind: Option<String> },
    LineRest { bind: Option<String> },
    Eol,
    Line,
    Eof,
    Soft(Box<Pattern>),
    Optional { body: Box<Pattern>, bind: Option<String> },
    Each {
        plus: bool,
        sep: Option<Box<Pattern>>,
        trailing: bool,
        bounds: Option<(u32, Option<u32>)>,
        body: Box<Pattern>,
        bind: Option<String>,
    },
    OneOf { branches: Vec<(String, Pattern)>, bind: Option<String> },
    Peek { negated: bool, body: Box<Pattern> },
    Recur,
    Indent { body: Option<Box<Pattern>>, verbatim: Option<String> },
    Raw(Box<Pattern>),
    Where { cond: CtxExpr },
    Label { message: String, body: Box<Pattern> },
    RuleRef { path: Vec<String>, ctx: Vec<(String, CtxExpr)>, bind: Option<String> },
}

pub enum FragView {
    Ident,
    Word,
    Tag,
    Int,
    Float,
    Str,
    Tt,
    Text,
    Template,
    Raw(Option<Seq<Seq<char>>>),
    Expr,
    Type,
    Block,
}

pub struct PatternView {
    pub elems: Seq<ElemView>,
}

pub struct ElemView {
    pub span: Span,
    pub kind: KindView,
}

pub enum KindView {
    Lit { text: Seq<char>, insensitive: bool },
    Class { set: CharSetView, bind: Option<Seq<char>> },
    Fragment {
        kind: FragView,
        insensitive: bool,
        validator: Option<Seq<Seq<char>>>,
        bind: Option<Seq<char>>,
    },
    Group { body: Box<PatternView>, bind: Option<Seq<char>> },
    Any { bind: Option<Seq<char>> },
    Scan { set: CharSetView, bind: Option<Seq<char>> },
    Until { stop: Box<PatternView>, bind: Option<Seq<char>> },
    LineRest { bind: Option<Seq<char>> },
    Eol,
    Line,
    Eof,
    Soft(Box<PatternView>),
    Optional { body: Box<PatternView>, bind: Option<Seq<char>> },
    Each {
        plus: bool,
        sep: Option<Box<PatternView>>,
        trailing: bool,
        bounds: Option<(u32, Option<u32>)>,
        body: Box<PatternView>,
        bind: Option<Seq<char>>,
    },
    OneOf { branches: Seq<(Seq<char>, PatternView)>, bind: Option<Seq<char>> },
    Peek { negated: bool, body: Box<PatternView> },
    Recur,
    Indent { body: Option<Box<PatternView>>, verbatim: Option<Seq<char>> },
    Raw(Box<PatternView>),
    Where { cond: ExprView },
    Label { message: Seq<char>, body: Box<PatternView> },
    RuleRef { path: Seq<Seq<char>>, ctx: Seq<(Seq<char>, ExprView)>, bind: Option<Seq<char>> },
}

pub open spec fn opt_view(o: Option<String>) -> Option<Seq<char>> {
    match o {
        Some(s) => Some(s@),
        None => None,
    }
}

pub open spec fn opt_path_view(o: Option<Vec<String>>) -> Option<Seq<Seq<char>>> {
    match o {
        Some(p) => Some(strings_view(p@)),
        None => None,
    }
}

pub open spec fn frag_view(k: FragKind) -> FragView {
    match k {
        FragKind::Ident => FragView::Ident,
        FragKind::Word => FragView::Word,
        FragKind::Tag => FragView::Tag,
        FragKind::Int => FragView::Int,
        FragKind::Float => FragView::Float,
        FragKind::Str => FragView::Str,
        FragKind::Tt => FragView::Tt,
        FragKind::Text => FragView::Text,
        FragKind::Template => FragView::Template,
        FragKind::Raw(p) => FragView::Raw(opt_path_view(p)),
        FragKind::Expr => FragView::Expr,
        FragKind::Type => FragView::Type,
        FragKind::Block => FragView::Block,
    }
}

pub open spec fn bindings_view(s: Seq<(String, CtxExpr)>) -> Seq<(Seq<char>, ExprView)> {
    s.map_values(|b: (String, CtxExpr)| (b.0@, expr_view(b.1)))
}

pub open spec fn pattern_view(p: Pattern) -> PatternView
    decreases p,
{
    PatternView { elems: elems_view(p.elems@) }
}

pub open spec fn elems_view(s: Seq<PatElem>) -> Seq<ElemView>
    decreases s,
{
    if s.len() == 0 {
        seq![]
    } else {
        seq![ElemView { span: s[0].span, kind: kind_view(s[0].kind) }] + elems_view(
            s.subrange(1, s.len() as int),
        )
    }
}

pub open spec fn branches_view(s: Seq<(String, Pattern)>) -> Seq<(Seq<char>, PatternView)>
    decreases s,
{
    if s.len() == 0 {
        seq![]
    } else {
        seq![(s[0].0@, pattern_view(s[0].1))] + branches_view(s.subrange(1, s.len() as int))
    }
}

pub open spec fn kind_view(k: PatKind) -> KindView
    decreases k,
{
    match k {
        PatKind::Lit { text, insensitive } => KindView::Lit { text: text@, insensitive },
        PatKind::Class { set, bind } => KindView::Class { set: set@, bind: opt_view(bind) },
        PatKind::Fragment { kind, insensitive, validator, bind } => KindView::Fragment {
            kind: frag_view(kind),
            insensitive,
            validator: opt_path_view(validator),
            bind: opt_view(bind),
        },
        PatKind::Group { body, bind } => KindView::Group {
            body: Box::new(pattern_view(*body)),
            bind: opt_view(bind),
        },
        PatKind::Any { bind } => KindView::Any { bind: opt_view(bind) },
        PatKind::Scan { set, bind } => KindView::Scan { set: set@, bind: opt_view(bind) },
        PatKind::Until { stop, bind } => KindView::Until {
            stop: Box::new(pattern_view(*stop)),
            bind: opt_view(bind),
        },
        PatKind::LineRest { bind } => KindView::LineRest { bind: opt_view(bind) },
        PatKind::Eol => KindView::Eol,
        PatKind::Line => KindView::Line,
        PatKind::Eof => KindView::Eof,
        PatKind::Soft(body) => KindView::Soft(Box::new(pattern_view(*body))),
        PatKind::Optional { body, bind } => KindView::Optional {
            body: Box::new(pattern_view(*body)),
            bind: opt_view(bind),
        },
        PatKind::Each { plus, sep, trailing, bounds, body, bind } => KindView::Each {
            plus,
            sep: match sep {
                Some(s) => Some(Box::new(pattern_view(*s))),
                None => None,
            },
            trailing,
            bounds,
            body: Box::new(pattern_view(*body)),
            bind: opt_view(bind),
        },
        PatKind::OneOf { branches, bind } => KindView::OneOf {
            branches: branches_view(branches@),
            bind: opt_view(bind),
        },
        PatKind::Peek { negated, body } => KindView::Peek { negated, body: Box::new(pattern_view(*body)) },
        PatKind::Recur => KindView::Recur,
        PatKind::Indent { body, verbatim } => KindView::Indent {
            body: match body {
                Some(b) => Some(Box::new(pattern_view(*b))),
                None => None,
            },
            verbatim: opt_view(verbatim),
        },
        PatKind::Raw(body) => KindView::Raw(Box::new(pattern_view(*body))),
        PatKind::Where { cond } => KindView::Where { cond: expr_view(cond) },
        PatKind::Label { message, body } => KindView::Label {
            message: message@,
            body: Box::new(pattern_view(*body)),
        },
        PatKind::RuleRef { path, ctx, bind } => KindView::RuleRef {
            path: strings_view(path@),
            ctx: bindings_view(ctx@),
            bind: opt_view(bind),
        },
    }
}


// ---------------------------------------------------------------------------
// Lexical pieces
// ---------------------------------------------------------------------------

/// Words that head pattern constructs or bind syntax, so never name an
/// implicit capture.
pub open spec fn is_reserved(w: Seq<char>) -> bool {
    w == "each"@ || w == "sep"@ || w == "trailing"@ || w == "optional"@ || w == "oneof"@ || w
        == "peek"@ || w == "not"@ || w == "until"@ || w == "lineRest"@ || w == "eol"@ || w
        == "line"@ || w == "eof"@ || w == "soft"@ || w == "indent"@ || w == "raw"@ || w
        == "where"@ || w == "label"@ || w == "as"@ || w == "with"@ || w == "context"@ || w
        == "recur"@ || w == "verbatim"@ || w == "in"@
}

fn is_reserved_exec(w: &Vec<char>) -> (b: bool)
    ensures
        b == is_reserved(w@),
{
    word_is(w, "each") || word_is(w, "sep") || word_is(w, "trailing") || word_is(w, "optional")
        || word_is(w, "oneof") || word_is(w, "peek") || word_is(w, "not") || word_is(w, "until")
        || word_is(w, "lineRest") || word_is(w, "eol") || word_is(w, "line") || word_is(w, "eof")
        || word_is(w, "soft") || word_is(w, "indent") || word_is(w, "raw") || word_is(w, "where")
        || word_is(w, "label") || word_is(w, "as") || word_is(w, "with") || word_is(w, "context")
        || word_is(w, "recur") || word_is(w, "verbatim") || word_is(w, "in")
}

/// The word at `c` can be an implicit bind.
pub open spec fn at_implicit_bind(t: Seq<char>, c: int) -> bool {
    let w = word_at(t, c);
    w.len() > 0 && !is_reserved(w) && is_ascii_alpha(w[0])
}

/// A line feed lies in `t[a..b]`.
pub open spec fn has_line_feed(t: Seq<char>, a: int, b: int) -> bool {
    exists|k: int| a <= k < b && #[trigger] t[k] == '\n'
}

fn has_line_feed_exec(t: &[char], a: usize, b: usize) -> (r: bool)
    requires
        a <= b <= t@.len(),
    ensures
        r == has_line_feed(t@, a as int, b as int),
{
    let mut k = a;
    while k < b
        invariant
            a <= k <= b <= t@.len(),
            forall|j: int| a <= j < k ==> t@[j] != '\n',
        decreases b - k,
    {
        if t[k] == '\n' {
            return true;
        }
        k += 1;
    }
    false
}

/// The span of an element parsed from `start` to `end`, clamped into the
/// pattern's span.
pub open spec fn element_span(span: Span, start: int, end: int) -> Span {
    let from = if span.start + start <= span.end {
        span.start + start
    } else {
        span.end as int
    };
    let to = if span.start + end <= span.end {
        span.start + end
    } else {
        span.end as int
    };
    Span { start: from as usize, end: (if to < from { from } else { to }) as usize }
}

pub(crate) fn element_span_exec(span: Span, start: usize, end: usize) -> (r: Span)
    requires
        span.start + start <= usize::MAX,
        span.start + end <= usize::MAX,
    ensures
        r == element_span(span, start as int, end as int),
{
    let from = if span.start + start <= span.end {
        span.start + start
    } else {
        span.end
    };
    let to = if span.start + end <= span.end {
        span.start + end
    } else {
        span.end
    };
    Span::new(
        from,
        if to < from {
            from
        } else {
            to
        },
    )
}

/// `as NAME` at `c` (after trivia), if present.
pub open spec fn as_bind(t: Seq<char>, c: int) -> (Option<Seq<char>>, int) {
    let c1 = trivia_end(t, c);
    if word_at(t, c1) == "as"@ {
        let c2 = trivia_end(t, c1 + 2);
        let b = word_at(t, c2);
        (Some(b), c2 + b.len())
    } else {
        (None, c1)
    }
}

/// An `as NAME` bind, or an implicit bind: an identifier that is no
/// reserved word, on the element's own line.
pub open spec fn trailing_bind(t: Seq<char>, c: int) -> (Option<Seq<char>>, int) {
    let c1 = trivia_end(t, c);
    if word_at(t, c1) == "as"@ {
        as_bind(t, c1)
    } else if has_line_feed(t, c, c1) {
        (None, c)
    } else if at_implicit_bind(t, c1) {
        (Some(word_at(t, c1)), c1 + word_at(t, c1).len())
    } else {
        (None, c)
    }
}

pub(crate) fn word_string(w: &Vec<char>) -> (s: String)
    ensures
        s@ == w@,
{
    string_from_chars(w.as_slice())
}

fn as_bind_exec(t: &[char], c: usize, sc: &LexProfile) -> (r: (Option<String>, usize))
    requires
        c <= t@.len(),
        t@.len() <= usize::MAX,
        sc@ == cm(),
    ensures
        (opt_view(r.0), r.1 as int) == as_bind(t@, c as int),
        c <= r.1 <= t@.len(),
{
    proof {
        reveal_strlit("as");
    }
    let c1 = trivia(t, c, sc);
    let w = next_word(t, c1);
    proof {
        lemma_word_len(t@, c1 as int);
    }
    if word_is(&w, "as") {
        assert(w@.len() == 2);
        assert(w@.len() == word_len(t@, c1 as int));
        let c2 = trivia(t, c1 + 2, sc);
        let b = next_word(t, c2);
        (Some(word_string(&b)), c2 + b.len())
    } else {
        (None, c1)
    }
}

fn trailing_bind_exec(t: &[char], c: usize, sc: &LexProfile) -> (r: (Option<String>, usize))
    requires
        c <= t@.len(),
        t@.len() <= usize::MAX,
        sc@ == cm(),
    ensures
        (opt_view(r.0), r.1 as int) == trailing_bind(t@, c as int),
        c <= r.1 <= t@.len(),
{
    proof {
        reveal_strlit("as");
    }
    let c1 = trivia(t, c, sc);
    let w = next_word(t, c1);
    if word_is(&w, "as") {
        return as_bind_exec(t, c1, sc);
    }
    if has_line_feed_exec(t, c, c1) {
        return (None, c);
    }
    if w.len() > 0 && !is_reserved_exec(&w) && crate::text::char_is_ascii_alpha(w[0]) {
        return (Some(word_string(&w)), c1 + w.len());
    }
    (None, c)
}

/// The run of decimal digits at `c`.
pub open spec fn digit_run(t: Seq<char>, c: int) -> Seq<char> {
    t.subrange(c, c + crate::text::leading_count(t.skip(c), |ch: char| is_ascii_digit(ch)) as int)
}

/// A decimal number at `c`.
pub open spec fn spec_int(t: Seq<char>, c: int, span: Span) -> (Result<u32, DiagnosticView>, int) {
    let d = digit_run(t, c);
    if d.len() == 0 {
        (Err(error_at(span, c, "expected a number"@)), c)
    } else if digits_value(d) <= u32::MAX {
        (Ok(digits_value(d) as u32), c + d.len())
    } else {
        (Err(error_at(span, c + d.len(), "number too large"@)), c + d.len())
    }
}

fn int_exec(t: &[char], c: usize, span: Span) -> (r: (Result<u32, Diagnostic>, usize))
    requires
        c <= t@.len(),
        span.start + t@.len() <= usize::MAX,
    ensures
        (match r.0 {
            Ok(v) => Ok(v),
            Err(d) => Err(d@),
        }, r.1 as int) == spec_int(t@, c as int, span),
        c <= r.1 <= t@.len(),
{
    let n = t.len();
    let mut e = c;
    let mut value: u64 = 0;
    let mut fits = true;
    let ghost p = |ch: char| is_ascii_digit(ch);
    assert(t@.subrange(c as int, c as int) =~= Seq::<char>::empty());
    while e < n && crate::text::char_is_ascii_digit(t[e])
        invariant
            n == t@.len(),
            c <= e <= n,
            p == (|ch: char| is_ascii_digit(ch)),
            forall|k: int| 0 <= k < e - c ==> p(#[trigger] t@.skip(c as int)[k]),
            fits == (digits_value(t@.subrange(c as int, e as int)) <= u32::MAX),
            fits ==> value == digits_value(t@.subrange(c as int, e as int)),
        decreases n - e,
    {
        let ch = t[e];
        let ghost prefix = t@.subrange(c as int, e as int);
        proof {
            crate::mega::ctxexpr::lemma_digits_step(prefix, ch);
            assert(t@.subrange(c as int, e + 1) =~= prefix.push(ch));
            assert(t@.skip(c as int)[e - c] == ch);
        }
        if fits {
            let next: u64 = value * 10 + (ch as u32 - '0' as u32) as u64;
            if next <= 0xffff_ffffu64 {
                value = next;
            } else {
                fits = false;
            }
        }
        e += 1;
    }
    proof {
        if e < n {
            assert(t@.skip(c as int)[e - c] == t@[e as int]);
        }
        crate::text::lemma_leading_count_is(t@.skip(c as int), p, e - c);
        assert(t@.subrange(c as int, e as int) == digit_run(t@, c as int));
    }
    if e == c {
        return (Err(error_str(span, c, "expected a number")), c);
    }
    if fits {
        (Ok(value as u32), e)
    } else {
        (Err(error_str(span, e, "number too large")), e)
    }
}


/// The character a class escape `\e` stands for.
pub open spec fn class_escape(e: char) -> char {
    if e == 'n' {
        '\n'
    } else if e == 't' {
        '\t'
    } else if e == 'r' {
        '\r'
    } else if e == '0' {
        '\0'
    } else {
        e
    }
}

/// The character an escape at the high end of a class range stands for.
pub open spec fn range_escape(e: char) -> char {
    if e == 'n' {
        '\n'
    } else if e == 't' {
        '\t'
    } else if e == 'r' {
        '\r'
    } else {
        e
    }
}

/// The rest of a `[ … ]` class from `c`, after `set` was read; `first`
/// while nothing has been read yet (a leading `^` negates). A `-` between
/// two characters makes a range; at either edge it is literal.
pub open spec fn class_from(t: Seq<char>, c: int, set: CharSetView, first: bool, span: Span) -> (
    Result<CharSetView, DiagnosticView>,
    int,
)
    decreases t.len() - c,
    when 0 <= c <= t.len()
{
    if c >= t.len() {
        (Err(error_at(span, c, "unterminated character class"@)), c)
    } else if t[c] == ']' {
        (Ok(set), c + 1)
    } else if t[c] == '^' && first {
        class_from(t, c + 1, CharSetView { negated: true, ..set }, false, span)
    } else if t[c] == '\\' && c + 1 >= t.len() {
        (Err(error_at(span, c + 1, "dangling escape in a character class"@)), c + 1)
    } else {
        let (value, c2) = if t[c] == '\\' {
            (class_escape(t[c + 1]), c + 2)
        } else {
            (t[c], c + 1)
        };
        if c2 + 1 < t.len() && t[c2] == '-' && t[c2 + 1] != ']' && t[c2 + 1] != '-' {
            let c3 = c2 + 1;
            if t[c3] == '\\' && c3 + 1 >= t.len() {
                (Err(error_at(span, c3 + 1, "dangling escape in a character class"@)), c3 + 1)
            } else {
                let (hi, c4) = if t[c3] == '\\' {
                    (range_escape(t[c3 + 1]), c3 + 2)
                } else {
                    (t[c3], c3 + 1)
                };
                class_from(
                    t,
                    c4,
                    CharSetView { items: set.items.push(CharItem::Range(value, hi)), ..set },
                    false,
                    span,
                )
            }
        } else {
            class_from(t, c2, CharSetView { items: set.items.push(CharItem::Char(value)), ..set }, false, span)
        }
    }
}

/// In a character class, an escape `\e` that does not start a range is the
/// single character it names: `\n`, `\t`, `\r` and `\0` stand for line
/// feed, tab, carriage return and NUL, any other escaped character for
/// itself; reading goes on after the two characters.
pub proof fn lemma_class_escape_names_its_character(t: Seq<char>, c: int, set: CharSetView, first: bool, span: Span)
    requires
        0 <= c,
        c + 1 < t.len(),
        t[c] == '\\',
        !(c + 3 < t.len() && t[c + 2] == '-' && t[c + 3] != ']' && t[c + 3] != '-'),
    ensures
        class_from(t, c, set, first, span) == class_from(
            t,
            c + 2,
            CharSetView {
                items: set.items.push(
                    CharItem::Char(
                        if t[c + 1] == 'n' {
                            '\n'
                        } else if t[c + 1] == 't' {
                            '\t'
                        } else if t[c + 1] == 'r' {
                            '\r'
                        } else if t[c + 1] == '0' {
                            '\0'
                        } else {
                            t[c + 1]
                        },
                    ),
                ),
                ..set
            },
            false,
            span,
        ),
{
}

/// In a character class range `x-\e`, the escaped upper end is the
/// character it names: `\n`, `\t` and `\r` stand for line feed, tab and
/// carriage return, any other escaped character for itself.
pub proof fn lemma_class_range_escape_names_its_character(
    t: Seq<char>,
    c: int,
    set: CharSetView,
    first: bool,
    span: Span,
)
    requires
        0 <= c,
        c + 3 < t.len(),
        t[c] != '\\',
        t[c] != ']',
        !(t[c] == '^' && first),
        t[c + 1] == '-',
        t[c + 2] == '\\',
    ensures
        class_from(t, c, set, first, span) == class_from(
            t,
            c + 4,
            CharSetView {
                items: set.items.push(
                    CharItem::Range(
                        t[c],
                        if t[c + 3] == 'n' {
                            '\n'
                        } else if t[c + 3] == 't' {
                            '\t'
                        } else if t[c + 3] == 'r' {
                            '\r'
                        } else {
                            t[c + 3]
                        },
                    ),
                ),
                ..set
            },
            false,
            span,
        ),
{
}

/// A `[ … ]` character class at `c`.
pub open spec fn spec_class(t: Seq<char>, c: int, span: Span) -> (Result<CharSetView, DiagnosticView>, int) {
    if !at(t, c, "["@) {
        (Err(error_at(span, c, "expected `[` to open a character class"@)), c)
    } else {
        class_from(t, c + 1, CharSetView { negated: false, items: seq![] }, true, span)
    }
}

pub open spec fn set_result_view(r: Result<CharSet, Diagnostic>) -> Result<CharSetView, DiagnosticView> {
    match r {
        Ok(s) => Ok(s@),
        Err(d) => Err(d@),
    }
}

fn class_escape_exec(e: char) -> (r: char)
    ensures
        r == class_escape(e),
{
    if e == 'n' {
        '\n'
    } else if e == 't' {
        '\t'
    } else if e == 'r' {
        '\r'
    } else if e == '0' {
        '\0'
    } else {
        e
    }
}

pub(crate) fn range_escape_exec(e: char) -> (r: char)
    ensures
        r == range_escape(e),
{
    if e == 'n' {
        '\n'
    } else if e == 't' {
        '\t'
    } else if e == 'r' {
        '\r'
    } else {
        e
    }
}

fn class_from_exec(t: &[char], c: usize, set: CharSet, first: bool, span: Span) -> (r: (
    Result<CharSet, Diagnostic>,
    usize,
))
    requires
        c <= t@.len(),
        text_fits(t@, span),
    ensures
        (set_result_view(r.0), r.1 as int) == class_from(t@, c as int, set@, first, span),
        c <= r.1 <= t@.len() + 1,
        r.0 is Ok ==> c < r.1,
    decreases t@.len() - c,
{
    let n = t.len();
    if c >= n {
        return (Err(error_str(span, c, "unterminated character class")), c);
    }
    if t[c] == ']' {
        return (Ok(set), c + 1);
    }
    let mut set = set;
    if t[c] == '^' && first {
        set.negated = true;
        return class_from_exec(t, c + 1, set, false, span);
    }
    if t[c] == '\\' && c + 1 >= n {
        return (Err(error_str(span, c + 1, "dangling escape in a character class")), c + 1);
    }
    let (value, c2) = if t[c] == '\\' {
        (class_escape_exec(t[c + 1]), c + 2)
    } else {
        (t[c], c + 1)
    };
    if c2 + 1 < n && t[c2] == '-' && t[c2 + 1] != ']' && t[c2 + 1] != '-' {
        let c3 = c2 + 1;
        if t[c3] == '\\' && c3 + 1 >= n {
            return (Err(error_str(span, c3 + 1, "dangling escape in a character class")), c3 + 1);
        }
        let (hi, c4) = if t[c3] == '\\' {
            (range_escape_exec(t[c3 + 1]), c3 + 2)
        } else {
            (t[c3], c3 + 1)
        };
        set.items.push(CharItem::Range(value, hi));
        class_from_exec(t, c4, set, false, span)
    } else {
        set.items.push(CharItem::Char(value));
        class_from_exec(t, c2, set, false, span)
    }
}

fn class_exec(t: &[char], c: usize, span: Span) -> (r: (Result<CharSet, Diagnostic>, usize))
    requires
        c <= t@.len(),
        text_fits(t@, span),
    ensures
        (set_result_view(r.0), r.1 as int) == spec_class(t@, c as int, span),
        c <= r.1 <= t@.len(),
        r.0 is Ok ==> c < r.1,
{
    proof {
        reveal_strlit("[");
    }
    if !at_exec(t, c, "[") {
        return (Err(error_str(span, c, "expected `[` to open a character class")), c);
    }
    let set = CharSet { negated: false, items: Vec::new() };
    assert(set@.items =~= seq![]);
    let r = class_from_exec(t, c + 1, set, true, span);
    proof {
        lemma_class_end(t@, c + 1, set@, true, span);
    }
    r
}

proof fn lemma_class_end(t: Seq<char>, c: int, set: CharSetView, first: bool, span: Span)
    requires
        0 <= c <= t.len(),
    ensures
        class_from(t, c, set, first, span).1 <= t.len(),
    decreases t.len() - c,
{
    if c < t.len() && t[c] != ']' {
        if t[c] == '^' && first {
            lemma_class_end(t, c + 1, CharSetView { negated: true, ..set }, false, span);
        } else if !(t[c] == '\\' && c + 1 >= t.len()) {
            let (value, c2) = if t[c] == '\\' {
                (class_escape(t[c + 1]), c + 2)
            } else {
                (t[c], c + 1)
            };
            if c2 + 1 < t.len() && t[c2] == '-' && t[c2 + 1] != ']' && t[c2 + 1] != '-' {
                let c3 = c2 + 1;
                if !(t[c3] == '\\' && c3 + 1 >= t.len()) {
                    let (hi, c4) = if t[c3] == '\\' {
                        (range_escape(t[c3 + 1]), c3 + 2)
                    } else {
                        (t[c3], c3 + 1)
                    };
                    lemma_class_end(
                        t,
                        c4,
                        CharSetView { items: set.items.push(CharItem::Range(value, hi)), ..set },
                        false,
                        span,
                    );
                }
            } else {
                lemma_class_end(t, c2, CharSetView { items: set.items.push(CharItem::Char(value)), ..set }, false, span);
            }
        }
    }
}


/// The fragment a name after `$` selects.
pub open spec fn frag_named(w: Seq<char>) -> Option<FragView> {
    if w == "ident"@ {
        Some(FragView::Ident)
    } else if w == "word"@ {
        Some(FragView::Word)
    } else if w == "tag"@ {
        Some(FragView::Tag)
    } else if w == "int"@ {
        Some(FragView::Int)
    } else if w == "float"@ {
        Some(FragView::Float)
    } else if w == "str"@ {
        Some(FragView::Str)
    } else if w == "tt"@ {
        Some(FragView::Tt)
    } else if w == "text"@ {
        Some(FragView::Text)
    } else if w == "template"@ {
        Some(FragView::Template)
    } else if w == "raw"@ {
        Some(FragView::Raw(None))
    } else if w == "expr"@ {
        Some(FragView::Expr)
    } else if w == "type"@ {
        Some(FragView::Type)
    } else if w == "block"@ {
        Some(FragView::Block)
    } else {
        None
    }
}

fn frag_named_exec(w: &Vec<char>) -> (r: Option<FragKind>)
    ensures
        match r {
            Some(k) => frag_named(w@) == Some(frag_view(k)),
            None => frag_named(w@) is None,
        },
{
    if word_is(w, "ident") {
        Some(FragKind::Ident)
    } else if word_is(w, "word") {
        Some(FragKind::Word)
    } else if word_is(w, "tag") {
        Some(FragKind::Tag)
    } else if word_is(w, "int") {
        Some(FragKind::Int)
    } else if word_is(w, "float") {
        Some(FragKind::Float)
    } else if word_is(w, "str") {
        Some(FragKind::Str)
    } else if word_is(w, "tt") {
        Some(FragKind::Tt)
    } else if word_is(w, "text") {
        Some(FragKind::Text)
    } else if word_is(w, "template") {
        Some(FragKind::Template)
    } else if word_is(w, "raw") {
        Some(FragKind::Raw(None))
    } else if word_is(w, "expr") {
        Some(FragKind::Expr)
    } else if word_is(w, "type") {
        Some(FragKind::Type)
    } else if word_is(w, "block") {
        Some(FragKind::Block)
    } else {
        None
    }
}

/// The word that names a fragment kind after `$`.
pub open spec fn fragment_word(k: FragView) -> Seq<char> {
    match k {
        FragView::Ident => "ident"@,
        FragView::Word => "word"@,
        FragView::Tag => "tag"@,
        FragView::Int => "int"@,
        FragView::Float => "float"@,
        FragView::Str => "str"@,
        FragView::Tt => "tt"@,
        FragView::Text => "text"@,
        FragView::Template => "template"@,
        FragView::Raw(_) => "raw"@,
        FragView::Expr => "expr"@,
        FragView::Type => "type"@,
        FragView::Block => "block"@,
    }
}

/// The `.word` segments of a fragment parameter path from `c`.
pub open spec fn dotted_param(t: Seq<char>, c: int, segs: Seq<Seq<char>>) -> (Seq<Seq<char>>, int)
    decreases t.len() - c,
    when 0 <= c <= t.len()
{
    let c1 = trivia_end(t, c);
    if at(t, c1, "."@) {
        proof {
            lemma_skip_wsc_bounds(t, c, cm());
            reveal_strlit(".");
            lemma_word_len(t, c1 + 1);
        }
        let w = word_at(t, c1 + 1);
        dotted_param(t, c1 + 1 + w.len(), segs.push(w))
    } else {
        (segs, c1)
    }
}

/// Template delimiters of a fragment parameter from `c`, up to `>`: quoted
/// strings and single characters, skipped.
pub open spec fn delimiters_from(t: Seq<char>, c: int, span: Span) -> (Result<(), DiagnosticView>, int)
    decreases t.len() - c,
    when 0 <= c <= t.len()
{
    if at(t, c, ">"@) || c >= t.len() {
        (Ok(()), c)
    } else if at(t, c, "\""@) {
        match spec_string_literal(t, c) {
            None => (Err(error_at(span, c, "malformed template delimiter"@)), c),
            Some((_, l)) => if 0 < l && c + l <= t.len() {
                proof {
                    lemma_skip_wsc_bounds(t, c + l, cm());
                }
                delimiters_from(t, trivia_end(t, c + l), span)
            } else {
                (Ok(()), c)
            },
        }
    } else {
        proof {
            lemma_skip_wsc_bounds(t, c + 1, cm());
        }
        delimiters_from(t, trivia_end(t, c + 1), span)
    }
}

/// The `<…>` parameter of a fragment of `kind` at `c`: a rule path (the
/// raw fragment's grammar rule, else a validator) or template delimiters.
pub open spec fn frag_param(t: Seq<char>, c: int, kind: FragView, span: Span) -> (
    Result<(FragView, Option<Seq<Seq<char>>>), DiagnosticView>,
    int,
) {
    if !at(t, c, "<"@) {
        (Ok((kind, None)), c)
    } else {
        let c5 = trivia_end(t, c + 1);
        if at(t, c5, "\""@) {
            match delimiters_from(t, c5, span) {
                (Err(e), c6) => (Err(e), c6),
                (Ok(_), c6) => (Ok((kind, None)), c6),
            }
        } else {
            let first = word_at(t, c5);
            let (path, c6) = dotted_param(t, c5 + first.len(), seq![first]);
            let c7 = trivia_end(t, c6);
            if !at(t, c7, ">"@) {
                (Err(error_at(span, c7, "expected `>` to close the fragment parameter"@)), c7)
            } else if kind == FragView::Raw(None) {
                (Ok((FragView::Raw(Some(path)), None)), c7 + 1)
            } else {
                (Ok((kind, Some(path))), c7 + 1)
            }
        }
    }
}

/// A `$fragment` at `c` (on its `$`): kind, validator path and bind.
pub open spec fn spec_fragment(t: Seq<char>, c: int, span: Span) -> (
    Result<(FragView, Option<Seq<Seq<char>>>, Option<Seq<char>>), DiagnosticView>,
    int,
) {
    let c1 = c + 1;
    let c2 = if at(t, c1, "i"@) && at(t, c1 + 1, "$"@) {
        c1 + 1
    } else {
        c1
    };
    let name = word_at(t, c2);
    let c3 = c2 + name.len();
    match frag_named(name) {
        None => (Err(error_at(span, c3, "unknown fragment `$"@ + name + "`"@)), c3),
        Some(kind) => match frag_param(t, c3, kind, span) {
            (Err(e), c4) => (Err(e), c4),
            (Ok((k, validator)), c4) => {
                let (bind, c8) = trailing_bind(t, c4);
                (Ok((k, validator, bind)), c8)
            },
        },
    }
}

/// Each fragment word selects the fragment of that name, and a parsed
/// `$name` fragment is of the kind its name spells (a `$raw` keeps that
/// kind whatever rule path it is given).
pub proof fn lemma_fragment_is_the_kind_its_word_names(t: Seq<char>, c: int, span: Span, k: FragView)
    ensures
        frag_named(fragment_word(k)) matches Some(k2) && fragment_word(k2) == fragment_word(k),
        spec_fragment(t, c, span).0 matches Ok((kind, _, _)) ==> word_at(
            t,
            if at(t, c + 1, "i"@) && at(t, c + 2, "$"@) {
                c + 2
            } else {
                c + 1
            },
        ) == fragment_word(kind),
{
    reveal_strlit("ident");
    reveal_strlit("word");
    reveal_strlit("tag");
    reveal_strlit("int");
    reveal_strlit("float");
    reveal_strlit("str");
    reveal_strlit("tt");
    reveal_strlit("text");
    reveal_strlit("template");
    reveal_strlit("raw");
    reveal_strlit("expr");
    reveal_strlit("type");
    reveal_strlit("block");
}

pub open spec fn fragment_result_view(r: Result<(FragKind, Option<Vec<String>>, Option<String>), Diagnostic>) -> Result<
    (FragView, Option<Seq<Seq<char>>>, Option<Seq<char>>),
    DiagnosticView,
> {
    match r {
        Ok((k, v, b)) => Ok((frag_view(k), opt_path_view(v), opt_view(b))),
        Err(d) => Err(d@),
    }
}

fn dotted_param_exec(t: &[char], c: usize, segs: Vec<String>, sc: &LexProfile) -> (r: (Vec<String>, usize))
    requires
        c <= t@.len(),
        t@.len() <= usize::MAX,
        sc@ == cm(),
    ensures
        (strings_view(r.0@), r.1 as int) == dotted_param(t@, c as int, strings_view(segs@)),
        c <= r.1 <= t@.len(),
    decreases t@.len() - c,
{
    proof {
        reveal_strlit(".");
    }
    let c1 = trivia(t, c, sc);
    if at_exec(t, c1, ".") {
        let w = next_word(t, c1 + 1);
        proof {
            lemma_word_len(t@, c1 + 1);
        }
        let mut segs = segs;
        let ghost before = strings_view(segs@);
        segs.push(word_string(&w));
        assert(strings_view(segs@) =~= before.push(w@));
        dotted_param_exec(t, c1 + 1 + w.len(), segs, sc)
    } else {
        (segs, c1)
    }
}

fn delimiters_exec(t: &[char], c: usize, span: Span, sc: &LexProfile) -> (r: (Result<(), Diagnostic>, usize))
    requires
        c <= t@.len(),
        span.start + t@.len() <= usize::MAX,
        sc@ == cm(),
    ensures
        (match r.0 {
            Ok(u) => Ok(u),
            Err(d) => Err(d@),
        }, r.1 as int) == delimiters_from(t@, c as int, span),
        c <= r.1 <= t@.len(),
    decreases t@.len() - c,
{
    proof {
        reveal_strlit("\"");
    }
    if at_exec(t, c, ">") || c >= t.len() {
        return (Ok(()), c);
    }
    if at_exec(t, c, "\"") {
        match parse_string_literal(t, c) {
            None => (Err(error_str(span, c, "malformed template delimiter")), c),
            Some((_, l)) => {
                let c2 = trivia(t, c + l, sc);
                delimiters_exec(t, c2, span, sc)
            },
        }
    } else {
        let c2 = trivia(t, c + 1, sc);
        delimiters_exec(t, c2, span, sc)
    }
}

fn frag_param_exec(t: &[char], c: usize, kind: FragKind, span: Span, sc: &LexProfile) -> (r: (
    Result<(FragKind, Option<Vec<String>>), Diagnostic>,
    usize,
))
    requires
        c <= t@.len(),
        t@.len() < usize::MAX,
        span.start + t@.len() <= usize::MAX,
        sc@ == cm(),
    ensures
        (match r.0 {
            Ok((k, v)) => Ok((frag_view(k), opt_path_view(v))),
            Err(d) => Err(d@),
        }, r.1 as int) == frag_param(t@, c as int, frag_view(kind), span),
        c <= r.1 <= t@.len(),
{
    proof {
        reveal_strlit("<");
        reveal_strlit(">");
        reveal_strlit("\"");
    }
    if !at_exec(t, c, "<") {
        return (Ok((kind, None)), c);
    }
    let c5 = trivia(t, c + 1, sc);
    if at_exec(t, c5, "\"") {
        let (r, c6) = delimiters_exec(t, c5, span, sc);
        return match r {
            Err(e) => (Err(e), c6),
            Ok(_) => (Ok((kind, None)), c6),
        };
    }
    let first = next_word(t, c5);
    proof {
        lemma_word_len(t@, c5 as int);
    }
    let mut segs: Vec<String> = Vec::new();
    segs.push(word_string(&first));
    assert(strings_view(segs@) =~= seq![first@]);
    let (path, c6) = dotted_param_exec(t, c5 + first.len(), segs, sc);
    let c7 = trivia(t, c6, sc);
    if !at_exec(t, c7, ">") {
        return (Err(error_str(span, c7, "expected `>` to close the fragment parameter")), c7);
    }
    match kind {
        FragKind::Raw(None) => (Ok((FragKind::Raw(Some(path)), None)), c7 + 1),
        _ => {
            assert(frag_view(kind) != FragView::Raw(None));
            (Ok((kind, Some(path))), c7 + 1)
        },
    }
}

fn fragment_exec(t: &[char], c: usize, span: Span, sc: &LexProfile) -> (r: (
    Result<(FragKind, Option<Vec<String>>, Option<String>), Diagnostic>,
    usize,
))
    requires
        c < t@.len(),
        t@.len() < usize::MAX,
        span.start + t@.len() <= usize::MAX,
        sc@ == cm(),
    ensures
        (fragment_result_view(r.0), r.1 as int) == spec_fragment(t@, c as int, span),
        c < r.1 <= t@.len(),
{
    proof {
        reveal_strlit("i");
        reveal_strlit("$");
    }
    let c1 = c + 1;
    let c2 = if at_exec(t, c1, "i") && at_exec(t, c1 + 1, "$") {
        c1 + 1
    } else {
        c1
    };
    let name = next_word(t, c2);
    proof {
        lemma_word_len(t@, c2 as int);
    }
    let c3 = c2 + name.len();
    match frag_named_exec(&name) {
        None => {
            let mut m = chars_of("unknown fragment `$");
            push_chars(&mut m, name.as_slice());
            push_str(&mut m, "`");
            (Err(error_exec(span, c3, &m)), c3)
        },
        Some(kind) => {
            let (r, c4) = frag_param_exec(t, c3, kind, span, sc);
            match r {
                Err(e) => (Err(e), c4),
                Ok((k, validator)) => {
                    let (bind, c8) = trailing_bind_exec(t, c4, sc);
                    (Ok((k, validator, bind)), c8)
                },
            }
        },
    }
}

/// The `{ name: condition, … }` bindings of a `with context` clause from
/// `c`, after `acc`.
pub open spec fn bindings_from(
    t: Seq<char>,
    c: int,
    acc: Seq<(Seq<char>, ExprView)>,
    span: Span,
) -> (Result<Seq<(Seq<char>, ExprView)>, DiagnosticView>, int)
    decreases t.len() - c,
    when 0 <= c <= t.len()
{
    let c1 = trivia_end(t, c);
    if at(t, c1, "}"@) {
        (Ok(acc), c1 + 1)
    } else {
        let name = word_at(t, c1);
        let c2 = trivia_end(t, c1 + name.len());
        if !at(t, c2, ":"@) {
            (Err(error_at(span, c2, "expected `:` after `"@ + name + "`"@)), c2)
        } else {
            let (r, c3) = spec_parse_ctx_expr(t, c2 + 1, span);
            match r {
                Err(e) => (Err(e), c3),
                Ok(v) => {
                    let c4 = trivia_end(t, c3);
                    let c5 = if at(t, c4, ","@) {
                        c4 + 1
                    } else {
                        c4
                    };
                    if c < c3 <= t.len() {
                        proof {
                            lemma_skip_wsc_bounds(t, c3, cm());
                            reveal_strlit(",");
                        }
                        bindings_from(t, c5, acc.push((name, v)), span)
                    } else {
                        (Err(error_at(span, c3, "expected a condition expression"@)), c3)
                    }
                },
            }
        }
    }
}

/// The bindings of a `with context` clause at `c` (on its `{`).
pub open spec fn spec_context_bindings(t: Seq<char>, c: int, span: Span) -> (
    Result<Seq<(Seq<char>, ExprView)>, DiagnosticView>,
    int,
) {
    if !at(t, c, "{"@) {
        (Err(error_at(span, c, "expected `{` after `context`"@)), c)
    } else {
        bindings_from(t, c + 1, seq![], span)
    }
}

pub open spec fn bindings_result_view(r: Result<Vec<(String, CtxExpr)>, Diagnostic>) -> Result<
    Seq<(Seq<char>, ExprView)>,
    DiagnosticView,
> {
    match r {
        Ok(v) => Ok(bindings_view(v@)),
        Err(d) => Err(d@),
    }
}

fn bindings_exec(t: &[char], c: usize, acc: Vec<(String, CtxExpr)>, span: Span, sc: &LexProfile) -> (r: (
    Result<Vec<(String, CtxExpr)>, Diagnostic>,
    usize,
))
    requires
        c <= t@.len(),
        t@.len() < usize::MAX,
        span.start + t@.len() <= usize::MAX,
        sc@ == cm(),
    ensures
        (bindings_result_view(r.0), r.1 as int) == bindings_from(t@, c as int, bindings_view(acc@), span),
        c <= r.1 <= t@.len(),
    decreases t@.len() - c,
{
    proof {
        reveal_strlit("}");
        reveal_strlit(":");
        reveal_strlit(",");
    }
    let c1 = trivia(t, c, sc);
    if at_exec(t, c1, "}") {
        return (Ok(acc), c1 + 1);
    }
    let name = next_word(t, c1);
    proof {
        lemma_word_len(t@, c1 as int);
    }
    let c2 = trivia(t, c1 + name.len(), sc);
    if !at_exec(t, c2, ":") {
        let mut m = chars_of("expected `:` after `");
        push_chars(&mut m, name.as_slice());
        push_str(&mut m, "`");
        return (Err(error_exec(span, c2, &m)), c2);
    }
    let mut c3 = c2 + 1;
    let r = parse_expr(t, &mut c3, span);
    match r {
        Err(e) => (Err(e), c3),
        Ok(v) => {
            let c4 = trivia(t, c3, sc);
            let c5 = if at_exec(t, c4, ",") {
                c4 + 1
            } else {
                c4
            };
            let mut acc = acc;
            let ghost before = bindings_view(acc@);
            let ghost item = (name@, expr_view(v));
            acc.push((word_string(&name), v));
            assert(bindings_view(acc@) =~= before.push(item));
            bindings_exec(t, c5, acc, span, sc)
        },
    }
}

fn context_bindings_exec(t: &[char], c: usize, span: Span, sc: &LexProfile) -> (r: (
    Result<Vec<(String, CtxExpr)>, Diagnostic>,
    usize,
))
    requires
        c <= t@.len(),
        t@.len() < usize::MAX,
        span.start + t@.len() <= usize::MAX,
        sc@ == cm(),
    ensures
        (bindings_result_view(r.0), r.1 as int) == spec_context_bindings(t@, c as int, span),
        c <= r.1 <= t@.len(),
{
    proof {
        reveal_strlit("{");
    }
    if !at_exec(t, c, "{") {
        return (Err(error_str(span, c, "expected `{` after `context`")), c);
    }
    let acc: Vec<(String, CtxExpr)> = Vec::new();
    assert(bindings_view(acc@) =~= seq![]);
    bindings_exec(t, c + 1, acc, span, sc)
}

/// The text at `c` starts the next `oneof` branch: `IDENT =>`.
pub open spec fn at_branch_boundary(t: Seq<char>, c: int) -> bool {
    let w = word_at(t, c);
    w.len() > 0 && !is_reserved(w) && at(t, trivia_end(t, c + w.len()), "=>"@)
}

fn at_branch_boundary_exec(t: &[char], c: usize, sc: &LexProfile) -> (b: bool)
    requires
        c <= t@.len(),
        t@.len() <= usize::MAX,
        sc@ == cm(),
    ensures
        b == at_branch_boundary(t@, c as int),
{
    let w = next_word(t, c);
    proof {
        lemma_word_len(t@, c as int);
    }
    if w.len() == 0 || is_reserved_exec(&w) {
        return false;
    }
    let c1 = trivia(t, c + w.len(), sc);
    at_exec(t, c1, "=>")
}


// ---------------------------------------------------------------------------
// Patterns
// ---------------------------------------------------------------------------

/// The `.segment`s of a rule reference's path from `c`: trivia past a line
/// break ends the path (the cursor stays before it).
pub open spec fn ref_path_from(t: Seq<char>, c: int, path: Seq<Seq<char>>) -> (Seq<Seq<char>>, int)
    decreases t.len() - c,
    when 0 <= c <= t.len()
{
    let c1 = trivia_end(t, c);
    if has_line_feed(t, c, c1) {
        (path, c)
    } else if at(t, c1, "."@) && c1 + 1 < t.len() && (is_ascii_alpha(t[c1 + 1]) || t[c1 + 1] == '_') {
        proof {
            lemma_skip_wsc_bounds(t, c, cm());
            lemma_word_len(t, c1 + 1);
        }
        let w = word_at(t, c1 + 1);
        ref_path_from(t, c1 + 1 + w.len(), path.push(w))
    } else {
        (path, c1)
    }
}

/// A rule reference whose first word `w` starts at `c`: its dotted path,
/// an optional `with context { … }` clause on the same line, and a bind.
pub open spec fn spec_rule_ref(t: Seq<char>, c: int, w: Seq<char>, span: Span) -> (
    Result<KindView, DiagnosticView>,
    int,
) {
    let (path, c2) = ref_path_from(t, c + w.len(), seq![w]);
    let c3 = trivia_end(t, c2);
    let (ctx, c6) = if has_line_feed(t, c2, c3) {
        (Ok(seq![]), c2)
    } else if word_at(t, c3) == "with"@ {
        let c4 = trivia_end(t, c3 + 4);
        if word_at(t, c4) != "context"@ {
            (Err(error_at(span, c4, "expected `context` after `with`"@)), c4)
        } else {
            spec_context_bindings(t, trivia_end(t, c4 + 7), span)
        }
    } else {
        (Ok(seq![]), c3)
    };
    match ctx {
        Err(e) => (Err(e), c6),
        Ok(ctx) => {
            let (bind, c7) = trailing_bind(t, c6);
            (Ok(KindView::RuleRef { path, ctx, bind }), c7)
        },
    }
}

/// The text at `c` starts with the terminator `term`.
pub open spec fn at_term(t: Seq<char>, c: int, term: Option<char>) -> bool {
    match term {
        Some(ch) => at(t, c, seq![ch]),
        None => false,
    }
}

pub open spec fn end_message(term: char) -> Seq<char> {
    "expected "@ + seq![term] + " before the end of the pattern"@
}

/// The message for an element that the text ends before.
pub open spec fn missing_element_message() -> Seq<char> {
    "expected a pattern element before the end of the pattern"@
}

/// A sequence of elements from `c` after `elems`, up to the terminator
/// (not consumed), a `label =>` branch boundary, or the end of the text
/// (which only a top-level sequence may reach).
pub open spec fn seq_from(t: Seq<char>, c: int, term: Option<char>, elems: Seq<ElemView>, span: Span) -> (
    Result<PatternView, DiagnosticView>,
    int,
)
    decreases t.len() - c, 6nat,
    when 0 <= c <= t.len()
{
    proof {
        lemma_skip_wsc_bounds(t, c, cm());
    }
    let c1 = trivia_end(t, c);
    if c1 >= t.len() {
        match term {
            None => (Ok(PatternView { elems }), c1),
            Some(ch) => (Err(error_at(span, c1, end_message(ch))), c1),
        }
    } else if at_term(t, c1, term) || at_branch_boundary(t, c1) {
        (Ok(PatternView { elems }), c1)
    } else {
        let (r, c2) = sp_element(t, c1, span);
        match r {
            Err(e) => (Err(e), c2),
            Ok(e) => if c1 < c2 <= t.len() {
                seq_from(t, c2, term, elems.push(e), span)
            } else {
                (Err(error_at(span, c2, missing_element_message())), c2)
            },
        }
    }
}

pub open spec fn sp_sequence(t: Seq<char>, c: int, term: Option<char>, span: Span) -> (
    Result<PatternView, DiagnosticView>,
    int,
)
    decreases t.len() - c, 7nat,
    when 0 <= c <= t.len()
{
    seq_from(t, c, term, seq![], span)
}

/// `{ pattern }` at `c`, after a keyword `head`.
pub open spec fn sp_braced(t: Seq<char>, c: int, head: Seq<char>, span: Span) -> (
    Result<PatternView, DiagnosticView>,
    int,
)
    decreases t.len() - c, 0nat,
    when 0 <= c <= t.len()
{
    proof {
        lemma_skip_wsc_bounds(t, c, cm());
        reveal_strlit("{");
    }
    let c1 = trivia_end(t, c);
    if !at(t, c1, "{"@) {
        (Err(error_at(span, c1, "expected `{` after `"@ + head + "`"@)), c1)
    } else {
        let (r, c2) = sp_sequence(t, c1 + 1, Some('}'), span);
        match r {
            Err(e) => (Err(e), c2),
            Ok(body) => {
                let c3 = trivia_end(t, c2);
                if !at(t, c3, "}"@) {
                    (Err(error_at(span, c3, "expected `}` to close `"@ + head + "`"@)), c3)
                } else {
                    (Ok(body), c3 + 1)
                }
            },
        }
    }
}

/// `[n, m]` or `[n,]` repetition bounds at `c` (on the `[`).
pub open spec fn spec_bounds(t: Seq<char>, c: int, span: Span) -> (
    Result<(u32, Option<u32>), DiagnosticView>,
    int,
) {
    let c1 = trivia_end(t, c + 1);
    match spec_int(t, c1, span) {
        (Err(e), c2) => (Err(e), c2),
        (Ok(min), c2) => {
            let c3 = trivia_end(t, c2);
            if !at(t, c3, ","@) {
                (Err(error_at(span, c3, "expected `,` in each bounds"@)), c3)
            } else {
                let c4 = trivia_end(t, c3 + 1);
                let (max, c5) = if at(t, c4, "]"@) {
                    (Ok(None), c4)
                } else {
                    match spec_int(t, c4, span) {
                        (Err(e), c5) => (Err(e), c5),
                        (Ok(m), c5) => (Ok(Some(m)), c5),
                    }
                };
                match max {
                    Err(e) => (Err(e), c5),
                    Ok(max) => {
                        let c6 = trivia_end(t, c5);
                        if !at(t, c6, "]"@) {
                            (Err(error_at(span, c6, "expected `]` to close each bounds"@)), c6)
                        } else {
                            (Ok((min, max)), c6 + 1)
                        }
                    },
                }
            }
        },
    }
}

/// `each [+] [sep elem] [trailing] [[n, m]] { body } [as bind]` at `c`
/// (on `each`).
pub open spec fn sp_each(t: Seq<char>, c: int, span: Span) -> (Result<KindView, DiagnosticView>, int)
    decreases t.len() - c, 0nat,
    when 0 <= c <= t.len()
{
    proof {
        lemma_skip_wsc_bounds(t, c + 4, cm());
        reveal_strlit("+");
    }
    let c1 = trivia_end(t, c + 4);
    let plus = at(t, c1, "+"@);
    let c2 = if plus {
        trivia_end(t, c1 + 1)
    } else {
        c1
    };
    let (sep, c3) = if word_at(t, c2) == "sep"@ {
        if c < c2 + 3 <= t.len() {
            match sp_element(t, c2 + 3, span) {
                (Err(e), c3) => (Err(e), c3),
                (Ok(e), c3) => (Ok(Some(PatternView { elems: seq![e] })), trivia_end(t, c3)),
            }
        } else {
            (Err(error_at(span, c2, missing_element_message())), c2)
        }
    } else {
        (Ok(None), c2)
    };
    match sep {
        Err(e) => (Err(e), c3),
        Ok(sep) => {
            let trailing = word_at(t, c3) == "trailing"@;
            let c4 = if trailing {
                trivia_end(t, c3 + 8)
            } else {
                c3
            };
            let (bounds, c5) = if at(t, c4, "["@) {
                match spec_bounds(t, c4, span) {
                    (Err(e), c5) => (Err(e), c5),
                    (Ok(b), c5) => (Ok(Some(b)), c5),
                }
            } else {
                (Ok(None), c4)
            };
            match bounds {
                Err(e) => (Err(e), c5),
                Ok(bounds) => if c < c5 <= t.len() {
                    match sp_braced(t, c5, "each"@, span) {
                        (Err(e), c6) => (Err(e), c6),
                        (Ok(body), c6) => {
                            let (bind, c7) = as_bind(t, c6);
                            (
                                Ok(
                                    KindView::Each {
                                        plus,
                                        sep: match sep {
                                            Some(p) => Some(Box::new(p)),
                                            None => None,
                                        },
                                        trailing,
                                        bounds,
                                        body: Box::new(body),
                                        bind,
                                    },
                                ),
                                c7,
                            )
                        },
                    }
                } else {
                    (Err(error_at(span, c5, missing_element_message())), c5)
                },
            }
        },
    }
}

/// The branches of a `oneof` from `c`, after `branches`: `label => ( body )`
/// or `label => element`, separated by commas and/or line breaks, up to
/// `}` and a trailing bind.
pub open spec fn oneof_from(
    t: Seq<char>,
    c: int,
    branches: Seq<(Seq<char>, PatternView)>,
    span: Span,
) -> (Result<KindView, DiagnosticView>, int)
    decreases t.len() - c, 0nat,
    when 0 <= c <= t.len()
{
    proof {
        lemma_skip_wsc_bounds(t, c, cm());
        reveal_strlit("=>");
        reveal_strlit(",");
        reveal_strlit("(");
    }
    let c1 = trivia_end(t, c);
    if at(t, c1, "}"@) {
        let (bind, c2) = trailing_bind(t, c1 + 1);
        (Ok(KindView::OneOf { branches, bind }), c2)
    } else {
        let label = word_at(t, c1);
        let c2 = trivia_end(t, c1 + label.len());
        if !at(t, c2, "=>"@) {
            (Err(error_at(span, c2, "expected `=>` after branch `"@ + label + "`"@)), c2)
        } else {
            proof {
                lemma_word_len(t, c1);
                lemma_skip_wsc_bounds(t, c1 + label.len(), cm());
                lemma_skip_wsc_bounds(t, c2 + 2, cm());
            }
            let c3 = trivia_end(t, c2 + 2);
            let (body, c4) = if at(t, c3, "("@) {
                match sp_sequence(t, c3 + 1, Some(')'), span) {
                    (Err(e), c4) => (Err(e), c4),
                    (Ok(body), c4) => {
                        let c5 = trivia_end(t, c4);
                        if !at(t, c5, ")"@) {
                            (Err(error_at(span, c5, "expected `)` to close the branch"@)), c5)
                        } else {
                            (Ok(body), c5 + 1)
                        }
                    },
                }
            } else {
                match sp_element(t, c3, span) {
                    (Err(e), c4) => (Err(e), c4),
                    (Ok(e), c4) => (Ok(PatternView { elems: seq![e] }), c4),
                }
            };
            match body {
                Err(e) => (Err(e), c4),
                Ok(body) => {
                    let c5 = trivia_end(t, c4);
                    let c6 = if at(t, c5, ","@) {
                        c5 + 1
                    } else {
                        c5
                    };
                    if c < c4 <= t.len() {
                        proof {
                            lemma_skip_wsc_bounds(t, c4, cm());
                        }
                        oneof_from(t, c6, branches.push((label, body)), span)
                    } else {
                        (Err(error_at(span, c4, missing_element_message())), c4)
                    }
                },
            }
        }
    }
}

/// The kind of a keyword-led or rule-reference element whose word `w`
/// starts at `c0`.
pub open spec fn sp_word_element(t: Seq<char>, c0: int, w: Seq<char>, span: Span) -> (
    Result<KindView, DiagnosticView>,
    int,
)
    decreases t.len() - c0, 3nat,
    when 0 <= c0 <= t.len() && c0 + w.len() <= t.len() && w.len() > 0
{
    proof {
        reveal_strlit("any");
        reveal_strlit("scan");
        reveal_strlit("until");
        reveal_strlit("lineRest");
        reveal_strlit("eol");
        reveal_strlit("line");
        reveal_strlit("eof");
        reveal_strlit("soft");
        reveal_strlit("optional");
        reveal_strlit("each");
        reveal_strlit("oneof");
        reveal_strlit("peek");
        reveal_strlit("not");
        reveal_strlit("recur");
        reveal_strlit("indent");
        reveal_strlit("verbatim");
        reveal_strlit("raw");
        reveal_strlit("where");
        reveal_strlit("label");
        reveal_strlit("{");
        reveal_strlit("[");
    }
    if w == "any"@ {
        let (bind, c) = as_bind(t, c0 + 3);
        (Ok(KindView::Any { bind }), c)
    } else if w == "scan"@ {
        let c1 = trivia_end(t, c0 + 4);
        if !at(t, c1, "["@) {
            (Err(error_at(span, c1, "expected `[` after `scan`"@)), c1)
        } else {
            match spec_class(t, c1, span) {
                (Err(e), c2) => (Err(e), c2),
                (Ok(set), c2) => {
                    let (bind, c3) = as_bind(t, c2);
                    (Ok(KindView::Scan { set, bind }), c3)
                },
            }
        }
    } else if w == "until"@ {
        sp_until(t, c0, span)
    } else if w == "lineRest"@ {
        let (bind, c) = as_bind(t, c0 + 8);
        (Ok(KindView::LineRest { bind }), c)
    } else {
        sp_word_element_mid(t, c0, w, span)
    }
}

/// An `until` element at `c0`: a literal or `{ pattern }` stop and a bind.
pub open spec fn sp_until(t: Seq<char>, c0: int, span: Span) -> (Result<KindView, DiagnosticView>, int)
    decreases t.len() - c0, 0nat,
    when 0 <= c0 && c0 + 5 <= t.len()
{
    proof {
        reveal_strlit("any");
        reveal_strlit("scan");
        reveal_strlit("until");
        reveal_strlit("lineRest");
        reveal_strlit("eol");
        reveal_strlit("line");
        reveal_strlit("eof");
        reveal_strlit("soft");
        reveal_strlit("optional");
        reveal_strlit("each");
        reveal_strlit("oneof");
        reveal_strlit("peek");
        reveal_strlit("not");
        reveal_strlit("recur");
        reveal_strlit("indent");
        reveal_strlit("verbatim");
        reveal_strlit("raw");
        reveal_strlit("where");
        reveal_strlit("label");
        reveal_strlit("{");
        reveal_strlit("[");
    }
    let c1 = trivia_end(t, c0 + 5);
    let (stop, c3) = if at(t, c1, "{"@) {
        if c0 <= c1 < t.len() {
            match sp_sequence(t, c1 + 1, Some('}'), span) {
                (Err(e), c2) => (Err(e), c2),
                (Ok(stop), c2) => {
                    let c2t = trivia_end(t, c2);
                    if !at(t, c2t, "}"@) {
                        (Err(error_at(span, c2t, "expected `}` to close the until stop"@)), c2t)
                    } else {
                        (Ok(stop), c2t + 1)
                    }
                },
            }
        } else {
            (Err(error_at(span, c1, missing_element_message())), c1)
        }
    } else {
        match spec_string_literal(t, c1) {
            None => (Err(error_at(span, c1, "expected a literal or `{{` after `until`"@)), c1),
            Some((v, l)) => (
                Ok(
                    PatternView {
                        elems: seq![
                            ElemView {
                                span: element_span(span, c0, c1 + l),
                                kind: KindView::Lit { text: v, insensitive: false },
                            },
                        ],
                    },
                ),
                c1 + l,
            ),
        }
    };
    match stop {
        Err(e) => (Err(e), c3),
        Ok(stop) => {
            let (bind, c4) = as_bind(t, c3);
            (Ok(KindView::Until { stop: Box::new(stop), bind }), c4)
        },
    }
}

pub open spec fn sp_word_element_mid(t: Seq<char>, c0: int, w: Seq<char>, span: Span) -> (
    Result<KindView, DiagnosticView>,
    int,
)
    decreases t.len() - c0, 2nat,
    when 0 <= c0 <= t.len() && c0 + w.len() <= t.len() && w.len() > 0
{
    proof {
        reveal_strlit("any");
        reveal_strlit("scan");
        reveal_strlit("until");
        reveal_strlit("lineRest");
        reveal_strlit("eol");
        reveal_strlit("line");
        reveal_strlit("eof");
        reveal_strlit("soft");
        reveal_strlit("optional");
        reveal_strlit("each");
        reveal_strlit("oneof");
        reveal_strlit("peek");
        reveal_strlit("not");
        reveal_strlit("recur");
        reveal_strlit("indent");
        reveal_strlit("verbatim");
        reveal_strlit("raw");
        reveal_strlit("where");
        reveal_strlit("label");
        reveal_strlit("{");
        reveal_strlit("[");
    }
    if w == "eol"@ {
        (Ok(KindView::Eol), c0 + 3)
    } else if w == "line"@ {
        (Ok(KindView::Line), c0 + 4)
    } else if w == "eof"@ {
        (Ok(KindView::Eof), c0 + 3)
    } else if w == "soft"@ {
        match sp_braced(t, c0 + 4, "soft"@, span) {
            (Err(e), c) => (Err(e), c),
            (Ok(body), c) => (Ok(KindView::Soft(Box::new(body))), c),
        }
    } else if w == "optional"@ {
        match sp_braced(t, c0 + 8, "optional"@, span) {
            (Err(e), c) => (Err(e), c),
            (Ok(body), c) => {
                let (bind, c2) = as_bind(t, c);
                (Ok(KindView::Optional { body: Box::new(body), bind }), c2)
            },
        }
    } else if w == "each"@ {
        sp_each(t, c0, span)
    } else {
        sp_word_element_rest(t, c0, w, span)
    }
}

pub open spec fn sp_word_element_rest(t: Seq<char>, c0: int, w: Seq<char>, span: Span) -> (
    Result<KindView, DiagnosticView>,
    int,
)
    decreases t.len() - c0, 1nat,
    when 0 <= c0 <= t.len() && c0 + w.len() <= t.len() && w.len() > 0
{
    proof {
        reveal_strlit("any");
        reveal_strlit("scan");
        reveal_strlit("until");
        reveal_strlit("lineRest");
        reveal_strlit("eol");
        reveal_strlit("line");
        reveal_strlit("eof");
        reveal_strlit("soft");
        reveal_strlit("optional");
        reveal_strlit("each");
        reveal_strlit("oneof");
        reveal_strlit("peek");
        reveal_strlit("not");
        reveal_strlit("recur");
        reveal_strlit("indent");
        reveal_strlit("verbatim");
        reveal_strlit("raw");
        reveal_strlit("where");
        reveal_strlit("label");
        reveal_strlit("{");
        reveal_strlit("[");
    }
    if w == "oneof"@ {
        let c1 = trivia_end(t, c0 + 5);
        if !at(t, c1, "{"@) {
            (Err(error_at(span, c1, "expected `{` after `oneof`"@)), c1)
        } else if c0 <= c1 < t.len() {
            oneof_from(t, c1 + 1, seq![], span)
        } else {
            (Err(error_at(span, c1, missing_element_message())), c1)
        }
    } else if w == "peek"@ || w == "not"@ {
        match sp_braced(t, c0 + w.len(), w, span) {
            (Err(e), c) => (Err(e), c),
            (Ok(body), c) => (Ok(KindView::Peek { negated: w == "not"@, body: Box::new(body) }), c),
        }
    } else if w == "recur"@ {
        (Ok(KindView::Recur), c0 + 5)
    } else if w == "indent"@ {
        let c1 = trivia_end(t, c0 + 6);
        if word_at(t, c1) == "verbatim"@ {
            let (bind, c2) = as_bind(t, c1 + 8);
            (Ok(KindView::Indent { body: None, verbatim: bind }), c2)
        } else if c0 <= c1 <= t.len() {
            match sp_braced(t, c1, "indent"@, span) {
                (Err(e), c) => (Err(e), c),
                (Ok(body), c) => (Ok(KindView::Indent { body: Some(Box::new(body)), verbatim: None }), c),
            }
        } else {
            (Err(error_at(span, c1, missing_element_message())), c1)
        }
    } else if w == "raw"@ {
        match sp_braced(t, c0 + 3, "raw"@, span) {
            (Err(e), c) => (Err(e), c),
            (Ok(body), c) => (Ok(KindView::Raw(Box::new(body))), c),
        }
    } else if w == "where"@ {
        match spec_parse_ctx_expr(t, c0 + 5, span) {
            (Err(e), c) => (Err(e), c),
            (Ok(cond), c) => (Ok(KindView::Where { cond }), c),
        }
    } else if w == "label"@ {
        let c1 = trivia_end(t, c0 + 5);
        match spec_string_literal(t, c1) {
            None => (Err(error_at(span, c1, "expected a message string after `label`"@)), c1),
            Some((message, l)) => if c0 <= c1 && 0 < l && c1 + l <= t.len() {
                match sp_braced(t, c1 + l, "label"@, span) {
                    (Err(e), c) => (Err(e), c),
                    (Ok(body), c) => (Ok(KindView::Label { message, body: Box::new(body) }), c),
                }
            } else {
                (Err(error_at(span, c1, missing_element_message())), c1)
            },
        }
    } else if !is_reserved(w) {
        spec_rule_ref(t, c0, w, span)
    } else {
        (Err(error_at(span, c0, "unexpected `"@ + w + "` in a pattern"@)), c0)
    }
}


/// A keyword element is of the kind its keyword names: `eol`, `line`,
/// `eof` and `recur` are those elements, and a parsed `soft`, `optional`,
/// `each`, `peek`, `not` (a negated peek), `indent`, `raw`,
/// `where`, `label`, `any`, `scan`, `until` or `lineRest` element is of the
/// kind of that name.
pub proof fn lemma_keyword_element_is_its_kind(t: Seq<char>, c0: int, w: Seq<char>, span: Span)
    requires
        0 <= c0,
        c0 + w.len() <= t.len(),
        w.len() > 0,
    ensures
        ({
            let r = sp_word_element(t, c0, w, span).0;
            &&& w == "eol"@ ==> r == Ok::<KindView, DiagnosticView>(KindView::Eol)
            &&& w == "line"@ ==> r == Ok::<KindView, DiagnosticView>(KindView::Line)
            &&& w == "eof"@ ==> r == Ok::<KindView, DiagnosticView>(KindView::Eof)
            &&& w == "recur"@ ==> r == Ok::<KindView, DiagnosticView>(KindView::Recur)
            &&& w == "soft"@ ==> (r matches Ok(k) ==> k is Soft)
            &&& w == "optional"@ ==> (r matches Ok(k) ==> k is Optional)
            &&& w == "each"@ ==> (r matches Ok(k) ==> k is Each)
            &&& w == "peek"@ ==> (r matches Ok(k) ==> (k matches KindView::Peek { negated, .. } && !negated))
            &&& w == "not"@ ==> (r matches Ok(k) ==> (k matches KindView::Peek { negated, .. } && negated))
            &&& w == "indent"@ ==> (r matches Ok(k) ==> k is Indent)
            &&& w == "raw"@ ==> (r matches Ok(k) ==> k is Raw)
            &&& w == "where"@ ==> (r matches Ok(k) ==> k is Where)
            &&& w == "label"@ ==> (r matches Ok(k) ==> k is Label)
            &&& w == "any"@ ==> (r matches Ok(k) ==> k is Any)
            &&& w == "scan"@ ==> (r matches Ok(k) ==> k is Scan)
            &&& w == "until"@ ==> (r matches Ok(k) ==> k is Until)
            &&& w == "lineRest"@ ==> (r matches Ok(k) ==> k is LineRest)
        }),
{
    reveal_strlit("any");
    reveal_strlit("scan");
    reveal_strlit("until");
    reveal_strlit("lineRest");
    reveal_strlit("eol");
    reveal_strlit("line");
    reveal_strlit("eof");
    reveal_strlit("soft");
    reveal_strlit("optional");
    reveal_strlit("each");
    reveal_strlit("oneof");
    reveal_strlit("peek");
    reveal_strlit("not");
    reveal_strlit("recur");
    reveal_strlit("indent");
    reveal_strlit("verbatim");
    reveal_strlit("raw");
    reveal_strlit("where");
    reveal_strlit("label");
    if w == "any"@ {
        assert("any"@.len() != "scan"@.len() && "any"@.len() != "until"@.len() && "any"@.len() != "lineRest"@.len() && "any"@[0] != "eol"@[0] && "any"@.len() != "line"@.len() && "any"@[0] != "eof"@[0] && "any"@.len() != "soft"@.len() && "any"@.len() != "optional"@.len() && "any"@.len() != "each"@.len() && "any"@.len() != "oneof"@.len() && "any"@.len() != "peek"@.len() && "any"@[0] != "not"@[0] && "any"@.len() != "recur"@.len() && "any"@.len() != "indent"@.len() && "any"@[0] != "raw"@[0] && "any"@.len() != "where"@.len() && "any"@.len() != "label"@.len());
        assert("any"@ != "scan"@ && "any"@ != "until"@ && "any"@ != "lineRest"@ && "any"@ != "eol"@ && "any"@ != "line"@ && "any"@ != "eof"@ && "any"@ != "soft"@ && "any"@ != "optional"@ && "any"@ != "each"@ && "any"@ != "oneof"@ && "any"@ != "peek"@ && "any"@ != "not"@ && "any"@ != "recur"@ && "any"@ != "indent"@ && "any"@ != "raw"@ && "any"@ != "where"@ && "any"@ != "label"@);
    }
    if w == "scan"@ {
        assert("scan"@.len() != "any"@.len() && "scan"@.len() != "until"@.len() && "scan"@.len() != "lineRest"@.len() && "scan"@.len() != "eol"@.len() && "scan"@[0] != "line"@[0] && "scan"@.len() != "eof"@.len() && "scan"@[1] != "soft"@[1] && "scan"@.len() != "optional"@.len() && "scan"@[0] != "each"@[0] && "scan"@.len() != "oneof"@.len() && "scan"@[0] != "peek"@[0] && "scan"@.len() != "not"@.len() && "scan"@.len() != "recur"@.len() && "scan"@.len() != "indent"@.len() && "scan"@.len() != "raw"@.len() && "scan"@.len() != "where"@.len() && "scan"@.len() != "label"@.len());
        assert("scan"@ != "any"@ && "scan"@ != "until"@ && "scan"@ != "lineRest"@ && "scan"@ != "eol"@ && "scan"@ != "line"@ && "scan"@ != "eof"@ && "scan"@ != "soft"@ && "scan"@ != "optional"@ && "scan"@ != "each"@ && "scan"@ != "oneof"@ && "scan"@ != "peek"@ && "scan"@ != "not"@ && "scan"@ != "recur"@ && "scan"@ != "indent"@ && "scan"@ != "raw"@ && "scan"@ != "where"@ && "scan"@ != "label"@);
    }
    if w == "until"@ {
        assert("until"@.len() != "any"@.len() && "until"@.len() != "scan"@.len() && "until"@.len() != "lineRest"@.len() && "until"@.len() != "eol"@.len() && "until"@.len() != "line"@.len() && "until"@.len() != "eof"@.len() && "until"@.len() != "soft"@.len() && "until"@.len() != "optional"@.len() && "until"@.len() != "each"@.len() && "until"@[0] != "oneof"@[0] && "until"@.len() != "peek"@.len() && "until"@.len() != "not"@.len() && "until"@[0] != "recur"@[0] && "until"@.len() != "indent"@.len() && "until"@.len() != "raw"@.len() && "until"@[0] != "where"@[0] && "until"@[0] != "label"@[0]);
        assert("until"@ != "any"@ && "until"@ != "scan"@ && "until"@ != "lineRest"@ && "until"@ != "eol"@ && "until"@ != "line"@ && "until"@ != "eof"@ && "until"@ != "soft"@ && "until"@ != "optional"@ && "until"@ != "each"@ && "until"@ != "oneof"@ && "until"@ != "peek"@ && "until"@ != "not"@ && "until"@ != "recur"@ && "until"@ != "indent"@ && "until"@ != "raw"@ && "until"@ != "where"@ && "until"@ != "label"@);
    }
    if w == "lineRest"@ {
        assert("lineRest"@.len() != "any"@.len() && "lineRest"@.len() != "scan"@.len() && "lineRest"@.len() != "until"@.len() && "lineRest"@.len() != "eol"@.len() && "lineRest"@.len() != "line"@.len() && "lineRest"@.len() != "eof"@.len() && "lineRest"@.len() != "soft"@.len() && "lineRest"@[0] != "optional"@[0] && "lineRest"@.len() != "each"@.len() && "lineRest"@.len() != "oneof"@.len() && "lineRest"@.len() != "peek"@.len() && "lineRest"@.len() != "not"@.len() && "lineRest"@.len() != "recur"@.len() && "lineRest"@.len() != "indent"@.len() && "lineRest"@.len() != "raw"@.len() && "lineRest"@.len() != "where"@.len() && "lineRest"@.len() != "label"@.len());
        assert("lineRest"@ != "any"@ && "lineRest"@ != "scan"@ && "lineRest"@ != "until"@ && "lineRest"@ != "eol"@ && "lineRest"@ != "line"@ && "lineRest"@ != "eof"@ && "lineRest"@ != "soft"@ && "lineRest"@ != "optional"@ && "lineRest"@ != "each"@ && "lineRest"@ != "oneof"@ && "lineRest"@ != "peek"@ && "lineRest"@ != "not"@ && "lineRest"@ != "recur"@ && "lineRest"@ != "indent"@ && "lineRest"@ != "raw"@ && "lineRest"@ != "where"@ && "lineRest"@ != "label"@);
    }
    if w == "eol"@ {
        assert("eol"@[0] != "any"@[0] && "eol"@.len() != "scan"@.len() && "eol"@.len() != "until"@.len() && "eol"@.len() != "lineRest"@.len() && "eol"@.len() != "line"@.len() && "eol"@[2] != "eof"@[2] && "eol"@.len() != "soft"@.len() && "eol"@.len() != "optional"@.len() && "eol"@.len() != "each"@.len() && "eol"@.len() != "oneof"@.len() && "eol"@.len() != "peek"@.len() && "eol"@[0] != "not"@[0] && "eol"@.len() != "recur"@.len() && "eol"@.len() != "indent"@.len() && "eol"@[0] != "raw"@[0] && "eol"@.len() != "where"@.len() && "eol"@.len() != "label"@.len());
        assert("eol"@ != "any"@ && "eol"@ != "scan"@ && "eol"@ != "until"@ && "eol"@ != "lineRest"@ && "eol"@ != "line"@ && "eol"@ != "eof"@ && "eol"@ != "soft"@ && "eol"@ != "optional"@ && "eol"@ != "each"@ && "eol"@ != "oneof"@ && "eol"@ != "peek"@ && "eol"@ != "not"@ && "eol"@ != "recur"@ && "eol"@ != "indent"@ && "eol"@ != "raw"@ && "eol"@ != "where"@ && "eol"@ != "label"@);
        assert(sp_word_element(t, c0, w, span) == sp_word_element_mid(t, c0, w, span));
    }
    if w == "line"@ {
        assert("line"@.len() != "any"@.len() && "line"@[0] != "scan"@[0] && "line"@.len() != "until"@.len() && "line"@.len() != "lineRest"@.len() && "line"@.len() != "eol"@.len() && "line"@.len() != "eof"@.len() && "line"@[0] != "soft"@[0] && "line"@.len() != "optional"@.len() && "line"@[0] != "each"@[0] && "line"@.len() != "oneof"@.len() && "line"@[0] != "peek"@[0] && "line"@.len() != "not"@.len() && "line"@.len() != "recur"@.len() && "line"@.len() != "indent"@.len() && "line"@.len() != "raw"@.len() && "line"@.len() != "where"@.len() && "line"@.len() != "label"@.len());
        assert("line"@ != "any"@ && "line"@ != "scan"@ && "line"@ != "until"@ && "line"@ != "lineRest"@ && "line"@ != "eol"@ && "line"@ != "eof"@ && "line"@ != "soft"@ && "line"@ != "optional"@ && "line"@ != "each"@ && "line"@ != "oneof"@ && "line"@ != "peek"@ && "line"@ != "not"@ && "line"@ != "recur"@ && "line"@ != "indent"@ && "line"@ != "raw"@ && "line"@ != "where"@ && "line"@ != "label"@);
        assert(sp_word_element(t, c0, w, span) == sp_word_element_mid(t, c0, w, span));
    }
    if w == "eof"@ {
        assert("eof"@[0] != "any"@[0] && "eof"@.len() != "scan"@.len() && "eof"@.len() != "until"@.len() && "eof"@.len() != "lineRest"@.len() && "eof"@[2] != "eol"@[2] && "eof"@.len() != "line"@.len() && "eof"@.len() != "soft"@.len() && "eof"@.len() != "optional"@.len() && "eof"@.len() != "each"@.len() && "eof"@.len() != "oneof"@.len() && "eof"@.len() != "peek"@.len() && "eof"@[0] != "not"@[0] && "eof"@.len() != "recur"@.len() && "eof"@.len() != "indent"@.len() && "eof"@[0] != "raw"@[0] && "eof"@.len() != "where"@.len() && "eof"@.len() != "label"@.len());
        assert("eof"@ != "any"@ && "eof"@ != "scan"@ && "eof"@ != "until"@ && "eof"@ != "lineRest"@ && "eof"@ != "eol"@ && "eof"@ != "line"@ && "eof"@ != "soft"@ && "eof"@ != "optional"@ && "eof"@ != "each"@ && "eof"@ != "oneof"@ && "eof"@ != "peek"@ && "eof"@ != "not"@ && "eof"@ != "recur"@ && "eof"@ != "indent"@ && "eof"@ != "raw"@ && "eof"@ != "where"@ && "eof"@ != "label"@);
        assert(sp_word_element(t, c0, w, span) == sp_word_element_mid(t, c0, w, span));
    }
    if w == "soft"@ {
        assert("soft"@.len() != "any"@.len() && "soft"@[1] != "scan"@[1] && "soft"@.len() != "until"@.len() && "soft"@.len() != "lineRest"@.len() && "soft"@.len() != "eol"@.len() && "soft"@[0] != "line"@[0] && "soft"@.len() != "eof"@.len() && "soft"@.len() != "optional"@.len() && "soft"@[0] != "each"@[0] && "soft"@.len() != "oneof"@.len() && "soft"@[0] != "peek"@[0] && "soft"@.len() != "not"@.len() && "soft"@.len() != "recur"@.len() && "soft"@.len() != "indent"@.len() && "soft"@.len() != "raw"@.len() && "soft"@.len() != "where"@.len() && "soft"@.len() != "label"@.len());
        assert("soft"@ != "any"@ && "soft"@ != "scan"@ && "soft"@ != "until"@ && "soft"@ != "lineRest"@ && "soft"@ != "eol"@ && "soft"@ != "line"@ && "soft"@ != "eof"@ && "soft"@ != "optional"@ && "soft"@ != "each"@ && "soft"@ != "oneof"@ && "soft"@ != "peek"@ && "soft"@ != "not"@ && "soft"@ != "recur"@ && "soft"@ != "indent"@ && "soft"@ != "raw"@ && "soft"@ != "where"@ && "soft"@ != "label"@);
        assert(sp_word_element(t, c0, w, span) == sp_word_element_mid(t, c0, w, span));
    }
    if w == "optional"@ {
        assert("optional"@.len() != "any"@.len() && "optional"@.len() != "scan"@.len() && "optional"@.len() != "until"@.len() && "optional"@[0] != "lineRest"@[0] && "optional"@.len() != "eol"@.len() && "optional"@.len() != "line"@.len() && "optional"@.len() != "eof"@.len() && "optional"@.len() != "soft"@.len() && "optional"@.len() != "each"@.len() && "optional"@.len() != "oneof"@.len() && "optional"@.len() != "peek"@.len() && "optional"@.len() != "not"@.len() && "optional"@.len() != "recur"@.len() && "optional"@.len() != "indent"@.len() && "optional"@.len() != "raw"@.len() && "optional"@.len() != "where"@.len() && "optional"@.len() != "label"@.len());
        assert("optional"@ != "any"@ && "optional"@ != "scan"@ && "optional"@ != "until"@ && "optional"@ != "lineRest"@ && "optional"@ != "eol"@ && "optional"@ != "line"@ && "optional"@ != "eof"@ && "optional"@ != "soft"@ && "optional"@ != "each"@ && "optional"@ != "oneof"@ && "optional"@ != "peek"@ && "optional"@ != "not"@ && "optional"@ != "recur"@ && "optional"@ != "indent"@ && "optional"@ != "raw"@ && "optional"@ != "where"@ && "optional"@ != "label"@);
        assert(sp_word_element(t, c0, w, span) == sp_word_element_mid(t, c0, w, span));
    }
    if w == "each"@ {
        assert("each"@.len() != "any"@.len() && "each"@[0] != "scan"@[0] && "each"@.len() != "until"@.len() && "each"@.len() != "lineRest"@.len() && "each"@.len() != "eol"@.len() && "each"@[0] != "line"@[0] && "each"@.len() != "eof"@.len() && "each"@[0] != "soft"@[0] && "each"@.len() != "optional"@.len() && "each"@.len() != "oneof"@.len() && "each"@[0] != "peek"@[0] && "each"@.len() != "not"@.len() && "each"@.len() != "recur"@.len() && "each"@.len() != "indent"@.len() && "each"@.len() != "raw"@.len() && "each"@.len() != "where"@.len() && "each"@.len() != "label"@.len());
        assert("each"@ != "any"@ && "each"@ != "scan"@ && "each"@ != "until"@ && "each"@ != "lineRest"@ && "each"@ != "eol"@ && "each"@ != "line"@ && "each"@ != "eof"@ && "each"@ != "soft"@ && "each"@ != "optional"@ && "each"@ != "oneof"@ && "each"@ != "peek"@ && "each"@ != "not"@ && "each"@ != "recur"@ && "each"@ != "indent"@ && "each"@ != "raw"@ && "each"@ != "where"@ && "each"@ != "label"@);
        assert(sp_word_element(t, c0, w, span) == sp_word_element_mid(t, c0, w, span));
    }
    if w == "peek"@ {
        assert("peek"@.len() != "any"@.len() && "peek"@[0] != "scan"@[0] && "peek"@.len() != "until"@.len() && "peek"@.len() != "lineRest"@.len() && "peek"@.len() != "eol"@.len() && "peek"@[0] != "line"@[0] && "peek"@.len() != "eof"@.len() && "peek"@[0] != "soft"@[0] && "peek"@.len() != "optional"@.len() && "peek"@[0] != "each"@[0] && "peek"@.len() != "oneof"@.len() && "peek"@.len() != "not"@.len() && "peek"@.len() != "recur"@.len() && "peek"@.len() != "indent"@.len() && "peek"@.len() != "raw"@.len() && "peek"@.len() != "where"@.len() && "peek"@.len() != "label"@.len());
        assert("peek"@ != "any"@ && "peek"@ != "scan"@ && "peek"@ != "until"@ && "peek"@ != "lineRest"@ && "peek"@ != "eol"@ && "peek"@ != "line"@ && "peek"@ != "eof"@ && "peek"@ != "soft"@ && "peek"@ != "optional"@ && "peek"@ != "each"@ && "peek"@ != "oneof"@ && "peek"@ != "not"@ && "peek"@ != "recur"@ && "peek"@ != "indent"@ && "peek"@ != "raw"@ && "peek"@ != "where"@ && "peek"@ != "label"@);
        assert(sp_word_element(t, c0, w, span) == sp_word_element_mid(t, c0, w, span));
        assert(sp_word_element_mid(t, c0, w, span) == sp_word_element_rest(t, c0, w, span));
    }
    if w == "not"@ {
        assert("not"@[0] != "any"@[0] && "not"@.len() != "scan"@.len() && "not"@.len() != "until"@.len() && "not"@.len() != "lineRest"@.len() && "not"@[0] != "eol"@[0] && "not"@.len() != "line"@.len() && "not"@[0] != "eof"@[0] && "not"@.len() != "soft"@.len() && "not"@.len() != "optional"@.len() && "not"@.len() != "each"@.len() && "not"@.len() != "oneof"@.len() && "not"@.len() != "peek"@.len() && "not"@.len() != "recur"@.len() && "not"@.len() != "indent"@.len() && "not"@[0] != "raw"@[0] && "not"@.len() != "where"@.len() && "not"@.len() != "label"@.len());
        assert("not"@ != "any"@ && "not"@ != "scan"@ && "not"@ != "until"@ && "not"@ != "lineRest"@ && "not"@ != "eol"@ && "not"@ != "line"@ && "not"@ != "eof"@ && "not"@ != "soft"@ && "not"@ != "optional"@ && "not"@ != "each"@ && "not"@ != "oneof"@ && "not"@ != "peek"@ && "not"@ != "recur"@ && "not"@ != "indent"@ && "not"@ != "raw"@ && "not"@ != "where"@ && "not"@ != "label"@);
        assert(sp_word_element(t, c0, w, span) == sp_word_element_mid(t, c0, w, span));
        assert(sp_word_element_mid(t, c0, w, span) == sp_word_element_rest(t, c0, w, span));
    }
    if w == "recur"@ {
        assert("recur"@.len() != "any"@.len() && "recur"@.len() != "scan"@.len() && "recur"@[0] != "until"@[0] && "recur"@.len() != "lineRest"@.len() && "recur"@.len() != "eol"@.len() && "recur"@.len() != "line"@.len() && "recur"@.len() != "eof"@.len() && "recur"@.len() != "soft"@.len() && "recur"@.len() != "optional"@.len() && "recur"@.len() != "each"@.len() && "recur"@[0] != "oneof"@[0] && "recur"@.len() != "peek"@.len() && "recur"@.len() != "not"@.len() && "recur"@.len() != "indent"@.len() && "recur"@.len() != "raw"@.len() && "recur"@[0] != "where"@[0] && "recur"@[0] != "label"@[0]);
        assert("recur"@ != "any"@ && "recur"@ != "scan"@ && "recur"@ != "until"@ && "recur"@ != "lineRest"@ && "recur"@ != "eol"@ && "recur"@ != "line"@ && "recur"@ != "eof"@ && "recur"@ != "soft"@ && "recur"@ != "optional"@ && "recur"@ != "each"@ && "recur"@ != "oneof"@ && "recur"@ != "peek"@ && "recur"@ != "not"@ && "recur"@ != "indent"@ && "recur"@ != "raw"@ && "recur"@ != "where"@ && "recur"@ != "label"@);
        assert(sp_word_element(t, c0, w, span) == sp_word_element_mid(t, c0, w, span));
        assert(sp_word_element_mid(t, c0, w, span) == sp_word_element_rest(t, c0, w, span));
    }
    if w == "indent"@ {
        assert("indent"@.len() != "any"@.len() && "indent"@.len() != "scan"@.len() && "indent"@.len() != "until"@.len() && "indent"@.len() != "lineRest"@.len() && "indent"@.len() != "eol"@.len() && "indent"@.len() != "line"@.len() && "indent"@.len() != "eof"@.len() && "indent"@.len() != "soft"@.len() && "indent"@.len() != "optional"@.len() && "indent"@.len() != "each"@.len() && "indent"@.len() != "oneof"@.len() && "indent"@.len() != "peek"@.len() && "indent"@.len() != "not"@.len() && "indent"@.len() != "recur"@.len() && "indent"@.len() != "raw"@.len() && "indent"@.len() != "where"@.len() && "indent"@.len() != "label"@.len());
        assert("indent"@ != "any"@ && "indent"@ != "scan"@ && "indent"@ != "until"@ && "indent"@ != "lineRest"@ && "indent"@ != "eol"@ && "indent"@ != "line"@ && "indent"@ != "eof"@ && "indent"@ != "soft"@ && "indent"@ != "optional"@ && "indent"@ != "each"@ && "indent"@ != "oneof"@ && "indent"@ != "peek"@ && "indent"@ != "not"@ && "indent"@ != "recur"@ && "indent"@ != "raw"@ && "indent"@ != "where"@ && "indent"@ != "label"@);
        assert(sp_word_element(t, c0, w, span) == sp_word_element_mid(t, c0, w, span));
        assert(sp_word_element_mid(t, c0, w, span) == sp_word_element_rest(t, c0, w, span));
    }
    if w == "raw"@ {
        assert("raw"@[0] != "any"@[0] && "raw"@.len() != "scan"@.len() && "raw"@.len() != "until"@.len() && "raw"@.len() != "lineRest"@.len() && "raw"@[0] != "eol"@[0] && "raw"@.len() != "line"@.len() && "raw"@[0] != "eof"@[0] && "raw"@.len() != "soft"@.len() && "raw"@.len() != "optional"@.len() && "raw"@.len() != "each"@.len() && "raw"@.len() != "oneof"@.len() && "raw"@.len() != "peek"@.len() && "raw"@[0] != "not"@[0] && "raw"@.len() != "recur"@.len() && "raw"@.len() != "indent"@.len() && "raw"@.len() != "where"@.len() && "raw"@.len() != "label"@.len());
        assert("raw"@ != "any"@ && "raw"@ != "scan"@ && "raw"@ != "until"@ && "raw"@ != "lineRest"@ && "raw"@ != "eol"@ && "raw"@ != "line"@ && "raw"@ != "eof"@ && "raw"@ != "soft"@ && "raw"@ != "optional"@ && "raw"@ != "each"@ && "raw"@ != "oneof"@ && "raw"@ != "peek"@ && "raw"@ != "not"@ && "raw"@ != "recur"@ && "raw"@ != "indent"@ && "raw"@ != "where"@ && "raw"@ != "label"@);
        assert(sp_word_element(t, c0, w, span) == sp_word_element_mid(t, c0, w, span));
        assert(sp_word_element_mid(t, c0, w, span) == sp_word_element_rest(t, c0, w, span));
    }
    if w == "where"@ {
        assert("where"@.len() != "any"@.len() && "where"@.len() != "scan"@.len() && "where"@[0] != "until"@[0] && "where"@.len() != "lineRest"@.len() && "where"@.len() != "eol"@.len() && "where"@.len() != "line"@.len() && "where"@.len() != "eof"@.len() && "where"@.len() != "soft"@.len() && "where"@.len() != "optional"@.len() && "where"@.len() != "each"@.len() && "where"@[0] != "oneof"@[0] && "where"@.len() != "peek"@.len() && "where"@.len() != "not"@.len() && "where"@[0] != "recur"@[0] && "where"@.len() != "indent"@.len() && "where"@.len() != "raw"@.len() && "where"@[0] != "label"@[0]);
        assert("where"@ != "any"@ && "where"@ != "scan"@ && "where"@ != "until"@ && "where"@ != "lineRest"@ && "where"@ != "eol"@ && "where"@ != "line"@ && "where"@ != "eof"@ && "where"@ != "soft"@ && "where"@ != "optional"@ && "where"@ != "each"@ && "where"@ != "oneof"@ && "where"@ != "peek"@ && "where"@ != "not"@ && "where"@ != "recur"@ && "where"@ != "indent"@ && "where"@ != "raw"@ && "where"@ != "label"@);
        assert(sp_word_element(t, c0, w, span) == sp_word_element_mid(t, c0, w, span));
        assert(sp_word_element_mid(t, c0, w, span) == sp_word_element_rest(t, c0, w, span));
    }
    if w == "label"@ {
        assert("label"@.len() != "any"@.len() && "label"@.len() != "scan"@.len() && "label"@[0] != "until"@[0] && "label"@.len() != "lineRest"@.len() && "label"@.len() != "eol"@.len() && "label"@.len() != "line"@.len() && "label"@.len() != "eof"@.len() && "label"@.len() != "soft"@.len() && "label"@.len() != "optional"@.len() && "label"@.len() != "each"@.len() && "label"@[0] != "oneof"@[0] && "label"@.len() != "peek"@.len() && "label"@.len() != "not"@.len() && "label"@[0] != "recur"@[0] && "label"@.len() != "indent"@.len() && "label"@.len() != "raw"@.len() && "label"@[0] != "where"@[0]);
        assert("label"@ != "any"@ && "label"@ != "scan"@ && "label"@ != "until"@ && "label"@ != "lineRest"@ && "label"@ != "eol"@ && "label"@ != "line"@ && "label"@ != "eof"@ && "label"@ != "soft"@ && "label"@ != "optional"@ && "label"@ != "each"@ && "label"@ != "oneof"@ && "label"@ != "peek"@ && "label"@ != "not"@ && "label"@ != "recur"@ && "label"@ != "indent"@ && "label"@ != "raw"@ && "label"@ != "where"@);
        assert(sp_word_element(t, c0, w, span) == sp_word_element_mid(t, c0, w, span));
        assert(sp_word_element_mid(t, c0, w, span) == sp_word_element_rest(t, c0, w, span));
    }
}

/// The kind of the element at `c0` (on its first character) and where it
/// ends.
pub open spec fn sp_element_kind(t: Seq<char>, c0: int, span: Span) -> (Result<KindView, DiagnosticView>, int)
    decreases t.len() - c0, 4nat,
    when 0 <= c0 < t.len()
{
    proof {
        lemma_word_len(t, c0);
        reveal_strlit("\"");
        reveal_strlit("$");
    }
    let first = t[c0];
    if first == '"' {
        match spec_string_literal(t, c0) {
            None => (Err(error_at(span, c0, "malformed string literal"@)), c0),
            Some((v, l)) => (Ok(KindView::Lit { text: v, insensitive: false }), c0 + l),
        }
    } else if first == 'i' && at(t, c0 + 1, "\""@) {
        match spec_string_literal(t, c0 + 1) {
            None => (Err(error_at(span, c0 + 1, "malformed string literal"@)), c0 + 1),
            Some((v, l)) => (Ok(KindView::Lit { text: v, insensitive: true }), c0 + 1 + l),
        }
    } else if first == '[' {
        match spec_class(t, c0, span) {
            (Err(e), c1) => (Err(e), c1),
            (Ok(set), c1) => {
                let (bind, c2) = trailing_bind(t, c1);
                (Ok(KindView::Class { set, bind }), c2)
            },
        }
    } else if first == '$' || (first == 'i' && at(t, c0 + 1, "$"@)) {
        let at_dollar = if first == '$' {
            c0
        } else {
            c0 + 1
        };
        match spec_fragment(t, at_dollar, span) {
            (Err(e), c1) => (Err(e), c1),
            (Ok((kind, validator, bind)), c1) => (
                Ok(KindView::Fragment { kind, insensitive: first == 'i', validator, bind }),
                c1,
            ),
        }
    } else if first == '(' {
        match sp_sequence(t, c0 + 1, Some(')'), span) {
            (Err(e), c1) => (Err(e), c1),
            (Ok(body), c1) => {
                let c2 = trivia_end(t, c1);
                if !at(t, c2, ")"@) {
                    (Err(error_at(span, c2, "expected `)` to close the group"@)), c2)
                } else {
                    let (bind, c3) = as_bind(t, c2 + 1);
                    (Ok(KindView::Group { body: Box::new(body), bind }), c3)
                }
            },
        }
    } else if is_ascii_alpha(first) || first == '_' {
        sp_word_element(t, c0, word_at(t, c0), span)
    } else {
        (Err(error_at(span, c0, "unexpected `"@ + seq![first] + "` in a pattern"@)), c0)
    }
}

/// One pattern element at `c` (after trivia) and its span.
pub open spec fn sp_element(t: Seq<char>, c: int, span: Span) -> (Result<ElemView, DiagnosticView>, int)
    decreases t.len() - c, 5nat,
    when 0 <= c <= t.len()
{
    proof {
        lemma_skip_wsc_bounds(t, c, cm());
        lemma_word_len(t, trivia_end(t, c));
        reveal_strlit("\"");
        reveal_strlit("$");
    }
    let c0 = trivia_end(t, c);
    if c0 >= t.len() {
        (Err(error_at(span, c0, missing_element_message())), c0)
    } else {
        let (kind, c1) = sp_element_kind(t, c0, span);
        match kind {
            Err(e) => (Err(e), c1),
            Ok(kind) => (Ok(ElemView { span: element_span(span, c0, c1), kind }), c1),
        }
    }
}


// ---------------------------------------------------------------------------
// The indent-after-eol rule
// ---------------------------------------------------------------------------

/// The span of the first `indent` that directly follows an `eol` in
/// `elems[i..]`.
pub open spec fn first_window(elems: Seq<ElemView>, i: int) -> Option<Span>
    decreases elems.len() - i,
{
    if i < 0 || i + 1 >= elems.len() {
        None
    } else if elems[i].kind is Eol && elems[i + 1].kind is Indent {
        Some(elems[i + 1].span)
    } else {
        first_window(elems, i + 1)
    }
}

/// The first place where `indent` directly follows `eol` in a sequence of
/// `p`: this level first, then every nested sequence, in element order.
pub open spec fn pattern_violation(p: PatternView) -> Option<Span>
    decreases p,
{
    match first_window(p.elems, 0) {
        Some(s) => Some(s),
        None => elems_violation(p.elems),
    }
}

pub open spec fn elems_violation(s: Seq<ElemView>) -> Option<Span>
    decreases s,
{
    if s.len() == 0 {
        None
    } else {
        match kind_violation(s[0].kind) {
            Some(v) => Some(v),
            None => elems_violation(s.subrange(1, s.len() as int)),
        }
    }
}

pub open spec fn branches_violation(s: Seq<(Seq<char>, PatternView)>) -> Option<Span>
    decreases s,
{
    if s.len() == 0 {
        None
    } else {
        match pattern_violation(s[0].1) {
            Some(v) => Some(v),
            None => branches_violation(s.subrange(1, s.len() as int)),
        }
    }
}

pub open spec fn kind_violation(k: KindView) -> Option<Span>
    decreases k,
{
    match k {
        KindView::Soft(b) => pattern_violation(*b),
        KindView::Raw(b) => pattern_violation(*b),
        KindView::Label { body, .. } => pattern_violation(*body),
        KindView::Group { body, .. } => pattern_violation(*body),
        KindView::Optional { body, .. } => pattern_violation(*body),
        KindView::Peek { body, .. } => pattern_violation(*body),
        KindView::Until { stop, .. } => pattern_violation(*stop),
        KindView::Indent { body: Some(b), .. } => pattern_violation(*b),
        KindView::Each { sep, body, .. } => match sep {
            Some(sp) => match pattern_violation(*sp) {
                Some(v) => Some(v),
                None => pattern_violation(*body),
            },
            None => pattern_violation(*body),
        },
        KindView::OneOf { branches, .. } => branches_violation(branches),
        _ => None,
    }
}

pub open spec fn indent_message() -> Seq<char> {
    "`indent` may not directly follow `eol`: indent performs its own line advancement"@
}

/// The parse of a whole pattern text: its elements, or the diagnostic of
/// the first thing that does not parse, of text left after the pattern, or
/// of an `indent` that directly follows an `eol`.
pub open spec fn spec_parse_pattern(t: Seq<char>, span: Span) -> Result<PatternView, DiagnosticView> {
    match sp_sequence(t, 0, None, span) {
        (Err(e), _) => Err(e),
        (Ok(p), c) => {
            let c1 = trivia_end(t, c);
            if 0 <= c1 < t.len() {
                Err(error_at(span, c1, "unexpected `"@ + seq![t[c1]] + "` after the pattern"@))
            } else {
                match pattern_violation(p) {
                    Some(s) => Err(DiagnosticView { message: indent_message(), span: s }),
                    None => Ok(p),
                }
            }
        },
    }
}

pub open spec fn pattern_result_view(r: Result<Pattern, Diagnostic>) -> Result<PatternView, DiagnosticView> {
    match r {
        Ok(p) => Ok(pattern_view(p)),
        Err(d) => Err(d@),
    }
}


// ---------------------------------------------------------------------------
// Parser
// ---------------------------------------------------------------------------

pub open spec fn text_fits(t: Seq<char>, span: Span) -> bool {
    t.len() < usize::MAX && span.start + t.len() <= usize::MAX
}

pub open spec fn kind_result_view(r: Result<PatKind, Diagnostic>) -> Result<KindView, DiagnosticView> {
    match r {
        Ok(k) => Ok(kind_view(k)),
        Err(d) => Err(d@),
    }
}

pub open spec fn elem_result_view(r: Result<PatElem, Diagnostic>) -> Result<ElemView, DiagnosticView> {
    match r {
        Ok(e) => Ok(ElemView { span: e.span, kind: kind_view(e.kind) }),
        Err(d) => Err(d@),
    }
}

proof fn lemma_elems_view_push(s: Seq<PatElem>, e: PatElem)
    ensures
        elems_view(s.push(e)) == elems_view(s).push(ElemView { span: e.span, kind: kind_view(e.kind) }),
    decreases s.len(),
{
    if s.len() == 0 {
        assert(s.push(e).subrange(1, 1) =~= Seq::<PatElem>::empty());
        assert(elems_view(Seq::<PatElem>::empty()) =~= seq![]);
        assert(elems_view(s.push(e)) =~= seq![ElemView { span: e.span, kind: kind_view(e.kind) }]);
        assert(elems_view(s) =~= seq![]);
    } else {
        let rest = s.subrange(1, s.len() as int);
        lemma_elems_view_push(rest, e);
        assert(s.push(e).subrange(1, s.len() as int + 1) =~= rest.push(e));
        assert(s.push(e)[0] == s[0]);
        assert(elems_view(s.push(e)) =~= elems_view(s).push(
            ElemView { span: e.span, kind: kind_view(e.kind) },
        ));
    }
}

proof fn lemma_branches_view_push(s: Seq<(String, Pattern)>, b: (String, Pattern))
    ensures
        branches_view(s.push(b)) == branches_view(s).push((b.0@, pattern_view(b.1))),
    decreases s.len(),
{
    if s.len() == 0 {
        assert(s.push(b).subrange(1, 1) =~= Seq::<(String, Pattern)>::empty());
        assert(branches_view(Seq::<(String, Pattern)>::empty()) =~= seq![]);
        assert(branches_view(s.push(b)) =~= seq![(b.0@, pattern_view(b.1))]);
        assert(branches_view(s) =~= seq![]);
    } else {
        let rest = s.subrange(1, s.len() as int);
        lemma_branches_view_push(rest, b);
        assert(s.push(b).subrange(1, s.len() as int + 1) =~= rest.push(b));
        assert(s.push(b)[0] == s[0]);
        assert(branches_view(s.push(b)) =~= branches_view(s).push((b.0@, pattern_view(b.1))));
    }
}

fn single(e: PatElem) -> (p: Pattern)
    ensures
        pattern_view(p) == (PatternView { elems: seq![ElemView { span: e.span, kind: kind_view(e.kind) }] }),
{
    let mut elems: Vec<PatElem> = Vec::new();
    proof {
        lemma_elems_view_push(elems@, e);
        assert(elems_view(elems@) =~= seq![]);
    }
    elems.push(e);
    Pattern { elems }
}

fn ref_path_exec(t: &[char], c: usize, path: Vec<String>, sc: &LexProfile) -> (r: (Vec<String>, usize))
    requires
        c <= t@.len(),
        t@.len() < usize::MAX,
        sc@ == cm(),
    ensures
        (strings_view(r.0@), r.1 as int) == ref_path_from(t@, c as int, strings_view(path@)),
        c <= r.1 <= t@.len(),
    decreases t@.len() - c,
{
    proof {
        reveal_strlit(".");
    }
    let c1 = trivia(t, c, sc);
    if has_line_feed_exec(t, c, c1) {
        return (path, c);
    }
    if at_exec(t, c1, ".") && c1 + 1 < t.len() && (crate::text::char_is_ascii_alpha(t[c1 + 1]) || t[c1 + 1]
        == '_') {
        let w = next_word(t, c1 + 1);
        proof {
            lemma_word_len(t@, c1 + 1);
        }
        let mut path = path;
        let ghost before = strings_view(path@);
        path.push(word_string(&w));
        assert(strings_view(path@) =~= before.push(w@));
        return ref_path_exec(t, c1 + 1 + w.len(), path, sc);
    }
    (path, c1)
}

#[verifier::spinoff_prover]
fn rule_ref_exec(t: &[char], c: usize, w: &Vec<char>, span: Span, sc: &LexProfile) -> (r: (
    Result<PatKind, Diagnostic>,
    usize,
))
    requires
        c + w@.len() <= t@.len(),
        text_fits(t@, span),
        sc@ == cm(),
    ensures
        (kind_result_view(r.0), r.1 as int) == spec_rule_ref(t@, c as int, w@, span),
        c + w@.len() <= r.1 <= t@.len(),
{
    proof {
        reveal_strlit("with");
        reveal_strlit("context");
    }
    let mut first: Vec<String> = Vec::new();
    first.push(word_string(w));
    assert(strings_view(first@) =~= seq![w@]);
    let (path, c2) = ref_path_exec(t, c + w.len(), first, sc);
    let c3 = trivia(t, c2, sc);
    let (ctx, c6): (Result<Vec<(String, CtxExpr)>, Diagnostic>, usize) = if has_line_feed_exec(t, c2, c3) {
        let e: Vec<(String, CtxExpr)> = Vec::new();
        assert(bindings_view(e@) =~= seq![]);
        (Ok(e), c2)
    } else {
        let word = next_word(t, c3);
        proof {
            lemma_word_len(t@, c3 as int);
        }
        if word_is(&word, "with") {
            assert(word@.len() == 4);
            assert(word@.len() == word_len(t@, c3 as int));
            let c4 = trivia(t, c3 + 4, sc);
            let word2 = next_word(t, c4);
            proof {
                lemma_word_len(t@, c4 as int);
            }
            assert(word2@.len() == word_len(t@, c4 as int));
            if !word_is(&word2, "context") {
                (Err(error_str(span, c4, "expected `context` after `with`")), c4)
            } else {
                let c5 = trivia(t, c4 + 7, sc);
                context_bindings_exec(t, c5, span, sc)
            }
        } else {
            let e: Vec<(String, CtxExpr)> = Vec::new();
            assert(bindings_view(e@) =~= seq![]);
            (Ok(e), c3)
        }
    };
    match ctx {
        Err(e) => (Err(e), c6),
        Ok(ctx) => {
            let (bind, c7) = trailing_bind_exec(t, c6, sc);
            (Ok(PatKind::RuleRef { path, ctx, bind }), c7)
        },
    }
}

fn at_term_exec(t: &[char], c: usize, term: Option<char>) -> (b: bool)
    requires
        c <= t@.len(),
    ensures
        b == at_term(t@, c as int, term),
{
    match term {
        Some(ch) => {
            let one: Vec<char> = vec![ch];
            assert(one@ =~= seq![ch]);
            crate::text::starts_with_at(t, c, one.as_slice())
        },
        None => false,
    }
}

#[verifier::spinoff_prover]
fn seq_exec(t: &[char], c: usize, term: Option<char>, elems: Vec<PatElem>, span: Span, sc: &LexProfile) -> (r: (
    Result<Pattern, Diagnostic>,
    usize,
))
    requires
        c <= t@.len(),
        text_fits(t@, span),
        sc@ == cm(),
    ensures
        (pattern_result_view(r.0), r.1 as int) == seq_from(t@, c as int, term, elems_view(elems@), span),
        c <= r.1 <= t@.len(),
    decreases t@.len() - c, 6nat,
{
    let c1 = trivia(t, c, sc);
    if c1 >= t.len() {
        return match term {
            None => (Ok(Pattern { elems }), c1),
            Some(ch) => {
                let mut m = chars_of("expected ");
                m.push(ch);
                push_str(&mut m, " before the end of the pattern");
                assert(m@ =~= end_message(ch));
                (Err(error_exec(span, c1, &m)), c1)
            },
        };
    }
    if at_term_exec(t, c1, term) || at_branch_boundary_exec(t, c1, sc) {
        return (Ok(Pattern { elems }), c1);
    }
    let (r, c2) = element_exec(t, c1, span, sc);
    match r {
        Err(e) => (Err(e), c2),
        Ok(e) => {
            let mut elems = elems;
            proof {
                lemma_elems_view_push(elems@, e);
            }
            elems.push(e);
            seq_exec(t, c2, term, elems, span, sc)
        },
    }
}

fn sequence_exec(t: &[char], c: usize, term: Option<char>, span: Span, sc: &LexProfile) -> (r: (
    Result<Pattern, Diagnostic>,
    usize,
))
    requires
        c <= t@.len(),
        text_fits(t@, span),
        sc@ == cm(),
    ensures
        (pattern_result_view(r.0), r.1 as int) == sp_sequence(t@, c as int, term, span),
        c <= r.1 <= t@.len(),
    decreases t@.len() - c, 7nat,
{
    let elems: Vec<PatElem> = Vec::new();
    assert(elems_view(elems@) =~= seq![]);
    seq_exec(t, c, term, elems, span, sc)
}

#[verifier::spinoff_prover]
fn braced_exec(t: &[char], c: usize, head: &str, span: Span, sc: &LexProfile) -> (r: (
    Result<Pattern, Diagnostic>,
    usize,
))
    requires
        c <= t@.len(),
        text_fits(t@, span),
        sc@ == cm(),
    ensures
        (pattern_result_view(r.0), r.1 as int) == sp_braced(t@, c as int, head@, span),
        c <= r.1 <= t@.len(),
    decreases t@.len() - c, 0nat,
{
    proof {
        reveal_strlit("{");
        reveal_strlit("}");
    }
    let c1 = trivia(t, c, sc);
    if !at_exec(t, c1, "{") {
        let mut m = chars_of("expected `{` after `");
        push_str(&mut m, head);
        push_str(&mut m, "`");
        return (Err(error_exec(span, c1, &m)), c1);
    }
    let (r, c2) = sequence_exec(t, c1 + 1, Some('}'), span, sc);
    let body = match r {
        Err(e) => {
            return (Err(e), c2);
        },
        Ok(body) => body,
    };
    let c3 = trivia(t, c2, sc);
    if !at_exec(t, c3, "}") {
        let mut m = chars_of("expected `}` to close `");
        push_str(&mut m, head);
        push_str(&mut m, "`");
        return (Err(error_exec(span, c3, &m)), c3);
    }
    (Ok(body), c3 + 1)
}

fn bounds_exec(t: &[char], c: usize, span: Span, sc: &LexProfile) -> (r: (
    Result<(u32, Option<u32>), Diagnostic>,
    usize,
))
    requires
        c < t@.len(),
        text_fits(t@, span),
        sc@ == cm(),
    ensures
        (match r.0 {
            Ok(b) => Ok(b),
            Err(d) => Err(d@),
        }, r.1 as int) == spec_bounds(t@, c as int, span),
        c <= r.1 <= t@.len(),
{
    proof {
        reveal_strlit(",");
        reveal_strlit("]");
    }
    let c1 = trivia(t, c + 1, sc);
    let (rmin, c2) = int_exec(t, c1, span);
    let min = match rmin {
        Err(e) => {
            return (Err(e), c2);
        },
        Ok(m) => m,
    };
    let c3 = trivia(t, c2, sc);
    if !at_exec(t, c3, ",") {
        return (Err(error_str(span, c3, "expected `,` in each bounds")), c3);
    }
    let c4 = trivia(t, c3 + 1, sc);
    let (max, c5) = if at_exec(t, c4, "]") {
        (None, c4)
    } else {
        let (rm, c5) = int_exec(t, c4, span);
        match rm {
            Err(e) => {
                return (Err(e), c5);
            },
            Ok(m) => (Some(m), c5),
        }
    };
    let c6 = trivia(t, c5, sc);
    if !at_exec(t, c6, "]") {
        return (Err(error_str(span, c6, "expected `]` to close each bounds")), c6);
    }
    (Ok((min, max)), c6 + 1)
}

#[verifier::rlimit(80)]
#[verifier::spinoff_prover]
fn each_exec(t: &[char], c: usize, span: Span, sc: &LexProfile) -> (r: (
    Result<PatKind, Diagnostic>,
    usize,
))
    requires
        c + 4 <= t@.len(),
        text_fits(t@, span),
        sc@ == cm(),
    ensures
        (kind_result_view(r.0), r.1 as int) == sp_each(t@, c as int, span),
        c < r.1 <= t@.len(),
    decreases t@.len() - c, 0nat,
{
    proof {
        reveal_strlit("+");
        reveal_strlit("sep");
        reveal_strlit("trailing");
        reveal_strlit("[");
    }
    let c1 = trivia(t, c + 4, sc);
    let plus = at_exec(t, c1, "+");
    let c2 = if plus {
        trivia(t, c1 + 1, sc)
    } else {
        c1
    };
    let w = next_word(t, c2);
    proof {
        lemma_word_len(t@, c2 as int);
    }
    let (sep, c3): (Option<Box<Pattern>>, usize) = if word_is(&w, "sep") {
        assert(w@.len() == 3);
        assert(w@.len() == word_len(t@, c2 as int));
        let (r, c3) = element_exec(t, c2 + 3, span, sc);
        match r {
            Err(e) => {
                return (Err(e), c3);
            },
            Ok(e) => (Some(Box::new(single(e))), trivia(t, c3, sc)),
        }
    } else {
        (None, c2)
    };
    let w2 = next_word(t, c3);
    proof {
        lemma_word_len(t@, c3 as int);
    }
    assert(w2@.len() == word_len(t@, c3 as int));
    let trailing = word_is(&w2, "trailing");
    let c4 = if trailing {
        trivia(t, c3 + 8, sc)
    } else {
        c3
    };
    let (bounds, c5) = if at_exec(t, c4, "[") {
        let (rb, c5) = bounds_exec(t, c4, span, sc);
        match rb {
            Err(e) => {
                return (Err(e), c5);
            },
            Ok(b) => (Some(b), c5),
        }
    } else {
        (None, c4)
    };
    let (rbody, c6) = braced_exec(t, c5, "each", span, sc);
    let body = match rbody {
        Err(e) => {
            return (Err(e), c6);
        },
        Ok(b) => b,
    };
    let (bind, c7) = as_bind_exec(t, c6, sc);
    (Ok(PatKind::Each { plus, sep, trailing, bounds, body: Box::new(body), bind }), c7)
}

#[verifier::spinoff_prover]
fn oneof_exec(
    t: &[char],
    c: usize,
    branches: Vec<(String, Pattern)>,
    span: Span,
    sc: &LexProfile,
) -> (r: (Result<PatKind, Diagnostic>, usize))
    requires
        c <= t@.len(),
        text_fits(t@, span),
        sc@ == cm(),
    ensures
        (kind_result_view(r.0), r.1 as int) == oneof_from(t@, c as int, branches_view(branches@), span),
        c <= r.1 <= t@.len(),
    decreases t@.len() - c, 0nat,
{
    proof {
        reveal_strlit("}");
        reveal_strlit("=>");
        reveal_strlit("(");
        reveal_strlit(")");
        reveal_strlit(",");
    }
    let c1 = trivia(t, c, sc);
    if at_exec(t, c1, "}") {
        let (bind, c2) = trailing_bind_exec(t, c1 + 1, sc);
        return (Ok(PatKind::OneOf { branches, bind }), c2);
    }
    let label = next_word(t, c1);
    proof {
        lemma_word_len(t@, c1 as int);
    }
    let c2 = trivia(t, c1 + label.len(), sc);
    if !at_exec(t, c2, "=>") {
        let mut m = chars_of("expected `=>` after branch `");
        push_chars(&mut m, label.as_slice());
        push_str(&mut m, "`");
        return (Err(error_exec(span, c2, &m)), c2);
    }
    let c3 = trivia(t, c2 + 2, sc);
    let (body, c4) = if at_exec(t, c3, "(") {
        let (r, c4) = sequence_exec(t, c3 + 1, Some(')'), span, sc);
        match r {
            Err(e) => {
                return (Err(e), c4);
            },
            Ok(body) => {
                let c5 = trivia(t, c4, sc);
                if !at_exec(t, c5, ")") {
                    return (Err(error_str(span, c5, "expected `)` to close the branch")), c5);
                }
                (body, c5 + 1)
            },
        }
    } else {
        let (r, c4) = element_exec(t, c3, span, sc);
        match r {
            Err(e) => {
                return (Err(e), c4);
            },
            Ok(e) => (single(e), c4),
        }
    };
    let c5 = trivia(t, c4, sc);
    let c6 = if at_exec(t, c5, ",") {
        c5 + 1
    } else {
        c5
    };
    let mut branches = branches;
    let item = (word_string(&label), body);
    proof {
        lemma_branches_view_push(branches@, item);
    }
    branches.push(item);
    oneof_exec(t, c6, branches, span, sc)
}


#[verifier::spinoff_prover]
fn until_exec(t: &[char], c0: usize, w: &Vec<char>, span: Span, sc: &LexProfile) -> (r: (
    Result<PatKind, Diagnostic>,
    usize,
))
    requires
        c0 + w@.len() <= t@.len(),
        w@ == "until"@,
        text_fits(t@, span),
        sc@ == cm(),
    ensures
        (kind_result_view(r.0), r.1 as int) == sp_until(t@, c0 as int, span),
        c0 <= r.1 <= t@.len(),
        r.0 is Ok ==> c0 < r.1,
    decreases t@.len() - c0, 0nat,
{
    proof {
        reveal_strlit("until");
        reveal_strlit("{");
        reveal_strlit("}");
        reveal_strlit("any");
        reveal_strlit("scan");
    }
    let c1 = trivia(t, c0 + 5, sc);
    let (stop, c3) = if at_exec(t, c1, "{") {
        let (r, c2) = sequence_exec(t, c1 + 1, Some('}'), span, sc);
        match r {
            Err(e) => {
                return (Err(e), c2);
            },
            Ok(stop) => {
                let c2t = trivia(t, c2, sc);
                if !at_exec(t, c2t, "}") {
                    return (Err(error_str(span, c2t, "expected `}` to close the until stop")), c2t);
                }
                (stop, c2t + 1)
            },
        }
    } else {
        match parse_string_literal(t, c1) {
            None => {
                return (Err(error_str(span, c1, "expected a literal or `{{` after `until`")), c1);
            },
            Some((v, l)) => {
                let e = PatElem {
                    span: element_span_exec(span, c0, c1 + l),
                    kind: PatKind::Lit { text: string_from_chars(v.as_slice()), insensitive: false },
                };
                (single(e), c1 + l)
            },
        }
    };
    let (bind, c4) = as_bind_exec(t, c3, sc);
    (Ok(PatKind::Until { stop: Box::new(stop), bind }), c4)
}

#[verifier::rlimit(80)]
#[verifier::spinoff_prover]
fn word_element_exec(t: &[char], c0: usize, w: &Vec<char>, span: Span, sc: &LexProfile) -> (r: (
    Result<PatKind, Diagnostic>,
    usize,
))
    requires
        c0 + w@.len() <= t@.len(),
        w@.len() > 0,
        text_fits(t@, span),
        sc@ == cm(),
    ensures
        (kind_result_view(r.0), r.1 as int) == sp_word_element(t@, c0 as int, w@, span),
        c0 <= r.1 <= t@.len(),
        r.0 is Ok ==> c0 < r.1,
    decreases t@.len() - c0, 3nat,
{
    proof {
        reveal_strlit("any");
        reveal_strlit("scan");
        reveal_strlit("until");
        reveal_strlit("lineRest");
        reveal_strlit("eol");
        reveal_strlit("line");
        reveal_strlit("eof");
        reveal_strlit("soft");
        reveal_strlit("optional");
        reveal_strlit("each");
        reveal_strlit("oneof");
        reveal_strlit("peek");
        reveal_strlit("not");
        reveal_strlit("recur");
        reveal_strlit("indent");
        reveal_strlit("verbatim");
        reveal_strlit("raw");
        reveal_strlit("where");
        reveal_strlit("label");
        reveal_strlit("{");
        reveal_strlit("}");
        reveal_strlit("[");
    }
    if word_is(w, "any") {
        let (bind, c) = as_bind_exec(t, c0 + 3, sc);
        return (Ok(PatKind::Any { bind }), c);
    }
    if word_is(w, "scan") {
        let c1 = trivia(t, c0 + 4, sc);
        if !at_exec(t, c1, "[") {
            return (Err(error_str(span, c1, "expected `[` after `scan`")), c1);
        }
        let (rs, c2) = class_exec(t, c1, span);
        return match rs {
            Err(e) => (Err(e), c2),
            Ok(set) => {
                let (bind, c3) = as_bind_exec(t, c2, sc);
                (Ok(PatKind::Scan { set, bind }), c3)
            },
        };
    }
    if word_is(w, "until") {
        return until_exec(t, c0, w, span, sc);
    }
    if word_is(w, "lineRest") {
        let (bind, c) = as_bind_exec(t, c0 + 8, sc);
        return (Ok(PatKind::LineRest { bind }), c);
    }
    word_element_mid_exec(t, c0, w, span, sc)
}

#[verifier::rlimit(100)]
#[verifier::spinoff_prover]
fn word_element_mid_exec(t: &[char], c0: usize, w: &Vec<char>, span: Span, sc: &LexProfile) -> (r: (
    Result<PatKind, Diagnostic>,
    usize,
))
    requires
        c0 + w@.len() <= t@.len(),
        w@.len() > 0,
        text_fits(t@, span),
        sc@ == cm(),
    ensures
        (kind_result_view(r.0), r.1 as int) == sp_word_element_mid(t@, c0 as int, w@, span),
        c0 <= r.1 <= t@.len(),
        r.0 is Ok ==> c0 < r.1,
    decreases t@.len() - c0, 2nat,
{
    proof {
        reveal_strlit("eol");
        reveal_strlit("line");
        reveal_strlit("eof");
        reveal_strlit("soft");
        reveal_strlit("optional");
        reveal_strlit("each");
    }
    if word_is(w, "eol") {
        return (Ok(PatKind::Eol), c0 + 3);
    }
    if word_is(w, "line") {
        return (Ok(PatKind::Line), c0 + 4);
    }
    if word_is(w, "eof") {
        return (Ok(PatKind::Eof), c0 + 3);
    }
    if word_is(w, "soft") {
        let (r, c) = braced_exec(t, c0 + 4, "soft", span, sc);
        return match r {
            Err(e) => (Err(e), c),
            Ok(body) => (Ok(PatKind::Soft(Box::new(body))), c),
        };
    }
    if word_is(w, "optional") {
        let (r, c) = braced_exec(t, c0 + 8, "optional", span, sc);
        return match r {
            Err(e) => (Err(e), c),
            Ok(body) => {
                let (bind, c2) = as_bind_exec(t, c, sc);
                (Ok(PatKind::Optional { body: Box::new(body), bind }), c2)
            },
        };
    }
    if word_is(w, "each") {
        return each_exec(t, c0, span, sc);
    }
    word_element_rest_exec(t, c0, w, span, sc)
}

#[verifier::rlimit(80)]
#[verifier::spinoff_prover]
fn word_element_rest_exec(t: &[char], c0: usize, w: &Vec<char>, span: Span, sc: &LexProfile) -> (r: (
    Result<PatKind, Diagnostic>,
    usize,
))
    requires
        c0 + w@.len() <= t@.len(),
        w@.len() > 0,
        text_fits(t@, span),
        sc@ == cm(),
    ensures
        (kind_result_view(r.0), r.1 as int) == sp_word_element_rest(t@, c0 as int, w@, span),
        c0 <= r.1 <= t@.len(),
        r.0 is Ok ==> c0 < r.1,
    decreases t@.len() - c0, 1nat,
{
    proof {
        reveal_strlit("oneof");
        reveal_strlit("peek");
        reveal_strlit("not");
        reveal_strlit("recur");
        reveal_strlit("indent");
        reveal_strlit("verbatim");
        reveal_strlit("raw");
        reveal_strlit("where");
        reveal_strlit("label");
        reveal_strlit("{");
    }
    if word_is(w, "oneof") {
        let c1 = trivia(t, c0 + 5, sc);
        if !at_exec(t, c1, "{") {
            return (Err(error_str(span, c1, "expected `{` after `oneof`")), c1);
        }
        let branches: Vec<(String, Pattern)> = Vec::new();
        assert(branches_view(branches@) =~= seq![]);
        return oneof_exec(t, c1 + 1, branches, span, sc);
    }
    if word_is(w, "peek") || word_is(w, "not") {
        let negated = word_is(w, "not");
        let (r, c) = if negated {
            braced_exec(t, c0 + 3, "not", span, sc)
        } else {
            braced_exec(t, c0 + 4, "peek", span, sc)
        };
        return match r {
            Err(e) => (Err(e), c),
            Ok(body) => (Ok(PatKind::Peek { negated, body: Box::new(body) }), c),
        };
    }
    if word_is(w, "recur") {
        return (Ok(PatKind::Recur), c0 + 5);
    }
    if word_is(w, "indent") {
        let c1 = trivia(t, c0 + 6, sc);
        let w2 = next_word(t, c1);
        proof {
            lemma_word_len(t@, c1 as int);
        }
        assert(w2@.len() == word_len(t@, c1 as int));
        if word_is(&w2, "verbatim") {
            assert(w2@.len() == 8);
            let (bind, c2) = as_bind_exec(t, c1 + 8, sc);
            return (Ok(PatKind::Indent { body: None, verbatim: bind }), c2);
        }
        let (r, c) = braced_exec(t, c1, "indent", span, sc);
        return match r {
            Err(e) => (Err(e), c),
            Ok(body) => (Ok(PatKind::Indent { body: Some(Box::new(body)), verbatim: None }), c),
        };
    }
    if word_is(w, "raw") {
        let (r, c) = braced_exec(t, c0 + 3, "raw", span, sc);
        return match r {
            Err(e) => (Err(e), c),
            Ok(body) => (Ok(PatKind::Raw(Box::new(body))), c),
        };
    }
    if word_is(w, "where") {
        let mut c = c0 + 5;
        let r = parse_expr(t, &mut c, span);
        return match r {
            Err(e) => (Err(e), c),
            Ok(cond) => (Ok(PatKind::Where { cond }), c),
        };
    }
    if word_is(w, "label") {
        let c1 = trivia(t, c0 + 5, sc);
        return match parse_string_literal(t, c1) {
            None => (Err(error_str(span, c1, "expected a message string after `label`")), c1),
            Some((message, l)) => {
                let (r, c) = braced_exec(t, c1 + l, "label", span, sc);
                match r {
                    Err(e) => (Err(e), c),
                    Ok(body) => (
                        Ok(PatKind::Label { message: string_from_chars(message.as_slice()), body: Box::new(body) }),
                        c,
                    ),
                }
            },
        };
    }
    if !is_reserved_exec(w) {
        return rule_ref_exec(t, c0, w, span, sc);
    }
    let mut m = chars_of("unexpected `");
    push_chars(&mut m, w.as_slice());
    push_str(&mut m, "` in a pattern");
    (Err(error_exec(span, c0, &m)), c0)
}

#[verifier::rlimit(100)]
#[verifier::spinoff_prover]
fn element_kind_exec(t: &[char], c0: usize, span: Span, sc: &LexProfile) -> (r: (
    Result<PatKind, Diagnostic>,
    usize,
))
    requires
        c0 < t@.len(),
        text_fits(t@, span),
        sc@ == cm(),
    ensures
        (kind_result_view(r.0), r.1 as int) == sp_element_kind(t@, c0 as int, span),
        c0 <= r.1 <= t@.len(),
        r.0 is Ok ==> c0 < r.1,
    decreases t@.len() - c0, 4nat,
{
    proof {
        reveal_strlit("\"");
        reveal_strlit("$");
        reveal_strlit(")");
    }
    let first = t[c0];
    if first == '"' {
        match parse_string_literal(t, c0) {
            None => (Err(error_str(span, c0, "malformed string literal")), c0),
            Some((v, l)) => (Ok(PatKind::Lit { text: string_from_chars(v.as_slice()), insensitive: false }), c0 + l),
        }
    } else if first == 'i' && at_exec(t, c0 + 1, "\"") {
        match parse_string_literal(t, c0 + 1) {
            None => (Err(error_str(span, c0 + 1, "malformed string literal")), c0 + 1),
            Some((v, l)) => (
                Ok(PatKind::Lit { text: string_from_chars(v.as_slice()), insensitive: true }),
                c0 + 1 + l,
            ),
        }
    } else if first == '[' {
        let (rs, c1) = class_exec(t, c0, span);
        match rs {
            Err(e) => (Err(e), c1),
            Ok(set) => {
                let (bind, c2) = trailing_bind_exec(t, c1, sc);
                (Ok(PatKind::Class { set, bind }), c2)
            },
        }
    } else if first == '$' || (first == 'i' && at_exec(t, c0 + 1, "$")) {
        let at_dollar = if first == '$' {
            c0
        } else {
            c0 + 1
        };
        let (rf, c1) = fragment_exec(t, at_dollar, span, sc);
        match rf {
            Err(e) => (Err(e), c1),
            Ok((kind, validator, bind)) => (
                Ok(PatKind::Fragment { kind, insensitive: first == 'i', validator, bind }),
                c1,
            ),
        }
    } else if first == '(' {
        let (rb, c1) = sequence_exec(t, c0 + 1, Some(')'), span, sc);
        match rb {
            Err(e) => (Err(e), c1),
            Ok(body) => {
                let c2 = trivia(t, c1, sc);
                if !at_exec(t, c2, ")") {
                    (Err(error_str(span, c2, "expected `)` to close the group")), c2)
                } else {
                    let (bind, c3) = as_bind_exec(t, c2 + 1, sc);
                    (Ok(PatKind::Group { body: Box::new(body), bind }), c3)
                }
            },
        }
    } else if crate::text::char_is_ascii_alpha(first) || first == '_' {
        let w = next_word(t, c0);
        proof {
            lemma_word_len(t@, c0 as int);
            lemma_word_starts(t@, c0 as int);
        }
        word_element_exec(t, c0, &w, span, sc)
    } else {
        let mut m = chars_of("unexpected `");
        m.push(first);
        push_str(&mut m, "` in a pattern");
        assert(m@ =~= "unexpected `"@ + seq![first] + "` in a pattern"@);
        (Err(error_exec(span, c0, &m)), c0)
    }
}

#[verifier::rlimit(100)]
#[verifier::spinoff_prover]
fn element_exec(t: &[char], c: usize, span: Span, sc: &LexProfile) -> (r: (
    Result<PatElem, Diagnostic>,
    usize,
))
    requires
        c <= t@.len(),
        text_fits(t@, span),
        sc@ == cm(),
    ensures
        (elem_result_view(r.0), r.1 as int) == sp_element(t@, c as int, span),
        c <= r.1 <= t@.len(),
        r.0 is Ok ==> c < r.1,
    decreases t@.len() - c, 5nat,
{
    proof {
        reveal_strlit("\"");
        reveal_strlit("$");
        reveal_strlit(")");
    }
    let c0 = trivia(t, c, sc);
    if c0 >= t.len() {
        let m = chars_of("expected a pattern element before the end of the pattern");
        return (Err(error_exec(span, c0, &m)), c0);
    }
    let (kind, c1) = element_kind_exec(t, c0, span, sc);
    match kind {
        Err(e) => (Err(e), c1),
        Ok(kind) => (Ok(PatElem { span: element_span_exec(span, c0, c1), kind }), c1),
    }
}


proof fn lemma_word_starts(t: Seq<char>, c: int)
    requires
        0 <= c < t.len(),
        is_ascii_alpha(t[c]) || t[c] == '_',
    ensures
        word_len(t, c) > 0,
{
    crate::text::lemma_leading_count_bound(t.skip(c), crate::mega::profile::word_pred());
    assert(t.skip(c)[0] == t[c]);
    assert(crate::mega::profile::word_pred()(t.skip(c)[0]));
}


pub(crate) proof fn lemma_elems_view_index(s: Seq<PatElem>, i: int)
    requires
        0 <= i < s.len(),
    ensures
        elems_view(s).len() == s.len(),
        elems_view(s)[i] == (ElemView { span: s[i].span, kind: kind_view(s[i].kind) }),
    decreases s.len(),
{
    let rest = s.subrange(1, s.len() as int);
    if i > 0 {
        lemma_elems_view_index(rest, i - 1);
        assert(rest[i - 1] == s[i]);
    } else if rest.len() > 0 {
        lemma_elems_view_index(rest, 0);
    } else {
        assert(elems_view(rest) =~= seq![]);
    }
}

pub(crate) proof fn lemma_elems_view_len(s: Seq<PatElem>)
    ensures
        elems_view(s).len() == s.len(),
    decreases s.len(),
{
    if s.len() > 0 {
        lemma_elems_view_len(s.subrange(1, s.len() as int));
    }
}

pub(crate) proof fn lemma_branches_view_index(s: Seq<(String, Pattern)>, i: int)
    requires
        0 <= i < s.len(),
    ensures
        branches_view(s).len() == s.len(),
        branches_view(s)[i] == (s[i].0@, pattern_view(s[i].1)),
    decreases s.len(),
{
    let rest = s.subrange(1, s.len() as int);
    if i > 0 {
        lemma_branches_view_index(rest, i - 1);
        assert(rest[i - 1] == s[i]);
    } else if rest.len() > 0 {
        lemma_branches_view_index(rest, 0);
    } else {
        assert(branches_view(rest) =~= seq![]);
    }
}

pub(crate) proof fn lemma_branches_view_len(s: Seq<(String, Pattern)>)
    ensures
        branches_view(s).len() == s.len(),
    decreases s.len(),
{
    if s.len() > 0 {
        lemma_branches_view_len(s.subrange(1, s.len() as int));
    }
}

fn first_window_exec(elems: &Vec<PatElem>) -> (r: Option<Span>)
    ensures
        r == first_window(elems_view(elems@), 0),
{
    let ghost ev = elems_view(elems@);
    proof {
        lemma_elems_view_len(elems@);
    }
    let mut i: usize = 0;
    while elems.len() > 0 && i < elems.len() - 1
        invariant
            ev == elems_view(elems@),
            ev.len() == elems@.len(),
            i <= elems@.len(),
            first_window(ev, 0) == first_window(ev, i as int),
        decreases elems.len() - i,
    {
        proof {
            lemma_elems_view_index(elems@, i as int);
            lemma_elems_view_index(elems@, i + 1);
        }
        if matches!(elems[i].kind, PatKind::Eol) && matches!(elems[i + 1].kind, PatKind::Indent { .. }) {
            return Some(elems[i + 1].span);
        }
        i += 1;
    }
    None
}

fn pattern_check(p: &Pattern) -> (r: Option<Span>)
    ensures
        r == pattern_violation(pattern_view(*p)),
    decreases p, 2nat,
{
    match first_window_exec(&p.elems) {
        Some(s) => Some(s),
        None => {
            let ghost ev = elems_view(p.elems@);
            proof {
                lemma_elems_view_len(p.elems@);
                assert(ev.subrange(0, ev.len() as int) =~= ev);
            }
            let mut i: usize = 0;
            while i < p.elems.len()
                invariant
                    ev == elems_view(p.elems@),
                    ev.len() == p.elems@.len(),
                    first_window(ev, 0) is None,
                    i <= p.elems@.len(),
                    elems_violation(ev) == elems_violation(ev.subrange(i as int, ev.len() as int)),
                decreases p.elems.len() - i,
            {
                proof {
                    lemma_elems_view_index(p.elems@, i as int);
                    let tail = ev.subrange(i as int, ev.len() as int);
                    assert(tail[0] == ev[i as int]);
                    assert(tail.subrange(1, tail.len() as int) =~= ev.subrange(i + 1, ev.len() as int));
                }
                let found = kind_check(&p.elems[i].kind);
                proof {
                    let tail = ev.subrange(i as int, ev.len() as int);
                    assert(elems_violation(tail) == match kind_violation(tail[0].kind) {
                        Some(v) => Some(v),
                        None => elems_violation(tail.subrange(1, tail.len() as int)),
                    });
                }
                match found {
                    Some(v) => {
                        assert(elems_violation(ev) == Some(v));
                        assert(pattern_view(*p).elems == ev);
                        assert(first_window(ev, 0) is None);
                        assert(pattern_violation(pattern_view(*p)) == elems_violation(ev));
                        return Some(v);
                    },
                    None => {},
                }
                i += 1;
            }
            assert(ev.subrange(i as int, ev.len() as int) =~= Seq::<ElemView>::empty());
            None
        },
    }
}

fn branches_check(branches: &Vec<(String, Pattern)>) -> (r: Option<Span>)
    ensures
        r == branches_violation(branches_view(branches@)),
    decreases branches, 0nat,
{
    let ghost bv = branches_view(branches@);
    proof {
        lemma_branches_view_len(branches@);
        assert(bv.subrange(0, bv.len() as int) =~= bv);
    }
    let mut i: usize = 0;
    while i < branches.len()
        invariant
            bv == branches_view(branches@),
            bv.len() == branches@.len(),
            i <= branches@.len(),
            branches_violation(bv) == branches_violation(bv.subrange(i as int, bv.len() as int)),
        decreases branches.len() - i,
    {
        proof {
            lemma_branches_view_index(branches@, i as int);
            let tail = bv.subrange(i as int, bv.len() as int);
            assert(tail[0] == bv[i as int]);
            assert(tail.subrange(1, tail.len() as int) =~= bv.subrange(i + 1, bv.len() as int));
        }
        let found = pattern_check(&branches[i].1);
        proof {
            let tail = bv.subrange(i as int, bv.len() as int);
            assert(branches_violation(tail) == match pattern_violation(tail[0].1) {
                Some(v) => Some(v),
                None => branches_violation(tail.subrange(1, tail.len() as int)),
            });
        }
        match found {
            Some(v) => {
                return Some(v);
            },
            None => {},
        }
        i += 1;
    }
    assert(bv.subrange(i as int, bv.len() as int) =~= Seq::<(Seq<char>, PatternView)>::empty());
    None
}

fn kind_check(k: &PatKind) -> (r: Option<Span>)
    ensures
        r == kind_violation(kind_view(*k)),
    decreases k, 1nat,
{
    match k {
        PatKind::Soft(b) => pattern_check(b),
        PatKind::Raw(b) => pattern_check(b),
        PatKind::Label { body, .. } => pattern_check(body),
        PatKind::Group { body, .. } => pattern_check(body),
        PatKind::Optional { body, .. } => pattern_check(body),
        PatKind::Peek { body, .. } => pattern_check(body),
        PatKind::Until { stop, .. } => pattern_check(stop),
        PatKind::Indent { body: Some(b), .. } => pattern_check(b),
        PatKind::Each { sep, body, .. } => {
            match sep {
                Some(sp) => match pattern_check(sp) {
                    Some(v) => {
                        return Some(v);
                    },
                    None => {},
                },
                None => {},
            }
            pattern_check(body)
        },
        PatKind::OneOf { branches, .. } => branches_check(branches),
        _ => None,
    }
}

/// Parses a whole pattern: the text inside a magic declaration's parens or
/// a rule body's braces. `span` is the text's span in its file; a
/// diagnostic at offset `k` of `text` points at `span.start + k`, clamped
/// to `span.end`. An `indent` may not directly follow an `eol` in any
/// sequence of the pattern: `indent` performs its own line advancement.
pub fn parse_pattern(text: &[char], span: Span) -> (r: Result<Pattern, Diagnostic>)
    requires
        text@.len() < usize::MAX,
        span.start + text@.len() <= usize::MAX,
    ensures
        pattern_result_view(r) == spec_parse_pattern(text@, span),
{
    let sc = checkmate_scan_profile();
    let (r, c) = sequence_exec(text, 0, None, span, &sc);
    let p = match r {
        Err(e) => {
            return Err(e);
        },
        Ok(p) => p,
    };
    let c1 = trivia(text, c, &sc);
    if c1 < text.len() {
        let mut m = chars_of("unexpected `");
        m.push(text[c1]);
        push_str(&mut m, "` after the pattern");
        assert(m@ =~= "unexpected `"@ + seq![text@[c1 as int]] + "` after the pattern"@);
        return Err(error_exec(span, c1, &m));
    }
    match pattern_check(&p) {
        Some(s) => Err(
            Diagnostic::parse(
                string_from_chars(
                    chars_of(
                        "`indent` may not directly follow `eol`: indent performs its own line advancement",
                    ).as_slice(),
                ),
                s,
            ),
        ),
        None => Ok(p),
    }
}


// ---------------------------------------------------------------------------
// Rule declarations
// ---------------------------------------------------------------------------

/// A context field of a rule signature: its name and optional default.
#[derive(Debug)]
pub struct ContextField {
    pub name: String,
    pub default: Option<CtxExpr>,
}

pub struct FieldView {
    pub name: Seq<char>,
    pub default: Option<ExprView>,
}

pub open spec fn field_view(f: ContextField) -> FieldView {
    FieldView {
        name: f.name@,
        default: match f.default {
            Some(e) => Some(expr_view(e)),
            None => None,
        },
    }
}

pub open spec fn fields_view(s: Seq<ContextField>) -> Seq<FieldView> {
    s.map_values(|f: ContextField| field_view(f))
}

/// The `[Type] name [= default]` fields of a context signature from `c`,
/// after `acc`, separated by optional commas, up to `}`. A field that
/// reads nothing is refused.
pub open spec fn fields_from(t: Seq<char>, c: int, acc: Seq<FieldView>, span: Span) -> (
    Result<Seq<FieldView>, DiagnosticView>,
    int,
)
    decreases t.len() - c,
    when 0 <= c <= t.len()
{
    let c1 = trivia_end(t, c);
    if at(t, c1, "}"@) {
        (Ok(acc), c1 + 1)
    } else {
        let first = word_at(t, c1);
        let c2 = trivia_end(t, c1 + first.len());
        let second = word_at(t, c2);
        let (name, c3) = if second.len() > 0 && !is_reserved(second) && is_ascii_alpha(second[0]) {
            (second, c2 + second.len())
        } else {
            (first, c2)
        };
        let c4 = trivia_end(t, c3);
        let (default, c5) = if at(t, c4, "="@) {
            match spec_parse_ctx_expr(t, c4 + 1, span) {
                (Err(e), c5) => (Err(e), c5),
                (Ok(v), c5) => (Ok(Some(v)), c5),
            }
        } else {
            (Ok(None), c4)
        };
        match default {
            Err(e) => (Err(e), c5),
            Ok(d) => {
                let c6 = trivia_end(t, c5);
                let c7 = if at(t, c6, ","@) {
                    c6 + 1
                } else {
                    c6
                };
                if c < c7 <= t.len() {
                    fields_from(t, c7, acc.push(FieldView { name, default: d }), span)
                } else {
                    (Err(error_at(span, c7, "expected a context field"@)), c7)
                }
            },
        }
    }
}

/// The `context { … }` field list at `c` (on its `{`).
pub open spec fn spec_fields(t: Seq<char>, c: int, span: Span) -> (Result<Seq<FieldView>, DiagnosticView>, int) {
    if !at(t, c, "{"@) {
        (Err(error_at(span, c, "expected `{` to open the context fields"@)), c)
    } else {
        fields_from(t, c + 1, seq![], span)
    }
}

/// The parse of a `rule name [( context { … } )] { pattern }` declaration
/// whose `rule` keyword starts at `start`: the rule name, its context
/// fields, its pattern and the position just past its body.
pub open spec fn spec_rule_declaration(t: Seq<char>, start: int, span: Span) -> Result<
    (Seq<char>, Seq<FieldView>, PatternView, int),
    DiagnosticView,
> {
    let c0 = trivia_end(t, start + 4);
    let name = word_at(t, c0);
    let c1 = trivia_end(t, c0 + name.len());
    let (ctx, c2) = if at(t, c1, "("@) {
        let c3 = trivia_end(t, c1 + 1);
        if at(t, c3, "context"@) {
            match spec_fields(t, trivia_end(t, c3 + 7), span) {
                (Err(e), c5) => (Err(e), c5),
                (Ok(fs), c5) => {
                    let c6 = trivia_end(t, c5);
                    if !at(t, c6, ")"@) {
                        (Err(error_at(span, c6, "expected `)` to close the rule signature"@)), c6)
                    } else {
                        (Ok(fs), trivia_end(t, c6 + 1))
                    }
                },
            }
        } else {
            (Err(error_at(span, c3, "expected `context` in the rule signature"@)), c3)
        }
    } else {
        (Ok(seq![]), c1)
    };
    match ctx {
        Err(e) => Err(e),
        Ok(fields) => if !at(t, c2, "{"@) {
            Err(error_at(span, c2, "expected `{` to open the rule body"@))
        } else {
            match sp_sequence(t, c2 + 1, Some('}'), span) {
                (Err(e), _) => Err(e),
                (Ok(p), c3) => {
                    let c4 = trivia_end(t, c3);
                    if !at(t, c4, "}"@) {
                        Err(error_at(span, c4, "expected `}` to close the rule body"@))
                    } else {
                        match pattern_violation(p) {
                            Some(s) => Err(DiagnosticView { message: indent_message(), span: s }),
                            None => Ok((name, fields, p, c4 + 1)),
                        }
                    }
                },
            }
        },
    }
}

pub open spec fn rule_result_view(r: Result<(String, Vec<ContextField>, Pattern, usize), Diagnostic>) -> Result<
    (Seq<char>, Seq<FieldView>, PatternView, int),
    DiagnosticView,
> {
    match r {
        Ok((n, f, p, e)) => Ok((n@, fields_view(f@), pattern_view(p), e as int)),
        Err(d) => Err(d@),
    }
}

fn fields_exec(t: &[char], c: usize, acc: Vec<ContextField>, span: Span, sc: &LexProfile) -> (r: (
    Result<Vec<ContextField>, Diagnostic>,
    usize,
))
    requires
        c <= t@.len(),
        text_fits(t@, span),
        sc@ == cm(),
    ensures
        (match r.0 {
            Ok(v) => Ok(fields_view(v@)),
            Err(d) => Err(d@),
        }, r.1 as int) == fields_from(t@, c as int, fields_view(acc@), span),
        c <= r.1 <= t@.len(),
    decreases t@.len() - c,
{
    proof {
        reveal_strlit("}");
        reveal_strlit("=");
        reveal_strlit(",");
    }
    let c1 = trivia(t, c, sc);
    if at_exec(t, c1, "}") {
        return (Ok(acc), c1 + 1);
    }
    let first = next_word(t, c1);
    proof {
        lemma_word_len(t@, c1 as int);
    }
    let c2 = trivia(t, c1 + first.len(), sc);
    let second = next_word(t, c2);
    proof {
        lemma_word_len(t@, c2 as int);
    }
    let (name, c3) = if second.len() > 0 && !is_reserved_exec(&second) && crate::text::char_is_ascii_alpha(
        second[0],
    ) {
        (word_string(&second), c2 + second.len())
    } else {
        (word_string(&first), c2)
    };
    let c4 = trivia(t, c3, sc);
    let (default, c5) = if at_exec(t, c4, "=") {
        let mut c5 = c4 + 1;
        let r = parse_expr(t, &mut c5, span);
        match r {
            Err(e) => {
                return (Err(e), c5);
            },
            Ok(v) => (Some(v), c5),
        }
    } else {
        (None, c4)
    };
    let c6 = trivia(t, c5, sc);
    let c7 = if at_exec(t, c6, ",") {
        c6 + 1
    } else {
        c6
    };
    if c7 <= c {
        return (Err(error_str(span, c7, "expected a context field")), c7);
    }
    let mut acc = acc;
    let f = ContextField { name, default };
    let ghost before = fields_view(acc@);
    let ghost fv = field_view(f);
    acc.push(f);
    assert(fields_view(acc@) =~= before.push(fv));
    fields_exec(t, c7, acc, span, sc)
}

/// Parses a `rule name [( context { [Type] name [= default], … } )] {
/// pattern }` declaration of a grammar body whose `rule` keyword starts at
/// `start`: the rule name, its context fields (a field's optional type word
/// is read and dropped), its pattern, and the position just past the
/// declaration. An `indent` may not directly follow an `eol` in the
/// pattern.
pub fn parse_rule_declaration(text: &[char], start: usize, span: Span) -> (r: Result<
    (String, Vec<ContextField>, Pattern, usize),
    Diagnostic,
>)
    requires
        start + 4 <= text@.len(),
        text@.len() < usize::MAX,
        span.start + text@.len() <= usize::MAX,
    ensures
        rule_result_view(r) == spec_rule_declaration(text@, start as int, span),
{
    proof {
        reveal_strlit("(");
        reveal_strlit(")");
        reveal_strlit("{");
        reveal_strlit("}");
        reveal_strlit("context");
    }
    let sc = checkmate_scan_profile();
    let c0 = trivia(text, start + 4, &sc);
    let name = next_word(text, c0);
    proof {
        lemma_word_len(text@, c0 as int);
    }
    let c1 = trivia(text, c0 + name.len(), &sc);
    let (fields, c2): (Vec<ContextField>, usize) = if at_exec(text, c1, "(") {
        let c3 = trivia(text, c1 + 1, &sc);
        if !at_exec(text, c3, "context") {
            return Err(error_str(span, c3, "expected `context` in the rule signature"));
        }
        let c4 = trivia(text, c3 + 7, &sc);
        if !at_exec(text, c4, "{") {
            return Err(error_str(span, c4, "expected `{` to open the context fields"));
        }
        let acc: Vec<ContextField> = Vec::new();
        assert(fields_view(acc@) =~= seq![]);
        let (rf, c5) = fields_exec(text, c4 + 1, acc, span, &sc);
        let fields = match rf {
            Err(e) => {
                return Err(e);
            },
            Ok(f) => f,
        };
        let c6 = trivia(text, c5, &sc);
        if !at_exec(text, c6, ")") {
            return Err(error_str(span, c6, "expected `)` to close the rule signature"));
        }
        (fields, trivia(text, c6 + 1, &sc))
    } else {
        let none: Vec<ContextField> = Vec::new();
        assert(fields_view(none@) =~= seq![]);
        (none, c1)
    };
    if !at_exec(text, c2, "{") {
        return Err(error_str(span, c2, "expected `{` to open the rule body"));
    }
    let (rp, c3) = sequence_exec(text, c2 + 1, Some('}'), span, &sc);
    let p = match rp {
        Err(e) => {
            return Err(e);
        },
        Ok(p) => p,
    };
    let c4 = trivia(text, c3, &sc);
    if !at_exec(text, c4, "}") {
        return Err(error_str(span, c4, "expected `}` to close the rule body"));
    }
    match pattern_check(&p) {
        Some(s) => Err(
            Diagnostic::parse(
                string_from_chars(
                    chars_of(
                        "`indent` may not directly follow `eol`: indent performs its own line advancement",
                    ).as_slice(),
                ),
                s,
            ),
        ),
        None => Ok((word_string(&name), fields, p, c4 + 1)),
    }
}


// ---------------------------------------------------------------------------
// Laws
// ---------------------------------------------------------------------------

proof fn lemma_first_window_none(elems: Seq<ElemView>, i: int)
    requires
        0 <= i,
        first_window(elems, i) is None,
    ensures
        forall|j: int| i <= j < elems.len() - 1 ==> !(#[trigger] elems[j].kind is Eol && elems[j + 1].kind is Indent),
    decreases elems.len() - i,
{
    if i + 1 < elems.len() {
        lemma_first_window_none(elems, i + 1);
    }
}

/// In a pattern that parses, no `indent` directly follows an `eol` in the
/// top-level sequence, nor in any nested sequence.
pub proof fn lemma_parsed_pattern_has_no_indent_after_eol(t: Seq<char>, span: Span)
    requires
        spec_parse_pattern(t, span) is Ok,
    ensures
        pattern_violation(spec_parse_pattern(t, span)->Ok_0) is None,
        forall|i: int|
            0 <= i < spec_parse_pattern(t, span)->Ok_0.elems.len() - 1 ==> !(
            #[trigger] spec_parse_pattern(t, span)->Ok_0.elems[i].kind is Eol && spec_parse_pattern(
                t,
                span,
            )->Ok_0.elems[i + 1].kind is Indent),
{
    let p = spec_parse_pattern(t, span)->Ok_0;
    assert(pattern_violation(p) is None);
    lemma_first_window_none(p.elems, 0);
}

} // verus!
