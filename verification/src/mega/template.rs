//! Expansion templates: parsing template text into a [`Template`], and the
//! escaping that turns captured text into the body of a Checkmate string
//! literal.
//!
//! Template constructs: `$cap` / `$cap.field` splices (with `.matched`,
//! `.length`, `.line`, `.col` accessors), `$"…{cap}…"` interpolation,
//! `[each [NAME] in xs { … }]` (implicit element `item`), `[when cond { … }
//! else { … }]`, `match ($cap) { label => … }`, `let name = value`,
//! `require(cond, "message")`, and `@fn(…)` compile-time calls and the
//! `cm.…( … )` builtin namespace. The bare `each in xs { … }` statement form
//! is accepted inside blocks. Everything else is template text.

use vstd::prelude::*;

use crate::diagnostics::{Diagnostic, DiagnosticView, Span};
use crate::mega::ctxexpr::{
    Accessor, CtxExpr, ExprView, at, at_exec, digits_value, dot_count, error_at, error_str,
    expr_view, number_pred, number_run, parse_expr, reads_as_int, spec_parse_ctx_expr, trivia,
    trivia_end, word_at,
};
use crate::mega::pattern::{element_span, element_span_exec, range_escape, range_escape_exec, word_string};
use crate::mega::profile::{
    LexProfile, checkmate_scan_profile, cm, lemma_skip_wsc_bounds, lemma_word_len, next_word,
    parse_string_literal, spec_string_literal, word_is, word_len,
};
use crate::order::strings_view;
use crate::parser::{escape_target, is_accepted_escape, spec_unescape};
use crate::text::{chars_of, is_ascii_alpha, is_word_char, push_chars, push_str, string_from_chars};

verus! {

/// The Checkmate spelling of `c` inside a string literal.
pub open spec fn escape_char(c: char) -> Seq<char> {
    if c == '"' {
        seq!['\\', '"']
    } else if c == '\\' {
        seq!['\\', '\\']
    } else if c == '\n' {
        seq!['\\', 'n']
    } else if c == '\t' {
        seq!['\\', 't']
    } else if c == '\r' {
        seq!['\\', 'r']
    } else {
        seq![c]
    }
}

/// `s` spelled as the body of a Checkmate string literal.
pub open spec fn spec_escape(s: Seq<char>) -> Seq<char>
    decreases s.len(),
{
    if s.len() == 0 {
        seq![]
    } else {
        escape_char(s[0]) + spec_escape(s.drop_first())
    }
}

/// Escapes `text` for a Checkmate string literal: `"`, `\`, line feed, tab
/// and carriage return become two-character escapes.
pub fn escape_checkmate(text: &str) -> (r: String)
    ensures
        r@ == spec_escape(text@),
{
    let s = chars_of(text);
    let n = s.len();
    let mut out: Vec<char> = Vec::new();
    let mut i: usize = 0;
    assert(out@ + spec_escape(s@.skip(0)) =~= spec_escape(s@)) by {
        assert(s@.skip(0) =~= s@);
    }
    while i < n
        invariant
            n == s@.len(),
            s@ == text@,
            i <= n,
            out@ + spec_escape(s@.skip(i as int)) == spec_escape(s@),
        decreases n - i,
    {
        let ghost before = out@;
        let c = s[i];
        if c == '"' {
            push_str(&mut out, "\\\"");
        } else if c == '\\' {
            push_str(&mut out, "\\\\");
        } else if c == '\n' {
            push_str(&mut out, "\\n");
        } else if c == '\t' {
            push_str(&mut out, "\\t");
        } else if c == '\r' {
            push_str(&mut out, "\\r");
        } else {
            out.push(c);
        }
        proof {
            reveal_strlit("\\\"");
            reveal_strlit("\\\\");
            reveal_strlit("\\n");
            reveal_strlit("\\t");
            reveal_strlit("\\r");
            assert(out@ =~= before + escape_char(c));
            assert(s@.skip(i as int).drop_first() =~= s@.skip(i + 1));
            assert(out@ + spec_escape(s@.skip(i + 1)) =~= spec_escape(s@));
        }
        i += 1;
    }
    assert(s@.skip(i as int) =~= Seq::<char>::empty());
    assert(out@ =~= spec_escape(s@));
    string_from_chars(out.as_slice())
}

/// Unescaping an interpolated-string chunk undoes Checkmate escaping, for
/// text without carriage returns (a carriage return escapes to `\r`, which
/// the chunk unescaping does not accept).
pub proof fn lemma_unescape_undoes_escape(s: Seq<char>)
    requires
        !s.contains('\r'),
    ensures
        spec_unescape(spec_escape(s)) == s,
    decreases s.len(),
{
    if s.len() > 0 {
        let c = s[0];
        let rest = s.drop_first();
        assert(!rest.contains('\r')) by {
            if rest.contains('\r') {
                let k = choose|k: int| 0 <= k < rest.len() && rest[k] == '\r';
                assert(s[k + 1] == '\r');
            }
        }
        assert(c != '\r') by {
            assert(s[0] == c);
        }
        lemma_unescape_undoes_escape(rest);
        let e = escape_char(c) + spec_escape(rest);
        if c == '"' || c == '\\' || c == '\n' || c == '\t' {
            assert(e[0] == '\\');
            assert(is_accepted_escape(e[1]));
            assert(escape_target(e[1]) == c);
            assert(e.skip(2) =~= spec_escape(rest));
        } else {
            assert(e[0] == c);
            assert(e.drop_first() =~= spec_escape(rest));
        }
        assert(spec_unescape(e) =~= seq![c] + rest);
        assert(s =~= seq![c] + rest);
    }
}

// ---------------------------------------------------------------------------
// Template model
// ---------------------------------------------------------------------------

/// A piece of an interpolated template string.
#[derive(Debug)]
pub enum TmplStrPart {
    Lit(String),
    Hole { path: Vec<String>, accessor: Option<Accessor> },
}

/// A template value: a capture, a literal, or a compile-time call. A
/// floating-point literal is kept as the text it was written with.
#[derive(Debug)]
pub enum TmplValue {
    Capture { path: Vec<String> },
    Str(String),
    Int(i64),
    Float(String),
    Bool(bool),
    Call { path: Vec<String>, args: Vec<TmplValue> },
}

/// A parsed template: a sequence of nodes.
#[derive(Debug)]
pub struct Template {
    pub nodes: Vec<TmplNode>,
}

/// One template node and the span of template text it was parsed from.
#[derive(Debug)]
pub enum TmplNode {
    Text { text: String, span: Span },
    Splice { path: Vec<String>, accessor: Option<Accessor>, span: Span },
    Interp { parts: Vec<TmplStrPart>, span: Span },
    Each { element: String, list: TmplValue, body: Box<Template>, span: Span },
    When { cond: CtxExpr, then: Box<Template>, otherwise: Box<Template>, span: Span },
    Match { scrutinee: Vec<String>, arms: Vec<(String, Template)>, span: Span },
    Let { name: String, value: TmplValue, span: Span },
    Require { cond: CtxExpr, message: String, span: Span },
    Call { path: Vec<String>, args: Vec<TmplValue>, span: Span },
}

pub enum PartView {
    Lit(Seq<char>),
    Hole { path: Seq<Seq<char>>, accessor: Option<Accessor> },
}

pub enum ValueView {
    Capture { path: Seq<Seq<char>> },
    Str(Seq<char>),
    Int(int),
    Float(Seq<char>),
    Bool(bool),
    Call { path: Seq<Seq<char>>, args: Seq<ValueView> },
}

pub struct TemplateView {
    pub nodes: Seq<NodeView>,
}

pub enum NodeView {
    Text { text: Seq<char>, span: Span },
    Splice { path: Seq<Seq<char>>, accessor: Option<Accessor>, span: Span },
    Interp { parts: Seq<PartView>, span: Span },
    Each { element: Seq<char>, list: ValueView, body: Box<TemplateView>, span: Span },
    When { cond: ExprView, then: Box<TemplateView>, otherwise: Box<TemplateView>, span: Span },
    Match { scrutinee: Seq<Seq<char>>, arms: Seq<(Seq<char>, TemplateView)>, span: Span },
    Let { name: Seq<char>, value: ValueView, span: Span },
    Require { cond: ExprView, message: Seq<char>, span: Span },
    Call { path: Seq<Seq<char>>, args: Seq<ValueView>, span: Span },
}

pub open spec fn part_view(p: TmplStrPart) -> PartView {
    match p {
        TmplStrPart::Lit(s) => PartView::Lit(s@),
        TmplStrPart::Hole { path, accessor } => PartView::Hole { path: strings_view(path@), accessor },
    }
}

pub open spec fn parts_view(s: Seq<TmplStrPart>) -> Seq<PartView> {
    s.map_values(|p: TmplStrPart| part_view(p))
}

pub open spec fn value_view(v: TmplValue) -> ValueView
    decreases v,
{
    match v {
        TmplValue::Capture { path } => ValueView::Capture { path: strings_view(path@) },
        TmplValue::Str(s) => ValueView::Str(s@),
        TmplValue::Int(i) => ValueView::Int(i as int),
        TmplValue::Float(f) => ValueView::Float(f@),
        TmplValue::Bool(b) => ValueView::Bool(b),
        TmplValue::Call { path, args } => ValueView::Call { path: strings_view(path@), args: values_view(args@) },
    }
}

pub open spec fn values_view(s: Seq<TmplValue>) -> Seq<ValueView>
    decreases s,
{
    if s.len() == 0 {
        seq![]
    } else {
        seq![value_view(s[0])] + values_view(s.subrange(1, s.len() as int))
    }
}

pub open spec fn template_view(t: Template) -> TemplateView
    decreases t,
{
    TemplateView { nodes: nodes_view(t.nodes@) }
}

pub open spec fn nodes_view(s: Seq<TmplNode>) -> Seq<NodeView>
    decreases s,
{
    if s.len() == 0 {
        seq![]
    } else {
        seq![node_view(s[0])] + nodes_view(s.subrange(1, s.len() as int))
    }
}

pub open spec fn arms_view(s: Seq<(String, Template)>) -> Seq<(Seq<char>, TemplateView)>
    decreases s,
{
    if s.len() == 0 {
        seq![]
    } else {
        seq![(s[0].0@, template_view(s[0].1))] + arms_view(s.subrange(1, s.len() as int))
    }
}

pub open spec fn node_view(n: TmplNode) -> NodeView
    decreases n,
{
    match n {
        TmplNode::Text { text, span } => NodeView::Text { text: text@, span },
        TmplNode::Splice { path, accessor, span } => NodeView::Splice { path: strings_view(path@), accessor, span },
        TmplNode::Interp { parts, span } => NodeView::Interp { parts: parts_view(parts@), span },
        TmplNode::Each { element, list, body, span } => NodeView::Each {
            element: element@,
            list: value_view(list),
            body: Box::new(template_view(*body)),
            span,
        },
        TmplNode::When { cond, then, otherwise, span } => NodeView::When {
            cond: expr_view(cond),
            then: Box::new(template_view(*then)),
            otherwise: Box::new(template_view(*otherwise)),
            span,
        },
        TmplNode::Match { scrutinee, arms, span } => NodeView::Match {
            scrutinee: strings_view(scrutinee@),
            arms: arms_view(arms@),
            span,
        },
        TmplNode::Let { name, value, span } => NodeView::Let { name: name@, value: value_view(value), span },
        TmplNode::Require { cond, message, span } => NodeView::Require {
            cond: expr_view(cond),
            message: message@,
            span,
        },
        TmplNode::Call { path, args, span } => NodeView::Call {
            path: strings_view(path@),
            args: values_view(args@),
            span,
        },
    }
}


// ---------------------------------------------------------------------------
// Template lexical pieces
// ---------------------------------------------------------------------------

/// `w` starts at `c` as a whole word.
pub open spec fn at_word(t: Seq<char>, c: int, w: Seq<char>) -> bool {
    at(t, c, w) && (c + w.len() >= t.len() || !is_word_char(t[c + w.len()]))
}

pub open spec fn tmpl_error(span: Span, c: int, message: Seq<char>) -> DiagnosticView {
    error_at(span, c, message)
}

/// The segments of a template capture path from `c` after `segs`: trivia
/// is skipped before each segment, and one `$` may lead the path.
pub open spec fn tpath_from(t: Seq<char>, c: int, segs: Seq<Seq<char>>) -> (Seq<Seq<char>>, int)
    decreases t.len() - c,
    when 0 <= c <= t.len()
{
    proof {
        lemma_skip_wsc_bounds(t, c, cm());
        lemma_word_len(t, trivia_end(t, c));
        reveal_strlit("$");
        reveal_strlit(".");
    }
    let c1 = trivia_end(t, c);
    if at(t, c1, "$"@) && segs.len() == 0 {
        tpath_from(t, c1 + 1, segs)
    } else {
        let w = word_at(t, c1);
        if w.len() == 0 {
            (segs, c1)
        } else if at(t, c1 + w.len(), "."@) {
            tpath_from(t, c1 + w.len() + 1, segs.push(w))
        } else {
            (segs.push(w), c1 + w.len())
        }
    }
}

/// A template capture path at `c`.
pub open spec fn tpath(t: Seq<char>, c: int, span: Span) -> (Result<Seq<Seq<char>>, DiagnosticView>, int) {
    let (segs, c1) = tpath_from(t, c, seq![]);
    if segs.len() == 0 {
        (Err(tmpl_error(span, c1, "expected a capture path after `$`"@)), c1)
    } else {
        (Ok(segs), c1)
    }
}

pub open spec fn tmpl_accessor(w: Seq<char>) -> Option<Accessor> {
    if w == "matched"@ {
        Some(Accessor::Matched)
    } else if w == "length"@ {
        Some(Accessor::Length)
    } else if w == "line"@ {
        Some(Accessor::Line)
    } else if w == "col"@ {
        Some(Accessor::Col)
    } else {
        None
    }
}

/// A `.matched` / `.length` / `.line` / `.col` accessor at `c`, if any.
pub open spec fn trailing_accessor(t: Seq<char>, c: int) -> (Option<Accessor>, int) {
    if !at(t, c, "."@) {
        (None, c)
    } else {
        let w = word_at(t, c + 1);
        match tmpl_accessor(w) {
            Some(a) => (Some(a), c + 1 + w.len()),
            None => (None, c),
        }
    }
}

/// A `.matched`, `.length`, `.line` or `.col` after a template capture path
/// is the accessor of that name (`Matched`, `Length`, `Line`, `Col`), read
/// with its dot.
pub proof fn lemma_template_accessor_word_names_its_accessor(t: Seq<char>, c: int)
    requires
        at(t, c, "."@),
    ensures
        word_at(t, c + 1) == "matched"@ ==> trailing_accessor(t, c) == (Some(Accessor::Matched), c + 8),
        word_at(t, c + 1) == "length"@ ==> trailing_accessor(t, c) == (Some(Accessor::Length), c + 7),
        word_at(t, c + 1) == "line"@ ==> trailing_accessor(t, c) == (Some(Accessor::Line), c + 5),
        word_at(t, c + 1) == "col"@ ==> trailing_accessor(t, c) == (Some(Accessor::Col), c + 4),
{
    reveal_strlit("matched");
    reveal_strlit("length");
    reveal_strlit("line");
    reveal_strlit("col");
}

/// `$cap.path[.accessor]` at `c`.
pub open spec fn sp_splice(t: Seq<char>, c: int, span: Span) -> (Result<NodeView, DiagnosticView>, int) {
    match tpath(t, c + 1, span) {
        (Err(e), c1) => (Err(e), c1),
        (Ok(path), c1) => {
            let (accessor, c2) = trailing_accessor(t, c1);
            (Ok(NodeView::Splice { path, accessor, span: element_span(span, c, c2) }), c2)
        },
    }
}

/// The parts of `$"…"` from `c` after `parts` and the pending `literal`;
/// the interpolation started at `start`.
pub open spec fn interp_from(
    t: Seq<char>,
    c: int,
    parts: Seq<PartView>,
    literal: Seq<char>,
    start: int,
    span: Span,
) -> (Result<NodeView, DiagnosticView>, int)
    decreases t.len() - c,
    when 0 <= c <= t.len()
{
    let flushed = if literal.len() > 0 {
        parts.push(PartView::Lit(literal))
    } else {
        parts
    };
    if c >= t.len() {
        (Err(tmpl_error(span, c, "unterminated template string"@)), c)
    } else if t[c] == '"' {
        (Ok(NodeView::Interp { parts: flushed, span: element_span(span, start, c + 1) }), c + 1)
    } else if t[c] == '\\' {
        if c + 1 >= t.len() {
            (Err(tmpl_error(span, c + 1, "unterminated template string"@)), c + 1)
        } else {
            interp_from(t, c + 2, parts, literal.push(range_escape(t[c + 1])), start, span)
        }
    } else if t[c] == '{' {
        if c + 1 < t.len() && t[c + 1] == '{' {
            interp_from(t, c + 2, parts, literal.push('{'), start, span)
        } else {
            match tpath(t, c + 1, span) {
                (Err(e), c1) => (Err(e), c1),
                (Ok(path), c1) => {
                    let (accessor, c2) = trailing_accessor(t, c1);
                    let c3 = trivia_end(t, c2);
                    if !at(t, c3, "}"@) {
                        (Err(tmpl_error(span, c3, "expected `}` to close the hole"@)), c3)
                    } else if c < c3 < t.len() {
                        interp_from(t, c3 + 1, flushed.push(PartView::Hole { path, accessor }), seq![], start, span)
                    } else {
                        (Err(tmpl_error(span, c3, "unterminated template string"@)), c3)
                    }
                },
            }
        }
    } else {
        interp_from(t, c + 1, parts, literal.push(t[c]), start, span)
    }
}

/// The `[NAME] in [$]path` header of an `each` from `c`.
pub open spec fn each_header(t: Seq<char>, c: int, span: Span) -> (
    Result<(Seq<char>, ValueView), DiagnosticView>,
    int,
) {
    let c1 = trivia_end(t, c);
    let w = word_at(t, c1);
    let (element, c2) = if w.len() > 0 && w != "in"@ {
        (w, c1 + w.len())
    } else {
        ("item"@, c1)
    };
    let c3 = trivia_end(t, c2);
    if !at(t, c3, "in"@) {
        (Err(tmpl_error(span, c3, "expected `in` in an `each` construct"@)), c3)
    } else {
        let c4 = trivia_end(t, c3 + 2);
        let c5 = if at(t, c4, "$"@) {
            c4 + 1
        } else {
            c4
        };
        match tpath(t, c5, span) {
            (Err(e), c6) => (Err(e), c6),
            (Ok(path), c6) => (Ok((element, ValueView::Capture { path })), c6),
        }
    }
}

/// The word of a `cm.…` builtin path from `c` followed by `(`.
pub open spec fn cm_tail(t: Seq<char>, c: int) -> bool
    decreases t.len() - c,
    when 0 <= c <= t.len()
{
    proof {
        lemma_word_len(t, c);
        reveal_strlit(".");
    }
    let w = word_len(t, c);
    if w == 0 {
        false
    } else if at(t, c + w, "."@) {
        cm_tail(t, c + w + 1)
    } else {
        at(t, trivia_end(t, c + w), "("@)
    }
}

/// A `cm.…( … )` builtin call starts at `c`.
pub open spec fn cm_call_ahead(t: Seq<char>, c: int) -> bool {
    at_word(t, c, "cm"@) && at(t, c + 2, "."@) && cm_tail(t, c + 3)
}

/// The dotted path of a call from `c` after `path`.
pub open spec fn call_path_from(t: Seq<char>, c: int, path: Seq<Seq<char>>) -> (Seq<Seq<char>>, int)
    decreases t.len() - c,
    when 0 <= c <= t.len()
{
    if at(t, c, "."@) {
        proof {
            reveal_strlit(".");
            lemma_word_len(t, c + 1);
        }
        let w = word_at(t, c + 1);
        call_path_from(t, c + 1 + w.len(), path.push(w))
    } else {
        (path, c)
    }
}

/// The rule path that `cm.parse` takes verbatim as its first argument.
pub open spec fn rule_text_from(t: Seq<char>, c: int, rule: Seq<char>) -> (Seq<char>, int)
    decreases t.len() - c,
    when 0 <= c <= t.len()
{
    proof {
        lemma_word_len(t, c);
        reveal_strlit(".");
    }
    let w = word_at(t, c);
    if w.len() == 0 {
        (rule, c)
    } else if at(t, c + w.len(), "."@) {
        rule_text_from(t, c + w.len() + 1, rule + w + seq!['.'])
    } else {
        (rule + w, c + w.len())
    }
}

/// A number at `c` as a template value: an integer when it fits, else a
/// floating-point number with at most one dot and at least one digit.
pub open spec fn value_number(t: Seq<char>, c: int) -> Option<(ValueView, int)> {
    let d = number_run(t, c);
    if d.len() > 0 && reads_as_int(d) {
        Some((ValueView::Int(digits_value(d) as int), d.len() as int))
    } else if d.len() > 0 && dot_count(d) <= 1 && dot_count(d) < d.len() {
        Some((ValueView::Float(d), d.len() as int))
    } else {
        None
    }
}

/// The arguments of a call from `c`, after `args`, up to `)`. The first
/// argument of `cm.parse` is a rule path taken as text.
pub open spec fn args_from(
    t: Seq<char>,
    c: int,
    path: Seq<Seq<char>>,
    args: Seq<ValueView>,
    span: Span,
) -> (Result<Seq<ValueView>, DiagnosticView>, int)
    decreases t.len() - c, if path == seq!["cm"@, "parse"@] && args.len() == 0 {
        3nat
    } else {
        2nat
    },
    when 0 <= c <= t.len()
{
    proof {
        lemma_skip_wsc_bounds(t, c, cm());
        reveal_strlit(")");
        reveal_strlit(",");
    }
    let c1 = trivia_end(t, c);
    if at(t, c1, ")"@) {
        (Ok(args), c1 + 1)
    } else {
        let (arg, c2) = if path == seq!["cm"@, "parse"@] && args.len() == 0 {
            let (rule, c2) = rule_text_from(t, c1, seq![]);
            (Ok(ValueView::Str(rule)), c2)
        } else {
            sp_value(t, c1, span)
        };
        match arg {
            Err(e) => (Err(e), c2),
            Ok(a) => {
                let c3 = trivia_end(t, c2);
                let c4 = if at(t, c3, ","@) {
                    c3 + 1
                } else {
                    c3
                };
                if c1 <= c2 <= t.len() && (c < c4 || (path == seq!["cm"@, "parse"@] && args.len() == 0)) {
                    proof {
                        lemma_skip_wsc_bounds(t, c2, cm());
                    }
                    args_from(t, c4, path, args.push(a), span)
                } else {
                    (Err(tmpl_error(span, c4, "expected a value"@)), c4)
                }
            },
        }
    }
}

/// A call at `c` (`@path(…)` when `at_sign`, else `cm.…(…)`): its path
/// and arguments.
pub open spec fn sp_call(t: Seq<char>, c: int, at_sign: bool, span: Span) -> (
    Result<(Seq<Seq<char>>, Seq<ValueView>), DiagnosticView>,
    int,
)
    decreases t.len() - c, 0nat,
    when 0 <= c < t.len()
{
    proof {
        lemma_word_len(t, if at_sign { c + 1 } else { c });
        reveal_strlit("(");
    }
    let c1 = if at_sign {
        c + 1
    } else {
        c
    };
    let w = word_at(t, c1);
    let (path, c2) = call_path_from(t, c1 + w.len(), seq![w]);
    let c3 = trivia_end(t, c2);
    if !at(t, c3, "("@) {
        (Err(tmpl_error(span, c3, "expected `(` after the function path"@)), c3)
    } else if c <= c3 < t.len() {
        match args_from(t, c3 + 1, path, seq![], span) {
            (Err(e), c4) => (Err(e), c4),
            (Ok(args), c4) => (Ok((path, args)), c4),
        }
    } else {
        (Err(tmpl_error(span, c3, "expected `(` after the function path"@)), c3)
    }
}

/// A template value at `c` (after trivia).
pub open spec fn sp_value(t: Seq<char>, c: int, span: Span) -> (Result<ValueView, DiagnosticView>, int)
    decreases t.len() - c, 1nat,
    when 0 <= c <= t.len()
{
    proof {
        lemma_skip_wsc_bounds(t, c, cm());
        reveal_strlit("@");
        reveal_strlit("$");
        reveal_strlit("cm");
    }
    let c1 = trivia_end(t, c);
    if at(t, c1, "@"@) || cm_call_ahead(t, c1) {
        match sp_call(t, c1, at(t, c1, "@"@), span) {
            (Err(e), c2) => (Err(e), c2),
            (Ok((path, args)), c2) => (Ok(ValueView::Call { path, args }), c2),
        }
    } else if at(t, c1, "$"@) {
        match tpath(t, c1 + 1, span) {
            (Err(e), c2) => (Err(e), c2),
            (Ok(path), c2) => (Ok(ValueView::Capture { path }), c2),
        }
    } else {
        match spec_string_literal(t, c1) {
            Some((v, l)) => (Ok(ValueView::Str(v)), c1 + l),
            None => match value_number(t, c1) {
                Some((v, l)) => (Ok(v), c1 + l),
                None => if at_word(t, c1, "true"@) {
                    (Ok(ValueView::Bool(true)), c1 + 4)
                } else if at_word(t, c1, "false"@) {
                    (Ok(ValueView::Bool(false)), c1 + 5)
                } else if word_at(t, c1).len() > 0 && (is_ascii_alpha(t[c1]) || t[c1] == '_') {
                    match tpath(t, c1, span) {
                        (Err(e), c2) => (Err(e), c2),
                        (Ok(path), c2) => (Ok(ValueView::Capture { path }), c2),
                    }
                } else {
                    (Err(tmpl_error(span, c1, "expected a value"@)), c1)
                },
            },
        }
    }
}


/// How a node sequence ended.
#[derive(PartialEq, Eq, Structural, Clone, Copy)]
pub enum EndKind {
    Eof,
    Brace,
    Bracket,
    Paren,
    Arm,
}

/// What ends a node sequence: the end of the text (top level), a `}`
/// (construct bodies), or a `}` or the next `label =>` (match arms).
#[derive(PartialEq, Eq, Structural, Clone, Copy)]
pub enum Mode {
    Top,
    Brace,
    MatchBody,
}

pub open spec fn closer_kind(c: char) -> EndKind {
    if c == '}' {
        EndKind::Brace
    } else if c == ']' {
        EndKind::Bracket
    } else {
        EndKind::Paren
    }
}

/// The pending text `t[text_start..c]`, as a text node after `nodes`.
pub open spec fn flush(t: Seq<char>, text_start: int, c: int, nodes: Seq<NodeView>, span: Span) -> Seq<NodeView> {
    if c > text_start {
        nodes.push(NodeView::Text { text: t.subrange(text_start, c), span: element_span(span, text_start, c) })
    } else {
        nodes
    }
}

/// The next `label =>` of a match body starts at `c`.
pub open spec fn arm_boundary(t: Seq<char>, c: int) -> bool {
    let w = word_at(t, c);
    w.len() > 0 && is_ascii_alpha(w[0]) && at(t, trivia_end(t, c + w.len()), "=>"@)
}

/// `[` at `c` followed by the whole word `w`.
pub open spec fn word_after_bracket(t: Seq<char>, c: int, w: Seq<char>) -> bool {
    at_word(t, c + 1, w)
}

pub open spec fn word_ahead_is(t: Seq<char>, c: int, w: Seq<char>, next: Seq<char>) -> bool {
    at(t, trivia_end(t, c + w.len()), next)
}

pub open spec fn opens_capture(t: Seq<char>, c: int) -> bool {
    let c1 = trivia_end(t, c + 5);
    at(t, c1, "("@) && at(t, trivia_end(t, c1 + 1), "$"@)
}

pub open spec fn opens_paren(t: Seq<char>, c: int) -> bool {
    at(t, trivia_end(t, c + 7), "("@)
}

pub open spec fn is_binding(t: Seq<char>, c: int) -> bool {
    let c1 = trivia_end(t, c + 3);
    let w = word_len(t, c1);
    w > 0 && at(t, trivia_end(t, c1 + w), "="@)
}

/// The construct that starts at `c`, if any: 1 interpolation, 2 splice,
/// 3 `[each …]`, 4 `[when …]`, 5 bare `each`, 6 `match`, 7 `let`,
/// 8 `require`, 9 `@` call, 10 `cm.…` call.
pub open spec fn construct_at(t: Seq<char>, c: int) -> nat {
    if t[c] == '$' && c + 1 < t.len() && t[c + 1] == '"' {
        1
    } else if t[c] == '$' && c + 1 < t.len() && (is_ascii_alpha(t[c + 1]) || t[c + 1] == '_') {
        2
    } else if t[c] == '[' && word_after_bracket(t, c, "each"@) {
        3
    } else if t[c] == '[' && word_after_bracket(t, c, "when"@) {
        4
    } else if at_word(t, c, "each"@) && word_ahead_is(t, c, "each"@, "in"@) {
        5
    } else if at_word(t, c, "match"@) && opens_capture(t, c) {
        6
    } else if at_word(t, c, "let"@) && is_binding(t, c) {
        7
    } else if at_word(t, c, "require"@) && opens_paren(t, c) {
        8
    } else if t[c] == '@' {
        9
    } else if cm_call_ahead(t, c) {
        10
    } else {
        0
    }
}

/// The nodes of a `{ … }` construct body at `c`.
pub open spec fn sp_braced_nodes(t: Seq<char>, c: int, span: Span) -> (Result<Seq<NodeView>, DiagnosticView>, int)
    decreases t.len() - c, 0nat,
    when 0 <= c <= t.len()
{
    proof {
        lemma_skip_wsc_bounds(t, c, cm());
        reveal_strlit("{");
    }
    let c1 = trivia_end(t, c);
    if !at(t, c1, "{"@) {
        (Err(tmpl_error(span, c1, "expected `{` to open the construct body"@)), c1)
    } else {
        match nodes_from(t, c1 + 1, Mode::Brace, seq![], 0, c1 + 1, span) {
            (Err(e), c2) => (Err(e), c2),
            (Ok((nodes, end)), c2) => if end != EndKind::Brace {
                (Err(tmpl_error(span, c2, "unterminated construct body"@)), c2)
            } else {
                (Ok(nodes), c2)
            },
        }
    }
}

/// The arms of a `match` from `c` after `arms`; the construct started at
/// `start`.
pub open spec fn arms_from(
    t: Seq<char>,
    c: int,
    scrutinee: Seq<Seq<char>>,
    arms: Seq<(Seq<char>, TemplateView)>,
    start: int,
    span: Span,
) -> (Result<NodeView, DiagnosticView>, int)
    decreases t.len() - c, 0nat,
    when 0 <= c <= t.len()
{
    proof {
        lemma_skip_wsc_bounds(t, c, cm());
        lemma_word_len(t, trivia_end(t, c));
        reveal_strlit("}");
        reveal_strlit("=>");
    }
    let c1 = trivia_end(t, c);
    if at(t, c1, "}"@) {
        (Ok(NodeView::Match { scrutinee, arms, span: element_span(span, start, c1 + 1) }), c1 + 1)
    } else {
        let label = word_at(t, c1);
        if label.len() == 0 {
            (Err(tmpl_error(span, c1, "expected an arm label"@)), c1)
        } else {
            let c2 = trivia_end(t, c1 + label.len());
            if !at(t, c2, "=>"@) {
                (Err(tmpl_error(span, c2, "expected `=>` after arm `"@ + label + "`"@)), c2)
            } else {
                proof {
                    lemma_skip_wsc_bounds(t, c1 + label.len(), cm());
                }
                match nodes_from(t, c2 + 2, Mode::MatchBody, seq![], 0, c2 + 2, span) {
                    (Err(e), c3) => (Err(e), c3),
                    (Ok((body, end)), c3) => {
                        let arms2 = arms.push((label, TemplateView { nodes: body }));
                        if end == EndKind::Brace {
                            (Ok(NodeView::Match { scrutinee, arms: arms2, span: element_span(span, start, c3) }), c3)
                        } else if c < c3 <= t.len() {
                            arms_from(t, c3, scrutinee, arms2, start, span)
                        } else {
                            (Err(tmpl_error(span, c3, "expected an arm label"@)), c3)
                        }
                    },
                }
            }
        }
    }
}

/// An `[each …]` (when `bracketed`) or bare `each … { … }` at `c`.
pub open spec fn sp_each_node(t: Seq<char>, c: int, bracketed: bool, span: Span) -> (Result<NodeView, DiagnosticView>, int)
    decreases t.len() - c, 0nat,
    when 0 <= c < t.len()
{
    proof {
        lemma_skip_wsc_bounds(t, c, cm());
        reveal_strlit("]");
        reveal_strlit("else");
        reveal_strlit("$");
        reveal_strlit("(");
        reveal_strlit(")");
        reveal_strlit("{");
        reveal_strlit("=");
        reveal_strlit(",");
    }
    let header_at = if bracketed {
        c + 5
    } else {
        c + 4
    };
    match each_header(t, header_at, span) {
        (Err(e), c1) => (Err(e), c1),
        (Ok((element, list)), c1) => if c < c1 <= t.len() {
            match sp_braced_nodes(t, c1, span) {
                (Err(e), c2) => (Err(e), c2),
                (Ok(body), c2) => if !bracketed {
                    (
                        Ok(NodeView::Each {
                            element,
                            list,
                            body: Box::new(TemplateView { nodes: body }),
                            span: element_span(span, c, c2),
                        }),
                        c2,
                    )
                } else {
                    let c3 = trivia_end(t, c2);
                    if !at(t, c3, "]"@) {
                        (Err(tmpl_error(span, c3, "expected `]` to close the `[each …]` construct"@)), c3)
                    } else {
                        (
                            Ok(NodeView::Each {
                                element,
                                list,
                                body: Box::new(TemplateView { nodes: body }),
                                span: element_span(span, c, c3 + 1),
                            }),
                            c3 + 1,
                        )
                    }
                },
            }
        } else {
            (Err(tmpl_error(span, c1, "expected `{` to open the construct body"@)), c1)
        },
    }
}

/// A `[when cond { … } else { … }]` at `c`.
pub open spec fn sp_when_node(t: Seq<char>, c: int, span: Span) -> (Result<NodeView, DiagnosticView>, int)
    decreases t.len() - c, 0nat,
    when 0 <= c < t.len()
{
    proof {
        lemma_skip_wsc_bounds(t, c, cm());
        reveal_strlit("]");
        reveal_strlit("else");
        reveal_strlit("$");
        reveal_strlit("(");
        reveal_strlit(")");
        reveal_strlit("{");
        reveal_strlit("=");
        reveal_strlit(",");
    }
    match spec_parse_ctx_expr(t, c + 5, span) {
        (Err(e), c1) => (Err(e), c1),
        (Ok(cond), c1) => if c < c1 <= t.len() {
            match sp_braced_nodes(t, c1, span) {
                (Err(e), c2) => (Err(e), c2),
                (Ok(then), c2) => {
                    let c3 = trivia_end(t, c2);
                    let (otherwise, c4) = if at_word(t, c3, "else"@) && c < c3 && c3 + 4 <= t.len() {
                        sp_braced_nodes(t, c3 + 4, span)
                    } else {
                        (Ok(seq![]), c3)
                    };
                    match otherwise {
                        Err(e) => (Err(e), c4),
                        Ok(otherwise) => {
                            let c5 = trivia_end(t, c4);
                            if !at(t, c5, "]"@) {
                                (Err(tmpl_error(span, c5, "expected `]` to close the `[when …]` construct"@)), c5)
                            } else {
                                (
                                    Ok(NodeView::When {
                                        cond,
                                        then: Box::new(TemplateView { nodes: then }),
                                        otherwise: Box::new(TemplateView { nodes: otherwise }),
                                        span: element_span(span, c, c5 + 1),
                                    }),
                                    c5 + 1,
                                )
                            }
                        },
                    }
                },
            }
        } else {
            (Err(tmpl_error(span, c1, "expected `{` to open the construct body"@)), c1)
        },
    }
}

/// A `match ($cap) { label => … }` at `c`.
pub open spec fn sp_match_node(t: Seq<char>, c: int, span: Span) -> (Result<NodeView, DiagnosticView>, int)
    decreases t.len() - c, 0nat,
    when 0 <= c < t.len()
{
    proof {
        lemma_skip_wsc_bounds(t, c, cm());
        reveal_strlit("]");
        reveal_strlit("else");
        reveal_strlit("$");
        reveal_strlit("(");
        reveal_strlit(")");
        reveal_strlit("{");
        reveal_strlit("=");
        reveal_strlit(",");
    }
    let c1 = trivia_end(t, c + 5);
    let c2 = trivia_end(t, c1 + 1);
    if !at(t, c2, "$"@) {
        (Err(tmpl_error(span, c2, "expected a capture after `match (`"@)), c2)
    } else {
        match tpath(t, c2 + 1, span) {
            (Err(e), c3) => (Err(e), c3),
            (Ok(path), c3) => {
                let (accessor, c4) = trailing_accessor(t, c3);
                if accessor is Some {
                    (Err(tmpl_error(span, c4, "match scrutinee takes a plain capture"@)), c4)
                } else {
                    let c5 = trivia_end(t, c4);
                    if !at(t, c5, ")"@) {
                        (Err(tmpl_error(span, c5, "expected `)` after the match scrutinee"@)), c5)
                    } else {
                        let c6 = trivia_end(t, c5 + 1);
                        if !at(t, c6, "{"@) {
                            (Err(tmpl_error(span, c6, "expected `{` to open the match arms"@)), c6)
                        } else if c < c6 < t.len() {
                            arms_from(t, c6 + 1, path, seq![], c, span)
                        } else {
                            (Err(tmpl_error(span, c6, "expected `{` to open the match arms"@)), c6)
                        }
                    }
                }
            },
        }
    }
}

/// A `let name = value` at `c`.
pub open spec fn sp_let_node(t: Seq<char>, c: int, span: Span) -> (Result<NodeView, DiagnosticView>, int)
{
    let c1 = trivia_end(t, c + 3);
    let name = word_at(t, c1);
    if name.len() == 0 {
        (Err(tmpl_error(span, c1, "expected a name after `let`"@)), c1)
    } else {
        let c2 = trivia_end(t, c1 + name.len());
        if !at(t, c2, "="@) {
            (Err(tmpl_error(span, c2, "expected `=` in a `let` binding"@)), c2)
        } else {
            match sp_value(t, c2 + 1, span) {
                (Err(e), c3) => (Err(e), c3),
                (Ok(value), c3) => (Ok(NodeView::Let { name, value, span: element_span(span, c, c3) }), c3),
            }
        }
    }
}

/// A `require(cond, "message")` at `c`.
pub open spec fn sp_require_node(t: Seq<char>, c: int, span: Span) -> (Result<NodeView, DiagnosticView>, int)
{
    let c1 = trivia_end(t, c + 7);
    match spec_parse_ctx_expr(t, c1 + 1, span) {
        (Err(e), c2) => (Err(e), c2),
        (Ok(cond), c2) => {
            let c3 = trivia_end(t, c2);
            if !at(t, c3, ","@) {
                (Err(tmpl_error(span, c3, "expected `,` before the require message"@)), c3)
            } else {
                let c4 = trivia_end(t, c3 + 1);
                match spec_string_literal(t, c4) {
                    None => (Err(tmpl_error(span, c4, "expected a message string in `require`"@)), c4),
                    Some((message, l)) => {
                        let c5 = trivia_end(t, c4 + l);
                        if !at(t, c5, ")"@) {
                            (Err(tmpl_error(span, c5, "expected `)` to close `require`"@)), c5)
                        } else {
                            (
                                Ok(NodeView::Require { cond, message, span: element_span(span, c, c5 + 1) }),
                                c5 + 1,
                            )
                        }
                    },
                }
            }
        },
    }
}

/// The construct of kind `kind` (see [`construct_at`]) at `c`.
pub open spec fn sp_construct(t: Seq<char>, c: int, kind: nat, span: Span) -> (Result<NodeView, DiagnosticView>, int)
    decreases t.len() - c, 1nat,
    when 0 <= c < t.len()
{
    if kind == 1 {
        interp_from(t, c + 2, seq![], seq![], c, span)
    } else if kind == 2 {
        sp_splice(t, c, span)
    } else if kind == 3 || kind == 5 {
        sp_each_node(t, c, kind == 3, span)
    } else if kind == 4 {
        sp_when_node(t, c, span)
    } else if kind == 6 {
        sp_match_node(t, c, span)
    } else if kind == 7 {
        sp_let_node(t, c, span)
    } else if kind == 8 {
        sp_require_node(t, c, span)
    } else {
        match sp_call(t, c, kind == 9, span) {
            (Err(e), c1) => (Err(e), c1),
            (Ok((path, args)), c1) => (Ok(NodeView::Call { path, args, span: element_span(span, c, c1) }), c1),
        }
    }
}

proof fn lemma_interp_gives_interp(
    t: Seq<char>,
    c: int,
    parts: Seq<PartView>,
    literal: Seq<char>,
    start: int,
    span: Span,
)
    requires
        0 <= c <= t.len(),
    ensures
        interp_from(t, c, parts, literal, start, span).0 matches Ok(n) ==> n is Interp,
    decreases t.len() - c,
{
    if c < t.len() && t[c] != '"' {
        if t[c] == '\\' {
            if c + 1 < t.len() {
                lemma_interp_gives_interp(t, c + 2, parts, literal.push(range_escape(t[c + 1])), start, span);
            }
        } else if t[c] == '{' {
            if c + 1 < t.len() && t[c + 1] == '{' {
                lemma_interp_gives_interp(t, c + 2, parts, literal.push('{'), start, span);
            } else {
                let flushed = if literal.len() > 0 {
                    parts.push(PartView::Lit(literal))
                } else {
                    parts
                };
                let (rp, c1) = tpath(t, c + 1, span);
                if rp is Ok {
                    let path = rp->Ok_0;
                    let (accessor, c2) = trailing_accessor(t, c1);
                    let c3 = trivia_end(t, c2);
                    if at(t, c3, "}"@) && c < c3 < t.len() {
                        lemma_interp_gives_interp(
                            t,
                            c3 + 1,
                            flushed.push(PartView::Hole { path, accessor }),
                            seq![],
                            start,
                            span,
                        );
                    }
                }
            }
        } else {
            lemma_interp_gives_interp(t, c + 1, parts, literal.push(t[c]), start, span);
        }
    }
}

/// A template construct is the node its opening names: `$"…"` an
/// interpolation, `$name` a splice, `[each …]` and `each … in` an each,
/// `[when …]` a when, `match (…)` a match, `let name =` a binding,
/// `require(…)` a requirement, and `@…` or `cm.…(` a call.
#[verifier::rlimit(60)]
pub proof fn lemma_construct_is_the_node_it_opens(t: Seq<char>, c: int, span: Span)
    requires
        0 <= c < t.len(),
        construct_at(t, c) > 0,
    ensures
        ({
            let r = sp_construct(t, c, construct_at(t, c), span).0;
            &&& t[c] == '$' && c + 1 < t.len() && t[c + 1] == '"' ==> (r matches Ok(n) ==> n is Interp)
            &&& t[c] == '$' && c + 1 < t.len() && (is_ascii_alpha(t[c + 1]) || t[c + 1] == '_') ==> (r matches Ok(n)
                ==> n is Splice)
            &&& t[c] == '[' && at_word(t, c + 1, "each"@) ==> (r matches Ok(n) ==> n is Each)
            &&& t[c] == '[' && at_word(t, c + 1, "when"@) ==> (r matches Ok(n) ==> n is When)
            &&& at_word(t, c, "each"@) ==> (r matches Ok(n) ==> n is Each || n is Call)
            &&& at_word(t, c, "match"@) ==> (r matches Ok(n) ==> n is Match || n is Call)
            &&& at_word(t, c, "let"@) ==> (r matches Ok(n) ==> n is Let || n is Call)
            &&& at_word(t, c, "require"@) ==> (r matches Ok(n) ==> n is Require || n is Call)
            &&& t[c] == '@' ==> (r matches Ok(n) ==> n is Call)
        }),
{
    reveal_strlit("each");
    reveal_strlit("when");
    reveal_strlit("match");
    reveal_strlit("let");
    reveal_strlit("require");
    assert("each"@[0] != "when"@[0] && "each"@.len() != "match"@.len() && "each"@.len() != "let"@.len()
        && "each"@.len() != "require"@.len());
    reveal_strlit("in");
    crate::mega::ctxexpr::lemma_at_by_chars(t, c, "each"@);
    crate::mega::ctxexpr::lemma_at_by_chars(t, c, "match"@);
    crate::mega::ctxexpr::lemma_at_by_chars(t, c, "let"@);
    crate::mega::ctxexpr::lemma_at_by_chars(t, c, "require"@);
    assert(t.skip(c)[0] == t[c]);
    lemma_construct_node_kind(t, c, construct_at(t, c), span);
}

proof fn lemma_arms_give_match(
    t: Seq<char>,
    c: int,
    scrutinee: Seq<Seq<char>>,
    arms: Seq<(Seq<char>, TemplateView)>,
    start: int,
    span: Span,
)
    requires
        0 <= c <= t.len(),
    ensures
        arms_from(t, c, scrutinee, arms, start, span).0 matches Ok(n) ==> n is Match,
    decreases t.len() - c,
{
    reveal_strlit("}");
    reveal_strlit("=>");
    lemma_skip_wsc_bounds(t, c, cm());
    let c1 = trivia_end(t, c);
    if !at(t, c1, "}"@) {
        let label = word_at(t, c1);
        lemma_word_len(t, c1);
        let c2 = trivia_end(t, c1 + label.len());
        lemma_skip_wsc_bounds(t, c1 + label.len(), cm());
        if label.len() > 0 && at(t, c2, "=>"@) {
            match nodes_from(t, c2 + 2, Mode::MatchBody, seq![], 0, c2 + 2, span) {
                (Ok((body, end)), c3) => {
                    if end != EndKind::Brace && c < c3 <= t.len() {
                        lemma_arms_give_match(
                            t,
                            c3,
                            scrutinee,
                            arms.push((label, TemplateView { nodes: body })),
                            start,
                            span,
                        );
                    }
                },
                _ => {},
            }
        }
    }
}

proof fn lemma_construct_node_kind(t: Seq<char>, c: int, k: nat, span: Span)
    requires
        0 <= c < t.len(),
        1 <= k <= 10,
        k == construct_at(t, c),
    ensures
        sp_construct(t, c, k, span).0 matches Ok(n) ==> {
            &&& k == 1 ==> n is Interp
            &&& k == 2 ==> n is Splice
            &&& (k == 3 || k == 5) ==> n is Each
            &&& k == 4 ==> n is When
            &&& k == 6 ==> n is Match
            &&& k == 7 ==> n is Let
            &&& k == 8 ==> n is Require
            &&& k >= 9 ==> n is Call
        },
{
    if k == 1 {
        lemma_interp_gives_interp(t, c + 2, seq![], seq![], c, span);
        assert(sp_construct(t, c, k, span) == interp_from(t, c + 2, seq![], seq![], c, span));
    } else if k == 2 {
        assert(sp_construct(t, c, k, span) == sp_splice(t, c, span));
    } else if k == 3 || k == 5 {
        assert(sp_construct(t, c, k, span) == sp_each_node(t, c, k == 3, span));
        lemma_each_node_kind(t, c, k == 3, span);
    } else if k == 4 {
        assert(sp_construct(t, c, k, span) == sp_when_node(t, c, span));
        lemma_when_node_kind(t, c, span);
    } else if k == 6 {
        assert(sp_construct(t, c, k, span) == sp_match_node(t, c, span));
        lemma_match_node_kind(t, c, span);
    } else if k == 7 {
        assert(sp_construct(t, c, k, span) == sp_let_node(t, c, span));
    } else if k == 8 {
        assert(sp_construct(t, c, k, span) == sp_require_node(t, c, span));
        lemma_require_node_kind(t, c, span);
    }
}

proof fn lemma_each_node_kind(t: Seq<char>, c: int, bracketed: bool, span: Span)
    requires
        0 <= c < t.len(),
    ensures
        sp_each_node(t, c, bracketed, span).0 matches Ok(n) ==> n is Each,
{
}

proof fn lemma_when_node_kind(t: Seq<char>, c: int, span: Span)
    requires
        0 <= c < t.len(),
    ensures
        sp_when_node(t, c, span).0 matches Ok(n) ==> n is When,
{
}

proof fn lemma_require_node_kind(t: Seq<char>, c: int, span: Span)
    ensures
        sp_require_node(t, c, span).0 matches Ok(n) ==> n is Require,
{
}

proof fn lemma_match_node_kind(t: Seq<char>, c: int, span: Span)
    requires
        0 <= c < t.len(),
    ensures
        sp_match_node(t, c, span).0 matches Ok(n) ==> n is Match,
{
    reveal_strlit("$");
    reveal_strlit(")");
    reveal_strlit("{");
    let c1 = trivia_end(t, c + 5);
    let c2 = trivia_end(t, c1 + 1);
    if at(t, c2, "$"@) {
        match tpath(t, c2 + 1, span) {
            (Ok(path), c3) => {
                let (accessor, c4) = trailing_accessor(t, c3);
                let c5 = trivia_end(t, c4);
                let c6 = trivia_end(t, c5 + 1);
                if accessor is None && at(t, c5, ")"@) && at(t, c6, "{"@) && c < c6 < t.len() {
                    lemma_arms_give_match(t, c6 + 1, path, seq![], c, span);
                }
            },
            _ => {},
        }
    }
}

/// The nodes from `c` in `mode`, after `nodes`, at bracket `depth` of the
/// plain text, with pending text from `text_start`; how the sequence ended.
pub open spec fn nodes_from(
    t: Seq<char>,
    c: int,
    mode: Mode,
    nodes: Seq<NodeView>,
    depth: nat,
    text_start: int,
    span: Span,
) -> (Result<(Seq<NodeView>, EndKind), DiagnosticView>, int)
    decreases t.len() - c, 2nat,
    when 0 <= c <= t.len()
{
    if c >= t.len() {
        match mode {
            Mode::Top => (Ok((flush(t, text_start, c, nodes, span), EndKind::Eof)), c),
            _ => (Err(tmpl_error(span, c, "unterminated template construct"@)), c),
        }
    } else if depth == 0 && mode != Mode::Top && t[c] == '}' {
        (Ok((flush(t, text_start, c, nodes, span), EndKind::Brace)), c + 1)
    } else if mode == Mode::MatchBody && depth == 0 && arm_boundary(t, c) {
        (Ok((flush(t, text_start, c, nodes, span), EndKind::Arm)), c)
    } else if construct_at(t, c) > 0 {
        match sp_construct(t, c, construct_at(t, c), span) {
            (Err(e), c2) => (Err(e), c2),
            (Ok(node), c2) => if c < c2 <= t.len() {
                nodes_from(t, c2, mode, flush(t, text_start, c, nodes, span).push(node), depth, c2, span)
            } else {
                (Err(tmpl_error(span, c2, "unterminated template construct"@)), c2)
            },
        }
    } else if t[c] == '"' {
        let next = match spec_string_literal(t, c) {
            Some((_, l)) => if 0 < l && c + l <= t.len() {
                c + l
            } else {
                c + 1
            },
            None => c + 1,
        };
        nodes_from(t, next, mode, nodes, depth, text_start, span)
    } else if t[c] == '{' || t[c] == '[' || t[c] == '(' {
        nodes_from(t, c + 1, mode, nodes, depth + 1, text_start, span)
    } else if t[c] == '}' || t[c] == ']' || t[c] == ')' {
        if depth == 0 {
            (Ok((flush(t, text_start, c, nodes, span), closer_kind(t[c]))), c + 1)
        } else {
            nodes_from(t, c + 1, mode, nodes, (depth - 1) as nat, text_start, span)
        }
    } else {
        nodes_from(t, c + 1, mode, nodes, depth, text_start, span)
    }
}

/// The parse of a whole template text.
pub open spec fn spec_parse_template(t: Seq<char>, span: Span) -> Result<TemplateView, DiagnosticView> {
    match nodes_from(t, 0, Mode::Top, seq![], 0, 0, span) {
        (Err(e), _) => Err(e),
        (Ok((nodes, end)), c) => if end == EndKind::Eof {
            Ok(TemplateView { nodes })
        } else {
            Err(tmpl_error(span, c, "unbalanced brackets in template"@))
        },
    }
}


// ---------------------------------------------------------------------------
// Template parser
// ---------------------------------------------------------------------------

pub open spec fn tfits(t: Seq<char>, span: Span) -> bool {
    t.len() < usize::MAX && span.start + t.len() <= usize::MAX
}

pub(crate) fn at_word_exec(t: &[char], c: usize, w: &str) -> (b: bool)
    requires
        c <= t@.len(),
        t@.len() < usize::MAX,
    ensures
        b == at_word(t@, c as int, w@),
{
    if !at_exec(t, c, w) {
        return false;
    }
    let e = c + chars_of(w).len();
    e >= t.len() || !crate::text::char_is_word(t[e])
}

fn tpath_from_exec(t: &[char], c: usize, segs: Vec<String>, sc: &LexProfile) -> (r: (Vec<String>, usize))
    requires
        c <= t@.len(),
        t@.len() < usize::MAX,
        sc@ == cm(),
    ensures
        (strings_view(r.0@), r.1 as int) == tpath_from(t@, c as int, strings_view(segs@)),
        c <= r.1 <= t@.len(),
        r.0@.len() >= segs@.len(),
        r.0@.len() > segs@.len() ==> c < r.1,
    decreases t@.len() - c,
{
    proof {
        reveal_strlit("$");
        reveal_strlit(".");
    }
    let c1 = trivia(t, c, sc);
    if at_exec(t, c1, "$") && segs.len() == 0 {
        return tpath_from_exec(t, c1 + 1, segs, sc);
    }
    let w = next_word(t, c1);
    proof {
        lemma_word_len(t@, c1 as int);
    }
    if w.len() == 0 {
        return (segs, c1);
    }
    let mut segs = segs;
    let ghost before = strings_view(segs@);
    segs.push(word_string(&w));
    assert(strings_view(segs@) =~= before.push(w@));
    let c2 = c1 + w.len();
    if at_exec(t, c2, ".") {
        tpath_from_exec(t, c2 + 1, segs, sc)
    } else {
        (segs, c2)
    }
}

pub open spec fn tpath_view(r: Result<Vec<String>, Diagnostic>) -> Result<Seq<Seq<char>>, DiagnosticView> {
    match r {
        Ok(v) => Ok(strings_view(v@)),
        Err(d) => Err(d@),
    }
}

fn tpath_exec(t: &[char], c: usize, span: Span, sc: &LexProfile) -> (r: (Result<Vec<String>, Diagnostic>, usize))
    requires
        c <= t@.len(),
        tfits(t@, span),
        sc@ == cm(),
    ensures
        (tpath_view(r.0), r.1 as int) == tpath(t@, c as int, span),
        c <= r.1 <= t@.len(),
        r.0 is Ok ==> c < r.1,
{
    let empty: Vec<String> = Vec::new();
    assert(strings_view(empty@) =~= seq![]);
    let (segs, c1) = tpath_from_exec(t, c, empty, sc);
    if segs.len() == 0 {
        (Err(error_str(span, c1, "expected a capture path after `$`")), c1)
    } else {
        (Ok(segs), c1)
    }
}

fn trailing_accessor_exec(t: &[char], c: usize) -> (r: (Option<Accessor>, usize))
    requires
        c <= t@.len(),
        t@.len() < usize::MAX,
    ensures
        (r.0, r.1 as int) == trailing_accessor(t@, c as int),
        c <= r.1 <= t@.len(),
{
    proof {
        reveal_strlit(".");
    }
    if !at_exec(t, c, ".") {
        return (None, c);
    }
    let w = next_word(t, c + 1);
    proof {
        lemma_word_len(t@, c + 1);
    }
    if word_is(&w, "matched") {
        (Some(Accessor::Matched), c + 1 + w.len())
    } else if word_is(&w, "length") {
        (Some(Accessor::Length), c + 1 + w.len())
    } else if word_is(&w, "line") {
        (Some(Accessor::Line), c + 1 + w.len())
    } else if word_is(&w, "col") {
        (Some(Accessor::Col), c + 1 + w.len())
    } else {
        (None, c)
    }
}

pub open spec fn node_result_view(r: Result<TmplNode, Diagnostic>) -> Result<NodeView, DiagnosticView> {
    match r {
        Ok(n) => Ok(node_view(n)),
        Err(d) => Err(d@),
    }
}

fn splice_exec(t: &[char], c: usize, span: Span, sc: &LexProfile) -> (r: (Result<TmplNode, Diagnostic>, usize))
    requires
        c < t@.len(),
        tfits(t@, span),
        sc@ == cm(),
    ensures
        (node_result_view(r.0), r.1 as int) == sp_splice(t@, c as int, span),
        c < r.1 <= t@.len(),
{
    let (rp, c1) = tpath_exec(t, c + 1, span, sc);
    match rp {
        Err(e) => (Err(e), c1),
        Ok(path) => {
            let (accessor, c2) = trailing_accessor_exec(t, c1);
            (Ok(TmplNode::Splice { path, accessor, span: element_span_exec(span, c, c2) }), c2)
        },
    }
}

fn interp_exec(t: &[char], start: usize, span: Span, sc: &LexProfile) -> (r: (Result<TmplNode, Diagnostic>, usize))
    requires
        start + 2 <= t@.len(),
        tfits(t@, span),
        sc@ == cm(),
    ensures
        (node_result_view(r.0), r.1 as int) == interp_from(t@, start + 2, seq![], seq![], start as int, span),
        start < r.1 <= t@.len(),
{
    proof {
        reveal_strlit("}");
    }
    let n = t.len();
    let mut c = start + 2;
    let mut parts: Vec<TmplStrPart> = Vec::new();
    let mut literal: Vec<char> = Vec::new();
    assert(parts_view(parts@) =~= seq![]);
    assert(literal@ =~= seq![]);
    loop
        invariant
            n == t@.len(),
            n < usize::MAX,
            start + 2 <= c <= n,
            tfits(t@, span),
            sc@ == cm(),
            interp_from(t@, start + 2, seq![], seq![], start as int, span) == interp_from(
                t@,
                c as int,
                parts_view(parts@),
                literal@,
                start as int,
                span,
            ),
        decreases n - c,
    {
        proof {
            reveal_strlit("}");
        }
        let ghost pv = parts_view(parts@);
        let ghost lv = literal@;
        let ghost flushed = if lv.len() > 0 {
            pv.push(PartView::Lit(lv))
        } else {
            pv
        };
        if c >= n {
            return (Err(error_str(span, c, "unterminated template string")), c);
        }
        let ch = t[c];
        if ch == '"' {
            if literal.len() > 0 {
                parts.push(TmplStrPart::Lit(string_from_chars(literal.as_slice())));
            }
            assert(parts_view(parts@) =~= flushed);
            return (Ok(TmplNode::Interp { parts, span: element_span_exec(span, start, c + 1) }), c + 1);
        }
        if ch == '\\' {
            if c + 1 >= n {
                return (Err(error_str(span, c + 1, "unterminated template string")), c + 1);
            }
            literal.push(range_escape_exec(t[c + 1]));
            c = c + 2;
            continue;
        }
        if ch == '{' {
            if c + 1 < n && t[c + 1] == '{' {
                literal.push('{');
                c = c + 2;
                continue;
            }
            let (rp, c1) = tpath_exec(t, c + 1, span, sc);
            let path = match rp {
                Err(e) => {
                    return (Err(e), c1);
                },
                Ok(p) => p,
            };
            let (accessor, c2) = trailing_accessor_exec(t, c1);
            let c3 = trivia(t, c2, sc);
            if !at_exec(t, c3, "}") {
                return (Err(error_str(span, c3, "expected `}` to close the hole")), c3);
            }
            if literal.len() > 0 {
                parts.push(TmplStrPart::Lit(string_from_chars(literal.as_slice())));
            }
            assert(parts_view(parts@) =~= flushed);
            let ghost path_v = strings_view(path@);
            parts.push(TmplStrPart::Hole { path, accessor });
            assert(parts_view(parts@) =~= flushed.push(PartView::Hole { path: path_v, accessor }));
            literal = Vec::new();
            assert(literal@ =~= seq![]);
            c = c3 + 1;
            continue;
        }
        literal.push(ch);
        c = c + 1;
    }
}

fn each_header_exec(t: &[char], c: usize, span: Span, sc: &LexProfile) -> (r: (
    Result<(String, TmplValue), Diagnostic>,
    usize,
))
    requires
        c <= t@.len(),
        tfits(t@, span),
        sc@ == cm(),
    ensures
        (match r.0 {
            Ok((e, v)) => Ok((e@, value_view(v))),
            Err(d) => Err(d@),
        }, r.1 as int) == each_header(t@, c as int, span),
        c <= r.1 <= t@.len(),
{
    proof {
        reveal_strlit("in");
        reveal_strlit("item");
        reveal_strlit("$");
    }
    let c1 = trivia(t, c, sc);
    let w = next_word(t, c1);
    proof {
        lemma_word_len(t@, c1 as int);
    }
    let (element, c2) = if w.len() > 0 && !word_is(&w, "in") {
        (word_string(&w), c1 + w.len())
    } else {
        (String::from_str("item"), c1)
    };
    let c3 = trivia(t, c2, sc);
    if !at_exec(t, c3, "in") {
        return (Err(error_str(span, c3, "expected `in` in an `each` construct")), c3);
    }
    let c4 = trivia(t, c3 + 2, sc);
    let c5 = if at_exec(t, c4, "$") {
        c4 + 1
    } else {
        c4
    };
    let (rp, c6) = tpath_exec(t, c5, span, sc);
    match rp {
        Err(e) => (Err(e), c6),
        Ok(path) => (Ok((element, TmplValue::Capture { path })), c6),
    }
}

fn cm_tail_exec(t: &[char], c: usize, sc: &LexProfile) -> (b: bool)
    requires
        c <= t@.len(),
        t@.len() < usize::MAX,
        sc@ == cm(),
    ensures
        b == cm_tail(t@, c as int),
    decreases t@.len() - c,
{
    proof {
        reveal_strlit(".");
        reveal_strlit("(");
        lemma_word_len(t@, c as int);
    }
    let w = next_word(t, c);
    assert(w@.len() == word_len(t@, c as int));
    if w.len() == 0 {
        return false;
    }
    if at_exec(t, c + w.len(), ".") {
        return cm_tail_exec(t, c + w.len() + 1, sc);
    }
    let c1 = trivia(t, c + w.len(), sc);
    at_exec(t, c1, "(")
}

fn cm_call_ahead_exec(t: &[char], c: usize, sc: &LexProfile) -> (b: bool)
    requires
        c <= t@.len(),
        t@.len() < usize::MAX,
        sc@ == cm(),
    ensures
        b == cm_call_ahead(t@, c as int),
{
    proof {
        reveal_strlit("cm");
        reveal_strlit(".");
    }
    at_word_exec(t, c, "cm") && at_exec(t, c + 2, ".") && cm_tail_exec(t, c + 3, sc)
}

fn call_path_exec(t: &[char], c: usize, path: Vec<String>) -> (r: (Vec<String>, usize))
    requires
        c <= t@.len(),
        t@.len() < usize::MAX,
    ensures
        (strings_view(r.0@), r.1 as int) == call_path_from(t@, c as int, strings_view(path@)),
        c <= r.1 <= t@.len(),
    decreases t@.len() - c,
{
    proof {
        reveal_strlit(".");
    }
    if !at_exec(t, c, ".") {
        return (path, c);
    }
    let w = next_word(t, c + 1);
    proof {
        lemma_word_len(t@, c + 1);
    }
    let mut path = path;
    let ghost before = strings_view(path@);
    path.push(word_string(&w));
    assert(strings_view(path@) =~= before.push(w@));
    call_path_exec(t, c + 1 + w.len(), path)
}

fn rule_text_exec(t: &[char], c: usize, rule: Vec<char>) -> (r: (Vec<char>, usize))
    requires
        c <= t@.len(),
        t@.len() < usize::MAX,
    ensures
        (r.0@, r.1 as int) == rule_text_from(t@, c as int, rule@),
        c <= r.1 <= t@.len(),
    decreases t@.len() - c,
{
    proof {
        reveal_strlit(".");
        lemma_word_len(t@, c as int);
    }
    let w = next_word(t, c);
    if w.len() == 0 {
        return (rule, c);
    }
    let mut rule = rule;
    push_chars(&mut rule, w.as_slice());
    let c2 = c + w.len();
    if at_exec(t, c2, ".") {
        let ghost before = rule@;
        rule.push('.');
        assert(rule@ =~= before + seq!['.']);
        rule_text_exec(t, c2 + 1, rule)
    } else {
        (rule, c2)
    }
}

fn value_number_exec(t: &[char], c: usize) -> (r: Option<(TmplValue, usize)>)
    requires
        c <= t@.len(),
    ensures
        match value_number(t@, c as int) {
            Some((v, l)) => r matches Some((x, m)) && value_view(x) == v && m == l,
            None => r is None,
        },
{
    let n = t.len();
    let mut e = c;
    let mut int_ok = true;
    let mut value: u64 = 0;
    let mut dots: usize = 0;
    assert(t@.subrange(c as int, c as int) =~= Seq::<char>::empty());
    while e < n && (crate::text::char_is_ascii_digit(t[e]) || t[e] == '.')
        invariant
            n == t@.len(),
            c <= e <= n,
            dots <= e - c,
            forall|k: int| 0 <= k < e - c ==> number_pred()(#[trigger] t@.skip(c as int)[k]),
            int_ok == reads_as_int(t@.subrange(c as int, e as int)),
            int_ok ==> value == digits_value(t@.subrange(c as int, e as int)),
            dots == dot_count(t@.subrange(c as int, e as int)),
        decreases n - e,
    {
        let ch = t[e];
        let ghost prefix = t@.subrange(c as int, e as int);
        proof {
            crate::mega::ctxexpr::lemma_digits_step(prefix, ch);
            assert(t@.subrange(c as int, e + 1) =~= prefix.push(ch));
            assert(t@.skip(c as int)[e - c] == ch);
        }
        if ch == '.' {
            int_ok = false;
            dots += 1;
            assert(!crate::mega::ctxexpr::all_digits(prefix.push(ch))) by {
                assert(prefix.push(ch)[prefix.len() as int] == ch);
            }
        } else if int_ok {
            let d = (ch as u32 - '0' as u32) as u64;
            let next: u128 = (value as u128) * 10 + (d as u128);
            if next <= 0x7fff_ffff_ffff_ffffu128 {
                value = next as u64;
            } else {
                int_ok = false;
            }
            assert(crate::mega::ctxexpr::all_digits(prefix.push(ch))) by {
                assert forall|i: int| 0 <= i < prefix.push(ch).len() implies crate::text::is_ascii_digit(
                    #[trigger] prefix.push(ch)[i],
                ) by {
                    if i < prefix.len() {
                        assert(prefix.push(ch)[i] == prefix[i]);
                    }
                }
            }
        } else {
            proof {
                if crate::mega::ctxexpr::all_digits(prefix.push(ch)) {
                    assert forall|i: int| 0 <= i < prefix.len() implies crate::text::is_ascii_digit(
                        #[trigger] prefix[i],
                    ) by {
                        assert(prefix.push(ch)[i] == prefix[i]);
                    }
                }
            }
        }
        e += 1;
    }
    let ghost d = t@.subrange(c as int, e as int);
    proof {
        if e < n {
            assert(t@.skip(c as int)[e - c] == t@[e as int]);
        }
        crate::text::lemma_leading_count_is(t@.skip(c as int), number_pred(), e - c);
        assert(d == number_run(t@, c as int));
    }
    if e > c {
        if int_ok {
            return Some((TmplValue::Int(value as i64), e - c));
        }
        if dots <= 1 && dots < e - c {
            let text = crate::text::slice_chars(t, c, e);
            return Some((TmplValue::Float(string_from_chars(text.as_slice())), e - c));
        }
    }
    None
}

pub open spec fn value_result_view(r: Result<TmplValue, Diagnostic>) -> Result<ValueView, DiagnosticView> {
    match r {
        Ok(v) => Ok(value_view(v)),
        Err(d) => Err(d@),
    }
}

proof fn lemma_values_view_push(s: Seq<TmplValue>, v: TmplValue)
    ensures
        values_view(s.push(v)) == values_view(s).push(value_view(v)),
    decreases s.len(),
{
    if s.len() == 0 {
        assert(s.push(v).subrange(1, 1) =~= Seq::<TmplValue>::empty());
        assert(values_view(Seq::<TmplValue>::empty()) =~= seq![]);
        assert(values_view(s.push(v)) =~= seq![value_view(v)]);
        assert(values_view(s) =~= seq![]);
    } else {
        let rest = s.subrange(1, s.len() as int);
        lemma_values_view_push(rest, v);
        assert(s.push(v).subrange(1, s.len() as int + 1) =~= rest.push(v));
        assert(s.push(v)[0] == s[0]);
        assert(values_view(s.push(v)) =~= values_view(s).push(value_view(v)));
    }
}

fn is_cm_parse(path: &Vec<String>) -> (b: bool)
    ensures
        b == (strings_view(path@) == seq!["cm"@, "parse"@]),
{
    if path.len() != 2 {
        proof {
            if strings_view(path@) == seq!["cm"@, "parse"@] {
                assert(strings_view(path@).len() == 2);
            }
        }
        return false;
    }
    let a = chars_of(path[0].as_str());
    let b = chars_of(path[1].as_str());
    let r = word_is(&a, "cm") && word_is(&b, "parse");
    proof {
        if r {
            assert(strings_view(path@) =~= seq!["cm"@, "parse"@]);
        } else if strings_view(path@) == seq!["cm"@, "parse"@] {
            assert(strings_view(path@)[0] == path@[0]@);
            assert(strings_view(path@)[1] == path@[1]@);
        }
    }
    r
}

fn args_exec(
    t: &[char],
    c: usize,
    path: &Vec<String>,
    args: Vec<TmplValue>,
    span: Span,
    sc: &LexProfile,
) -> (r: (Result<Vec<TmplValue>, Diagnostic>, usize))
    requires
        c <= t@.len(),
        tfits(t@, span),
        sc@ == cm(),
    ensures
        (match r.0 {
            Ok(v) => Ok(values_view(v@)),
            Err(d) => Err(d@),
        }, r.1 as int) == args_from(t@, c as int, strings_view(path@), values_view(args@), span),
        c <= r.1 <= t@.len(),
        r.0 is Ok ==> c < r.1,
    decreases t@.len() - c, if strings_view(path@) == seq!["cm"@, "parse"@] && args@.len() == 0 {
        3nat
    } else {
        2nat
    },
{
    proof {
        reveal_strlit(")");
        reveal_strlit(",");
        lemma_values_view_len(args@);
    }
    let c1 = trivia(t, c, sc);
    if at_exec(t, c1, ")") {
        return (Ok(args), c1 + 1);
    }
    let (arg, c2): (Result<TmplValue, Diagnostic>, usize) = if is_cm_parse(path) && args.len() == 0 {
        let (rule, c2) = rule_text_exec(t, c1, Vec::new());
        (Ok(TmplValue::Str(string_from_chars(rule.as_slice()))), c2)
    } else {
        value_exec(t, c1, span, sc)
    };
    let a = match arg {
        Err(e) => {
            return (Err(e), c2);
        },
        Ok(a) => a,
    };
    let c3 = trivia(t, c2, sc);
    let c4 = if at_exec(t, c3, ",") {
        c3 + 1
    } else {
        c3
    };
    let mut args = args;
    proof {
        lemma_values_view_push(args@, a);
    }
    args.push(a);
    args_exec(t, c4, path, args, span, sc)
}

proof fn lemma_values_view_len(s: Seq<TmplValue>)
    ensures
        values_view(s).len() == s.len(),
    decreases s.len(),
{
    if s.len() > 0 {
        lemma_values_view_len(s.subrange(1, s.len() as int));
    }
}

fn call_exec(t: &[char], c: usize, at_sign: bool, span: Span, sc: &LexProfile) -> (r: (
    Result<(Vec<String>, Vec<TmplValue>), Diagnostic>,
    usize,
))
    requires
        c < t@.len(),
        tfits(t@, span),
        sc@ == cm(),
    ensures
        (match r.0 {
            Ok((p, a)) => Ok((strings_view(p@), values_view(a@))),
            Err(d) => Err(d@),
        }, r.1 as int) == sp_call(t@, c as int, at_sign, span),
        c <= r.1 <= t@.len(),
        r.0 is Ok ==> c < r.1,
    decreases t@.len() - c, 0nat,
{
    proof {
        reveal_strlit("(");
    }
    let c1 = if at_sign {
        c + 1
    } else {
        c
    };
    let w = next_word(t, c1);
    proof {
        lemma_word_len(t@, c1 as int);
    }
    let mut first: Vec<String> = Vec::new();
    first.push(word_string(&w));
    assert(strings_view(first@) =~= seq![w@]);
    let (path, c2) = call_path_exec(t, c1 + w.len(), first);
    let c3 = trivia(t, c2, sc);
    if !at_exec(t, c3, "(") {
        return (Err(error_str(span, c3, "expected `(` after the function path")), c3);
    }
    let empty: Vec<TmplValue> = Vec::new();
    assert(values_view(empty@) =~= seq![]);
    let (ra, c4) = args_exec(t, c3 + 1, &path, empty, span, sc);
    match ra {
        Err(e) => (Err(e), c4),
        Ok(args) => (Ok((path, args)), c4),
    }
}

fn value_exec(t: &[char], c: usize, span: Span, sc: &LexProfile) -> (r: (Result<TmplValue, Diagnostic>, usize))
    requires
        c <= t@.len(),
        tfits(t@, span),
        sc@ == cm(),
    ensures
        (value_result_view(r.0), r.1 as int) == sp_value(t@, c as int, span),
        c <= r.1 <= t@.len(),
        r.0 is Ok ==> c < r.1,
    decreases t@.len() - c, 1nat,
{
    proof {
        reveal_strlit("@");
        reveal_strlit("$");
        reveal_strlit("true");
        reveal_strlit("false");
    }
    let c1 = trivia(t, c, sc);
    let at_sign = at_exec(t, c1, "@");
    if at_sign || cm_call_ahead_exec(t, c1, sc) {
        proof {
            if !at_sign {
                reveal_strlit("cm");
            }
        }
        let (r, c2) = call_exec(t, c1, at_sign, span, sc);
        return match r {
            Err(e) => (Err(e), c2),
            Ok((path, args)) => (Ok(TmplValue::Call { path, args }), c2),
        };
    }
    if at_exec(t, c1, "$") {
        let (rp, c2) = tpath_exec(t, c1 + 1, span, sc);
        return match rp {
            Err(e) => (Err(e), c2),
            Ok(path) => (Ok(TmplValue::Capture { path }), c2),
        };
    }
    match parse_string_literal(t, c1) {
        Some((v, l)) => {
            return (Ok(TmplValue::Str(string_from_chars(v.as_slice()))), c1 + l);
        },
        None => {},
    }
    proof {
        lemma_number_bounds(t@, c1 as int);
    }
    match value_number_exec(t, c1) {
        Some((v, l)) => {
            return (Ok(v), c1 + l);
        },
        None => {},
    }
    if at_word_exec(t, c1, "true") {
        return (Ok(TmplValue::Bool(true)), c1 + 4);
    }
    if at_word_exec(t, c1, "false") {
        return (Ok(TmplValue::Bool(false)), c1 + 5);
    }
    let w = next_word(t, c1);
    proof {
        lemma_word_len(t@, c1 as int);
    }
    if w.len() > 0 && (crate::text::char_is_ascii_alpha(t[c1]) || t[c1] == '_') {
        let (rp, c2) = tpath_exec(t, c1, span, sc);
        return match rp {
            Err(e) => (Err(e), c2),
            Ok(path) => (Ok(TmplValue::Capture { path }), c2),
        };
    }
    (Err(error_str(span, c1, "expected a value")), c1)
}

proof fn lemma_number_bounds(t: Seq<char>, c: int)
    requires
        0 <= c <= t.len(),
    ensures
        value_number(t, c) matches Some((_, l)) ==> 0 < l && c + l <= t.len(),
{
    crate::text::lemma_leading_count_bound(t.skip(c), number_pred());
}


proof fn lemma_nodes_view_push(s: Seq<TmplNode>, n: TmplNode)
    ensures
        nodes_view(s.push(n)) == nodes_view(s).push(node_view(n)),
    decreases s.len(),
{
    if s.len() == 0 {
        assert(s.push(n).subrange(1, 1) =~= Seq::<TmplNode>::empty());
        assert(nodes_view(Seq::<TmplNode>::empty()) =~= seq![]);
        assert(nodes_view(s.push(n)) =~= seq![node_view(n)]);
        assert(nodes_view(s) =~= seq![]);
    } else {
        let rest = s.subrange(1, s.len() as int);
        lemma_nodes_view_push(rest, n);
        assert(s.push(n).subrange(1, s.len() as int + 1) =~= rest.push(n));
        assert(s.push(n)[0] == s[0]);
        assert(nodes_view(s.push(n)) =~= nodes_view(s).push(node_view(n)));
    }
}

proof fn lemma_arms_view_push(s: Seq<(String, Template)>, a: (String, Template))
    ensures
        arms_view(s.push(a)) == arms_view(s).push((a.0@, template_view(a.1))),
    decreases s.len(),
{
    if s.len() == 0 {
        assert(s.push(a).subrange(1, 1) =~= Seq::<(String, Template)>::empty());
        assert(arms_view(Seq::<(String, Template)>::empty()) =~= seq![]);
        assert(arms_view(s.push(a)) =~= seq![(a.0@, template_view(a.1))]);
        assert(arms_view(s) =~= seq![]);
    } else {
        let rest = s.subrange(1, s.len() as int);
        lemma_arms_view_push(rest, a);
        assert(s.push(a).subrange(1, s.len() as int + 1) =~= rest.push(a));
        assert(s.push(a)[0] == s[0]);
        assert(arms_view(s.push(a)) =~= arms_view(s).push((a.0@, template_view(a.1))));
    }
}

fn flush_into(nodes: &mut Vec<TmplNode>, t: &[char], text_start: usize, c: usize, span: Span)
    requires
        text_start <= c <= t@.len(),
        tfits(t@, span),
    ensures
        nodes_view(final(nodes)@) == flush(t@, text_start as int, c as int, nodes_view(old(nodes)@), span),
{
    if c > text_start {
        let text = crate::text::slice_chars(t, text_start, c);
        let node = TmplNode::Text {
            text: string_from_chars(text.as_slice()),
            span: element_span_exec(span, text_start, c),
        };
        proof {
            lemma_nodes_view_push(nodes@, node);
        }
        nodes.push(node);
    }
}

fn arm_boundary_exec(t: &[char], c: usize, sc: &LexProfile) -> (b: bool)
    requires
        c <= t@.len(),
        t@.len() < usize::MAX,
        sc@ == cm(),
    ensures
        b == arm_boundary(t@, c as int),
{
    let w = next_word(t, c);
    proof {
        lemma_word_len(t@, c as int);
    }
    if w.len() == 0 || !crate::text::char_is_ascii_alpha(w[0]) {
        return false;
    }
    let c1 = trivia(t, c + w.len(), sc);
    at_exec(t, c1, "=>")
}

fn construct_at_exec(t: &[char], c: usize, sc: &LexProfile) -> (k: usize)
    requires
        c < t@.len(),
        t@.len() < usize::MAX,
        sc@ == cm(),
    ensures
        k as nat == construct_at(t@, c as int),
        k <= 10,
{
    proof {
        reveal_strlit("each");
        reveal_strlit("when");
        reveal_strlit("in");
        reveal_strlit("match");
        reveal_strlit("let");
        reveal_strlit("require");
        reveal_strlit("(");
        reveal_strlit("$");
        reveal_strlit("=");
    }
    let n = t.len();
    let ch = t[c];
    if ch == '$' && c + 1 < n && t[c + 1] == '"' {
        return 1;
    }
    if ch == '$' && c + 1 < n && (crate::text::char_is_ascii_alpha(t[c + 1]) || t[c + 1] == '_') {
        return 2;
    }
    if ch == '[' && at_word_exec(t, c + 1, "each") {
        return 3;
    }
    if ch == '[' && at_word_exec(t, c + 1, "when") {
        return 4;
    }
    if at_word_exec(t, c, "each") {
        let c1 = trivia(t, c + 4, sc);
        if at_exec(t, c1, "in") {
            return 5;
        }
    }
    if at_word_exec(t, c, "match") {
        let c1 = trivia(t, c + 5, sc);
        if at_exec(t, c1, "(") {
            let c2 = trivia(t, c1 + 1, sc);
            if at_exec(t, c2, "$") {
                return 6;
            }
        }
    }
    if at_word_exec(t, c, "let") {
        let c1 = trivia(t, c + 3, sc);
        let w = next_word(t, c1);
        proof {
            lemma_word_len(t@, c1 as int);
        }
        if w.len() > 0 {
            let c2 = trivia(t, c1 + w.len(), sc);
            if at_exec(t, c2, "=") {
                return 7;
            }
        }
    }
    if at_word_exec(t, c, "require") {
        let c1 = trivia(t, c + 7, sc);
        if at_exec(t, c1, "(") {
            return 8;
        }
    }
    if ch == '@' {
        return 9;
    }
    if cm_call_ahead_exec(t, c, sc) {
        return 10;
    }
    0
}

pub open spec fn nodes_result_view(r: Result<Vec<TmplNode>, Diagnostic>) -> Result<Seq<NodeView>, DiagnosticView> {
    match r {
        Ok(v) => Ok(nodes_view(v@)),
        Err(d) => Err(d@),
    }
}

fn braced_nodes_exec(t: &[char], c: usize, span: Span, sc: &LexProfile) -> (r: (
    Result<Vec<TmplNode>, Diagnostic>,
    usize,
))
    requires
        c <= t@.len(),
        tfits(t@, span),
        sc@ == cm(),
    ensures
        (nodes_result_view(r.0), r.1 as int) == sp_braced_nodes(t@, c as int, span),
        c <= r.1 <= t@.len(),
        r.0 is Ok ==> c < r.1,
    decreases t@.len() - c, 0nat,
{
    proof {
        reveal_strlit("{");
    }
    let c1 = trivia(t, c, sc);
    if !at_exec(t, c1, "{") {
        return (Err(error_str(span, c1, "expected `{` to open the construct body")), c1);
    }
    let (r, c2) = nodes_exec(t, c1 + 1, Mode::Brace, span, sc);
    match r {
        Err(e) => (Err(e), c2),
        Ok((nodes, end)) => if end != EndKind::Brace {
            (Err(error_str(span, c2, "unterminated construct body")), c2)
        } else {
            (Ok(nodes), c2)
        },
    }
}

fn each_node_exec(t: &[char], c: usize, bracketed: bool, span: Span, sc: &LexProfile) -> (r: (
    Result<TmplNode, Diagnostic>,
    usize,
))
    requires
        c < t@.len(),
        c + (if bracketed { 5int } else { 4int }) <= t@.len(),
        tfits(t@, span),
        sc@ == cm(),
    ensures
        (node_result_view(r.0), r.1 as int) == sp_each_node(t@, c as int, bracketed, span),
        c <= r.1 <= t@.len(),
        r.0 is Ok ==> c < r.1,
    decreases t@.len() - c, 0nat,
{
    proof {
        reveal_strlit("]");
    }
    let header_at = if bracketed {
        c + 5
    } else {
        c + 4
    };
    let (rh, c1) = each_header_exec(t, header_at, span, sc);
    let (element, list) = match rh {
        Err(e) => {
            return (Err(e), c1);
        },
        Ok(h) => h,
    };
    let (rb, c2) = braced_nodes_exec(t, c1, span, sc);
    let body = match rb {
        Err(e) => {
            return (Err(e), c2);
        },
        Ok(b) => b,
    };
    if !bracketed {
        return (
            Ok(TmplNode::Each { element, list, body: Box::new(Template { nodes: body }), span: element_span_exec(span, c, c2) }),
            c2,
        );
    }
    let c3 = trivia(t, c2, sc);
    if !at_exec(t, c3, "]") {
        return (Err(error_str(span, c3, "expected `]` to close the `[each …]` construct")), c3);
    }
    (
        Ok(TmplNode::Each { element, list, body: Box::new(Template { nodes: body }), span: element_span_exec(span, c, c3 + 1) }),
        c3 + 1,
    )
}

fn when_node_exec(t: &[char], c: usize, span: Span, sc: &LexProfile) -> (r: (
    Result<TmplNode, Diagnostic>,
    usize,
))
    requires
        c + 5 <= t@.len(),
        tfits(t@, span),
        sc@ == cm(),
    ensures
        (node_result_view(r.0), r.1 as int) == sp_when_node(t@, c as int, span),
        c <= r.1 <= t@.len(),
        r.0 is Ok ==> c < r.1,
    decreases t@.len() - c, 0nat,
{
    proof {
        reveal_strlit("]");
        reveal_strlit("else");
    }
    let mut c1 = c + 5;
    let rc = parse_expr(t, &mut c1, span);
    let cond = match rc {
        Err(e) => {
            return (Err(e), c1);
        },
        Ok(cond) => cond,
    };
    let (rt, c2) = braced_nodes_exec(t, c1, span, sc);
    let then = match rt {
        Err(e) => {
            return (Err(e), c2);
        },
        Ok(n) => n,
    };
    let c3 = trivia(t, c2, sc);
    let (otherwise, c4) = if at_word_exec(t, c3, "else") {
        let (ro, c4) = braced_nodes_exec(t, c3 + 4, span, sc);
        match ro {
            Err(e) => {
                return (Err(e), c4);
            },
            Ok(n) => (n, c4),
        }
    } else {
        let none: Vec<TmplNode> = Vec::new();
        assert(nodes_view(none@) =~= seq![]);
        (none, c3)
    };
    let c5 = trivia(t, c4, sc);
    if !at_exec(t, c5, "]") {
        return (Err(error_str(span, c5, "expected `]` to close the `[when …]` construct")), c5);
    }
    (
        Ok(TmplNode::When {
            cond,
            then: Box::new(Template { nodes: then }),
            otherwise: Box::new(Template { nodes: otherwise }),
            span: element_span_exec(span, c, c5 + 1),
        }),
        c5 + 1,
    )
}

fn arms_exec(
    t: &[char],
    c: usize,
    scrutinee: Vec<String>,
    arms: Vec<(String, Template)>,
    start: usize,
    span: Span,
    sc: &LexProfile,
) -> (r: (Result<TmplNode, Diagnostic>, usize))
    requires
        start < c <= t@.len(),
        tfits(t@, span),
        sc@ == cm(),
    ensures
        (node_result_view(r.0), r.1 as int) == arms_from(
            t@,
            c as int,
            strings_view(scrutinee@),
            arms_view(arms@),
            start as int,
            span,
        ),
        c <= r.1 <= t@.len(),
    decreases t@.len() - c, 0nat,
{
    proof {
        reveal_strlit("}");
        reveal_strlit("=>");
    }
    let c1 = trivia(t, c, sc);
    if at_exec(t, c1, "}") {
        return (Ok(TmplNode::Match { scrutinee, arms, span: element_span_exec(span, start, c1 + 1) }), c1 + 1);
    }
    let label = next_word(t, c1);
    proof {
        lemma_word_len(t@, c1 as int);
    }
    if label.len() == 0 {
        return (Err(error_str(span, c1, "expected an arm label")), c1);
    }
    let c2 = trivia(t, c1 + label.len(), sc);
    if !at_exec(t, c2, "=>") {
        let mut m = chars_of("expected `=>` after arm `");
        push_chars(&mut m, label.as_slice());
        push_str(&mut m, "`");
        return (Err(crate::mega::ctxexpr::error_exec(span, c2, &m)), c2);
    }
    let (rb, c3) = nodes_exec(t, c2 + 2, Mode::MatchBody, span, sc);
    let (body, end) = match rb {
        Err(e) => {
            return (Err(e), c3);
        },
        Ok(b) => b,
    };
    let mut arms = arms;
    let item = (word_string(&label), Template { nodes: body });
    proof {
        lemma_arms_view_push(arms@, item);
    }
    arms.push(item);
    if end == EndKind::Brace {
        return (Ok(TmplNode::Match { scrutinee, arms, span: element_span_exec(span, start, c3) }), c3);
    }
    arms_exec(t, c3, scrutinee, arms, start, span, sc)
}

fn match_node_exec(t: &[char], c: usize, span: Span, sc: &LexProfile) -> (r: (
    Result<TmplNode, Diagnostic>,
    usize,
))
    requires
        c + 5 <= t@.len(),
        tfits(t@, span),
        sc@ == cm(),
        at(t@, trivia_end(t@, c + 5), "("@),
    ensures
        (node_result_view(r.0), r.1 as int) == sp_match_node(t@, c as int, span),
        c <= r.1 <= t@.len(),
        r.0 is Ok ==> c < r.1,
    decreases t@.len() - c, 0nat,
{
    proof {
        reveal_strlit("$");
        reveal_strlit(")");
        reveal_strlit("(");
        reveal_strlit("{");
    }
    let c1 = trivia(t, c + 5, sc);
    let c2 = trivia(t, c1 + 1, sc);
    if !at_exec(t, c2, "$") {
        return (Err(error_str(span, c2, "expected a capture after `match (`")), c2);
    }
    let (rp, c3) = tpath_exec(t, c2 + 1, span, sc);
    let path = match rp {
        Err(e) => {
            return (Err(e), c3);
        },
        Ok(p) => p,
    };
    let (accessor, c4) = trailing_accessor_exec(t, c3);
    if accessor.is_some() {
        return (Err(error_str(span, c4, "match scrutinee takes a plain capture")), c4);
    }
    let c5 = trivia(t, c4, sc);
    if !at_exec(t, c5, ")") {
        return (Err(error_str(span, c5, "expected `)` after the match scrutinee")), c5);
    }
    let c6 = trivia(t, c5 + 1, sc);
    if !at_exec(t, c6, "{") {
        return (Err(error_str(span, c6, "expected `{` to open the match arms")), c6);
    }
    let arms: Vec<(String, Template)> = Vec::new();
    assert(arms_view(arms@) =~= seq![]);
    arms_exec(t, c6 + 1, path, arms, c, span, sc)
}

fn let_node_exec(t: &[char], c: usize, span: Span, sc: &LexProfile) -> (r: (
    Result<TmplNode, Diagnostic>,
    usize,
))
    requires
        c + 3 <= t@.len(),
        tfits(t@, span),
        sc@ == cm(),
    ensures
        (node_result_view(r.0), r.1 as int) == sp_let_node(t@, c as int, span),
        c <= r.1 <= t@.len(),
        r.0 is Ok ==> c < r.1,
{
    proof {
        reveal_strlit("=");
    }
    let c1 = trivia(t, c + 3, sc);
    let name = next_word(t, c1);
    proof {
        lemma_word_len(t@, c1 as int);
    }
    if name.len() == 0 {
        return (Err(error_str(span, c1, "expected a name after `let`")), c1);
    }
    let c2 = trivia(t, c1 + name.len(), sc);
    if !at_exec(t, c2, "=") {
        return (Err(error_str(span, c2, "expected `=` in a `let` binding")), c2);
    }
    let (rv, c3) = value_exec(t, c2 + 1, span, sc);
    match rv {
        Err(e) => (Err(e), c3),
        Ok(value) => (Ok(TmplNode::Let { name: word_string(&name), value, span: element_span_exec(span, c, c3) }), c3),
    }
}

fn require_node_exec(t: &[char], c: usize, span: Span, sc: &LexProfile) -> (r: (
    Result<TmplNode, Diagnostic>,
    usize,
))
    requires
        c + 7 <= t@.len(),
        tfits(t@, span),
        sc@ == cm(),
        at(t@, trivia_end(t@, c + 7), "("@),
    ensures
        (node_result_view(r.0), r.1 as int) == sp_require_node(t@, c as int, span),
        c <= r.1 <= t@.len(),
        r.0 is Ok ==> c < r.1,
{
    proof {
        reveal_strlit(",");
        reveal_strlit(")");
        reveal_strlit("(");
    }
    let c1 = trivia(t, c + 7, sc);
    let mut c2 = c1 + 1;
    let rc = parse_expr(t, &mut c2, span);
    let cond = match rc {
        Err(e) => {
            return (Err(e), c2);
        },
        Ok(cond) => cond,
    };
    let c3 = trivia(t, c2, sc);
    if !at_exec(t, c3, ",") {
        return (Err(error_str(span, c3, "expected `,` before the require message")), c3);
    }
    let c4 = trivia(t, c3 + 1, sc);
    match parse_string_literal(t, c4) {
        None => (Err(error_str(span, c4, "expected a message string in `require`")), c4),
        Some((message, l)) => {
            let c5 = trivia(t, c4 + l, sc);
            if !at_exec(t, c5, ")") {
                return (Err(error_str(span, c5, "expected `)` to close `require`")), c5);
            }
            (
                Ok(TmplNode::Require {
                    cond,
                    message: string_from_chars(message.as_slice()),
                    span: element_span_exec(span, c, c5 + 1),
                }),
                c5 + 1,
            )
        },
    }
}


fn construct_exec(t: &[char], c: usize, kind: usize, span: Span, sc: &LexProfile) -> (r: (
    Result<TmplNode, Diagnostic>,
    usize,
))
    requires
        c < t@.len(),
        tfits(t@, span),
        sc@ == cm(),
        1 <= kind <= 10,
        kind as nat == construct_at(t@, c as int),
    ensures
        (node_result_view(r.0), r.1 as int) == sp_construct(t@, c as int, kind as nat, span),
        c <= r.1 <= t@.len(),
    decreases t@.len() - c, 1nat,
{
    proof {
        reveal_strlit("each");
        reveal_strlit("when");
        reveal_strlit("match");
        reveal_strlit("let");
        reveal_strlit("require");
    }
    if kind == 1 {
        interp_exec(t, c, span, sc)
    } else if kind == 2 {
        splice_exec(t, c, span, sc)
    } else if kind == 3 || kind == 5 {
        each_node_exec(t, c, kind == 3, span, sc)
    } else if kind == 4 {
        when_node_exec(t, c, span, sc)
    } else if kind == 6 {
        match_node_exec(t, c, span, sc)
    } else if kind == 7 {
        let_node_exec(t, c, span, sc)
    } else if kind == 8 {
        require_node_exec(t, c, span, sc)
    } else {
        let (r, c1) = call_exec(t, c, kind == 9, span, sc);
        match r {
            Err(e) => (Err(e), c1),
            Ok((path, args)) => (Ok(TmplNode::Call { path, args, span: element_span_exec(span, c, c1) }), c1),
        }
    }
}

pub open spec fn seq_result_view(r: Result<(Vec<TmplNode>, EndKind), Diagnostic>) -> Result<(Seq<NodeView>, EndKind), DiagnosticView> {
    match r {
        Ok((v, e)) => Ok((nodes_view(v@), e)),
        Err(d) => Err(d@),
    }
}

fn nodes_exec(t: &[char], c0: usize, mode: Mode, span: Span, sc: &LexProfile) -> (r: (
    Result<(Vec<TmplNode>, EndKind), Diagnostic>,
    usize,
))
    requires
        c0 <= t@.len(),
        tfits(t@, span),
        sc@ == cm(),
    ensures
        (seq_result_view(r.0), r.1 as int) == nodes_from(t@, c0 as int, mode, seq![], 0, c0 as int, span),
        c0 <= r.1 <= t@.len(),
    decreases t@.len() - c0, 2nat,
{
    let n = t.len();
    let mut c = c0;
    let mut nodes: Vec<TmplNode> = Vec::new();
    let mut depth: usize = 0;
    let mut text_start = c0;
    assert(nodes_view(nodes@) =~= seq![]);
    loop
        invariant
            c0 <= text_start <= c <= n,
            n == t@.len(),
            depth <= c,
            tfits(t@, span),
            sc@ == cm(),
            nodes_from(t@, c0 as int, mode, seq![], 0, c0 as int, span) == nodes_from(
                t@,
                c as int,
                mode,
                nodes_view(nodes@),
                depth as nat,
                text_start as int,
                span,
            ),
        decreases n - c,
    {
        if c >= n {
            if mode == Mode::Top {
                flush_into(&mut nodes, t, text_start, c, span);
                return (Ok((nodes, EndKind::Eof)), c);
            }
            return (Err(error_str(span, c, "unterminated template construct")), c);
        }
        let ch = t[c];
        if depth == 0 && mode != Mode::Top && ch == '}' {
            flush_into(&mut nodes, t, text_start, c, span);
            return (Ok((nodes, EndKind::Brace)), c + 1);
        }
        if mode == Mode::MatchBody && depth == 0 && arm_boundary_exec(t, c, sc) {
            flush_into(&mut nodes, t, text_start, c, span);
            return (Ok((nodes, EndKind::Arm)), c);
        }
        let kind = construct_at_exec(t, c, sc);
        if kind > 0 {
            let (rn, c2) = construct_exec(t, c, kind, span, sc);
            match rn {
                Err(e) => {
                    return (Err(e), c2);
                },
                Ok(node) => {
                    if c < c2 && c2 <= n {
                        flush_into(&mut nodes, t, text_start, c, span);
                        proof {
                            lemma_nodes_view_push(nodes@, node);
                        }
                        nodes.push(node);
                        c = c2;
                        text_start = c2;
                    } else {
                        return (Err(error_str(span, c2, "unterminated template construct")), c2);
                    }
                },
            }
        } else if ch == '"' {
            let next = match parse_string_literal(t, c) {
                Some((_, l)) => if 0 < l && c + l <= n {
                    c + l
                } else {
                    c + 1
                },
                None => c + 1,
            };
            c = next;
        } else if ch == '{' || ch == '[' || ch == '(' {
            c = c + 1;
            depth = depth + 1;
        } else if ch == '}' || ch == ']' || ch == ')' {
            if depth == 0 {
                flush_into(&mut nodes, t, text_start, c, span);
                let end = if ch == '}' {
                    EndKind::Brace
                } else if ch == ']' {
                    EndKind::Bracket
                } else {
                    EndKind::Paren
                };
                return (Ok((nodes, end)), c + 1);
            }
            c = c + 1;
            depth = depth - 1;
        } else {
            c = c + 1;
        }
    }
}

pub open spec fn template_result_view(r: Result<Template, Diagnostic>) -> Result<TemplateView, DiagnosticView> {
    match r {
        Ok(t) => Ok(template_view(t)),
        Err(d) => Err(d@),
    }
}

/// Parses a template body: literal text with splices `$name`,
/// interpolations `$"…{$hole}…"`, `[each …]`, `[when …]`, `match`, `let`,
/// `require` and calls. Text inside string literals and brackets stays
/// text; the brackets of the plain text must balance.
pub fn parse_template(text: &[char], span: Span) -> (r: Result<Template, Diagnostic>)
    requires
        text@.len() < usize::MAX,
        span.start + text@.len() <= usize::MAX,
    ensures
        template_result_view(r) == spec_parse_template(text@, span),
{
    let sc = checkmate_scan_profile();
    let (r, c) = nodes_exec(text, 0, Mode::Top, span, &sc);
    match r {
        Err(e) => Err(e),
        Ok((nodes, end)) => if end == EndKind::Eof {
            Ok(Template { nodes })
        } else {
            Err(error_str(span, c, "unbalanced brackets in template"))
        },
    }
}

} // verus!
