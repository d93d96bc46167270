//! The compile-time condition language shared by `where` conditions,
//! `context` bindings and template conditions: equality and comparison,
//! `&&`, `||` and `!`, `some x in xs { … }` / `all x in xs { … }`,
//! `present(x)`, capture paths with accessors (`.matched`, `.line`, `.col`,
//! `.length`, `.span`) and calls of pure compile-time functions.
//! Comparisons do not chain, and `&&` binds tighter than `||`.

use vstd::prelude::*;

use crate::diagnostics::{Diagnostic, DiagnosticView, Span};
use crate::mega::profile::{
    LexProfile, checkmate_scan_profile, cm, lemma_cm_comments_advance, lemma_skip_wsc_bounds, lemma_word_len,
    next_word, offset_span, offset_span_exec, parse_char_literal, parse_string_literal,
    skip_ws_and_comments, skip_wsc, spec_char_literal, spec_string_literal, word_is, word_len,
};
use crate::order::strings_view;
use crate::text::{
    char_is_ascii_alpha, char_is_ascii_digit, chars_of, is_ascii_alpha, is_ascii_digit, push_chars,
    push_str, starts_with, starts_with_at, string_from_chars,
};

verus! {

/// What a capture accessor reads of a capture.
#[derive(Debug, Clone, Copy, PartialEq, Eq, Structural)]
pub enum Accessor {
    Matched,
    Line,
    Col,
    Length,
    Span,
}

/// A binary operator of the condition language.
#[derive(Debug, Clone, Copy, PartialEq, Eq, Structural)]
pub enum CtxBinOp {
    Or,
    And,
    Eq,
    Ne,
    Lt,
    Le,
    Gt,
    Ge,
}

/// A parsed condition expression. A floating-point literal is kept as the
/// text it was written with.
#[derive(Debug)]
pub enum CtxExpr {
    Bool(bool),
    Int(i64),
    Float(String),
    Str(String),
    Capture { path: Vec<String>, accessor: Option<Accessor> },
    Present { path: Vec<String> },
    SomeIn { var: String, list: Box<CtxExpr>, cond: Box<CtxExpr> },
    AllIn { var: String, list: Box<CtxExpr>, cond: Box<CtxExpr> },
    Call { path: Vec<String>, args: Vec<CtxExpr> },
    Not(Box<CtxExpr>),
    Bin(CtxBinOp, Box<CtxExpr>, Box<CtxExpr>),
}

/// The mathematical value of a [`CtxExpr`].
pub enum ExprView {
    Bool(bool),
    Int(int),
    Float(Seq<char>),
    Str(Seq<char>),
    Capture { path: Seq<Seq<char>>, accessor: Option<Accessor> },
    Present { path: Seq<Seq<char>> },
    SomeIn { var: Seq<char>, list: Box<ExprView>, cond: Box<ExprView> },
    AllIn { var: Seq<char>, list: Box<ExprView>, cond: Box<ExprView> },
    Call { path: Seq<Seq<char>>, args: Seq<ExprView> },
    Not(Box<ExprView>),
    Bin(CtxBinOp, Box<ExprView>, Box<ExprView>),
}

pub open spec fn expr_view(e: CtxExpr) -> ExprView
    decreases e,
{
    match e {
        CtxExpr::Bool(b) => ExprView::Bool(b),
        CtxExpr::Int(i) => ExprView::Int(i as int),
        CtxExpr::Float(f) => ExprView::Float(f@),
        CtxExpr::Str(s) => ExprView::Str(s@),
        CtxExpr::Capture { path, accessor } => ExprView::Capture { path: strings_view(path@), accessor },
        CtxExpr::Present { path } => ExprView::Present { path: strings_view(path@) },
        CtxExpr::SomeIn { var, list, cond } => ExprView::SomeIn {
            var: var@,
            list: Box::new(expr_view(*list)),
            cond: Box::new(expr_view(*cond)),
        },
        CtxExpr::AllIn { var, list, cond } => ExprView::AllIn {
            var: var@,
            list: Box::new(expr_view(*list)),
            cond: Box::new(expr_view(*cond)),
        },
        CtxExpr::Call { path, args } => ExprView::Call {
            path: strings_view(path@),
            args: exprs_view(args@),
        },
        CtxExpr::Not(inner) => ExprView::Not(Box::new(expr_view(*inner))),
        CtxExpr::Bin(op, l, r) => ExprView::Bin(op, Box::new(expr_view(*l)), Box::new(expr_view(*r))),
    }
}

pub open spec fn exprs_view(s: Seq<CtxExpr>) -> Seq<ExprView>
    decreases s,
{
    if s.len() == 0 {
        seq![]
    } else {
        seq![expr_view(s[0])] + exprs_view(s.subrange(1, s.len() as int))
    }
}

pub open spec fn expr_result_view(r: Result<CtxExpr, Diagnostic>) -> Result<ExprView, DiagnosticView> {
    match r {
        Ok(e) => Ok(expr_view(e)),
        Err(d) => Err(d@),
    }
}

// ---------------------------------------------------------------------------
// Lexical pieces
// ---------------------------------------------------------------------------

/// The position after the whitespace and comments at `c`.
pub open spec fn trivia_end(t: Seq<char>, c: int) -> int {
    skip_wsc(t, c, cm())
}

/// The text at `c` starts with `p`.
pub open spec fn at(t: Seq<char>, c: int, p: Seq<char>) -> bool {
    starts_with(t.skip(c), p)
}

/// The identifier-like word (`[A-Za-z0-9_]*`) at `c`.
pub open spec fn word_at(t: Seq<char>, c: int) -> Seq<char> {
    t.subrange(c, c + word_len(t, c))
}

/// A diagnostic at offset `at` of the region `span` anchors.
pub open spec fn error_at(span: Span, at: int, message: Seq<char>) -> DiagnosticView {
    DiagnosticView { message, span: offset_span(span, at) }
}

/// A character of a numeric literal: a digit or a dot.
pub open spec fn number_pred() -> spec_fn(char) -> bool {
    |c: char| is_ascii_digit(c) || c == '.'
}

/// The run of digits and dots at `c`.
pub open spec fn number_run(t: Seq<char>, c: int) -> Seq<char> {
    t.subrange(c, c + crate::text::leading_count(t.skip(c), number_pred()) as int)
}

/// The value of a string of decimal digits.
pub open spec fn digits_value(s: Seq<char>) -> nat
    decreases s.len(),
{
    if s.len() == 0 {
        0
    } else {
        digits_value(s.drop_last()) * 10 + (s.last() as nat - '0' as nat) as nat
    }
}

pub open spec fn all_digits(s: Seq<char>) -> bool {
    forall|i: int| 0 <= i < s.len() ==> is_ascii_digit(#[trigger] s[i])
}

/// The number of dots in `s`.
pub open spec fn dot_count(s: Seq<char>) -> nat
    decreases s.len(),
{
    if s.len() == 0 {
        0
    } else {
        dot_count(s.drop_last()) + if s.last() == '.' {
            1nat
        } else {
            0nat
        }
    }
}

/// A run of digits and dots that starts with a digit reads as a 64-bit
/// integer when it has no dot and its value fits.
pub open spec fn reads_as_int(s: Seq<char>) -> bool {
    all_digits(s) && digits_value(s) <= i64::MAX
}

/// A run of digits and dots that starts with a digit reads as a
/// floating-point number when it has at most one dot.
pub open spec fn reads_as_float(s: Seq<char>) -> bool {
    dot_count(s) <= 1
}

/// The accessor a word names.
pub open spec fn accessor_named(w: Seq<char>) -> Option<Accessor> {
    if w == "matched"@ {
        Some(Accessor::Matched)
    } else if w == "line"@ {
        Some(Accessor::Line)
    } else if w == "col"@ {
        Some(Accessor::Col)
    } else if w == "length"@ {
        Some(Accessor::Length)
    } else if w == "span"@ {
        Some(Accessor::Span)
    } else {
        None
    }
}

/// The segments of a dotted path from `c`, after `segs`: words that start
/// with a letter (or the word `_`), each but the last followed by a dot.
pub open spec fn path_from(t: Seq<char>, c: int, segs: Seq<Seq<char>>) -> (Seq<Seq<char>>, int)
    decreases t.len() - c,
    when 0 <= c <= t.len()
{
    let w = word_at(t, c);
    if w.len() == 0 || (!is_ascii_alpha(w[0]) && w != "_"@) {
        (segs, c)
    } else {
        let c2 = c + w.len();
        if at(t, c2, "."@) {
            proof {
                lemma_word_len(t, c);
                reveal_strlit(".");
            }
            path_from(t, c2 + 1, segs.push(w))
        } else {
            (segs.push(w), c2)
        }
    }
}

/// A capture path at `c` (its `$` is optional): the segments, or the error.
pub open spec fn spec_path(t: Seq<char>, c: int, span: Span) -> (Result<Seq<Seq<char>>, DiagnosticView>, int) {
    let c1 = if at(t, c, "$"@) {
        c + 1
    } else {
        c
    };
    let (segs, c2) = path_from(t, c1, seq![]);
    if segs.len() == 0 {
        (Err(error_at(span, c2, "expected a capture path"@)), c2)
    } else {
        (Ok(segs), c2)
    }
}

/// The accessors after a capture path at `c`; the last one counts.
pub open spec fn accessors_from(
    t: Seq<char>,
    c: int,
    path: Seq<Seq<char>>,
    accessor: Option<Accessor>,
    span: Span,
) -> (Result<ExprView, DiagnosticView>, int)
    decreases t.len() - c,
    when 0 <= c <= t.len()
{
    let c1 = trivia_end(t, c);
    if !at(t, c1, "."@) {
        (Ok(ExprView::Capture { path, accessor }), c1)
    } else {
        let w = word_at(t, c1 + 1);
        match accessor_named(w) {
            Some(a) => {
                proof {
                    lemma_skip_wsc_bounds(t, c, cm());
                    reveal_strlit(".");
                    lemma_word_len(t, c1 + 1);
                }
                accessors_from(t, c1 + 1 + w.len(), path, Some(a), span)
            },
            None => (
                Err(
                    error_at(
                        span,
                        c1,
                        "unknown accessor (expected `matched`, `line`, `col`, `length`, or `span`)"@,
                    ),
                ),
                c1 + 1,
            ),
        }
    }
}

/// After a capture path, a final `.matched`, `.line`, `.col`, `.length` or
/// `.span` gives the capture the accessor of that name (`Matched`, `Line`,
/// `Col`, `Length`, `Span`): each accessor word names its own accessor.
pub proof fn lemma_accessor_word_names_its_accessor(
    t: Seq<char>,
    c: int,
    path: Seq<Seq<char>>,
    accessor: Option<Accessor>,
    span: Span,
)
    requires
        0 <= c <= t.len(),
        at(t, trivia_end(t, c), "."@),
        !at(t, trivia_end(t, trivia_end(t, c) + 1 + word_at(t, trivia_end(t, c) + 1).len()), "."@),
    ensures
        ({
            let w = word_at(t, trivia_end(t, c) + 1);
            let end = trivia_end(t, trivia_end(t, c) + 1 + w.len());
            &&& w == "matched"@ ==> accessors_from(t, c, path, accessor, span) == (
                Ok::<ExprView, DiagnosticView>(ExprView::Capture { path, accessor: Some(Accessor::Matched) }),
                end,
            )
            &&& w == "line"@ ==> accessors_from(t, c, path, accessor, span) == (
                Ok::<ExprView, DiagnosticView>(ExprView::Capture { path, accessor: Some(Accessor::Line) }),
                end,
            )
            &&& w == "col"@ ==> accessors_from(t, c, path, accessor, span) == (
                Ok::<ExprView, DiagnosticView>(ExprView::Capture { path, accessor: Some(Accessor::Col) }),
                end,
            )
            &&& w == "length"@ ==> accessors_from(t, c, path, accessor, span) == (
                Ok::<ExprView, DiagnosticView>(ExprView::Capture { path, accessor: Some(Accessor::Length) }),
                end,
            )
            &&& w == "span"@ ==> accessors_from(t, c, path, accessor, span) == (
                Ok::<ExprView, DiagnosticView>(ExprView::Capture { path, accessor: Some(Accessor::Span) }),
                end,
            )
        }),
{
    reveal_strlit("matched");
    reveal_strlit("line");
    reveal_strlit("col");
    reveal_strlit("length");
    reveal_strlit("span");
    reveal_strlit(".");
    lemma_skip_wsc_bounds(t, c, cm());
    let c1 = trivia_end(t, c);
    assert(c1 + 1 <= t.len());
    lemma_word_len(t, c1 + 1);
    let w = word_at(t, c1 + 1);
    let c2 = c1 + 1 + w.len();
    lemma_skip_wsc_bounds(t, c2, cm());
    if accessor_named(w) is Some {
        let a = accessor_named(w)->0;
        assert(accessors_from(t, c, path, accessor, span) == accessors_from(t, c2, path, Some(a), span));
        assert(accessors_from(t, c2, path, Some(a), span) == (
            Ok::<ExprView, DiagnosticView>(ExprView::Capture { path, accessor: Some(a) }),
            trivia_end(t, c2),
        ));
    }
}

/// A dotted capture path with optional trailing accessors at `c`.
pub open spec fn spec_path_with_accessors(t: Seq<char>, c: int, span: Span) -> (
    Result<ExprView, DiagnosticView>,
    int,
) {
    let (r, c1) = spec_path(t, c, span);
    match r {
        Err(e) => (Err(e), c1),
        Ok(path) => accessors_from(t, c1, path, None, span),
    }
}


/// A numeric literal at `c`: an integer when its digits fit, else a
/// floating-point number written with at most one dot; its length.
pub open spec fn spec_number(t: Seq<char>, c: int) -> Option<(ExprView, int)> {
    let d = number_run(t, c);
    if d.len() > 0 && is_ascii_digit(d[0]) && reads_as_int(d) {
        Some((ExprView::Int(digits_value(d) as int), d.len() as int))
    } else if d.len() > 0 && is_ascii_digit(d[0]) && reads_as_float(d) {
        Some((ExprView::Float(d), d.len() as int))
    } else {
        None
    }
}

/// The comparison operator at `c` and its width.
pub open spec fn comparison_op(t: Seq<char>, c: int) -> Option<(CtxBinOp, int)> {
    if at(t, c, "=="@) {
        Some((CtxBinOp::Eq, 2))
    } else if at(t, c, "!="@) {
        Some((CtxBinOp::Ne, 2))
    } else if at(t, c, "<="@) {
        Some((CtxBinOp::Le, 2))
    } else if at(t, c, ">="@) {
        Some((CtxBinOp::Ge, 2))
    } else if at(t, c, "<"@) {
        Some((CtxBinOp::Lt, 1))
    } else if at(t, c, ">"@) {
        Some((CtxBinOp::Gt, 1))
    } else {
        None
    }
}

/// The comparison operators read as the comparisons they spell, the
/// two-character ones first: `==` equal, `!=` not equal, `<=` at most,
/// `>=` at least, `<` less, `>` greater.
pub proof fn lemma_comparison_operators_read_as_spelled(t: Seq<char>, c: int)
    ensures
        at(t, c, "=="@) ==> comparison_op(t, c) == Some((CtxBinOp::Eq, 2int)),
        at(t, c, "!="@) ==> comparison_op(t, c) == Some((CtxBinOp::Ne, 2int)),
        at(t, c, "<="@) ==> comparison_op(t, c) == Some((CtxBinOp::Le, 2int)),
        at(t, c, ">="@) ==> comparison_op(t, c) == Some((CtxBinOp::Ge, 2int)),
        at(t, c, "<"@) && !at(t, c, "<="@) ==> comparison_op(t, c) == Some((CtxBinOp::Lt, 1int)),
        at(t, c, ">"@) && !at(t, c, ">="@) ==> comparison_op(t, c) == Some((CtxBinOp::Gt, 1int)),
        !at(t, c, "="@) && !at(t, c, "!"@) && !at(t, c, "<"@) && !at(t, c, ">"@) ==> comparison_op(t, c)
            is None,
{
    reveal_strlit("==");
    reveal_strlit("!=");
    reveal_strlit("<=");
    reveal_strlit(">=");
    reveal_strlit("<");
    reveal_strlit(">");
    reveal_strlit("=");
    reveal_strlit("!");
    lemma_at_by_chars(t, c, "=="@);
    lemma_at_by_chars(t, c, "!="@);
    lemma_at_by_chars(t, c, "<="@);
    lemma_at_by_chars(t, c, ">="@);
    lemma_at_by_chars(t, c, "<"@);
    lemma_at_by_chars(t, c, ">"@);
    lemma_at_by_chars(t, c, "="@);
    lemma_at_by_chars(t, c, "!"@);
    let r = t.skip(c);
    assert(r[0] == r[0] && r[1] == r[1]);
    assert("=="@[0] == '=' && "!="@[0] == '!' && "<="@[0] == '<' && ">="@[0] == '>' && "<"@[0] == '<'
        && ">"@[0] == '>');
    if at(t, c, "!="@) {
        assert(r[0] == '!');
        assert(!at(t, c, "=="@));
    }
    if at(t, c, "<="@) {
        assert(r[0] == '<');
        assert(!at(t, c, "=="@) && !at(t, c, "!="@));
    }
    if at(t, c, ">="@) {
        assert(r[0] == '>');
        assert(!at(t, c, "=="@) && !at(t, c, "!="@) && !at(t, c, "<="@));
    }
    if at(t, c, ">"@) {
        assert(r[0] == '>');
        assert(!at(t, c, "=="@) && !at(t, c, "!="@) && !at(t, c, "<="@) && !at(t, c, "<"@));
    }
}

pub(crate) proof fn lemma_at_by_chars(t: Seq<char>, c: int, p: Seq<char>)
    ensures
        at(t, c, p) <==> (p.len() <= t.skip(c).len() && forall|i: int|
            0 <= i < p.len() ==> #[trigger] t.skip(c)[i] == p[i]),
{
    let r = t.skip(c);
    if p.len() <= r.len() && forall|i: int| 0 <= i < p.len() ==> r[i] == p[i] {
        assert(r.subrange(0, p.len() as int) =~= p);
    }
    if at(t, c, p) {
        assert forall|i: int| 0 <= i < p.len() implies r[i] == p[i] by {
            assert(r.subrange(0, p.len() as int)[i] == r[i]);
        }
    }
}

/// What a parse step that made no progress gives; the parse functions
/// always make progress, so this outcome never arises.
pub open spec fn stalled(span: Span, c: int) -> (Result<ExprView, DiagnosticView>, int) {
    (Err(error_at(span, c, "expected a condition expression"@)), c)
}

pub open spec fn bin(op: CtxBinOp, l: ExprView, r: ExprView) -> ExprView {
    ExprView::Bin(op, Box::new(l), Box::new(r))
}

/// A word-led primary at `c`: `true`, `false`, `present(path)`, a
/// `some`/`all` quantifier, a capture path or a call.
pub open spec fn sp_word_primary(t: Seq<char>, c: int, span: Span) -> (Result<ExprView, DiagnosticView>, int)
    decreases t.len() - c, 0nat,
    when 0 <= c <= t.len()
{
    let w = word_at(t, c);
    if w.len() == 0 {
        (Err(error_at(span, c, "expected a condition expression"@)), c)
    } else if w == "true"@ {
        (Ok(ExprView::Bool(true)), c + 4)
    } else if w == "false"@ {
        (Ok(ExprView::Bool(false)), c + 5)
    } else if w == "present"@ {
        let c3 = trivia_end(t, c + 7);
        if !at(t, c3, "("@) {
            (Err(error_at(span, c3, "expected `(` after `present`"@)), c3)
        } else {
            let (rp, c4) = spec_path(t, c3 + 1, span);
            match rp {
                Err(e) => (Err(e), c4),
                Ok(path) => {
                    let c5 = trivia_end(t, c4);
                    if !at(t, c5, ")"@) {
                        (Err(error_at(span, c5, "expected `)` to close `present(…)`"@)), c5)
                    } else {
                        (Ok(ExprView::Present { path }), c5 + 1)
                    }
                },
            }
        }
    } else if w == "some"@ || w == "all"@ {
        let c3 = trivia_end(t, c + w.len());
        let var = word_at(t, c3);
        if var.len() == 0 {
            (Err(error_at(span, c3, "expected a variable name after `"@ + w + "`"@)), c3)
        } else {
            let c4 = trivia_end(t, c3 + var.len());
            if !at(t, c4, "in"@) {
                (Err(error_at(span, c4, "expected `in` in `"@ + w + " … in …`"@)), c4)
            } else {
                let c5 = trivia_end(t, c4 + 2);
                let (rl, c6) = spec_path_with_accessors(t, c5, span);
                match rl {
                    Err(e) => (Err(e), c6),
                    Ok(list) => {
                        let c7 = trivia_end(t, c6);
                        if !at(t, c7, "{"@) {
                            (Err(error_at(span, c7, "expected `{` to open the `"@ + w + "` body"@)), c7)
                        } else if c <= c7 < t.len() {
                            let (rc, c8) = sp_or(t, c7 + 1, span);
                            match rc {
                                Err(e) => (Err(e), c8),
                                Ok(cond) => {
                                    let c9 = trivia_end(t, c8);
                                    if !at(t, c9, "}"@) {
                                        (
                                            Err(
                                                error_at(
                                                    span,
                                                    c9,
                                                    "expected `}` to close the `"@ + w + "` body"@,
                                                ),
                                            ),
                                            c9,
                                        )
                                    } else if w == "some"@ {
                                        (
                                            Ok(
                                                ExprView::SomeIn {
                                                    var,
                                                    list: Box::new(list),
                                                    cond: Box::new(cond),
                                                },
                                            ),
                                            c9 + 1,
                                        )
                                    } else {
                                        (
                                            Ok(
                                                ExprView::AllIn {
                                                    var,
                                                    list: Box::new(list),
                                                    cond: Box::new(cond),
                                                },
                                            ),
                                            c9 + 1,
                                        )
                                    }
                                },
                            }
                        } else {
                            stalled(span, c7)
                        }
                    },
                }
            }
        }
    } else {
        let (rp, c3) = spec_path(t, c, span);
        match rp {
            Err(e) => (Err(e), c3),
            Ok(path) => {
                let c4 = trivia_end(t, c3);
                if at(t, c4, "("@) {
                    if c <= c4 < t.len() {
                        sp_args(t, c4 + 1, path, seq![], span)
                    } else {
                        stalled(span, c4)
                    }
                } else {
                    (Ok(ExprView::Capture { path, accessor: None }), c4)
                }
            },
        }
    }
}

/// A primary at `c`: a parenthesized condition, a string or char literal,
/// a number, or a word-led primary. A leading `@` (call marker) or `$`
/// (capture marker) is stepped over.
pub open spec fn sp_primary(t: Seq<char>, c: int, span: Span) -> (Result<ExprView, DiagnosticView>, int)
    decreases t.len() - c, 1nat,
    when 0 <= c <= t.len()
{
    proof {
        lemma_skip_wsc_bounds(t, c, cm());
        reveal_strlit("(");
        reveal_strlit("@");
        reveal_strlit("$");
    }
    let c0 = trivia_end(t, c);
    let c2 = if at(t, c0, "@"@) || at(t, c0, "$"@) {
        c0 + 1
    } else {
        c0
    };
    if at(t, c0, "("@) {
        let (r, c1) = sp_or(t, c0 + 1, span);
        match r {
            Err(e) => (Err(e), c1),
            Ok(inner) => {
                let c3 = trivia_end(t, c1);
                if !at(t, c3, ")"@) {
                    (Err(error_at(span, c3, "expected `)` to close the condition group"@)), c3)
                } else {
                    (Ok(inner), c3 + 1)
                }
            },
        }
    } else {
        match spec_string_literal(t, c2) {
            Some((v, l)) => (Ok(ExprView::Str(v)), c2 + l),
            None => match spec_char_literal(t, c2) {
                Some((ch, l)) => (Ok(ExprView::Str(seq![ch])), c2 + l),
                None => match spec_number(t, c0) {
                    Some((e, l)) => (Ok(e), c2 + l),
                    None => sp_word_primary(t, c2, span),
                },
            },
        }
    }
}

/// A unary condition at `c`: `!` (not `!=`) before a unary, or a primary.
pub open spec fn sp_unary(t: Seq<char>, c: int, span: Span) -> (Result<ExprView, DiagnosticView>, int)
    decreases t.len() - c, 2nat,
    when 0 <= c <= t.len()
{
    proof {
        lemma_skip_wsc_bounds(t, c, cm());
        reveal_strlit("!");
    }
    let c0 = trivia_end(t, c);
    if at(t, c0, "!"@) && !at(t, c0, "!="@) {
        let (r, c1) = sp_unary(t, c0 + 1, span);
        match r {
            Err(e) => (Err(e), c1),
            Ok(inner) => (Ok(ExprView::Not(Box::new(inner))), c1),
        }
    } else {
        sp_primary(t, c0, span)
    }
}

/// A comparison at `c`: a unary, optionally compared with one more; a
/// second comparison operator is refused.
pub open spec fn sp_comparison(t: Seq<char>, c: int, span: Span) -> (Result<ExprView, DiagnosticView>, int)
    decreases t.len() - c, 3nat,
    when 0 <= c <= t.len()
{
    let (r, c1) = sp_unary(t, c, span);
    match r {
        Err(e) => (Err(e), c1),
        Ok(lhs) => {
            let c2 = trivia_end(t, c1);
            match comparison_op(t, c2) {
                None => (Ok(lhs), c2),
                Some((op, w)) => if c <= c1 <= t.len() && c2 + w <= t.len() {
                    proof {
                        lemma_skip_wsc_bounds(t, c1, cm());
                    }
                    let (r2, c3) = sp_unary(t, c2 + w, span);
                    match r2 {
                        Err(e) => (Err(e), c3),
                        Ok(rhs) => {
                            let c4 = trivia_end(t, c3);
                            if comparison_op(t, c4) is Some {
                                (Err(error_at(span, c4, "chained comparison; write `a < b && b < c`"@)), c4)
                            } else {
                                (Ok(bin(op, lhs, rhs)), c4)
                            }
                        },
                    }
                } else {
                    stalled(span, c1)
                },
            }
        },
    }
}

/// The `&& comparison` continuations after `lhs`, from `c`.
pub open spec fn and_tail(t: Seq<char>, c: int, lhs: ExprView, span: Span) -> (
    Result<ExprView, DiagnosticView>,
    int,
)
    decreases t.len() - c, 4nat,
    when 0 <= c <= t.len()
{
    proof {
        lemma_skip_wsc_bounds(t, c, cm());
        reveal_strlit("&&");
    }
    let c1 = trivia_end(t, c);
    if at(t, c1, "&&"@) {
        let (r, c2) = sp_comparison(t, c1 + 2, span);
        match r {
            Err(e) => (Err(e), c2),
            Ok(rhs) => if c1 + 2 <= c2 <= t.len() {
                and_tail(t, c2, bin(CtxBinOp::And, lhs, rhs), span)
            } else {
                stalled(span, c2)
            },
        }
    } else {
        (Ok(lhs), c1)
    }
}

/// A conjunction at `c`.
pub open spec fn sp_and(t: Seq<char>, c: int, span: Span) -> (Result<ExprView, DiagnosticView>, int)
    decreases t.len() - c, 5nat,
    when 0 <= c <= t.len()
{
    let (r, c1) = sp_comparison(t, c, span);
    match r {
        Err(e) => (Err(e), c1),
        Ok(lhs) => if c <= c1 <= t.len() {
            and_tail(t, c1, lhs, span)
        } else {
            stalled(span, c1)
        },
    }
}

/// The conjunction at `c` joins comparisons with `&&` outside any
/// parentheses: its first comparison is followed by `&&`.
pub open spec fn bare_conjunction(t: Seq<char>, c: int, span: Span) -> bool
    decreases t.len() - c, 4nat,
    when 0 <= c <= t.len()
{
    at(t, trivia_end(t, sp_comparison(t, c, span).1), "&&"@)
}

pub open spec fn mixing_message() -> Seq<char> {
    "mixing `&&` with `||` requires parentheses"@
}

/// The `|| conjunction` continuations after `lhs`, from `c`; `lhs_bare`
/// tells whether `lhs` is a conjunction outside parentheses. A `||` next
/// to such a conjunction is refused at the `||`.
pub open spec fn or_tail(t: Seq<char>, c: int, lhs: ExprView, lhs_bare: bool, span: Span) -> (
    Result<ExprView, DiagnosticView>,
    int,
)
    decreases t.len() - c, 6nat,
    when 0 <= c <= t.len()
{
    proof {
        lemma_skip_wsc_bounds(t, c, cm());
        reveal_strlit("||");
    }
    let c1 = trivia_end(t, c);
    if at(t, c1, "||"@) {
        if lhs_bare {
            (Err(error_at(span, c1, mixing_message())), c1)
        } else {
            let (r, c2) = sp_and(t, c1 + 2, span);
            match r {
                Err(e) => (Err(e), c2),
                Ok(rhs) => if bare_conjunction(t, c1 + 2, span) {
                    (Err(error_at(span, c1, mixing_message())), c2)
                } else if c1 + 2 <= c2 <= t.len() {
                    or_tail(t, c2, bin(CtxBinOp::Or, lhs, rhs), false, span)
                } else {
                    stalled(span, c2)
                },
            }
        }
    } else {
        (Ok(lhs), c1)
    }
}

/// The words of the condition language read as what they name: `true` and
/// `false` are those booleans, and a parsed `present(…)`, `some … in …` or
/// `all … in …` is a presence test, an existential or a universal.
pub proof fn lemma_condition_words_read_as_named(t: Seq<char>, c: int, span: Span)
    requires
        0 <= c <= t.len(),
    ensures
        word_at(t, c) == "true"@ ==> sp_word_primary(t, c, span) == (
            Ok::<ExprView, DiagnosticView>(ExprView::Bool(true)),
            c + 4,
        ),
        word_at(t, c) == "false"@ ==> sp_word_primary(t, c, span) == (
            Ok::<ExprView, DiagnosticView>(ExprView::Bool(false)),
            c + 5,
        ),
        word_at(t, c) == "present"@ ==> (sp_word_primary(t, c, span).0 matches Ok(e) ==> e is Present),
        word_at(t, c) == "some"@ ==> (sp_word_primary(t, c, span).0 matches Ok(e) ==> e is SomeIn),
        word_at(t, c) == "all"@ ==> (sp_word_primary(t, c, span).0 matches Ok(e) ==> e is AllIn),
{
    reveal_strlit("true");
    reveal_strlit("false");
    reveal_strlit("present");
    reveal_strlit("some");
    reveal_strlit("all");
    assert("true"@.len() != "false"@.len() && "true"@.len() != "present"@.len() && "true"@[0] != "some"@[0]
        && "true"@.len() != "all"@.len());
    assert("false"@.len() != "present"@.len() && "false"@.len() != "some"@.len() && "false"@.len()
        != "all"@.len());
    assert("present"@.len() != "some"@.len() && "present"@.len() != "all"@.len() && "some"@.len()
        != "all"@.len());
}

/// `!` before a unary condition (and not part of `!=`) negates it.
pub proof fn lemma_bang_negates(t: Seq<char>, c: int, span: Span)
    requires
        0 <= c <= t.len(),
        at(t, trivia_end(t, c), "!"@),
        !at(t, trivia_end(t, c), "!="@),
    ensures
        sp_unary(t, c, span).0 matches Ok(e) ==> (e matches ExprView::Not(inner) && sp_unary(
            t,
            trivia_end(t, c) + 1,
            span,
        ).0 == Ok::<ExprView, DiagnosticView>(*inner)),
{
    reveal_strlit("!");
    lemma_skip_wsc_bounds(t, c, cm());
    let c0 = trivia_end(t, c);
    lemma_at_by_chars(t, c0, "!"@);
    assert(c0 + 1 <= t.len());
    let (r, c1) = sp_unary(t, c0 + 1, span);
    assert(sp_unary(t, c, span) == match r {
        Err(e) => (Err(e), c1),
        Ok(inner) => (Ok(ExprView::Not(Box::new(inner))), c1),
    });
}

/// `a && b` is the conjunction of `a` and `b`.
pub proof fn lemma_and_is_conjunction(t: Seq<char>, c: int, lhs: ExprView, span: Span)
    requires
        0 <= c <= t.len(),
        at(t, trivia_end(t, c), "&&"@),
        sp_comparison(t, trivia_end(t, c) + 2, span).0 is Ok,
        trivia_end(t, c) + 2 <= sp_comparison(t, trivia_end(t, c) + 2, span).1 <= t.len(),
        !at(t, trivia_end(t, sp_comparison(t, trivia_end(t, c) + 2, span).1), "&&"@),
    ensures
        and_tail(t, c, lhs, span) == (
            Ok::<ExprView, DiagnosticView>(
                ExprView::Bin(
                    CtxBinOp::And,
                    Box::new(lhs),
                    Box::new(sp_comparison(t, trivia_end(t, c) + 2, span).0->Ok_0),
                ),
            ),
            trivia_end(t, sp_comparison(t, trivia_end(t, c) + 2, span).1),
        ),
{
    lemma_skip_wsc_bounds(t, c, cm());
    let c2 = sp_comparison(t, trivia_end(t, c) + 2, span).1;
    let rhs = sp_comparison(t, trivia_end(t, c) + 2, span).0->Ok_0;
    assert(and_tail(t, c, lhs, span) == and_tail(t, c2, bin(CtxBinOp::And, lhs, rhs), span));
}

/// `a || b` (with neither side a bare conjunction) is the disjunction of
/// `a` and `b`.
pub proof fn lemma_or_is_disjunction(t: Seq<char>, c: int, lhs: ExprView, span: Span)
    requires
        0 <= c <= t.len(),
        at(t, trivia_end(t, c), "||"@),
        sp_and(t, trivia_end(t, c) + 2, span).0 is Ok,
        !bare_conjunction(t, trivia_end(t, c) + 2, span),
        trivia_end(t, c) + 2 <= sp_and(t, trivia_end(t, c) + 2, span).1 <= t.len(),
        !at(t, trivia_end(t, sp_and(t, trivia_end(t, c) + 2, span).1), "||"@),
    ensures
        or_tail(t, c, lhs, false, span) == (
            Ok::<ExprView, DiagnosticView>(
                ExprView::Bin(CtxBinOp::Or, Box::new(lhs), Box::new(sp_and(t, trivia_end(t, c) + 2, span).0->Ok_0)),
            ),
            trivia_end(t, sp_and(t, trivia_end(t, c) + 2, span).1),
        ),
{
    lemma_skip_wsc_bounds(t, c, cm());
    let c2 = sp_and(t, trivia_end(t, c) + 2, span).1;
    let rhs = sp_and(t, trivia_end(t, c) + 2, span).0->Ok_0;
    assert(or_tail(t, c, lhs, false, span) == or_tail(t, c2, bin(CtxBinOp::Or, lhs, rhs), false, span));
}

/// A disjunction at `c`: the whole condition language.
pub open spec fn sp_or(t: Seq<char>, c: int, span: Span) -> (Result<ExprView, DiagnosticView>, int)
    decreases t.len() - c, 7nat,
    when 0 <= c <= t.len()
{
    let (r, c1) = sp_and(t, c, span);
    match r {
        Err(e) => (Err(e), c1),
        Ok(lhs) => if c <= c1 <= t.len() {
            or_tail(t, c1, lhs, bare_conjunction(t, c, span), span)
        } else {
            stalled(span, c1)
        },
    }
}

/// The arguments of a call of `path` from `c`, after `args`: conditions
/// separated by optional commas, up to `)`.
pub open spec fn sp_args(
    t: Seq<char>,
    c: int,
    path: Seq<Seq<char>>,
    args: Seq<ExprView>,
    span: Span,
) -> (Result<ExprView, DiagnosticView>, int)
    decreases t.len() - c, 8nat,
    when 0 <= c <= t.len()
{
    proof {
        lemma_skip_wsc_bounds(t, c, cm());
        reveal_strlit(",");
    }
    let c1 = trivia_end(t, c);
    if at(t, c1, ")"@) {
        (Ok(ExprView::Call { path, args }), c1 + 1)
    } else {
        let (r, c2) = sp_or(t, c1, span);
        match r {
            Err(e) => (Err(e), c2),
            Ok(a) => {
                let c3 = trivia_end(t, c2);
                let c4 = if at(t, c3, ","@) {
                    c3 + 1
                } else {
                    c3
                };
                if c < c2 <= t.len() {
                    proof {
                        lemma_skip_wsc_bounds(t, c2, cm());
                    }
                    sp_args(t, c4, path, args.push(a), span)
                } else {
                    stalled(span, c2)
                }
            },
        }
    }
}

/// The condition at `c` and where it ends, or the diagnostic of the first
/// thing that does not parse and where the parse stopped.
pub open spec fn spec_parse_ctx_expr(t: Seq<char>, c: int, span: Span) -> (
    Result<ExprView, DiagnosticView>,
    int,
) {
    sp_or(t, c, span)
}


// ---------------------------------------------------------------------------
// Parser
// ---------------------------------------------------------------------------

pub(crate) fn trivia(t: &[char], c: usize, sc: &LexProfile) -> (r: usize)
    requires
        c <= t@.len(),
        sc@ == cm(),
    ensures
        r == trivia_end(t@, c as int),
        c <= r <= t@.len(),
{
    proof {
        lemma_cm_comments_advance();
    }
    skip_ws_and_comments(t, c, sc)
}

pub(crate) fn at_exec(t: &[char], c: usize, p: &str) -> (b: bool)
    requires
        c <= t@.len(),
    ensures
        b == at(t@, c as int, p@),
        b ==> c + p@.len() <= t@.len(),
{
    let pc = chars_of(p);
    starts_with_at(t, c, pc.as_slice())
}

pub(crate) fn error_exec(span: Span, at: usize, message: &Vec<char>) -> (d: Diagnostic)
    requires
        span.start + at <= usize::MAX,
    ensures
        d@ == error_at(span, at as int, message@),
{
    Diagnostic::parse(string_from_chars(message.as_slice()), offset_span_exec(span, at))
}

pub(crate) fn error_str(span: Span, at: usize, message: &str) -> (d: Diagnostic)
    requires
        span.start + at <= usize::MAX,
    ensures
        d@ == error_at(span, at as int, message@),
{
    error_exec(span, at, &chars_of(message))
}

pub open spec fn path_result_view(r: Result<Vec<String>, Diagnostic>) -> Result<Seq<Seq<char>>, DiagnosticView> {
    match r {
        Ok(v) => Ok(strings_view(v@)),
        Err(d) => Err(d@),
    }
}

pub(crate) fn path_from_exec(t: &[char], c: usize, segs: Vec<String>) -> (r: (Vec<String>, usize))
    requires
        c <= t@.len(),
        t@.len() <= usize::MAX,
    ensures
        (strings_view(r.0@), r.1 as int) == path_from(t@, c as int, strings_view(segs@)),
        c <= r.1 <= t@.len(),
        r.0@.len() >= segs@.len(),
        r.0@.len() > segs@.len() ==> c < r.1,
    decreases t@.len() - c,
{
    proof {
        lemma_word_len(t@, c as int);
        reveal_strlit("_");
        reveal_strlit(".");
    }
    let w = next_word(t, c);
    if w.len() == 0 || (!char_is_ascii_alpha(w[0]) && !word_is(&w, "_")) {
        return (segs, c);
    }
    let c2 = c + w.len();
    let mut segs = segs;
    let ghost before = strings_view(segs@);
    segs.push(string_from_chars(w.as_slice()));
    assert(strings_view(segs@) =~= before.push(w@));
    if at_exec(t, c2, ".") {
        path_from_exec(t, c2 + 1, segs)
    } else {
        (segs, c2)
    }
}

fn path_exec(t: &[char], c: usize, span: Span) -> (r: (Result<Vec<String>, Diagnostic>, usize))
    requires
        c <= t@.len(),
        span.start + t@.len() <= usize::MAX,
    ensures
        (path_result_view(r.0), r.1 as int) == spec_path(t@, c as int, span),
        c <= r.1 <= t@.len(),
        r.0 is Ok ==> c < r.1,
{
    proof {
        reveal_strlit("$");
    }
    let c1 = if at_exec(t, c, "$") {
        c + 1
    } else {
        c
    };
    let empty: Vec<String> = Vec::new();
    assert(strings_view(empty@) =~= seq![]);
    let (segs, c2) = path_from_exec(t, c1, empty);
    if segs.len() == 0 {
        (Err(error_str(span, c2, "expected a capture path")), c2)
    } else {
        (Ok(segs), c2)
    }
}

pub(crate) fn accessor_exec(w: &Vec<char>) -> (r: Option<Accessor>)
    ensures
        r == accessor_named(w@),
{
    if word_is(w, "matched") {
        Some(Accessor::Matched)
    } else if word_is(w, "line") {
        Some(Accessor::Line)
    } else if word_is(w, "col") {
        Some(Accessor::Col)
    } else if word_is(w, "length") {
        Some(Accessor::Length)
    } else if word_is(w, "span") {
        Some(Accessor::Span)
    } else {
        None
    }
}

fn accessors_exec(
    t: &[char],
    c: usize,
    path: Vec<String>,
    accessor: Option<Accessor>,
    span: Span,
    sc: &LexProfile,
) -> (r: (Result<CtxExpr, Diagnostic>, usize))
    requires
        c <= t@.len(),
        span.start + t@.len() <= usize::MAX,
        sc@ == cm(),
    ensures
        (expr_result_view(r.0), r.1 as int) == accessors_from(
            t@,
            c as int,
            strings_view(path@),
            accessor,
            span,
        ),
        c <= r.1 <= t@.len(),
    decreases t@.len() - c,
{
    proof {
        reveal_strlit(".");
    }
    let c1 = trivia(t, c, sc);
    if !at_exec(t, c1, ".") {
        return (Ok(CtxExpr::Capture { path, accessor }), c1);
    }
    let w = next_word(t, c1 + 1);
    proof {
        lemma_word_len(t@, c1 + 1);
    }
    match accessor_exec(&w) {
        Some(a) => accessors_exec(t, c1 + 1 + w.len(), path, Some(a), span, sc),
        None => (
            Err(
                error_str(
                    span,
                    c1,
                    "unknown accessor (expected `matched`, `line`, `col`, `length`, or `span`)",
                ),
            ),
            c1 + 1,
        ),
    }
}

fn path_with_accessors_exec(t: &[char], c: usize, span: Span, sc: &LexProfile) -> (r: (
    Result<CtxExpr, Diagnostic>,
    usize,
))
    requires
        c <= t@.len(),
        span.start + t@.len() <= usize::MAX,
        sc@ == cm(),
    ensures
        (expr_result_view(r.0), r.1 as int) == spec_path_with_accessors(t@, c as int, span),
        c <= r.1 <= t@.len(),
{
    let (r, c1) = path_exec(t, c, span);
    match r {
        Err(e) => (Err(e), c1),
        Ok(path) => accessors_exec(t, c1, path, None, span, sc),
    }
}

pub proof fn lemma_digits_step(s: Seq<char>, ch: char)
    ensures
        (s.push(ch)).drop_last() == s,
        (s.push(ch)).last() == ch,
        digits_value(s.push(ch)) == digits_value(s) * 10 + (ch as nat - '0' as nat) as nat,
        dot_count(s.push(ch)) == dot_count(s) + if ch == '.' {
            1nat
        } else {
            0nat
        },
{
    assert((s.push(ch)).drop_last() =~= s);
}

fn number_exec(t: &[char], c: usize) -> (r: Option<(CtxExpr, usize)>)
    requires
        c <= t@.len(),
    ensures
        match spec_number(t@, c as int) {
            Some((e, l)) => r matches Some((x, m)) && expr_view(x) == e && m == l,
            None => r is None,
        },
{
    let n = t.len();
    let mut e = c;
    let mut int_ok = true;
    let mut value: u64 = 0;
    let mut dots: usize = 0;
    assert(t@.subrange(c as int, c as int) =~= Seq::<char>::empty());
    while e < n && (char_is_ascii_digit(t[e]) || t[e] == '.')
        invariant
            n == t@.len(),
            c <= e <= n,
            forall|k: int| 0 <= k < e - c ==> number_pred()(#[trigger] t@.skip(c as int)[k]),
            int_ok == reads_as_int(t@.subrange(c as int, e as int)),
            int_ok ==> value == digits_value(t@.subrange(c as int, e as int)),
            dot_count(t@.subrange(c as int, e as int)) <= 1 ==> dots == dot_count(
                t@.subrange(c as int, e as int),
            ),
            dot_count(t@.subrange(c as int, e as int)) > 1 ==> dots == 2,
        decreases n - e,
    {
        let ch = t[e];
        let ghost prefix = t@.subrange(c as int, e as int);
        proof {
            lemma_digits_step(prefix, ch);
            assert(t@.subrange(c as int, e + 1) =~= prefix.push(ch));
            assert(t@.skip(c as int)[e - c] == ch);
        }
        if ch == '.' {
            int_ok = false;
            if dots < 2 {
                dots += 1;
            }
            assert(!all_digits(prefix.push(ch))) by {
                assert(prefix.push(ch)[prefix.len() as int] == ch);
            }
        } else if int_ok {
            let d = (ch as u32 - '0' as u32) as u64;
            let next: u128 = (value as u128) * 10 + (d as u128);
            if next <= 0x7fff_ffff_ffff_ffffu128 {
                value = next as u64;
            } else {
                int_ok = false;
            }
            assert(all_digits(prefix.push(ch))) by {
                assert forall|i: int| 0 <= i < prefix.push(ch).len() implies is_ascii_digit(
                    #[trigger] prefix.push(ch)[i],
                ) by {
                    if i < prefix.len() {
                        assert(prefix.push(ch)[i] == prefix[i]);
                    }
                }
            }
        } else {
            proof {
                if all_digits(prefix.push(ch)) {
                    assert forall|i: int| 0 <= i < prefix.len() implies is_ascii_digit(#[trigger] prefix[i]) by {
                        assert(prefix.push(ch)[i] == prefix[i]);
                    }
                }
            }
        }
        e += 1;
    }
    let ghost d = t@.subrange(c as int, e as int);
    proof {
        if e < n {
            assert(t@.skip(c as int)[e - c] == t@[e as int]);
        }
        crate::text::lemma_leading_count_is(t@.skip(c as int), number_pred(), e - c);
        assert(d == number_run(t@, c as int));
    }
    if e > c && char_is_ascii_digit(t[c]) {
        assert(d[0] == t@[c as int]);
        if int_ok {
            return Some((CtxExpr::Int(value as i64), e - c));
        }
        if dots <= 1 {
            let text = crate::text::slice_chars(t, c, e);
            return Some((CtxExpr::Float(string_from_chars(text.as_slice())), e - c));
        }
    }
    None
}


pub open spec fn parse_ok(t: Seq<char>, span: Span) -> bool {
    span.start + t.len() <= usize::MAX
}

fn word_primary_exec(t: &[char], c: usize, span: Span, sc: &LexProfile) -> (r: (
    Result<CtxExpr, Diagnostic>,
    usize,
))
    requires
        c <= t@.len(),
        parse_ok(t@, span),
        sc@ == cm(),
    ensures
        (expr_result_view(r.0), r.1 as int) == sp_word_primary(t@, c as int, span),
        c <= r.1 <= t@.len(),
        r.0 is Ok ==> c < r.1,
    decreases t@.len() - c, 0nat,
{
    proof {
        lemma_word_len(t@, c as int);
        reveal_strlit("true");
        reveal_strlit("false");
        reveal_strlit("present");
        reveal_strlit("some");
        reveal_strlit("all");
        reveal_strlit("(");
        reveal_strlit(")");
        reveal_strlit("{");
        reveal_strlit("}");
        reveal_strlit("in");
    }
    let w = next_word(t, c);
    if w.len() == 0 {
        return (Err(error_str(span, c, "expected a condition expression")), c);
    }
    if word_is(&w, "true") {
        return (Ok(CtxExpr::Bool(true)), c + 4);
    }
    if word_is(&w, "false") {
        return (Ok(CtxExpr::Bool(false)), c + 5);
    }
    if word_is(&w, "present") {
        let c3 = trivia(t, c + 7, sc);
        if !at_exec(t, c3, "(") {
            return (Err(error_str(span, c3, "expected `(` after `present`")), c3);
        }
        let (rp, c4) = path_exec(t, c3 + 1, span);
        let path = match rp {
            Err(e) => {
                return (Err(e), c4);
            },
            Ok(path) => path,
        };
        let c5 = trivia(t, c4, sc);
        if !at_exec(t, c5, ")") {
            return (Err(error_str(span, c5, "expected `)` to close `present(…)`")), c5);
        }
        return (Ok(CtxExpr::Present { path }), c5 + 1);
    }
    if word_is(&w, "some") || word_is(&w, "all") {
        let c3 = trivia(t, c + w.len(), sc);
        let var = next_word(t, c3);
        proof {
            lemma_word_len(t@, c3 as int);
        }
        if var.len() == 0 {
            let mut m = chars_of("expected a variable name after `");
            push_chars(&mut m, w.as_slice());
            push_str(&mut m, "`");
            return (Err(error_exec(span, c3, &m)), c3);
        }
        let c4 = trivia(t, c3 + var.len(), sc);
        if !at_exec(t, c4, "in") {
            let mut m = chars_of("expected `in` in `");
            push_chars(&mut m, w.as_slice());
            push_str(&mut m, " … in …`");
            return (Err(error_exec(span, c4, &m)), c4);
        }
        let c5 = trivia(t, c4 + 2, sc);
        let (rl, c6) = path_with_accessors_exec(t, c5, span, sc);
        let list = match rl {
            Err(e) => {
                return (Err(e), c6);
            },
            Ok(list) => list,
        };
        let c7 = trivia(t, c6, sc);
        if !at_exec(t, c7, "{") {
            let mut m = chars_of("expected `{` to open the `");
            push_chars(&mut m, w.as_slice());
            push_str(&mut m, "` body");
            return (Err(error_exec(span, c7, &m)), c7);
        }
        let (rc, c8) = or_exec(t, c7 + 1, span, sc);
        let cond = match rc {
            Err(e) => {
                return (Err(e), c8);
            },
            Ok(cond) => cond,
        };
        let c9 = trivia(t, c8, sc);
        if !at_exec(t, c9, "}") {
            let mut m = chars_of("expected `}` to close the `");
            push_chars(&mut m, w.as_slice());
            push_str(&mut m, "` body");
            return (Err(error_exec(span, c9, &m)), c9);
        }
        let v = string_from_chars(var.as_slice());
        if word_is(&w, "some") {
            return (Ok(CtxExpr::SomeIn { var: v, list: Box::new(list), cond: Box::new(cond) }), c9 + 1);
        } else {
            return (Ok(CtxExpr::AllIn { var: v, list: Box::new(list), cond: Box::new(cond) }), c9 + 1);
        }
    }
    let (rp, c3) = path_exec(t, c, span);
    let path = match rp {
        Err(e) => {
            return (Err(e), c3);
        },
        Ok(path) => path,
    };
    let c4 = trivia(t, c3, sc);
    if at_exec(t, c4, "(") {
        let empty: Vec<CtxExpr> = Vec::new();
        assert(exprs_view(empty@) =~= seq![]);
        args_exec(t, c4 + 1, path, empty, span, sc)
    } else {
        (Ok(CtxExpr::Capture { path, accessor: None }), c4)
    }
}

proof fn lemma_number_starts_with_digit(t: Seq<char>, c: int)
    requires
        0 <= c <= t.len(),
    ensures
        spec_number(t, c) matches Some((_, l)) ==> c < t.len() && is_ascii_digit(t[c]) && 0 < l
            && c + l <= t.len(),
{
    crate::text::lemma_leading_count_bound(t.skip(c), number_pred());
    if spec_number(t, c) is Some {
        assert(number_run(t, c)[0] == t[c]);
    }
}

#[verifier::rlimit(40)]
fn primary_exec(t: &[char], c: usize, span: Span, sc: &LexProfile) -> (r: (
    Result<CtxExpr, Diagnostic>,
    usize,
))
    requires
        c <= t@.len(),
        parse_ok(t@, span),
        sc@ == cm(),
    ensures
        (expr_result_view(r.0), r.1 as int) == sp_primary(t@, c as int, span),
        c <= r.1 <= t@.len(),
        r.0 is Ok ==> c < r.1,
    decreases t@.len() - c, 1nat,
{
    proof {
        reveal_strlit("(");
        reveal_strlit(")");
        reveal_strlit("@");
        reveal_strlit("$");
        crate::mega::profile::lemma_char_literal_len(t@, 0);
    }
    let c0 = trivia(t, c, sc);
    let c2 = if at_exec(t, c0, "@") || at_exec(t, c0, "$") {
        c0 + 1
    } else {
        c0
    };
    if at_exec(t, c0, "(") {
        let (r, c1) = or_exec(t, c0 + 1, span, sc);
        let inner = match r {
            Err(e) => {
                return (Err(e), c1);
            },
            Ok(inner) => inner,
        };
        let c3 = trivia(t, c1, sc);
        if !at_exec(t, c3, ")") {
            return (Err(error_str(span, c3, "expected `)` to close the condition group")), c3);
        }
        return (Ok(inner), c3 + 1);
    }
    match parse_string_literal(t, c2) {
        Some((v, l)) => {
            return (Ok(CtxExpr::Str(string_from_chars(v.as_slice()))), c2 + l);
        },
        None => {},
    }
    proof {
        crate::mega::profile::lemma_char_literal_len(t@, c2 as int);
    }
    match parse_char_literal(t, c2) {
        Some((ch, l)) => {
            let one: Vec<char> = vec![ch];
            assert(one@ =~= seq![ch]);
            return (Ok(CtxExpr::Str(string_from_chars(one.as_slice()))), c2 + l);
        },
        None => {},
    }
    proof {
        lemma_number_starts_with_digit(t@, c0 as int);
    }
    match number_exec(t, c0) {
        Some((e, l)) => {
            proof {
                let rest = t@.skip(c0 as int);
                assert(rest[0] == t@[c0 as int]);
                if at(t@, c0 as int, "@"@) {
                    assert(rest.subrange(0, 1)[0] == "@"@[0]);
                }
                if at(t@, c0 as int, "$"@) {
                    assert(rest.subrange(0, 1)[0] == "$"@[0]);
                }
            }
            assert(c2 == c0);
            return (Ok(e), c2 + l);
        },
        None => {},
    }
    word_primary_exec(t, c2, span, sc)
}

fn unary_exec(t: &[char], c: usize, span: Span, sc: &LexProfile) -> (r: (
    Result<CtxExpr, Diagnostic>,
    usize,
))
    requires
        c <= t@.len(),
        parse_ok(t@, span),
        sc@ == cm(),
    ensures
        (expr_result_view(r.0), r.1 as int) == sp_unary(t@, c as int, span),
        c <= r.1 <= t@.len(),
        r.0 is Ok ==> c < r.1,
    decreases t@.len() - c, 2nat,
{
    proof {
        reveal_strlit("!");
    }
    let c0 = trivia(t, c, sc);
    if at_exec(t, c0, "!") && !at_exec(t, c0, "!=") {
        let (r, c1) = unary_exec(t, c0 + 1, span, sc);
        match r {
            Err(e) => (Err(e), c1),
            Ok(inner) => (Ok(CtxExpr::Not(Box::new(inner))), c1),
        }
    } else {
        primary_exec(t, c0, span, sc)
    }
}

fn comparison_op_exec(t: &[char], c: usize) -> (r: Option<(CtxBinOp, usize)>)
    requires
        c <= t@.len(),
    ensures
        match comparison_op(t@, c as int) {
            Some((op, w)) => r == Some((op, w as usize)) && c + w <= t@.len(),
            None => r is None,
        },
{
    proof {
        reveal_strlit("==");
        reveal_strlit("!=");
        reveal_strlit("<=");
        reveal_strlit(">=");
        reveal_strlit("<");
        reveal_strlit(">");
    }
    if at_exec(t, c, "==") {
        Some((CtxBinOp::Eq, 2))
    } else if at_exec(t, c, "!=") {
        Some((CtxBinOp::Ne, 2))
    } else if at_exec(t, c, "<=") {
        Some((CtxBinOp::Le, 2))
    } else if at_exec(t, c, ">=") {
        Some((CtxBinOp::Ge, 2))
    } else if at_exec(t, c, "<") {
        Some((CtxBinOp::Lt, 1))
    } else if at_exec(t, c, ">") {
        Some((CtxBinOp::Gt, 1))
    } else {
        None
    }
}

fn comparison_exec(t: &[char], c: usize, span: Span, sc: &LexProfile) -> (r: (
    Result<CtxExpr, Diagnostic>,
    usize,
))
    requires
        c <= t@.len(),
        parse_ok(t@, span),
        sc@ == cm(),
    ensures
        (expr_result_view(r.0), r.1 as int) == sp_comparison(t@, c as int, span),
        c <= r.1 <= t@.len(),
        r.0 is Ok ==> c < r.1,
    decreases t@.len() - c, 3nat,
{
    let (r, c1) = unary_exec(t, c, span, sc);
    let lhs = match r {
        Err(e) => {
            return (Err(e), c1);
        },
        Ok(lhs) => lhs,
    };
    let c2 = trivia(t, c1, sc);
    let (op, w) = match comparison_op_exec(t, c2) {
        None => {
            return (Ok(lhs), c2);
        },
        Some(found) => found,
    };
    let (r2, c3) = unary_exec(t, c2 + w, span, sc);
    let rhs = match r2 {
        Err(e) => {
            return (Err(e), c3);
        },
        Ok(rhs) => rhs,
    };
    let c4 = trivia(t, c3, sc);
    if comparison_op_exec(t, c4).is_some() {
        return (Err(error_str(span, c4, "chained comparison; write `a < b && b < c`")), c4);
    }
    (Ok(CtxExpr::Bin(op, Box::new(lhs), Box::new(rhs))), c4)
}

fn and_tail_exec(t: &[char], c: usize, lhs: CtxExpr, span: Span, sc: &LexProfile) -> (r: (
    Result<CtxExpr, Diagnostic>,
    usize,
))
    requires
        c <= t@.len(),
        parse_ok(t@, span),
        sc@ == cm(),
    ensures
        (expr_result_view(r.0), r.1 as int) == and_tail(t@, c as int, expr_view(lhs), span),
        c <= r.1 <= t@.len(),
    decreases t@.len() - c, 4nat,
{
    proof {
        reveal_strlit("&&");
    }
    let c1 = trivia(t, c, sc);
    if at_exec(t, c1, "&&") {
        let (r, c2) = comparison_exec(t, c1 + 2, span, sc);
        match r {
            Err(e) => (Err(e), c2),
            Ok(rhs) => and_tail_exec(t, c2, CtxExpr::Bin(CtxBinOp::And, Box::new(lhs), Box::new(rhs)), span, sc),
        }
    } else {
        (Ok(lhs), c1)
    }
}

fn and_exec(t: &[char], c: usize, span: Span, sc: &LexProfile) -> (r: (
    Result<CtxExpr, Diagnostic>,
    usize,
    bool,
))
    requires
        c <= t@.len(),
        parse_ok(t@, span),
        sc@ == cm(),
    ensures
        (expr_result_view(r.0), r.1 as int) == sp_and(t@, c as int, span),
        c <= r.1 <= t@.len(),
        r.0 is Ok ==> c < r.1,
        r.0 is Ok ==> r.2 == bare_conjunction(t@, c as int, span),
    decreases t@.len() - c, 5nat,
{
    proof {
        reveal_strlit("&&");
    }
    let (r, c1) = comparison_exec(t, c, span, sc);
    match r {
        Err(e) => (Err(e), c1, false),
        Ok(lhs) => {
            let c1t = trivia(t, c1, sc);
            let bare = at_exec(t, c1t, "&&");
            let (r2, c2) = and_tail_exec(t, c1, lhs, span, sc);
            (r2, c2, bare)
        },
    }
}

fn or_tail_exec(t: &[char], c: usize, lhs: CtxExpr, lhs_bare: bool, span: Span, sc: &LexProfile) -> (r: (
    Result<CtxExpr, Diagnostic>,
    usize,
))
    requires
        c <= t@.len(),
        parse_ok(t@, span),
        sc@ == cm(),
    ensures
        (expr_result_view(r.0), r.1 as int) == or_tail(t@, c as int, expr_view(lhs), lhs_bare, span),
        c <= r.1 <= t@.len(),
    decreases t@.len() - c, 6nat,
{
    proof {
        reveal_strlit("||");
    }
    let c1 = trivia(t, c, sc);
    if at_exec(t, c1, "||") {
        if lhs_bare {
            return (Err(error_str(span, c1, "mixing `&&` with `||` requires parentheses")), c1);
        }
        let (r, c2, bare) = and_exec(t, c1 + 2, span, sc);
        match r {
            Err(e) => (Err(e), c2),
            Ok(rhs) => {
                if bare {
                    return (Err(error_str(span, c1, "mixing `&&` with `||` requires parentheses")), c2);
                }
                or_tail_exec(t, c2, CtxExpr::Bin(CtxBinOp::Or, Box::new(lhs), Box::new(rhs)), false, span, sc)
            },
        }
    } else {
        (Ok(lhs), c1)
    }
}

fn or_exec(t: &[char], c: usize, span: Span, sc: &LexProfile) -> (r: (
    Result<CtxExpr, Diagnostic>,
    usize,
))
    requires
        c <= t@.len(),
        parse_ok(t@, span),
        sc@ == cm(),
    ensures
        (expr_result_view(r.0), r.1 as int) == sp_or(t@, c as int, span),
        c <= r.1 <= t@.len(),
        r.0 is Ok ==> c < r.1,
    decreases t@.len() - c, 7nat,
{
    let (r, c1, bare) = and_exec(t, c, span, sc);
    match r {
        Err(e) => (Err(e), c1),
        Ok(lhs) => or_tail_exec(t, c1, lhs, bare, span, sc),
    }
}

proof fn lemma_exprs_view_push(s: Seq<CtxExpr>, e: CtxExpr)
    ensures
        exprs_view(s.push(e)) == exprs_view(s).push(expr_view(e)),
    decreases s.len(),
{
    if s.len() == 0 {
        assert(s.push(e).subrange(1, 1) =~= Seq::<CtxExpr>::empty());
        assert(exprs_view(Seq::<CtxExpr>::empty()) =~= seq![]);
        assert(exprs_view(s.push(e)) =~= seq![expr_view(e)]);
        assert(exprs_view(s) =~= seq![]);
    } else {
        let rest = s.subrange(1, s.len() as int);
        lemma_exprs_view_push(rest, e);
        assert(s.push(e).subrange(1, s.len() as int + 1) =~= rest.push(e));
        assert(s.push(e)[0] == s[0]);
        assert(exprs_view(s.push(e)) =~= exprs_view(s).push(expr_view(e)));
    }
}

fn args_exec(
    t: &[char],
    c: usize,
    path: Vec<String>,
    args: Vec<CtxExpr>,
    span: Span,
    sc: &LexProfile,
) -> (r: (Result<CtxExpr, Diagnostic>, usize))
    requires
        c <= t@.len(),
        parse_ok(t@, span),
        sc@ == cm(),
    ensures
        (expr_result_view(r.0), r.1 as int) == sp_args(
            t@,
            c as int,
            strings_view(path@),
            exprs_view(args@),
            span,
        ),
        c <= r.1 <= t@.len(),
        r.0 is Ok ==> c < r.1,
    decreases t@.len() - c, 8nat,
{
    proof {
        reveal_strlit(")");
        reveal_strlit(",");
    }
    let c1 = trivia(t, c, sc);
    if at_exec(t, c1, ")") {
        return (Ok(CtxExpr::Call { path, args }), c1 + 1);
    }
    let (r, c2) = or_exec(t, c1, span, sc);
    let a = match r {
        Err(e) => {
            return (Err(e), c2);
        },
        Ok(a) => a,
    };
    let c3 = trivia(t, c2, sc);
    let c4 = if at_exec(t, c3, ",") {
        c3 + 1
    } else {
        c3
    };
    let mut args = args;
    let ghost before = args@;
    proof {
        lemma_exprs_view_push(before, a);
    }
    args.push(a);
    args_exec(t, c4, path, args, span, sc)
}

/// Parses one condition expression of `text` from `cursor` and moves the
/// cursor just past it. Positions are character offsets into `text`;
/// `span` anchors diagnostics: a diagnostic at offset `k` of `text` points
/// at `span.start + k`, clamped to `span.end`. On an error the cursor stays
/// where the parse stopped.
pub fn parse_expr(text: &[char], cursor: &mut usize, span: Span) -> (r: Result<CtxExpr, Diagnostic>)
    requires
        *old(cursor) <= text@.len(),
        span.start + text@.len() <= usize::MAX,
    ensures
        (expr_result_view(r), *final(cursor) as int) == spec_parse_ctx_expr(
            text@,
            *old(cursor) as int,
            span,
        ),
        *old(cursor) <= *final(cursor) <= text@.len(),
        r is Ok ==> *old(cursor) < *final(cursor),
{
    let sc = checkmate_scan_profile();
    let (r, end) = or_exec(text, *cursor, span, &sc);
    *cursor = end;
    r
}


/// Comparisons do not chain: a comparison that parses is never followed by
/// another comparison operator (`a < b < c` is refused; parenthesize).
pub proof fn lemma_comparison_does_not_chain(t: Seq<char>, c: int, span: Span)
    requires
        0 <= c <= t.len(),
        sp_comparison(t, c, span).0 is Ok,
    ensures
        comparison_op(t, sp_comparison(t, c, span).1) is None,
{
}

} // verus!
