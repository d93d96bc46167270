//! Source spans and front-end diagnostics.

use vstd::prelude::*;

verus! {

/// A half-open range of character offsets into a source text.
#[derive(Debug, Clone, Copy, PartialEq, Eq, Structural)]
pub struct Span {
    pub start: usize,
    pub end: usize,
}

impl Span {
    pub fn new(start: usize, end: usize) -> (s: Span)
        ensures
            s == (Span { start, end }),
    {
        Span { start, end }
    }

    /// The zero-width span of text that is missing at `offset`.
    pub fn missing(offset: usize) -> (s: Span)
        ensures
            s == (Span { start: offset, end: offset }),
    {
        Span { start: offset, end: offset }
    }
}

/// A front-end diagnostic: a message anchored at a span.
#[derive(Debug, Clone)]
pub struct Diagnostic {
    pub message: String,
    pub span: Span,
}

/// The mathematical value of a [`Diagnostic`].
pub struct DiagnosticView {
    pub message: Seq<char>,
    pub span: Span,
}

impl View for Diagnostic {
    type V = DiagnosticView;

    open spec fn view(&self) -> DiagnosticView {
        DiagnosticView { message: self.message@, span: self.span }
    }
}

pub open spec fn diagnostics_view(v: Seq<Diagnostic>) -> Seq<DiagnosticView> {
    v.map_values(|d: Diagnostic| d@)
}

impl Diagnostic {
    /// A parse-stage diagnostic.
    pub fn parse(message: String, span: Span) -> (d: Diagnostic)
        ensures
            d@ == (DiagnosticView { message: message@, span }),
    {
        Diagnostic { message, span }
    }

    pub fn message(&self) -> (m: &str)
        ensures
            m@ == self.message@,
    {
        self.message.as_str()
    }

    pub fn span(&self) -> (s: Span)
        ensures
            s == self.span,
    {
        self.span
    }
}

} // verus!
