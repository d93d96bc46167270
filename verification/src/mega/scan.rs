//! Magic detection: locates `grammar` declarations, `magic` declarations and
//! `magic(name) { … }` invocations in raw source text, handing the text
//! inside the magic blocks to the megaprogram pass.
//!
//! The scanner runs before the main lexer because magic regions are not
//! Checkmate: they are foreign-language source the main lexer must never
//! see. Regions are located by brace balancing under the composed profile of
//! the entry grammar. Positions are character offsets.

use vstd::prelude::*;

use crate::diagnostics::{Diagnostic, DiagnosticView, Span, diagnostics_view};
use crate::mega::profile::{
    CommentView, LexProfile, Outcome, ProfileView, StringFormView, Walked, balance, balance_walk,
    checkmate_scan_profile, unclosed_error,
    cm, comment_len, comments_advance, copy_profile, default_profile, form_for_quote,
    lemma_cm_comments_advance, lemma_comment_len_positive, lemma_form_for_quote_bound,
    lemma_plain_string_found_positive, lemma_plain_strings_never_stuck, offset_span,
    parse_profile, plain_string_form, spec_balance,
    spec_comment_len, spec_default_profile, spec_parse_profile, spec_string_len, string_len,
    unclosed_message, with_default_strings, word_len,
};
use crate::text::{chars_of, find_char, is_word_char, is_word_start, is_ws};

verus! {

// ---------------------------------------------------------------------------
// Scan results
// ---------------------------------------------------------------------------

/// One `grammar name { … }` declaration: verbatim body text plus the profile
/// extracted from its `skip`/`comment`/`string` declarations.
#[derive(Debug, Clone)]
pub struct GrammarScan {
    pub name: String,
    /// The whole declaration, `grammar` through the closing `}`.
    pub span: Span,
    /// The text inside the braces.
    pub body_span: Span,
    pub body: String,
    pub profile: LexProfile,
}

/// One `magic name(pattern) { template }` declaration, pattern and template
/// verbatim.
#[derive(Debug, Clone)]
pub struct MagicDeclScan {
    pub name: String,
    pub span: Span,
    pub pattern_span: Span,
    pub pattern: String,
    pub template_span: Span,
    pub template: String,
}

/// One `magic(name) { … }` invocation with its normalized region: one line
/// terminator trimmed after `{` and before `}`, horizontal whitespace trimmed
/// at both edges. `region_span` stays anchored to the scanned text.
#[derive(Debug, Clone)]
pub struct InvocationScan {
    pub name: String,
    /// The whole invocation, `magic` through the closing `}`.
    pub span: Span,
    /// The `magic ( name )` header.
    pub header_span: Span,
    /// The normalized region's extent in the scanned text.
    pub region_span: Span,
    pub region: String,
}

/// The result of scanning a source text for megaprogram constructs.
#[derive(Debug, Clone)]
pub struct MagicScan {
    pub grammars: Vec<GrammarScan>,
    pub magics: Vec<MagicDeclScan>,
    pub invocations: Vec<InvocationScan>,
}

pub struct GrammarView {
    pub name: Seq<char>,
    pub span: Span,
    pub body_span: Span,
    pub body: Seq<char>,
    pub profile: ProfileView,
}

pub struct MagicView {
    pub name: Seq<char>,
    pub span: Span,
    pub pattern_span: Span,
    pub pattern: Seq<char>,
    pub template_span: Span,
    pub template: Seq<char>,
}

pub struct InvocationView {
    pub name: Seq<char>,
    pub span: Span,
    pub header_span: Span,
    pub region_span: Span,
    pub region: Seq<char>,
}

impl View for GrammarScan {
    type V = GrammarView;

    open spec fn view(&self) -> GrammarView {
        GrammarView {
            name: self.name@,
            span: self.span,
            body_span: self.body_span,
            body: self.body@,
            profile: self.profile@,
        }
    }
}

impl View for MagicDeclScan {
    type V = MagicView;

    open spec fn view(&self) -> MagicView {
        MagicView {
            name: self.name@,
            span: self.span,
            pattern_span: self.pattern_span,
            pattern: self.pattern@,
            template_span: self.template_span,
            template: self.template@,
        }
    }
}

impl View for InvocationScan {
    type V = InvocationView;

    open spec fn view(&self) -> InvocationView {
        InvocationView {
            name: self.name@,
            span: self.span,
            header_span: self.header_span,
            region_span: self.region_span,
            region: self.region@,
        }
    }
}

/// Everything a scan has found so far, errors included.
pub struct ScanState {
    pub grammars: Seq<GrammarView>,
    pub magics: Seq<MagicView>,
    pub invocations: Seq<InvocationView>,
    pub errors: Seq<DiagnosticView>,
}

pub open spec fn scan_view(scan: MagicScan, errors: Seq<Diagnostic>) -> ScanState {
    ScanState {
        grammars: scan.grammars@.map_values(|g: GrammarScan| g@),
        magics: scan.magics@.map_values(|m: MagicDeclScan| m@),
        invocations: scan.invocations@.map_values(|i: InvocationScan| i@),
        errors: diagnostics_view(errors),
    }
}

pub open spec fn empty_scan() -> ScanState {
    ScanState { grammars: seq![], magics: seq![], invocations: seq![], errors: seq![] }
}

pub open spec fn with_error(st: ScanState, message: Seq<char>, span: Span) -> ScanState {
    ScanState { errors: st.errors.push(DiagnosticView { message, span }), ..st }
}

impl MagicScan {
    pub fn new() -> (s: MagicScan)
        ensures
            scan_view(s, seq![]) == empty_scan(),
    {
        let s = MagicScan { grammars: Vec::new(), magics: Vec::new(), invocations: Vec::new() };
        assert(scan_view(s, seq![]).grammars =~= seq![]);
        assert(scan_view(s, seq![]).magics =~= seq![]);
        assert(scan_view(s, seq![]).invocations =~= seq![]);
        assert(scan_view(s, seq![]).errors =~= seq![]);
        s
    }

    /// True when the text contains anything megaprogram-shaped; the fast
    /// path to skip expansion entirely.
    pub fn is_empty(&self) -> (b: bool)
        ensures
            b == (self.grammars@.len() == 0 && self.magics@.len() == 0 && self.invocations@.len()
                == 0),
    {
        self.grammars.len() == 0 && self.magics.len() == 0 && self.invocations.len() == 0
    }

    /// The profile of the first grammar named `name`.
    pub fn grammar_profile(&self, name: &str) -> (r: Option<&LexProfile>)
        ensures
            match first_grammar_named(scan_view(*self, seq![]).grammars, name@) {
                Some(i) => r matches Some(p) && *p == self.grammars@[i].profile,
                None => r is None,
            },
    {
        let want = chars_of(name);
        match find_grammar(self, want.as_slice()) {
            Some(g) => Some(&self.grammars[g].profile),
            None => None,
        }
    }
}

/// The index of the first grammar named `name`.
pub open spec fn first_grammar_named(gs: Seq<GrammarView>, name: Seq<char>) -> Option<int>
    decreases gs.len(),
{
    if gs.len() == 0 {
        None
    } else if gs[0].name == name {
        Some(0)
    } else {
        match first_grammar_named(gs.drop_first(), name) {
            Some(i) => Some(i + 1),
            None => None,
        }
    }
}

/// The index of the first magic declaration named `name`.
pub open spec fn first_magic_named(ms: Seq<MagicView>, name: Seq<char>) -> Option<int>
    decreases ms.len(),
{
    if ms.len() == 0 {
        None
    } else if ms[0].name == name {
        Some(0)
    } else {
        match first_magic_named(ms.drop_first(), name) {
            Some(i) => Some(i + 1),
            None => None,
        }
    }
}

pub proof fn lemma_first_named_is(gs: Seq<GrammarView>, name: Seq<char>, k: int)
    requires
        0 <= k <= gs.len(),
        forall|j: int| 0 <= j < k ==> #[trigger] gs[j].name != name,
    ensures
        k < gs.len() && gs[k].name == name ==> first_grammar_named(gs, name) == Some(k),
        k == gs.len() ==> first_grammar_named(gs, name) is None,
    decreases k,
{
    if k > 0 {
        assert forall|j: int| 0 <= j < k - 1 implies #[trigger] gs.drop_first()[j].name != name by {
            assert(gs.drop_first()[j] == gs[j + 1]);
        }
        lemma_first_named_is(gs.drop_first(), name, k - 1);
        if k < gs.len() {
            assert(gs.drop_first()[k - 1] == gs[k]);
        }
    }
}

pub proof fn lemma_first_magic_is(ms: Seq<MagicView>, name: Seq<char>, k: int)
    requires
        0 <= k <= ms.len(),
        forall|j: int| 0 <= j < k ==> #[trigger] ms[j].name != name,
    ensures
        k < ms.len() && ms[k].name == name ==> first_magic_named(ms, name) == Some(k),
        k == ms.len() ==> first_magic_named(ms, name) is None,
    decreases k,
{
    if k > 0 {
        assert forall|j: int| 0 <= j < k - 1 implies #[trigger] ms.drop_first()[j].name != name by {
            assert(ms.drop_first()[j] == ms[j + 1]);
        }
        lemma_first_magic_is(ms.drop_first(), name, k - 1);
        if k < ms.len() {
            assert(ms.drop_first()[k - 1] == ms[k]);
        }
    }
}

// ---------------------------------------------------------------------------
// Lexical helpers
// ---------------------------------------------------------------------------

/// The keyword's length when `src[c..]` starts with `kw` as a whole word
/// (no identifier character on either side).
pub open spec fn keyword_at(src: Seq<char>, c: int, kw: Seq<char>) -> Option<int> {
    let rest = src.skip(c);
    if !crate::text::starts_with(rest, kw) {
        None
    } else if c > 0 && is_word_char(src[c - 1]) {
        None
    } else if kw.len() < rest.len() && is_word_char(rest[kw.len() as int]) {
        None
    } else {
        Some(kw.len() as int)
    }
}

pub open spec fn starts_ident(src: Seq<char>, c: int) -> bool {
    0 <= c < src.len() && is_word_start(src[c])
}

/// Skips spaces and tabs from `c`.
pub open spec fn skip_inline_ws(src: Seq<char>, c: int) -> int
    decreases if 0 <= c < src.len() {
        src.len() - c
    } else {
        0
    },
{
    if 0 <= c < src.len() && (src[c] == ' ' || src[c] == '\t') {
        skip_inline_ws(src, c + 1)
    } else {
        c
    }
}

/// Skips whitespace and comments of `p` from `c`.
pub open spec fn scan_skip(src: Seq<char>, c: int, p: ProfileView) -> int
    decreases if 0 <= c < src.len() {
        src.len() - c
    } else {
        0
    },
{
    if c < 0 || c >= src.len() {
        c
    } else if is_ws(src[c]) {
        scan_skip(src, c + 1, p)
    } else {
        match spec_comment_len(src, c, p) {
            Some(l) => if l > 0 {
                scan_skip(src, c + l, p)
            } else {
                c
            },
            None => c,
        }
    }
}

/// The start of the next line after `c` (or the end of the text): where a
/// scan resumes after a malformed construct.
pub open spec fn advance_after_block(src: Seq<char>, c: int) -> int {
    match find_char(src.skip(c), '\n') {
        Some(o) => c + o + 1,
        None => src.len() as int,
    }
}

/// A dotted identifier path from `c` (`json`, `agent.spawn`): its segments
/// (after those in `segs`) and the position after it.
pub open spec fn dotted_from(src: Seq<char>, c: int, segs: Seq<Seq<char>>) -> Option<(Seq<Seq<char>>, int)>
    decreases if 0 <= c < src.len() {
        src.len() - c
    } else {
        0
    },
{
    if !starts_ident(src, c) {
        None
    } else {
        let e = c + word_len(src, c);
        let segs2 = segs.push(src.subrange(c, e));
        if e < src.len() && src[e] == '.' && starts_ident(src, e + 1) && e + 1 > c {
            dotted_from(src, e + 1, segs2)
        } else {
            Some((segs2, e))
        }
    }
}

pub open spec fn dotted_path(src: Seq<char>, c: int) -> Option<(Seq<Seq<char>>, int)> {
    dotted_from(src, c, seq![])
}

/// Spaces and tabs from `s` up to (not including) `e`.
pub open spec fn spaces_from(src: Seq<char>, s: int, e: int) -> int
    decreases e - s,
{
    if s < e && 0 <= s < src.len() && (src[s] == ' ' || src[s] == '\t') {
        spaces_from(src, s + 1, e)
    } else {
        s
    }
}

/// The normalized region start: leading horizontal whitespace and line
/// terminators trimmed from `s`.
pub open spec fn region_front(src: Seq<char>, s: int, e: int) -> int
    decreases if 0 <= s < src.len() {
        src.len() - s
    } else {
        0
    },
{
    if s < 0 {
        s
    } else {
        let s1 = spaces_from(src, s, e);
        if s1 < s {
            s
        } else if s1 + 1 < src.len() && src[s1] == '\r' && src[s1 + 1] == '\n' {
            region_front(src, s1 + 2, e)
        } else if s1 < src.len() && (src[s1] == '\n' || src[s1] == '\r') {
            region_front(src, s1 + 1, e)
        } else {
            s1
        }
    }
}

/// Trailing spaces and tabs before `e`, not below `s`.
pub open spec fn back_spaces(src: Seq<char>, s: int, e: int) -> int
    decreases e - s,
{
    if e > s && 0 < e <= src.len() && (src[e - 1] == ' ' || src[e - 1] == '\t') {
        back_spaces(src, s, e - 1)
    } else {
        e
    }
}

/// The normalized region end: trailing horizontal whitespace and line
/// terminators trimmed before `e`, not below `s`.
pub open spec fn region_back(src: Seq<char>, s: int, e: int) -> int
    decreases e - s,
{
    let e1 = back_spaces(src, s, e);
    if e1 > e {
        e
    } else if e1 >= s + 2 && 0 < e1 <= src.len() && src[e1 - 2] == '\r' && src[e1 - 1] == '\n' {
        region_back(src, s, e1 - 2)
    } else if e1 > s && 0 < e1 <= src.len() && (src[e1 - 1] == '\n' || src[e1 - 1] == '\r') {
        region_back(src, s, e1 - 1)
    } else {
        e1
    }
}

/// The normalized region of braces at `open` and `close`: its span and text.
pub open spec fn normalize_region(src: Seq<char>, open: int, close: int) -> (Span, Seq<char>) {
    let start = region_front(src, open + 1, close);
    let end = region_back(src, start, close);
    let stop = if end > start {
        end
    } else {
        start
    };
    (Span { start: start as usize, end: stop as usize }, src.subrange(start, stop))
}

/// The grammar name of a declared pattern's entry rule reference: the first
/// identifier segment after leading whitespace (`json.value as v` → `json`).
pub open spec fn entry_grammar_name(pattern: Seq<char>) -> Option<Seq<char>> {
    let c = crate::text::leading_count(pattern, crate::text::ws_pred()) as int;
    if !starts_ident(pattern, c) {
        None
    } else {
        match dotted_path(pattern, c) {
            Some((path, _)) => Some(path[0]),
            None => None,
        }
    }
}

/// The profile an invocation of `name` is balanced under: the entry
/// grammar's profile (with the default `"` string form when it declares
/// none), or the default profile for unknown macros or grammars.
pub open spec fn composed_region_profile(st: ScanState, name: Seq<char>) -> ProfileView {
    let grammar = match first_magic_named(st.magics, name) {
        Some(m) => match entry_grammar_name(st.magics[m].pattern) {
            Some(g) => first_grammar_named(st.grammars, g),
            None => None,
        },
        None => None,
    };
    match grammar {
        Some(g) => {
            let p = st.grammars[g].profile;
            if p.strings.len() > 0 {
                p
            } else {
                ProfileView { strings: seq![plain_string_form('"')], ..p }
            }
        },
        None => spec_default_profile(),
    }
}

pub open spec fn join_dots(path: Seq<Seq<char>>) -> Seq<char> {
    crate::mods::join(path, "."@)
}


// ---------------------------------------------------------------------------
// Scan semantics
// ---------------------------------------------------------------------------

pub open spec fn empty_profile() -> ProfileView {
    ProfileView {
        skip: crate::mega::profile::CharSetView { negated: false, items: seq![] },
        comments: seq![],
        strings: seq![],
    }
}

/// A `grammar name { … }` declaration whose keyword spans `klen` characters
/// at `kpos`: the position after it (or `None` after recording an error),
/// and the updated scan.
pub open spec fn grammar_step(src: Seq<char>, kpos: int, klen: int, st: ScanState) -> (Option<int>, ScanState) {
    let c = scan_skip(src, skip_inline_ws(src, kpos + klen), cm());
    match dotted_path(src, c) {
        None => (None, with_error(st, "expected a grammar name after `grammar`"@, Span { start: c as usize, end: c as usize })),
        Some((name, after)) => if name.len() != 1 {
            (None, with_error(st, "a grammar name must be a single identifier"@, Span { start: c as usize, end: after as usize }))
        } else {
            let open = scan_skip(src, after, cm());
            if !(0 <= open < src.len() && src[open] == '{') {
                (None, with_error(st, "expected `{` to open the grammar body"@, Span { start: open as usize, end: open as usize }))
            } else {
                match spec_balance(src, open, '{', '}', cm()) {
                    Walked::Found(close) => {
                        let body_span = Span { start: (open + 1) as usize, end: close as usize };
                        let body = src.subrange(open + 1, close);
                        let (profile, st2) = match spec_parse_profile(body) {
                            Ok(p) => (p, st),
                            Err((m, off)) => (empty_profile(), with_error(st, m, offset_span(body_span, off))),
                        };
                        (
                            Some(close + 1),
                            ScanState {
                                grammars: st2.grammars.push(
                                    GrammarView {
                                        name: name[0],
                                        span: Span { start: kpos as usize, end: (close + 1) as usize },
                                        body_span,
                                        body,
                                        profile,
                                    },
                                ),
                                ..st2
                            },
                        )
                    },
                    _ => (None, with_error(st, unclosed_message('{', '}'), Span { start: open as usize, end: (open + 1) as usize })),
                }
            }
        },
    }
}

/// A `magic name(pattern) { template }` declaration at `kpos`.
pub open spec fn magic_decl_step(src: Seq<char>, kpos: int, st: ScanState) -> (Option<int>, ScanState) {
    let c = scan_skip(src, skip_inline_ws(src, kpos + 5), cm());
    match dotted_path(src, c) {
        None => (None, with_error(st, "expected a macro name after `magic`"@, Span { start: c as usize, end: c as usize })),
        Some((name, after)) => {
            let po = scan_skip(src, after, cm());
            if !(0 <= po < src.len() && src[po] == '(') {
                (None, with_error(st, "expected `(` to open the magic pattern"@, Span { start: po as usize, end: po as usize }))
            } else {
                match spec_balance(src, po, '(', ')', cm()) {
                    Walked::Found(pc) => {
                        let to = scan_skip(src, pc + 1, cm());
                        if !(0 <= to < src.len() && src[to] == '{') {
                            (None, with_error(st, "expected `{` to open the magic template"@, Span { start: to as usize, end: to as usize }))
                        } else {
                            match spec_balance(src, to, '{', '}', cm()) {
                                Walked::Found(tc) => (
                                    Some(tc + 1),
                                    ScanState {
                                        magics: st.magics.push(
                                            MagicView {
                                                name: join_dots(name),
                                                span: Span { start: kpos as usize, end: (tc + 1) as usize },
                                                pattern_span: Span { start: (po + 1) as usize, end: pc as usize },
                                                pattern: src.subrange(po + 1, pc),
                                                template_span: Span { start: (to + 1) as usize, end: tc as usize },
                                                template: src.subrange(to + 1, tc),
                                            },
                                        ),
                                        ..st
                                    },
                                ),
                                _ => (None, with_error(st, unclosed_message('{', '}'), Span { start: to as usize, end: (to + 1) as usize })),
                            }
                        }
                    },
                    _ => (None, with_error(st, unclosed_message('(', ')'), Span { start: po as usize, end: (po + 1) as usize })),
                }
            }
        },
    }
}

/// A `magic(name) { region }` invocation at `kpos`. A region that its
/// grammar's profile cannot balance (no closing brace, or string islands
/// that never let the walk close) is reported as unclosed.
pub open spec fn invocation_step(src: Seq<char>, kpos: int, st: ScanState) -> (Option<int>, ScanState) {
    let c = scan_skip(src, skip_inline_ws(src, kpos + 5) + 1, cm());
    match dotted_path(src, c) {
        None => (None, with_error(st, "expected a macro name inside `magic(…)`"@, Span { start: c as usize, end: c as usize })),
        Some((path, after)) => {
            let c2 = scan_skip(src, after, cm());
            if !(0 <= c2 < src.len() && src[c2] == ')') {
                (None, with_error(st, "expected `)` to close `magic(…)`"@, Span { start: c2 as usize, end: c2 as usize }))
            } else {
                let c3 = scan_skip(src, c2 + 1, cm());
                let header_span = Span { start: kpos as usize, end: c3 as usize };
                if !(0 <= c3 < src.len() && src[c3] == '{') {
                    (None, with_error(st, "expected `{` to open the magic region"@, Span { start: c3 as usize, end: c3 as usize }))
                } else {
                    let profile = composed_region_profile(st, join_dots(path));
                    match spec_balance(src, c3, '{', '}', profile) {
                        Walked::Found(rc) => {
                            let (region_span, region) = normalize_region(src, c3, rc);
                            (
                                Some(rc + 1),
                                ScanState {
                                    invocations: st.invocations.push(
                                        InvocationView {
                                            name: join_dots(path),
                                            span: Span { start: kpos as usize, end: (rc + 1) as usize },
                                            header_span,
                                            region_span,
                                            region,
                                        },
                                    ),
                                    ..st
                                },
                            )
                        },
                        _ => (None, with_error(st, unclosed_message('{', '}'), Span { start: c3 as usize, end: (c3 + 1) as usize })),
                    }
                }
            }
        },
    }
}

/// One step of the scan at `c`: where it resumes and the updated scan.
pub open spec fn scan_step(src: Seq<char>, c: int, st: ScanState) -> (int, ScanState) {
    match spec_comment_len(src, c, cm()) {
        Some(l) => (c + l, st),
        None => match spec_string_len(src, c, cm()) {
            Walked::Found(l) => (c + l, st),
            _ => match keyword_at(src, c, "grammar"@) {
                Some(w) => {
                    let (end, st2) = grammar_step(src, c, w, st);
                    (
                        match end {
                            Some(e) => e,
                            None => advance_after_block(src, c),
                        },
                        st2,
                    )
                },
                None => match keyword_at(src, c, "magic"@) {
                    Some(w) => {
                        let next = skip_inline_ws(src, c + w);
                        let (end, st2) = if 0 <= next < src.len() && src[next] == '(' {
                            invocation_step(src, c, st)
                        } else if starts_ident(src, next) {
                            magic_decl_step(src, c, st)
                        } else {
                            (
                                None,
                                with_error(
                                    st,
                                    "expected `(` or a macro name after `magic`"@,
                                    Span { start: c as usize, end: (c + w) as usize },
                                ),
                            )
                        };
                        (
                            match end {
                                Some(e) => e,
                                None => advance_after_block(src, c),
                            },
                            st2,
                        )
                    },
                    None => (c + 1, st),
                },
            },
        },
    }
}

/// The scan from `c` with `st` found so far. Every step advances.
pub open spec fn scan_from(src: Seq<char>, c: int, st: ScanState) -> ScanState
    decreases if 0 <= c < src.len() {
        src.len() - c
    } else {
        0
    },
{
    if c < 0 || c >= src.len() {
        st
    } else {
        let (next, st2) = scan_step(src, c, st);
        if next > c {
            scan_from(src, next, st2)
        } else {
            st2
        }
    }
}

/// What scanning `src` finds.
pub open spec fn spec_scan_magic(src: Seq<char>) -> ScanState {
    scan_from(src, 0, empty_scan())
}


// ---------------------------------------------------------------------------
// Scanner
// ---------------------------------------------------------------------------

/// Balancing under the Checkmate scan profile always finishes.
pub proof fn lemma_cm_balance_finishes(src: Seq<char>, cursor: int, depth: int, open: char, close: char)
    ensures
        !(crate::mega::profile::balance_from(src, cursor, depth, open, close, cm()) is Stuck),
    decreases if 0 <= cursor < src.len() {
        src.len() - cursor
    } else {
        0
    },
{
    if 0 <= cursor < src.len() {
        lemma_cm_comments_advance();
        lemma_comment_len_positive(src, cursor, cm());
        assert forall|i: int| 0 <= i < cm().strings.len() implies (#[trigger] cm().strings[i]).island is None by {}
        lemma_plain_strings_never_stuck(src, cursor, cm());
        lemma_form_for_quote_bound(cm().strings, src[cursor]);
        match form_for_quote(cm().strings, src[cursor]) {
            Some(i) => {
                lemma_plain_string_found_positive(src, cursor, cursor + 1, cm().strings[i]);
            },
            None => {},
        }
        match spec_comment_len(src, cursor, cm()) {
            Some(l) => {
                lemma_cm_balance_finishes(src, cursor + l, depth, open, close);
            },
            None => match spec_string_len(src, cursor, cm()) {
                Walked::Found(l) => {
                    lemma_cm_balance_finishes(src, cursor + l, depth, open, close);
                },
                _ => {
                    lemma_cm_balance_finishes(src, cursor + 1, depth + 1, open, close);
                    lemma_cm_balance_finishes(src, cursor + 1, depth - 1, open, close);
                    lemma_cm_balance_finishes(src, cursor + 1, depth, open, close);
                },
            },
        }
    }
}

fn keyword_at_exec(src: &[char], c: usize, kw: &str) -> (r: Option<usize>)
    requires
        c <= src@.len(),
    ensures
        match r {
            Some(l) => keyword_at(src@, c as int, kw@) == Some(l as int) && c + l <= src@.len(),
            None => keyword_at(src@, c as int, kw@) is None,
        },
{
    let k = chars_of(kw);
    if !crate::text::starts_with_at(src, c, k.as_slice()) {
        return None;
    }
    if c > 0 && crate::text::char_is_word(src[c - 1]) {
        return None;
    }
    let after = c + k.len();
    assert(src@.skip(c as int)[k@.len() as int] == src@[after as int] || after >= src@.len());
    if after < src.len() && crate::text::char_is_word(src[after]) {
        return None;
    }
    Some(k.len())
}

fn skip_inline_ws_exec(src: &[char], c: usize) -> (r: usize)
    requires
        c <= src@.len(),
    ensures
        r == skip_inline_ws(src@, c as int),
        c <= r <= src@.len(),
{
    let mut i = c;
    while i < src.len() && (src[i] == ' ' || src[i] == '\t')
        invariant
            c <= i <= src@.len(),
            skip_inline_ws(src@, c as int) == skip_inline_ws(src@, i as int),
        decreases src.len() - i,
    {
        i += 1;
    }
    i
}

fn scan_skip_exec(src: &[char], c: usize, profile: &LexProfile) -> (r: usize)
    requires
        c <= src@.len(),
        comments_advance(profile@),
    ensures
        r == scan_skip(src@, c as int, profile@),
        c <= r <= src@.len(),
{
    let n = src.len();
    let mut i = c;
    while i < n
        invariant
            n == src@.len(),
            c <= i <= n,
            comments_advance(profile@),
            scan_skip(src@, c as int, profile@) == scan_skip(src@, i as int, profile@),
        decreases n - i,
    {
        if crate::text::char_is_whitespace(src[i]) {
            i += 1;
            continue ;
        }
        match comment_len(src, i, profile) {
            Some(l) => {
                proof {
                    lemma_comment_len_positive(src@, i as int, profile@);
                }
                i += l;
            },
            None => {
                return i;
            },
        }
    }
    i
}

fn advance_after_block_exec(src: &[char], c: usize) -> (r: usize)
    requires
        c <= src@.len(),
    ensures
        r == advance_after_block(src@, c as int),
        c < r || c == src@.len(),
        r <= src@.len(),
{
    let n = src.len();
    let mut i = c;
    while i < n && src[i] != '\n'
        invariant
            n == src@.len(),
            c <= i <= n,
            forall|k: int| 0 <= k < i - c ==> #[trigger] src@.skip(c as int)[k] != '\n',
        decreases n - i,
    {
        assert(src@.skip(c as int)[i - c] == src@[i as int]);
        i += 1;
    }
    if i < n {
        proof {
            assert(src@.skip(c as int)[i - c] == src@[i as int]);
            crate::text::lemma_find_char_is(src@.skip(c as int), '\n', i - c);
        }
        i + 1
    } else {
        proof {
            crate::text::lemma_find_char_none(src@.skip(c as int), '\n');
        }
        n
    }
}

pub open spec fn segs_view(v: Seq<Vec<char>>) -> Seq<Seq<char>> {
    v.map_values(|x: Vec<char>| x@)
}

fn dotted_path_exec(src: &[char], c: usize) -> (r: Option<(Vec<Vec<char>>, usize)>)
    requires
        c <= src@.len(),
    ensures
        match r {
            Some((segs, e)) => dotted_path(src@, c as int) == Some((segs_view(segs@), e as int)) && c < e
                <= src@.len() && segs@.len() > 0,
            None => dotted_path(src@, c as int) is None,
        },
{
    let n = src.len();
    let mut segs: Vec<Vec<char>> = Vec::new();
    let mut i = c;
    assert(segs_view(segs@) =~= seq![]);
    loop
        invariant
            n == src@.len(),
            c <= i <= n,
            i == c ==> segs@.len() == 0,
            i > c ==> segs@.len() > 0,
            dotted_path(src@, c as int) == dotted_from(src@, i as int, segs_view(segs@)),
        decreases n - i,
    {
        if !(i < n && crate::text::char_is_word_start(src[i])) {
            return None;
        }
        let word = crate::mega::profile::next_word(src, i);
        let e = i + word.len();
        let ghost before = segs_view(segs@);
        segs.push(word);
        assert(segs_view(segs@) =~= before.push(src@.subrange(i as int, e as int)));
        proof {
            assert(src@.skip(i as int)[0] == src@[i as int]);
            crate::text::lemma_leading_count_bound(src@.skip(i as int), crate::mega::profile::word_pred());
        }
        if e < n && src[e] == '.' && e + 1 < n && crate::text::char_is_word_start(src[e + 1]) {
            i = e + 1;
        } else {
            return Some((segs, e));
        }
    }
}

fn join_dots_exec(segs: &Vec<Vec<char>>) -> (r: Vec<char>)
    ensures
        r@ == join_dots(segs_view(segs@)),
{
    let mut r: Vec<char> = Vec::new();
    let mut k: usize = 0;
    while k < segs.len()
        invariant
            k <= segs@.len(),
            r@ == crate::mods::join(segs_view(segs@).take(k as int), "."@),
        decreases segs.len() - k,
    {
        let ghost before = segs_view(segs@).take(k as int);
        if k > 0 {
            crate::text::push_str(&mut r, ".");
        }
        crate::text::push_chars(&mut r, segs[k].as_slice());
        k += 1;
        proof {
            let now = segs_view(segs@).take(k as int);
            assert(now.drop_last() =~= before);
            assert(now.last() == segs@[k - 1]@);
            if k == 1 {
                assert(before =~= seq![]);
            }
        }
    }
    assert(segs_view(segs@).take(k as int) =~= segs_view(segs@));
    r
}

fn normalize_region_exec(src: &[char], open: usize, close: usize) -> (r: (Span, Vec<char>))
    requires
        open < close < src@.len(),
        src@[close as int] == '}',
    ensures
        (r.0, r.1@) == normalize_region(src@, open as int, close as int),
{
    let n = src.len();
    let mut start = open + 1;
    let end0 = close;
    loop
        invariant
            n == src@.len(),
            open < start <= close,
            close < n,
            end0 == close,
            src@[close as int] == '}',
            region_front(src@, open + 1, close as int) == region_front(src@, start as int, close as int),
        ensures
            open < start <= close,
            close < n,
            n == src@.len(),
            region_front(src@, open + 1, close as int) == start,
        decreases close - start,
    {
        let ghost s0 = start;
        while start < end0 && (src[start] == ' ' || src[start] == '\t')
            invariant
                s0 <= start <= end0,
                end0 < src@.len(),
                spaces_from(src@, s0 as int, end0 as int) == spaces_from(src@, start as int, end0 as int),
            decreases end0 - start,
        {
            start += 1;
        }
        if start + 1 < n && src[start] == '\r' && src[start + 1] == '\n' && start + 2 <= close {
            start += 2;
        } else if start < n && (src[start] == '\n' || src[start] == '\r') && start + 1 <= close {
            start += 1;
        } else {
            proof {
                if start + 1 < n && src@[start as int] == '\r' && src@[start + 1] == '\n' {
                    assert(start + 2 > close);
                    assert(start == close);
                }
                if start < n && (src@[start as int] == '\n' || src@[start as int] == '\r') {
                    assert(start == close);
                }
            }
            break ;
        }
    }
    assert(region_front(src@, open + 1, close as int) == start);
    let mut end = close;
    loop
        invariant
            open < start <= end <= close,
            close < src@.len(),
            region_back(src@, start as int, close as int) == region_back(src@, start as int, end as int),
        ensures
            open < start <= end <= close,
            region_back(src@, start as int, close as int) == end,
        decreases end - start,
    {
        let ghost e0 = end;
        while end > start && (src[end - 1] == ' ' || src[end - 1] == '\t')
            invariant
                start <= end <= e0,
                e0 <= close < src@.len(),
                back_spaces(src@, start as int, e0 as int) == back_spaces(src@, start as int, end as int),
            decreases end,
        {
            end -= 1;
        }
        if end - start >= 2 && src[end - 2] == '\r' && src[end - 1] == '\n' {
            end -= 2;
        } else if end > start && (src[end - 1] == '\n' || src[end - 1] == '\r') {
            end -= 1;
        } else {
            break ;
        }
    }
    assert(region_back(src@, start as int, close as int) == end);
    let stop = if end > start {
        end
    } else {
        start
    };
    let text = crate::text::slice_chars(src, start, stop);
    (Span::new(start, stop), text)
}

fn entry_grammar_name_exec(pattern: &[char]) -> (r: Option<Vec<char>>)
    ensures
        match r {
            Some(g) => entry_grammar_name(pattern@) == Some(g@),
            None => entry_grammar_name(pattern@) is None,
        },
{
    let mut c: usize = 0;
    while c < pattern.len() && crate::text::char_is_whitespace(pattern[c])
        invariant
            c <= pattern@.len(),
            forall|k: int| 0 <= k < c ==> crate::text::ws_pred()(#[trigger] pattern@[k]),
        decreases pattern.len() - c,
    {
        c += 1;
    }
    proof {
        crate::text::lemma_leading_count_is(pattern@, crate::text::ws_pred(), c as int);
    }
    if !(c < pattern.len() && crate::text::char_is_word_start(pattern[c])) {
        return None;
    }
    match dotted_path_exec(pattern, c) {
        Some((segs, _)) => {
            let first = crate::text::slice_chars(segs[0].as_slice(), 0, segs[0].len());
            assert(first@ =~= segs@[0]@);
            Some(first)
        },
        None => None,
    }
}

pub open spec fn index_opt(r: Option<usize>) -> Option<int> {
    match r {
        Some(k) => Some(k as int),
        None => None,
    }
}

/// The index of the first magic declaration named `name`.
fn find_magic(scan: &MagicScan, name: &[char]) -> (r: Option<usize>)
    ensures
        index_opt(r) == first_magic_named(scan_view(*scan, seq![]).magics, name@),
        r matches Some(m) ==> m < scan.magics@.len(),
{
    let ghost st = scan_view(*scan, seq![]);
    let mut m: usize = 0;
    while m < scan.magics.len()
        invariant
            st == scan_view(*scan, seq![]),
            m <= scan.magics@.len(),
            forall|j: int| 0 <= j < m ==> #[trigger] st.magics[j].name != name@,
        decreases scan.magics.len() - m,
    {
        let mn = chars_of(scan.magics[m].name.as_str());
        assert(st.magics[m as int].name == scan.magics@[m as int].name@);
        if crate::text::chars_eq(mn.as_slice(), name) {
            proof {
                lemma_first_magic_is(st.magics, name@, m as int);
            }
            return Some(m);
        }
        m += 1;
    }
    proof {
        lemma_first_magic_is(st.magics, name@, m as int);
    }
    None
}

/// The index of the first grammar named `name`.
fn find_grammar(scan: &MagicScan, name: &[char]) -> (r: Option<usize>)
    ensures
        index_opt(r) == first_grammar_named(scan_view(*scan, seq![]).grammars, name@),
        r matches Some(g) ==> g < scan.grammars@.len(),
{
    let ghost st = scan_view(*scan, seq![]);
    let mut g: usize = 0;
    while g < scan.grammars.len()
        invariant
            st == scan_view(*scan, seq![]),
            g <= scan.grammars@.len(),
            forall|j: int| 0 <= j < g ==> #[trigger] st.grammars[j].name != name@,
        decreases scan.grammars.len() - g,
    {
        let gn = chars_of(scan.grammars[g].name.as_str());
        assert(st.grammars[g as int].name == scan.grammars@[g as int].name@);
        if crate::text::chars_eq(gn.as_slice(), name) {
            proof {
                lemma_first_named_is(st.grammars, name@, g as int);
            }
            return Some(g);
        }
        g += 1;
    }
    proof {
        lemma_first_named_is(st.grammars, name@, g as int);
    }
    None
}

fn composed_region_profile_exec(scan: &MagicScan, name: &[char]) -> (p: LexProfile)
    ensures
        p@ == composed_region_profile(scan_view(*scan, seq![]), name@),
{
    let ghost st = scan_view(*scan, seq![]);
    let m = match find_magic(scan, name) {
        Some(m) => m,
        None => {
            return default_profile();
        },
    };
    let pattern = chars_of(scan.magics[m].pattern.as_str());
    assert(st.magics[m as int].pattern == pattern@);
    let entry = match entry_grammar_name_exec(pattern.as_slice()) {
        Some(g) => g,
        None => {
            return default_profile();
        },
    };
    let g = match find_grammar(scan, entry.as_slice()) {
        Some(g) => g,
        None => {
            return default_profile();
        },
    };
    assert(st.grammars[g as int].profile == scan.grammars@[g as int].profile@);
    with_default_strings(&scan.grammars[g].profile)
}

fn push_error(errors: &mut Vec<Diagnostic>, message: Vec<char>, span: Span)
    ensures
        diagnostics_view(final(errors)@) == diagnostics_view(old(errors)@).push(
            DiagnosticView { message: message@, span },
        ),
{
    let d = Diagnostic::parse(crate::text::string_from_chars(message.as_slice()), span);
    errors.push(d);
    assert(diagnostics_view(errors@) =~= diagnostics_view(old(errors)@).push(d@));
}

fn unclosed(open: char, close: char) -> (m: Vec<char>)
    ensures
        m@ == unclosed_message(open, close),
{
    let mut m = chars_of("unclosed `");
    m.push(open);
    crate::text::push_str(&mut m, "`: no matching `");
    m.push(close);
    crate::text::push_str(&mut m, "` before the end of the file");
    assert(m@ =~= unclosed_message(open, close));
    m
}

fn push_diagnostic(errors: &mut Vec<Diagnostic>, d: Diagnostic)
    ensures
        diagnostics_view(final(errors)@) == diagnostics_view(old(errors)@).push(d@),
{
    errors.push(d);
    assert(diagnostics_view(errors@) =~= diagnostics_view(old(errors)@).push(d@));
}

/// Scans a `grammar name { … }` declaration whose keyword spans `klen`
/// characters at `kpos`: the position just past it, or `None` after
/// recording a diagnostic.
fn scan_grammar(
    src: &[char],
    kpos: usize,
    klen: usize,
    scanner: &LexProfile,
    scan: &mut MagicScan,
    errors: &mut Vec<Diagnostic>,
) -> (r: Option<usize>)
    requires
        src@.len() < usize::MAX,
        kpos + klen <= src@.len(),
        scanner@ == cm(),
    ensures
        index_opt(r) == grammar_step(src@, kpos as int, klen as int, scan_view(*old(scan), old(errors)@)).0,
        scan_view(*final(scan), final(errors)@) == grammar_step(
            src@,
            kpos as int,
            klen as int,
            scan_view(*old(scan), old(errors)@),
        ).1,
        r matches Some(e) ==> kpos < e <= src@.len(),
{
    let ghost st = scan_view(*scan, errors@);
    proof {
        lemma_cm_comments_advance();
    }
    let c0 = skip_inline_ws_exec(src, kpos + klen);
    let c = scan_skip_exec(src, c0, scanner);
    let (name, after) = match dotted_path_exec(src, c) {
        Some(found) => found,
        None => {
            push_error(errors, chars_of("expected a grammar name after `grammar`"), Span::new(c, c));
            return None;
        },
    };
    if name.len() != 1 {
        push_error(errors, chars_of("a grammar name must be a single identifier"), Span::new(c, after));
        return None;
    }
    let open = scan_skip_exec(src, after, scanner);
    if !(open < src.len() && src[open] == '{') {
        push_error(errors, chars_of("expected `{` to open the grammar body"), Span::new(open, open));
        return None;
    }
    proof {
        lemma_cm_balance_finishes(src@, open + 1, 1, '{', '}');
    }
    match balance(src, open, '{', '}', scanner) {
        Ok(close) => {
            let body_span = Span::new(open + 1, close);
            let body = crate::text::slice_chars(src, open + 1, close);
            let profile = match parse_profile(body.as_slice(), body_span) {
                Ok(p) => p,
                Err(d) => {
                    push_diagnostic(errors, d);
                    let e = LexProfile::empty();
                    assert(e@ == empty_profile());
                    e
                },
            };
            let g = GrammarScan {
                name: crate::text::string_from_chars(name[0].as_slice()),
                span: Span::new(kpos, close + 1),
                body_span,
                body: crate::text::string_from_chars(body.as_slice()),
                profile,
            };
            let ghost mid = scan_view(*scan, errors@);
            scan.grammars.push(g);
            proof {
                let now = scan_view(*scan, errors@);
                assert(now.grammars =~= mid.grammars.push(g@));
                assert(now.magics =~= mid.magics);
                assert(now.invocations =~= mid.invocations);
                assert(segs_view(name@)[0] == name@[0]@);
            }
            Some(close + 1)
        },
        Err(e) => {
            push_diagnostic(errors, Diagnostic::parse(e.message, e.span));
            None
        },
    }
}

/// Scans a `magic name(pattern) { template }` declaration at `kpos`: the
/// position just past it, or `None` after recording a diagnostic.
fn scan_magic_decl(
    src: &[char],
    kpos: usize,
    scanner: &LexProfile,
    scan: &mut MagicScan,
    errors: &mut Vec<Diagnostic>,
) -> (r: Option<usize>)
    requires
        src@.len() < usize::MAX,
        kpos + 5 <= src@.len(),
        scanner@ == cm(),
    ensures
        index_opt(r) == magic_decl_step(src@, kpos as int, scan_view(*old(scan), old(errors)@)).0,
        scan_view(*final(scan), final(errors)@) == magic_decl_step(
            src@,
            kpos as int,
            scan_view(*old(scan), old(errors)@),
        ).1,
        r matches Some(e) ==> kpos < e <= src@.len(),
{
    proof {
        lemma_cm_comments_advance();
    }
    let c0 = skip_inline_ws_exec(src, kpos + 5);
    let c = scan_skip_exec(src, c0, scanner);
    let (name, after) = match dotted_path_exec(src, c) {
        Some(found) => found,
        None => {
            push_error(errors, chars_of("expected a macro name after `magic`"), Span::new(c, c));
            return None;
        },
    };
    let po = scan_skip_exec(src, after, scanner);
    if !(po < src.len() && src[po] == '(') {
        push_error(errors, chars_of("expected `(` to open the magic pattern"), Span::new(po, po));
        return None;
    }
    proof {
        lemma_cm_balance_finishes(src@, po + 1, 1, '(', ')');
    }
    let pc = match balance(src, po, '(', ')', scanner) {
        Ok(pc) => pc,
        Err(e) => {
            push_diagnostic(errors, Diagnostic::parse(e.message, e.span));
            return None;
        },
    };
    let to = scan_skip_exec(src, pc + 1, scanner);
    if !(to < src.len() && src[to] == '{') {
        push_error(errors, chars_of("expected `{` to open the magic template"), Span::new(to, to));
        return None;
    }
    proof {
        lemma_cm_balance_finishes(src@, to + 1, 1, '{', '}');
    }
    let tc = match balance(src, to, '{', '}', scanner) {
        Ok(tc) => tc,
        Err(e) => {
            push_diagnostic(errors, Diagnostic::parse(e.message, e.span));
            return None;
        },
    };
    let joined = join_dots_exec(&name);
    let pattern = crate::text::slice_chars(src, po + 1, pc);
    let template = crate::text::slice_chars(src, to + 1, tc);
    let m = MagicDeclScan {
        name: crate::text::string_from_chars(joined.as_slice()),
        span: Span::new(kpos, tc + 1),
        pattern_span: Span::new(po + 1, pc),
        pattern: crate::text::string_from_chars(pattern.as_slice()),
        template_span: Span::new(to + 1, tc),
        template: crate::text::string_from_chars(template.as_slice()),
    };
    let ghost mid = scan_view(*scan, errors@);
    scan.magics.push(m);
    proof {
        let now = scan_view(*scan, errors@);
        assert(now.magics =~= mid.magics.push(m@));
        assert(now.grammars =~= mid.grammars);
        assert(now.invocations =~= mid.invocations);
    }
    Some(tc + 1)
}

/// Scans a `magic(name) { region }` invocation at `kpos`. The region is
/// balanced under the composed profile of the macro's entry grammar; an
/// unknown macro falls back to the default profile. Returns the position
/// just past the invocation, or `None` after recording a diagnostic.
fn scan_invocation(
    src: &[char],
    kpos: usize,
    scanner: &LexProfile,
    scan: &mut MagicScan,
    errors: &mut Vec<Diagnostic>,
) -> (r: Option<usize>)
    requires
        src@.len() < usize::MAX,
        kpos + 5 <= src@.len(),
        skip_inline_ws(src@, kpos + 5) < src@.len(),
        scanner@ == cm(),
    ensures
        index_opt(r) == invocation_step(src@, kpos as int, scan_view(*old(scan), old(errors)@)).0,
        scan_view(*final(scan), final(errors)@) == invocation_step(
            src@,
            kpos as int,
            scan_view(*old(scan), old(errors)@),
        ).1,
        r matches Some(e) ==> kpos < e <= src@.len(),
{
    let ghost st = scan_view(*scan, errors@);
    proof {
        lemma_cm_comments_advance();
    }
    let c0 = skip_inline_ws_exec(src, kpos + 5);
    let c = scan_skip_exec(src, c0 + 1, scanner);
    let (path, after) = match dotted_path_exec(src, c) {
        Some(found) => found,
        None => {
            push_error(errors, chars_of("expected a macro name inside `magic(…)`"), Span::new(c, c));
            return None;
        },
    };
    let c2 = scan_skip_exec(src, after, scanner);
    if !(c2 < src.len() && src[c2] == ')') {
        push_error(errors, chars_of("expected `)` to close `magic(…)`"), Span::new(c2, c2));
        return None;
    }
    let c3 = scan_skip_exec(src, c2 + 1, scanner);
    let header_span = Span::new(kpos, c3);
    if !(c3 < src.len() && src[c3] == '{') {
        push_error(errors, chars_of("expected `{` to open the magic region"), Span::new(c3, c3));
        return None;
    }
    let name = join_dots_exec(&path);
    let profile = composed_region_profile_exec(scan, name.as_slice());
    assert(profile@ == composed_region_profile(st, name@));
    proof {
        crate::mega::profile::lemma_balance_found(src@, c3 + 1, 1, '{', '}', profile@);
    }
    let rc = match balance_walk(src, c3, '{', '}', &profile) {
        Outcome::Found(rc) => rc,
        _ => {
            let e = unclosed_error(c3, '{', '}');
            push_diagnostic(errors, Diagnostic::parse(e.message, e.span));
            return None;
        },
    };
    let (region_span, region) = normalize_region_exec(src, c3, rc);
    let inv = InvocationScan {
        name: crate::text::string_from_chars(name.as_slice()),
        span: Span::new(kpos, rc + 1),
        header_span,
        region_span,
        region: crate::text::string_from_chars(region.as_slice()),
    };
    let ghost mid = scan_view(*scan, errors@);
    scan.invocations.push(inv);
    proof {
        let now = scan_view(*scan, errors@);
        assert(now.invocations =~= mid.invocations.push(inv@));
        assert(now.grammars =~= mid.grammars);
        assert(now.magics =~= mid.magics);
    }
    Some(rc + 1)
}

/// One step of the scan at `cursor`: where the scan resumes.
fn scan_step_exec(
    src: &[char],
    cursor: usize,
    scanner: &LexProfile,
    scan: &mut MagicScan,
    errors: &mut Vec<Diagnostic>,
) -> (r: usize)
    requires
        src@.len() < usize::MAX,
        cursor < src@.len(),
        scanner@ == cm(),
    ensures
        r == scan_step(src@, cursor as int, scan_view(*old(scan), old(errors)@)).0,
        cursor < r <= src@.len(),
        scan_view(*final(scan), final(errors)@) == scan_step(
            src@,
            cursor as int,
            scan_view(*old(scan), old(errors)@),
        ).1,
{
    let n = src.len();
    proof {
        lemma_cm_comments_advance();
        reveal_strlit("magic");
        reveal_strlit("grammar");
    }
    match comment_len(src, cursor, scanner) {
        Some(l) => {
            proof {
                lemma_comment_len_positive(src@, cursor as int, cm());
            }
            return cursor + l;
        },
        None => {},
    }
    proof {
        assert forall|i: int| 0 <= i < cm().strings.len() implies (#[trigger] cm().strings[i]).island is None by {}
        lemma_plain_strings_never_stuck(src@, cursor as int, cm());
    }
    match string_len(src, cursor, scanner) {
        Some(l) => {
            return cursor + l;
        },
        None => {},
    }
    match keyword_at_exec(src, cursor, "grammar") {
        Some(w) => {
            let end = scan_grammar(src, cursor, w, scanner, scan, errors);
            return match end {
                Some(e) => e,
                None => advance_after_block_exec(src, cursor),
            };
        },
        None => {},
    }
    match keyword_at_exec(src, cursor, "magic") {
        Some(w) => {
            let next = skip_inline_ws_exec(src, cursor + w);
            let end = if next < n && src[next] == '(' {
                scan_invocation(src, cursor, scanner, scan, errors)
            } else if next < n && crate::text::char_is_word_start(src[next]) {
                scan_magic_decl(src, cursor, scanner, scan, errors)
            } else {
                push_error(
                    errors,
                    chars_of("expected `(` or a macro name after `magic`"),
                    Span::new(cursor, cursor + w),
                );
                None
            };
            return match end {
                Some(e) => e,
                None => advance_after_block_exec(src, cursor),
            };
        },
        None => {},
    }
    cursor + 1
}

/// Scans `source` for megaprogram constructs. Never fails: a malformed
/// construct produces a diagnostic and the scan resumes at the next line.
/// Positions in the result are character offsets into `source`.
pub fn scan_magic(source: &str) -> (r: (MagicScan, Vec<Diagnostic>))
    requires
        source@.len() < usize::MAX,
    ensures
        scan_view(r.0, r.1@) == spec_scan_magic(source@),
{
    let chars = chars_of(source);
    let src = chars.as_slice();
    let n = src.len();
    let scanner = checkmate_scan_profile();
    let mut scan = MagicScan::new();
    let mut errors: Vec<Diagnostic> = Vec::new();
    assert(scan_view(scan, errors@) == empty_scan()) by {
        assert(diagnostics_view(errors@) =~= seq![]);
    }
    let mut cursor: usize = 0;
    while cursor < n
        invariant
            n == src@.len(),
            src@ == source@,
            n < usize::MAX,
            cursor <= n,
            scanner@ == cm(),
            spec_scan_magic(source@) == scan_from(src@, cursor as int, scan_view(scan, errors@)),
        decreases n - cursor,
    {
        cursor = scan_step_exec(src, cursor, &scanner, &mut scan, &mut errors);
    }
    (scan, errors)
}

} // verus!
