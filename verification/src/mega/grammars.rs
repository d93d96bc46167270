//! Compiling the scanned grammar declarations into rule sets: each grammar
//! body is read for its `rule` declarations, and a synthetic default
//! grammar is appended to host inline entry patterns.

use vstd::prelude::*;

use crate::diagnostics::{Diagnostic, DiagnosticView, Span, diagnostics_view};
use crate::mega::ctxexpr::{at, trivia, trivia_end};
use crate::mega::pattern::{
    ContextField, ElemView, FieldView, FragKind, FragView, KindView, PatElem, PatKind, Pattern, PatternView, branches_view, elems_view,
    fields_view, kind_view, lemma_branches_view_index, lemma_branches_view_len, lemma_elems_view_index,
    lemma_elems_view_len, parse_rule_declaration, pattern_view, spec_rule_declaration,
};
use crate::mega::profile::{
    LexProfile, ProfileView, checkmate_scan_profile, cm, default_profile, lemma_skip_wsc_bounds,
    plain_string_form, set_matches, spec_default_profile, with_default_strings,
};
use crate::mega::scan::{GrammarView, MagicDeclScan, MagicScan, MagicView, ScanState, scan_view};
use crate::mega::template::{
    Template, TemplateView, at_word, at_word_exec, parse_template, spec_parse_template, template_view,
};
use crate::mega::pattern::{parse_pattern, spec_parse_pattern};
use crate::order::strings_view;
use crate::text::{chars_of, push_chars, push_str, string_from_chars};

verus! {

/// One compiled rule: its name, declared context fields and pattern.
pub struct CompiledRule {
    pub name: String,
    pub context: Vec<ContextField>,
    pub pattern: Pattern,
}

/// One compiled grammar: its name, effective profile and rules.
pub struct CompiledGrammar {
    pub name: String,
    pub profile: LexProfile,
    pub rules: Vec<CompiledRule>,
}

/// The grammars of a file, in declaration order, then the default grammar.
pub struct GrammarSet {
    pub grammars: Vec<CompiledGrammar>,
}

pub struct RuleView {
    pub name: Seq<char>,
    pub context: Seq<FieldView>,
    pub pattern: PatternView,
}

pub struct CompiledGrammarView {
    pub name: Seq<char>,
    pub profile: ProfileView,
    pub rules: Seq<RuleView>,
}

pub open spec fn rule_view(r: CompiledRule) -> RuleView {
    RuleView { name: r.name@, context: fields_view(r.context@), pattern: pattern_view(r.pattern) }
}

pub open spec fn rules_view(s: Seq<CompiledRule>) -> Seq<RuleView> {
    s.map_values(|r: CompiledRule| rule_view(r))
}

pub open spec fn compiled_view(g: CompiledGrammar) -> CompiledGrammarView {
    CompiledGrammarView { name: g.name@, profile: g.profile@, rules: rules_view(g.rules@) }
}

impl View for GrammarSet {
    type V = Seq<CompiledGrammarView>;

    open spec fn view(&self) -> Seq<CompiledGrammarView> {
        self.grammars@.map_values(|g: CompiledGrammar| compiled_view(g))
    }
}

/// The rules of a grammar body from `c`, after `rules`: `rule`
/// declarations are read in order, other text is passed over; the first
/// malformed declaration ends the body with its diagnostic.
pub open spec fn rules_from(body: Seq<char>, c: int, span: Span, rules: Seq<RuleView>) -> (
    Seq<RuleView>,
    Option<DiagnosticView>,
)
    decreases body.len() - c,
    when 0 <= c <= body.len()
{
    proof {
        lemma_skip_wsc_bounds(body, c, cm());
    }
    let probe = trivia_end(body, c);
    if probe >= body.len() {
        (rules, None)
    } else if at_word(body, probe, "rule"@) {
        match spec_rule_declaration(body, probe, span) {
            Err(e) => (rules, Some(e)),
            Ok((name, context, pattern, end)) => {
                let rules2 = rules.push(RuleView { name, context, pattern });
                if c < end <= body.len() {
                    rules_from(body, end, span, rules2)
                } else {
                    (rules2, None)
                }
            },
        }
    } else {
        rules_from(body, probe + 1, span, rules)
    }
}

/// The profile a compiled grammar matches with: its declared profile, with
/// the default `"` string form when it declares none.
pub open spec fn effective_profile(p: ProfileView) -> ProfileView {
    if p.strings.len() > 0 {
        p
    } else {
        ProfileView { strings: seq![plain_string_form('"')], ..p }
    }
}

pub open spec fn option_seq(e: Option<DiagnosticView>) -> Seq<DiagnosticView> {
    match e {
        Some(d) => seq![d],
        None => seq![],
    }
}

/// The compiled form of one scanned grammar and the diagnostic its body
/// gave, if any.
pub open spec fn compile_one(g: GrammarView) -> (CompiledGrammarView, Option<DiagnosticView>) {
    let (rules, err) = rules_from(g.body, 0, g.body_span, seq![]);
    (CompiledGrammarView { name: g.name, profile: effective_profile(g.profile), rules }, err)
}

/// The first `n` grammars compiled, and their diagnostics in order.
pub open spec fn compile_prefix(gs: Seq<GrammarView>, n: int) -> (Seq<CompiledGrammarView>, Seq<DiagnosticView>)
    decreases n,
{
    if n <= 0 {
        (seq![], seq![])
    } else {
        let (a, b) = compile_prefix(gs, n - 1);
        let (g, e) = compile_one(gs[n - 1]);
        (a.push(g), b + option_seq(e))
    }
}

/// The synthetic grammar that hosts inline entry patterns.
pub open spec fn default_grammar_view() -> CompiledGrammarView {
    CompiledGrammarView { name: seq!['\u{0}'] + "default"@, profile: spec_default_profile(), rules: seq![] }
}

/// Every scanned grammar compiled in order, then the default grammar; and
/// the diagnostics of the grammar bodies.
pub open spec fn spec_compile_grammars(st: ScanState) -> (Seq<CompiledGrammarView>, Seq<DiagnosticView>) {
    let (a, b) = compile_prefix(st.grammars, st.grammars.len() as int);
    (a.push(default_grammar_view()), b)
}

/// A grammar body fits the offsets of its span.
pub open spec fn body_fits(g: GrammarView) -> bool {
    g.body.len() < usize::MAX && g.body_span.start + g.body.len() <= usize::MAX
}

fn compile_rules(body: &[char], span: Span, diagnostics: &mut Vec<Diagnostic>) -> (rules: Vec<CompiledRule>)
    requires
        body@.len() < usize::MAX,
        span.start + body@.len() <= usize::MAX,
    ensures
        rules_view(rules@) == rules_from(body@, 0, span, seq![]).0,
        diagnostics_view(final(diagnostics)@) == diagnostics_view(old(diagnostics)@) + option_seq(
            rules_from(body@, 0, span, seq![]).1,
        ),
{
    proof {
        reveal_strlit("rule");
    }
    let sc = checkmate_scan_profile();
    let n = body.len();
    let mut rules: Vec<CompiledRule> = Vec::new();
    let mut c: usize = 0;
    assert(rules_view(rules@) =~= seq![]);
    loop
        invariant
            c <= n,
            n == body@.len(),
            n < usize::MAX,
            span.start + n <= usize::MAX,
            sc@ == cm(),
            rules_from(body@, 0, span, seq![]) == rules_from(body@, c as int, span, rules_view(rules@)),
            diagnostics@ == old(diagnostics)@,
        decreases n - c,
    {
        let probe = trivia(body, c, &sc);
        if probe >= n {
            assert(option_seq(None) =~= seq![]);
            assert(diagnostics_view(diagnostics@) =~= diagnostics_view(old(diagnostics)@) + seq![]);
            return rules;
        }
        if at_word_exec(body, probe, "rule") {
            proof {
                reveal_strlit("rule");
                assert(probe + 4 <= n) by {
                    assert(at(body@, probe as int, "rule"@));
                }
            }
            match parse_rule_declaration(body, probe, span) {
                Err(e) => {
                    let ghost d = e@;
                    diagnostics.push(e);
                    assert(diagnostics_view(diagnostics@) =~= diagnostics_view(old(diagnostics)@) + seq![d]);
                    return rules;
                },
                Ok((name, context, pattern, end)) => {
                    let rule = CompiledRule { name, context, pattern };
                    let ghost before = rules@;
                    rules.push(rule);
                    assert(rules_view(rules@) =~= rules_view(before).push(rule_view(rule)));
                    if c < end && end <= n {
                        c = end;
                    } else {
                        assert(diagnostics_view(diagnostics@) =~= diagnostics_view(old(diagnostics)@) + seq![]);
                        return rules;
                    }
                },
            }
        } else {
            c = probe + 1;
        }
    }
}

/// Compiles every scanned grammar: its profile (with the default `"`
/// string form when it declares none) and the `rule` declarations of its
/// body, in order; a malformed declaration is reported and ends that body.
/// The default grammar for inline entry patterns comes last.
pub fn compile_grammars(scan: &MagicScan, diagnostics: &mut Vec<Diagnostic>) -> (r: GrammarSet)
    requires
        forall|i: int| 0 <= i < scan.grammars@.len() ==> body_fits(#[trigger] scan.grammars@[i]@),
    ensures
        r@ == spec_compile_grammars(scan_view(*scan, seq![])).0,
        diagnostics_view(final(diagnostics)@) == diagnostics_view(old(diagnostics)@)
            + spec_compile_grammars(scan_view(*scan, seq![])).1,
{
    let ghost st = scan_view(*scan, seq![]);
    let mut set = GrammarSet { grammars: Vec::new() };
    let mut i: usize = 0;
    assert(set@ =~= seq![]);
    assert(diagnostics_view(diagnostics@) =~= diagnostics_view(old(diagnostics)@) + seq![]);
    while i < scan.grammars.len()
        invariant
            i <= scan.grammars@.len(),
            st == scan_view(*scan, seq![]),
            forall|j: int| 0 <= j < scan.grammars@.len() ==> body_fits(#[trigger] scan.grammars@[j]@),
            set@ == compile_prefix(st.grammars, i as int).0,
            diagnostics_view(diagnostics@) == diagnostics_view(old(diagnostics)@) + compile_prefix(
                st.grammars,
                i as int,
            ).1,
        decreases scan.grammars@.len() - i,
    {
        let grammar = &scan.grammars[i];
        assert(st.grammars[i as int] == grammar@);
        assert(body_fits(scan.grammars@[i as int]@));
        let body = chars_of(grammar.body.as_str());
        let ghost before = diagnostics_view(diagnostics@);
        let rules = compile_rules(body.as_slice(), grammar.body_span, diagnostics);
        let compiled = CompiledGrammar {
            name: grammar.name.clone(),
            profile: with_default_strings(&grammar.profile),
            rules,
        };
        let ghost prev = set@;
        set.grammars.push(compiled);
        assert(set@ =~= prev.push(compiled_view(compiled)));
        assert(compiled_view(compiled) == compile_one(st.grammars[i as int]).0);
        assert(diagnostics_view(diagnostics@) =~= diagnostics_view(old(diagnostics)@) + compile_prefix(
            st.grammars,
            i + 1,
        ).1);
        i += 1;
    }
    let mut name = chars_of("default");
    name.insert(0, '\u{0}');
    let default_grammar = CompiledGrammar {
        name: crate::text::string_from_chars(name.as_slice()),
        profile: default_profile(),
        rules: Vec::new(),
    };
    proof {
        reveal_strlit("default");
    }
    assert(name@ =~= seq!['\u{0}'] + "default"@);
    assert(rules_view(default_grammar.rules@) =~= seq![]);
    let ghost prev = set@;
    set.grammars.push(default_grammar);
    assert(set@ =~= prev.push(compiled_view(default_grammar)));
    set
}

/// The first `n` compiled grammars keep the names of the first `n`
/// scanned grammars, one for one.
proof fn lemma_prefix_names(gs: Seq<GrammarView>, n: int)
    requires
        0 <= n <= gs.len(),
    ensures
        compile_prefix(gs, n).0.len() == n,
        forall|i: int| 0 <= i < n ==> (#[trigger] compile_prefix(gs, n).0[i]).name == gs[i].name,
    decreases n,
{
    if n > 0 {
        lemma_prefix_names(gs, n - 1);
    }
}

/// Compiling keeps one grammar per scanned grammar, in order and under the
/// same name, and the default grammar comes last.
pub proof fn lemma_compiled_grammars_follow_the_scan(st: ScanState)
    ensures
        spec_compile_grammars(st).0.len() == st.grammars.len() + 1,
        forall|i: int|
            0 <= i < st.grammars.len() ==> (#[trigger] spec_compile_grammars(st).0[i]).name
                == st.grammars[i].name,
        spec_compile_grammars(st).0.last() == default_grammar_view(),
{
    lemma_prefix_names(st.grammars, st.grammars.len() as int);
}

// ---------------------------------------------------------------------------
// Profile checks: line-mode machinery where the profile cannot host it
// ---------------------------------------------------------------------------

/// The name of a line-mode element kind.
pub open spec fn line_mode_name(k: KindView) -> Option<Seq<char>> {
    match k {
        KindView::Eol => Some("eol"@),
        KindView::Line => Some("line"@),
        KindView::Indent { .. } => Some("indent"@),
        _ => None,
    }
}

pub open spec fn in_soft_message(name: Seq<char>) -> Seq<char> {
    "`"@ + name
        + "` inside `soft` is rejected: soft joins newlines into the skip set, the line machinery depends on them staying separate"@
}

pub open spec fn flow_line_message(name: Seq<char>, grammar: Seq<char>) -> Seq<char> {
    "line-mode element `"@ + name + "` in flow grammar `"@ + grammar
        + "`: the skip set crosses line terminators, so `"@ + name + "` has no line to act on"@
}

pub open spec fn flow_soft_message(grammar: Seq<char>) -> Seq<char> {
    "`soft` in flow grammar `"@ + grammar + "`: newlines already join the skip set, so soft is a no-op there"@
}

/// A line-mode element that is rejected where it stands; its body is not
/// looked into.
pub open spec fn rejected_line_mode(k: KindView, flow: bool, in_soft: bool) -> bool {
    line_mode_name(k) is Some && (in_soft || flow)
}

/// The diagnostic an element gives by itself: a line-mode element inside
/// `soft` or in a flow grammar, or a `soft` in a flow grammar.
pub open spec fn element_issues(span: Span, k: KindView, grammar: Seq<char>, flow: bool, in_soft: bool) -> Seq<
    DiagnosticView,
> {
    match line_mode_name(k) {
        Some(name) => if in_soft {
            seq![DiagnosticView { message: in_soft_message(name), span }]
        } else if flow {
            seq![DiagnosticView { message: flow_line_message(name, grammar), span }]
        } else {
            seq![]
        },
        None => if flow && !in_soft && k is Soft {
            seq![DiagnosticView { message: flow_soft_message(grammar), span }]
        } else {
            seq![]
        },
    }
}

/// The profile diagnostics of a pattern of `grammar`, in element order,
/// each element before the ones nested in it.
pub open spec fn pattern_profile_issues(p: PatternView, grammar: Seq<char>, flow: bool, in_soft: bool) -> Seq<
    DiagnosticView,
>
    decreases p,
{
    elems_profile_issues(p.elems, grammar, flow, in_soft)
}

pub open spec fn elems_profile_issues(s: Seq<ElemView>, grammar: Seq<char>, flow: bool, in_soft: bool) -> Seq<
    DiagnosticView,
>
    decreases s,
{
    if s.len() == 0 {
        seq![]
    } else {
        element_issues(s[0].span, s[0].kind, grammar, flow, in_soft) + (if rejected_line_mode(
            s[0].kind,
            flow,
            in_soft,
        ) {
            seq![]
        } else {
            kind_profile_issues(s[0].kind, grammar, flow, in_soft)
        }) + elems_profile_issues(s.subrange(1, s.len() as int), grammar, flow, in_soft)
    }
}

pub open spec fn branches_profile_issues(
    s: Seq<(Seq<char>, PatternView)>,
    grammar: Seq<char>,
    flow: bool,
    in_soft: bool,
) -> Seq<DiagnosticView>
    decreases s,
{
    if s.len() == 0 {
        seq![]
    } else {
        pattern_profile_issues(s[0].1, grammar, flow, in_soft) + branches_profile_issues(
            s.subrange(1, s.len() as int),
            grammar,
            flow,
            in_soft,
        )
    }
}

pub open spec fn kind_profile_issues(k: KindView, grammar: Seq<char>, flow: bool, in_soft: bool) -> Seq<
    DiagnosticView,
>
    decreases k,
{
    match k {
        KindView::Soft(b) => pattern_profile_issues(*b, grammar, flow, true),
        KindView::Raw(b) => pattern_profile_issues(*b, grammar, flow, in_soft),
        KindView::Label { body, .. } => pattern_profile_issues(*body, grammar, flow, in_soft),
        KindView::Group { body, .. } => pattern_profile_issues(*body, grammar, flow, in_soft),
        KindView::Peek { body, .. } => pattern_profile_issues(*body, grammar, flow, in_soft),
        KindView::Until { stop, .. } => pattern_profile_issues(*stop, grammar, flow, in_soft),
        KindView::Optional { body, .. } => pattern_profile_issues(*body, grammar, flow, in_soft),
        KindView::Each { sep, body, .. } => (match sep {
            Some(sp) => pattern_profile_issues(*sp, grammar, flow, in_soft),
            None => seq![],
        }) + pattern_profile_issues(*body, grammar, flow, in_soft),
        KindView::OneOf { branches, .. } => branches_profile_issues(branches, grammar, flow, in_soft),
        KindView::Indent { body: Some(b), .. } => pattern_profile_issues(*b, grammar, flow, in_soft),
        _ => seq![],
    }
}

fn push_diagnostic(diagnostics: &mut Vec<Diagnostic>, message: Vec<char>, span: Span)
    ensures
        diagnostics_view(final(diagnostics)@) == diagnostics_view(old(diagnostics)@) + seq![
            DiagnosticView { message: message@, span },
        ],
{
    let d = Diagnostic::parse(string_from_chars(message.as_slice()), span);
    diagnostics.push(d);
    assert(diagnostics_view(diagnostics@) =~= diagnostics_view(old(diagnostics)@) + seq![d@]);
}

fn element_check(
    span: Span,
    k: &PatKind,
    grammar: &[char],
    flow: bool,
    in_soft: bool,
    diagnostics: &mut Vec<Diagnostic>,
)
    ensures
        diagnostics_view(final(diagnostics)@) == diagnostics_view(old(diagnostics)@) + element_issues(
            span,
            kind_view(*k),
            grammar@,
            flow,
            in_soft,
        ),
{
    proof {
        reveal_strlit("eol");
        reveal_strlit("line");
        reveal_strlit("indent");
    }
    let name: Option<&str> = match k {
        PatKind::Eol => Some("eol"),
        PatKind::Line => Some("line"),
        PatKind::Indent { .. } => Some("indent"),
        _ => None,
    };
    match name {
        Some(name) => {
            assert(line_mode_name(kind_view(*k)) == Some(name@));
            if in_soft {
                let mut m = chars_of("`");
                push_str(&mut m, name);
                push_str(
                    &mut m,
                    "` inside `soft` is rejected: soft joins newlines into the skip set, the line machinery depends on them staying separate",
                );
                push_diagnostic(diagnostics, m, span);
            } else if flow {
                let mut m = chars_of("line-mode element `");
                push_str(&mut m, name);
                push_str(&mut m, "` in flow grammar `");
                push_chars(&mut m, grammar);
                push_str(&mut m, "`: the skip set crosses line terminators, so `");
                push_str(&mut m, name);
                push_str(&mut m, "` has no line to act on");
                push_diagnostic(diagnostics, m, span);
            } else {
                assert(diagnostics_view(diagnostics@) =~= diagnostics_view(old(diagnostics)@) + seq![]);
            }
        },
        None => {
            let soft = match k {
                PatKind::Soft(_) => true,
                _ => false,
            };
            if flow && !in_soft && soft {
                let mut m = chars_of("`soft` in flow grammar `");
                push_chars(&mut m, grammar);
                push_str(&mut m, "`: newlines already join the skip set, so soft is a no-op there");
                push_diagnostic(diagnostics, m, span);
            } else {
                assert(diagnostics_view(diagnostics@) =~= diagnostics_view(old(diagnostics)@) + seq![]);
            }
        },
    }
}

fn pattern_profile_check(p: &Pattern, grammar: &[char], flow: bool, in_soft: bool, diagnostics: &mut Vec<Diagnostic>)
    ensures
        diagnostics_view(final(diagnostics)@) == diagnostics_view(old(diagnostics)@) + pattern_profile_issues(
            pattern_view(*p),
            grammar@,
            flow,
            in_soft,
        ),
    decreases p, 2nat,
{
    let ghost ev = elems_view(p.elems@);
    proof {
        lemma_elems_view_len(p.elems@);
        assert(ev.subrange(0, ev.len() as int) =~= ev);
        assert(pattern_view(*p).elems == ev);
    }
    let mut i: usize = 0;
    assert(diagnostics_view(diagnostics@) =~= diagnostics_view(old(diagnostics)@) + seq![]);
    while i < p.elems.len()
        invariant
            ev == elems_view(p.elems@),
            ev.len() == p.elems@.len(),
            i <= p.elems@.len(),
            diagnostics_view(diagnostics@) + elems_profile_issues(
                ev.subrange(i as int, ev.len() as int),
                grammar@,
                flow,
                in_soft,
            ) == diagnostics_view(old(diagnostics)@) + elems_profile_issues(ev, grammar@, flow, in_soft),
        decreases p.elems.len() - i,
    {
        let ghost tail = ev.subrange(i as int, ev.len() as int);
        let ghost rest = ev.subrange(i + 1, ev.len() as int);
        let ghost before = diagnostics_view(diagnostics@);
        proof {
            lemma_elems_view_index(p.elems@, i as int);
            assert(tail[0] == ev[i as int]);
            assert(tail.subrange(1, tail.len() as int) =~= rest);
        }
        let elem = &p.elems[i];
        element_check(elem.span, &elem.kind, grammar, flow, in_soft, diagnostics);
        let ghost mid = diagnostics_view(diagnostics@);
        let stop = match &elem.kind {
            PatKind::Eol | PatKind::Line | PatKind::Indent { .. } => in_soft || flow,
            _ => false,
        };
        if !stop {
            kind_profile_check(&elem.kind, grammar, flow, in_soft, diagnostics);
        } else {
            assert(diagnostics_view(diagnostics@) =~= mid + seq![]);
        }
        proof {
            let own = element_issues(tail[0].span, tail[0].kind, grammar@, flow, in_soft);
            let nested = if rejected_line_mode(tail[0].kind, flow, in_soft) {
                Seq::<DiagnosticView>::empty()
            } else {
                kind_profile_issues(tail[0].kind, grammar@, flow, in_soft)
            };
            assert(stop == rejected_line_mode(tail[0].kind, flow, in_soft));
            assert(elems_profile_issues(tail, grammar@, flow, in_soft) == own + nested + elems_profile_issues(
                rest,
                grammar@,
                flow,
                in_soft,
            ));
            assert(diagnostics_view(diagnostics@) == before + own + nested);
            assert(before + (own + nested + elems_profile_issues(rest, grammar@, flow, in_soft)) =~= before
                + own + nested + elems_profile_issues(rest, grammar@, flow, in_soft));
        }
        i += 1;
    }
    proof {
        assert(ev.subrange(i as int, ev.len() as int) =~= Seq::<ElemView>::empty());
        assert(diagnostics_view(diagnostics@) + Seq::<DiagnosticView>::empty() =~= diagnostics_view(diagnostics@));
    }
}

fn branches_profile_check(
    branches: &Vec<(String, Pattern)>,
    grammar: &[char],
    flow: bool,
    in_soft: bool,
    diagnostics: &mut Vec<Diagnostic>,
)
    ensures
        diagnostics_view(final(diagnostics)@) == diagnostics_view(old(diagnostics)@) + branches_profile_issues(
            branches_view(branches@),
            grammar@,
            flow,
            in_soft,
        ),
    decreases branches, 0nat,
{
    let ghost bv = branches_view(branches@);
    proof {
        lemma_branches_view_len(branches@);
        assert(bv.subrange(0, bv.len() as int) =~= bv);
    }
    let mut i: usize = 0;
    assert(diagnostics_view(diagnostics@) =~= diagnostics_view(old(diagnostics)@) + seq![]);
    while i < branches.len()
        invariant
            bv == branches_view(branches@),
            bv.len() == branches@.len(),
            i <= branches@.len(),
            diagnostics_view(diagnostics@) + branches_profile_issues(
                bv.subrange(i as int, bv.len() as int),
                grammar@,
                flow,
                in_soft,
            ) == diagnostics_view(old(diagnostics)@) + branches_profile_issues(bv, grammar@, flow, in_soft),
        decreases branches.len() - i,
    {
        let ghost tail = bv.subrange(i as int, bv.len() as int);
        let ghost rest = bv.subrange(i + 1, bv.len() as int);
        let ghost before = diagnostics_view(diagnostics@);
        proof {
            lemma_branches_view_index(branches@, i as int);
            assert(tail[0] == bv[i as int]);
            assert(tail.subrange(1, tail.len() as int) =~= rest);
        }
        pattern_profile_check(&branches[i].1, grammar, flow, in_soft, diagnostics);
        proof {
            let here = pattern_profile_issues(tail[0].1, grammar@, flow, in_soft);
            assert(branches_profile_issues(tail, grammar@, flow, in_soft) == here + branches_profile_issues(
                rest,
                grammar@,
                flow,
                in_soft,
            ));
            assert(before + (here + branches_profile_issues(rest, grammar@, flow, in_soft)) =~= before + here
                + branches_profile_issues(rest, grammar@, flow, in_soft));
        }
        i += 1;
    }
    proof {
        assert(bv.subrange(i as int, bv.len() as int) =~= Seq::<(Seq<char>, PatternView)>::empty());
        assert(diagnostics_view(diagnostics@) + Seq::<DiagnosticView>::empty() =~= diagnostics_view(diagnostics@));
    }
}

fn kind_profile_check(k: &PatKind, grammar: &[char], flow: bool, in_soft: bool, diagnostics: &mut Vec<Diagnostic>)
    ensures
        diagnostics_view(final(diagnostics)@) == diagnostics_view(old(diagnostics)@) + kind_profile_issues(
            kind_view(*k),
            grammar@,
            flow,
            in_soft,
        ),
    decreases k, 1nat,
{
    match k {
        PatKind::Soft(b) => pattern_profile_check(b, grammar, flow, true, diagnostics),
        PatKind::Raw(b) => pattern_profile_check(b, grammar, flow, in_soft, diagnostics),
        PatKind::Label { body, .. } => pattern_profile_check(body, grammar, flow, in_soft, diagnostics),
        PatKind::Group { body, .. } => pattern_profile_check(body, grammar, flow, in_soft, diagnostics),
        PatKind::Peek { body, .. } => pattern_profile_check(body, grammar, flow, in_soft, diagnostics),
        PatKind::Until { stop, .. } => pattern_profile_check(stop, grammar, flow, in_soft, diagnostics),
        PatKind::Optional { body, .. } => pattern_profile_check(body, grammar, flow, in_soft, diagnostics),
        PatKind::Each { sep, body, .. } => {
            let ghost start = diagnostics_view(diagnostics@);
            match sep {
                Some(sp) => pattern_profile_check(sp, grammar, flow, in_soft, diagnostics),
                None => {
                    assert(diagnostics_view(diagnostics@) =~= start + seq![]);
                },
            }
            let ghost mid = diagnostics_view(diagnostics@);
            pattern_profile_check(body, grammar, flow, in_soft, diagnostics);
            proof {
                let first = match kind_view(*k) {
                    KindView::Each { sep, .. } => match sep {
                        Some(sp) => pattern_profile_issues(*sp, grammar@, flow, in_soft),
                        None => Seq::<DiagnosticView>::empty(),
                    },
                    _ => Seq::<DiagnosticView>::empty(),
                };
                assert(mid == start + first);
                assert(diagnostics_view(diagnostics@) =~= start + (first + pattern_profile_issues(
                    pattern_view(**body),
                    grammar@,
                    flow,
                    in_soft,
                )));
            }
        },
        PatKind::OneOf { branches, .. } => branches_profile_check(branches, grammar, flow, in_soft, diagnostics),
        PatKind::Indent { body: Some(b), .. } => pattern_profile_check(b, grammar, flow, in_soft, diagnostics),
        _ => {
            assert(diagnostics_view(diagnostics@) =~= diagnostics_view(old(diagnostics)@) + seq![]);
        },
    }
}

/// The profile diagnostics of a compiled grammar set: every rule of every
/// grammar but the default one, checked against its grammar's orientation
/// (flow when the skip set matches a line feed).
pub open spec fn set_profile_issues(gs: Seq<CompiledGrammarView>, n: int) -> Seq<DiagnosticView>
    decreases n,
{
    if n <= 0 {
        seq![]
    } else {
        let g = gs[n - 1];
        set_profile_issues(gs, n - 1) + (if g.name.len() > 0 && g.name[0] == '\u{0}' {
            seq![]
        } else {
            rules_profile_issues(g.rules, g.name, set_matches(g.profile.skip, '\n'), g.rules.len() as int)
        })
    }
}

pub open spec fn rules_profile_issues(rules: Seq<RuleView>, grammar: Seq<char>, flow: bool, n: int) -> Seq<
    DiagnosticView,
>
    decreases n,
{
    if n <= 0 {
        seq![]
    } else {
        rules_profile_issues(rules, grammar, flow, n - 1) + pattern_profile_issues(
            rules[n - 1].pattern,
            grammar,
            flow,
            false,
        )
    }
}

/// Rejects line-mode machinery where a grammar cannot host it: `eol`,
/// `line` and `indent` in a flow grammar (its skip set crosses line
/// terminators) or inside `soft`, and `soft` in a flow grammar. The
/// default grammar has no rules to check.
pub fn check_profiles(set: &GrammarSet, diagnostics: &mut Vec<Diagnostic>)
    ensures
        diagnostics_view(final(diagnostics)@) == diagnostics_view(old(diagnostics)@) + set_profile_issues(
            set@,
            set@.len() as int,
        ),
{
    let mut g: usize = 0;
    assert(diagnostics_view(diagnostics@) =~= diagnostics_view(old(diagnostics)@) + seq![]);
    while g < set.grammars.len()
        invariant
            g <= set.grammars@.len(),
            set@.len() == set.grammars@.len(),
            diagnostics_view(diagnostics@) == diagnostics_view(old(diagnostics)@) + set_profile_issues(
                set@,
                g as int,
            ),
        decreases set.grammars.len() - g,
    {
        let grammar = &set.grammars[g];
        let ghost gv = set@[g as int];
        assert(gv == compiled_view(*grammar));
        let ghost before = diagnostics_view(diagnostics@);
        let name = chars_of(grammar.name.as_str());
        if name.len() > 0 && name[0] == '\u{0}' {
            assert(diagnostics_view(diagnostics@) =~= diagnostics_view(old(diagnostics)@) + set_profile_issues(
                set@,
                g + 1,
            ));
        } else {
            let flow = grammar.profile.is_flow_oriented();
            let mut r: usize = 0;
            assert(diagnostics_view(diagnostics@) =~= before + seq![]);
            while r < grammar.rules.len()
                invariant
                    r <= grammar.rules@.len(),
                    gv == compiled_view(*grammar),
                    name@ == gv.name,
                    flow == set_matches(gv.profile.skip, '\n'),
                    diagnostics_view(diagnostics@) == before + rules_profile_issues(gv.rules, name@, flow, r as int),
                decreases grammar.rules.len() - r,
            {
                let ghost mid = diagnostics_view(diagnostics@);
                assert(gv.rules[r as int] == rule_view(grammar.rules@[r as int]));
                pattern_profile_check(&grammar.rules[r].pattern, name.as_slice(), flow, false, diagnostics);
                assert(diagnostics_view(diagnostics@) =~= before + rules_profile_issues(
                    gv.rules,
                    name@,
                    flow,
                    r + 1,
                ));
                r += 1;
            }
            assert(diagnostics_view(diagnostics@) =~= diagnostics_view(old(diagnostics)@) + set_profile_issues(
                set@,
                g + 1,
            ));
        }
        g += 1;
    }
}

// ---------------------------------------------------------------------------
// Code fragments that nothing follows
// ---------------------------------------------------------------------------

/// A fragment kind that captures code up to whatever follows it.
pub open spec fn is_code_fragment(k: FragView) -> bool {
    k is Raw || k is Expr || k is Type || k is Block
}

/// Some `$raw`/`$expr`/`$type`/`$block` capture of `p` has nothing after it:
/// no later element in its sequence and no tail passed down (`tail`). The
/// body of an `each` always has a tail: the repetition itself.
pub open spec fn pattern_untailed(p: PatternView, tail: bool) -> bool
    decreases p,
{
    elems_untailed(p.elems, tail)
}

pub open spec fn elems_untailed(s: Seq<ElemView>, tail: bool) -> bool
    decreases s,
{
    if s.len() == 0 {
        false
    } else {
        kind_untailed(s[0].kind, s.len() > 1 || tail) || elems_untailed(s.subrange(1, s.len() as int), tail)
    }
}

pub open spec fn branches_untailed(s: Seq<(Seq<char>, PatternView)>, tail: bool) -> bool
    decreases s,
{
    if s.len() == 0 {
        false
    } else {
        pattern_untailed(s[0].1, tail) || branches_untailed(s.subrange(1, s.len() as int), tail)
    }
}

pub open spec fn kind_untailed(k: KindView, has_tail: bool) -> bool
    decreases k,
{
    match k {
        KindView::Fragment { kind, .. } => is_code_fragment(kind) && !has_tail,
        KindView::Soft(b) => pattern_untailed(*b, has_tail),
        KindView::Raw(b) => pattern_untailed(*b, has_tail),
        KindView::Label { body, .. } => pattern_untailed(*body, has_tail),
        KindView::Group { body, .. } => pattern_untailed(*body, has_tail),
        KindView::Optional { body, .. } => pattern_untailed(*body, has_tail),
        KindView::Peek { body, .. } => pattern_untailed(*body, has_tail),
        KindView::Until { stop, .. } => pattern_untailed(*stop, has_tail),
        KindView::Each { body, .. } => pattern_untailed(*body, true),
        KindView::OneOf { branches, .. } => branches_untailed(branches, has_tail),
        KindView::Indent { body: Some(b), .. } => pattern_untailed(*b, has_tail),
        _ => false,
    }
}

fn untailed_walk(p: &Pattern, tail: bool) -> (r: bool)
    ensures
        r == pattern_untailed(pattern_view(*p), tail),
    decreases p, 2nat,
{
    let ghost ev = elems_view(p.elems@);
    proof {
        lemma_elems_view_len(p.elems@);
        assert(ev.subrange(0, ev.len() as int) =~= ev);
        assert(pattern_view(*p).elems == ev);
    }
    let n = p.elems.len();
    let mut i: usize = 0;
    while i < n
        invariant
            ev == elems_view(p.elems@),
            ev.len() == p.elems@.len(),
            n == p.elems@.len(),
            i <= n,
            elems_untailed(ev, tail) == elems_untailed(ev.subrange(i as int, ev.len() as int), tail),
        decreases n - i,
    {
        proof {
            lemma_elems_view_index(p.elems@, i as int);
            let t = ev.subrange(i as int, ev.len() as int);
            assert(t[0] == ev[i as int]);
            assert(t.subrange(1, t.len() as int) =~= ev.subrange(i + 1, ev.len() as int));
            assert(t.len() > 1 <==> i + 1 < n);
        }
        if kind_untailed_check(&p.elems[i].kind, i + 1 < n || tail) {
            return true;
        }
        i += 1;
    }
    assert(ev.subrange(i as int, ev.len() as int) =~= Seq::<ElemView>::empty());
    false
}

fn branches_untailed_walk(branches: &Vec<(String, Pattern)>, tail: bool) -> (r: bool)
    ensures
        r == branches_untailed(branches_view(branches@), tail),
    decreases branches, 0nat,
{
    let ghost bv = branches_view(branches@);
    proof {
        lemma_branches_view_len(branches@);
        assert(bv.subrange(0, bv.len() as int) =~= bv);
    }
    let mut i: usize = 0;
    while i < branches.len()
        invariant
            bv == branches_view(branches@),
            bv.len() == branches@.len(),
            i <= branches@.len(),
            branches_untailed(bv, tail) == branches_untailed(bv.subrange(i as int, bv.len() as int), tail),
        decreases branches.len() - i,
    {
        proof {
            lemma_branches_view_index(branches@, i as int);
            let t = bv.subrange(i as int, bv.len() as int);
            assert(t[0] == bv[i as int]);
            assert(t.subrange(1, t.len() as int) =~= bv.subrange(i + 1, bv.len() as int));
        }
        if untailed_walk(&branches[i].1, tail) {
            return true;
        }
        i += 1;
    }
    assert(bv.subrange(i as int, bv.len() as int) =~= Seq::<(Seq<char>, PatternView)>::empty());
    false
}

fn kind_untailed_check(k: &PatKind, has_tail: bool) -> (r: bool)
    ensures
        r == kind_untailed(kind_view(*k), has_tail),
    decreases k, 1nat,
{
    match k {
        PatKind::Fragment { kind, .. } => {
            let code = match kind {
                FragKind::Raw(_) | FragKind::Expr | FragKind::Type | FragKind::Block => true,
                _ => false,
            };
            code && !has_tail
        },
        PatKind::Soft(b) => untailed_walk(b, has_tail),
        PatKind::Raw(b) => untailed_walk(b, has_tail),
        PatKind::Label { body, .. } => untailed_walk(body, has_tail),
        PatKind::Group { body, .. } => untailed_walk(body, has_tail),
        PatKind::Optional { body, .. } => untailed_walk(body, has_tail),
        PatKind::Peek { body, .. } => untailed_walk(body, has_tail),
        PatKind::Until { stop, .. } => untailed_walk(stop, has_tail),
        PatKind::Each { body, .. } => untailed_walk(body, true),
        PatKind::OneOf { branches, .. } => branches_untailed_walk(branches, has_tail),
        PatKind::Indent { body: Some(b), .. } => untailed_walk(b, has_tail),
        _ => false,
    }
}

/// Whether a magic entry pattern holds a `$raw`/`$expr`/`$type`/`$block`
/// capture with nothing after it anywhere: such a capture has no boundary
/// to stop at. Nothing follows the entry pattern itself.
pub fn pattern_has_untailed_code_fragment(pattern: &Pattern) -> (r: bool)
    ensures
        r == pattern_untailed(pattern_view(*pattern), false),
{
    untailed_walk(pattern, false)
}

// ---------------------------------------------------------------------------
// Compiling magic declarations
// ---------------------------------------------------------------------------

/// How a macro's region is matched: from a rule of a grammar, whose record
/// is bound to a name, or by an inline pattern.
pub enum MacroEntry {
    RuleRef { bind: String },
    Inline,
}

/// One compiled macro.
pub struct CompiledMacro {
    pub name: String,
    pub pattern: Pattern,
    pub template: Template,
    pub grammar_index: usize,
    pub entry: MacroEntry,
    pub decl_span: Span,
}

pub enum EntryView {
    RuleRef(Seq<char>),
    Inline,
}

pub struct MacroView {
    pub name: Seq<char>,
    pub pattern: PatternView,
    pub template: TemplateView,
    pub grammar_index: int,
    pub entry: EntryView,
    pub decl_span: Span,
}

pub open spec fn macro_view(m: CompiledMacro) -> MacroView {
    MacroView {
        name: m.name@,
        pattern: pattern_view(m.pattern),
        template: template_view(m.template),
        grammar_index: m.grammar_index as int,
        entry: match m.entry {
            MacroEntry::RuleRef { bind } => EntryView::RuleRef(bind@),
            MacroEntry::Inline => EntryView::Inline,
        },
        decl_span: m.decl_span,
    }
}

pub open spec fn macros_view(s: Seq<CompiledMacro>) -> Seq<MacroView> {
    s.map_values(|m: CompiledMacro| macro_view(m))
}

pub open spec fn default_grammar_name() -> Seq<char> {
    seq!['\u{0}'] + "default"@
}

/// The first grammar of `gs` from `i` on named `name`.
pub open spec fn grammar_named_from(gs: Seq<CompiledGrammarView>, name: Seq<char>, i: int) -> Option<int>
    decreases gs.len() - i,
{
    if i < 0 || i >= gs.len() {
        None
    } else if gs[i].name == name {
        Some(i)
    } else {
        grammar_named_from(gs, name, i + 1)
    }
}

pub open spec fn has_rule_named(rules: Seq<RuleView>, name: Seq<char>) -> bool {
    exists|j: int| 0 <= j < rules.len() && (#[trigger] rules[j]).name == name
}

/// The first grammar of `gs` from `i` on with a rule named `name`.
pub open spec fn grammar_with_rule_from(gs: Seq<CompiledGrammarView>, name: Seq<char>, i: int) -> Option<int>
    decreases gs.len() - i,
{
    if i < 0 || i >= gs.len() {
        None
    } else if has_rule_named(gs[i].rules, name) {
        Some(i)
    } else {
        grammar_with_rule_from(gs, name, i + 1)
    }
}

pub open spec fn untailed_message() -> Seq<char> {
    "raw capture requires a following terminator; use $text or until"@
}

pub open spec fn unbound_entry_message() -> Seq<char> {
    "the entry pattern must bind its capture (`grammar.rule as name`)"@
}

/// The entry grammar of a rule-reference entry `path`: by name for a
/// two-segment path, else the first grammar with a rule of that name.
pub open spec fn entry_grammar(gs: Seq<CompiledGrammarView>, path: Seq<Seq<char>>) -> Option<int> {
    if path.len() == 2 {
        grammar_named_from(gs, path[0], 0)
    } else if path.len() > 0 {
        grammar_with_rule_from(gs, path[0], 0)
    } else {
        None
    }
}

pub open spec fn unknown_entry_message(path: Seq<Seq<char>>) -> Seq<char> {
    if path.len() == 2 {
        "unknown grammar `"@ + path[0] + "` in the entry pattern"@
    } else if path.len() > 0 {
        "unknown rule `"@ + path[0] + "` in the entry pattern"@
    } else {
        "unknown rule `` in the entry pattern"@
    }
}

/// The compiled form of one magic declaration against the grammars `gs`,
/// if it compiles, and the diagnostics it gives.
pub open spec fn compile_macro(m: MagicView, gs: Seq<CompiledGrammarView>) -> (Option<MacroView>, Seq<DiagnosticView>) {
    match spec_parse_pattern(m.pattern, m.pattern_span) {
        Err(e) => (None, seq![e]),
        Ok(p) => match spec_parse_template(m.template, m.template_span) {
            Err(e) => (None, seq![e]),
            Ok(t) => if pattern_untailed(p, false) {
                (None, seq![DiagnosticView { message: untailed_message(), span: m.pattern_span }])
            } else if p.elems.len() > 0 && p.elems[0].kind is RuleRef {
                match p.elems[0].kind {
                    KindView::RuleRef { path, bind, .. } => match entry_grammar(gs, path) {
                        None => (
                            None,
                            seq![DiagnosticView { message: unknown_entry_message(path), span: m.pattern_span }],
                        ),
                        Some(g) => {
                            let checks = elems_profile_issues(
                                p.elems.subrange(1, p.elems.len() as int),
                                gs[g].name,
                                set_matches(gs[g].profile.skip, '\n'),
                                false,
                            );
                            match bind {
                                None => (
                                    None,
                                    checks + seq![DiagnosticView { message: unbound_entry_message(), span: m.pattern_span }],
                                ),
                                Some(b) => (
                                    Some(MacroView {
                                        name: m.name,
                                        pattern: p,
                                        template: t,
                                        grammar_index: g,
                                        entry: EntryView::RuleRef(b),
                                        decl_span: m.span,
                                    }),
                                    checks,
                                ),
                            }
                        },
                    },
                    _ => (None, seq![]),
                }
            } else {
                (
                    Some(MacroView {
                        name: m.name,
                        pattern: p,
                        template: t,
                        grammar_index: grammar_named_from(gs, default_grammar_name(), 0).unwrap(),
                        entry: EntryView::Inline,
                        decl_span: m.span,
                    }),
                    elems_profile_issues(p.elems, "<inline pattern>"@, true, false),
                )
            },
        },
    }
}

pub open spec fn option_macro(o: Option<MacroView>) -> Seq<MacroView> {
    match o {
        Some(m) => seq![m],
        None => seq![],
    }
}

/// The first `n` magic declarations compiled, and their diagnostics.
pub open spec fn macros_prefix(ms: Seq<MagicView>, gs: Seq<CompiledGrammarView>, n: int) -> (Seq<MacroView>, Seq<DiagnosticView>)
    decreases n,
{
    if n <= 0 {
        (seq![], seq![])
    } else {
        let (a, b) = macros_prefix(ms, gs, n - 1);
        let (m, d) = compile_macro(ms[n - 1], gs);
        (a + option_macro(m), b + d)
    }
}

pub open spec fn spec_compile_macros(st: ScanState, gs: Seq<CompiledGrammarView>) -> (Seq<MacroView>, Seq<DiagnosticView>) {
    macros_prefix(st.magics, gs, st.magics.len() as int)
}

/// A magic declaration's pattern and template fit the offsets of their spans.
pub open spec fn magic_fits(m: MagicView) -> bool {
    &&& m.pattern.len() < usize::MAX
    &&& m.pattern_span.start + m.pattern.len() <= usize::MAX
    &&& m.template.len() < usize::MAX
    &&& m.template_span.start + m.template.len() <= usize::MAX
}

fn elems_profile_check_from(
    elems: &Vec<PatElem>,
    start: usize,
    grammar: &[char],
    flow: bool,
    in_soft: bool,
    diagnostics: &mut Vec<Diagnostic>,
)
    requires
        start <= elems@.len(),
    ensures
        diagnostics_view(final(diagnostics)@) == diagnostics_view(old(diagnostics)@) + elems_profile_issues(
            elems_view(elems@).subrange(start as int, elems@.len() as int),
            grammar@,
            flow,
            in_soft,
        ),
{
    let ghost ev = elems_view(elems@);
    proof {
        lemma_elems_view_len(elems@);
    }
    let n = elems.len();
    let mut i: usize = start;
    assert(diagnostics_view(diagnostics@) =~= diagnostics_view(old(diagnostics)@) + seq![]);
    while i < n
        invariant
            ev == elems_view(elems@),
            ev.len() == elems@.len(),
            n == elems@.len(),
            start <= i <= n,
            diagnostics_view(diagnostics@) + elems_profile_issues(
                ev.subrange(i as int, ev.len() as int),
                grammar@,
                flow,
                in_soft,
            ) == diagnostics_view(old(diagnostics)@) + elems_profile_issues(
                ev.subrange(start as int, ev.len() as int),
                grammar@,
                flow,
                in_soft,
            ),
        decreases n - i,
    {
        let ghost tail = ev.subrange(i as int, ev.len() as int);
        let ghost rest = ev.subrange(i + 1, ev.len() as int);
        let ghost before = diagnostics_view(diagnostics@);
        proof {
            lemma_elems_view_index(elems@, i as int);
            assert(tail[0] == ev[i as int]);
            assert(tail.subrange(1, tail.len() as int) =~= rest);
        }
        let elem = &elems[i];
        element_check(elem.span, &elem.kind, grammar, flow, in_soft, diagnostics);
        let ghost mid = diagnostics_view(diagnostics@);
        let stop = match &elem.kind {
            PatKind::Eol | PatKind::Line | PatKind::Indent { .. } => in_soft || flow,
            _ => false,
        };
        if !stop {
            kind_profile_check(&elem.kind, grammar, flow, in_soft, diagnostics);
        } else {
            assert(diagnostics_view(diagnostics@) =~= mid + seq![]);
        }
        proof {
            let own = element_issues(tail[0].span, tail[0].kind, grammar@, flow, in_soft);
            let nested = if rejected_line_mode(tail[0].kind, flow, in_soft) {
                Seq::<DiagnosticView>::empty()
            } else {
                kind_profile_issues(tail[0].kind, grammar@, flow, in_soft)
            };
            assert(stop == rejected_line_mode(tail[0].kind, flow, in_soft));
            assert(elems_profile_issues(tail, grammar@, flow, in_soft) == own + nested + elems_profile_issues(
                rest,
                grammar@,
                flow,
                in_soft,
            ));
            assert(diagnostics_view(diagnostics@) == before + own + nested);
            assert(before + (own + nested + elems_profile_issues(rest, grammar@, flow, in_soft)) =~= before
                + own + nested + elems_profile_issues(rest, grammar@, flow, in_soft));
        }
        i += 1;
    }
    proof {
        assert(ev.subrange(i as int, ev.len() as int) =~= Seq::<ElemView>::empty());
        assert(diagnostics_view(diagnostics@) + Seq::<DiagnosticView>::empty() =~= diagnostics_view(diagnostics@));
    }
}

fn push_one(diagnostics: &mut Vec<Diagnostic>, d: Diagnostic)
    ensures
        diagnostics_view(final(diagnostics)@) == diagnostics_view(old(diagnostics)@) + seq![d@],
{
    let ghost v = d@;
    diagnostics.push(d);
    assert(diagnostics_view(diagnostics@) =~= diagnostics_view(old(diagnostics)@) + seq![v]);
}

fn find_grammar_named(set: &GrammarSet, name: &String) -> (r: Option<usize>)
    ensures
        match r {
            Some(g) => grammar_named_from(set@, name@, 0) == Some(g as int) && g < set@.len(),
            None => grammar_named_from(set@, name@, 0) is None,
        },
{
    let n = set.grammars.len();
    let mut i: usize = 0;
    while i < n
        invariant
            n == set.grammars@.len(),
            set@.len() == n,
            i <= n,
            grammar_named_from(set@, name@, 0) == grammar_named_from(set@, name@, i as int),
        decreases n - i,
    {
        assert(set@[i as int].name == set.grammars@[i as int].name@);
        if set.grammars[i].name == *name {
            return Some(i);
        }
        i += 1;
    }
    None
}

fn find_grammar_with_rule(set: &GrammarSet, name: &String) -> (r: Option<usize>)
    ensures
        match r {
            Some(g) => grammar_with_rule_from(set@, name@, 0) == Some(g as int) && g < set@.len(),
            None => grammar_with_rule_from(set@, name@, 0) is None,
        },
{
    let n = set.grammars.len();
    let mut i: usize = 0;
    while i < n
        invariant
            n == set.grammars@.len(),
            set@.len() == n,
            i <= n,
            grammar_with_rule_from(set@, name@, 0) == grammar_with_rule_from(set@, name@, i as int),
        decreases n - i,
    {
        let grammar = &set.grammars[i];
        let ghost rv = set@[i as int].rules;
        assert(rv == rules_view(grammar.rules@));
        let mut j: usize = 0;
        let mut found = false;
        while j < grammar.rules.len()
            invariant
                j <= grammar.rules@.len(),
                rv == rules_view(grammar.rules@),
                rv.len() == grammar.rules@.len(),
                found == exists|k: int| 0 <= k < j && (#[trigger] rv[k]).name == name@,
            decreases grammar.rules.len() - j,
        {
            assert(rv[j as int].name == grammar.rules@[j as int].name@);
            if grammar.rules[j].name == *name {
                found = true;
            }
            j += 1;
        }
        if found {
            return Some(i);
        }
        i += 1;
    }
    None
}

fn message_with(head: &str, word: &String, tail: &str) -> (m: Vec<char>)
    ensures
        m@ == head@ + word@ + tail@,
{
    let mut m = chars_of(head);
    push_str(&mut m, word.as_str());
    push_str(&mut m, tail);
    m
}

pub open spec fn macro_opt_view(o: Option<CompiledMacro>) -> Option<MacroView> {
    match o {
        Some(m) => Some(macro_view(m)),
        None => None,
    }
}

fn compile_one_macro(magic: &MagicDeclScan, set: &GrammarSet, diagnostics: &mut Vec<Diagnostic>) -> (r: Option<
    CompiledMacro,
>)
    requires
        magic_fits(magic@),
        grammar_named_from(set@, default_grammar_name(), 0) is Some,
    ensures
        macro_opt_view(r) == compile_macro(magic@, set@).0,
        diagnostics_view(final(diagnostics)@) == diagnostics_view(old(diagnostics)@) + compile_macro(magic@, set@).1,
{
    let pattern_text = chars_of(magic.pattern.as_str());
    let template_text = chars_of(magic.template.as_str());
    let compiled: Option<CompiledMacro> = match parse_pattern(pattern_text.as_slice(), magic.pattern_span) {
        Err(e) => {
            push_one(diagnostics, e);
            None
        },
        Ok(pattern) => match parse_template(template_text.as_slice(), magic.template_span) {
            Err(e) => {
                push_one(diagnostics, e);
                None
            },
            Ok(template) => if pattern_has_untailed_code_fragment(&pattern) {
                proof {
                    reveal_strlit("raw capture requires a following terminator; use $text or until");
                }
                push_diagnostic(
                    diagnostics,
                    chars_of("raw capture requires a following terminator; use $text or until"),
                    magic.pattern_span,
                );
                None
            } else {
                let first_ref = if pattern.elems.len() > 0 {
                    match &pattern.elems[0].kind {
                        PatKind::RuleRef { .. } => true,
                        _ => false,
                    }
                } else {
                    false
                };
                proof {
                    if pattern.elems@.len() > 0 {
                        lemma_elems_view_index(pattern.elems@, 0);
                    }
                }
                if first_ref {
                    match &pattern.elems[0].kind {
                        PatKind::RuleRef { path, bind, .. } => {
                            proof {
                                if path@.len() > 0 {
                                    assert(strings_view(path@)[0] == path@[0]@);
                                }
                            }
                            let gi = if path.len() == 2 {
                                find_grammar_named(set, &path[0])
                            } else if path.len() > 0 {
                                find_grammar_with_rule(set, &path[0])
                            } else {
                                None
                            };
                            match gi {
                                None => {
                                    let m = if path.len() == 2 {
                                        message_with("unknown grammar `", &path[0], "` in the entry pattern")
                                    } else if path.len() > 0 {
                                        message_with("unknown rule `", &path[0], "` in the entry pattern")
                                    } else {
                                        chars_of("unknown rule `` in the entry pattern")
                                    };
                                    push_diagnostic(diagnostics, m, magic.pattern_span);
                                    None
                                },
                                Some(g) => {
                                    let entry_name = chars_of(set.grammars[g].name.as_str());
                                    let flow = set.grammars[g].profile.is_flow_oriented();
                                    let ghost before_checks = diagnostics_view(diagnostics@);
                                    proof {
                                        lemma_elems_view_len(pattern.elems@);
                                        assert(set@[g as int] == compiled_view(set.grammars@[g as int]));
                                        assert(entry_name@ == set@[g as int].name);
                                        assert(flow == set_matches(set@[g as int].profile.skip, '\n'));
                                    }
                                    elems_profile_check_from(
                                        &pattern.elems,
                                        1,
                                        entry_name.as_slice(),
                                        flow,
                                        false,
                                        diagnostics,
                                    );
                                    let ghost checks = elems_profile_issues(
                                        pattern_view(pattern).elems.subrange(1, pattern_view(pattern).elems.len() as int),
                                        set@[g as int].name,
                                        set_matches(set@[g as int].profile.skip, '\n'),
                                        false,
                                    );
                                    assert(diagnostics_view(diagnostics@) == before_checks + checks);
                                    match bind {
                                        None => {
                                            push_diagnostic(
                                                diagnostics,
                                                chars_of("the entry pattern must bind its capture (`grammar.rule as name`)"),
                                                magic.pattern_span,
                                            );
                                            assert(diagnostics_view(diagnostics@) =~= before_checks + (checks + seq![
                                                DiagnosticView { message: unbound_entry_message(), span: magic.pattern_span },
                                            ]));
                                            None
                                        },
                                        Some(b) => {
                                            let bind_name = b.clone();
                                            Some(CompiledMacro {
                                                name: magic.name.clone(),
                                                pattern,
                                                template,
                                                grammar_index: g,
                                                entry: MacroEntry::RuleRef { bind: bind_name },
                                                decl_span: magic.span,
                                            })
                                        },
                                    }
                                },
                            }
                        },
                        _ => None,
                    }
                } else {
                    let mut dn = chars_of("default");
                    dn.insert(0, '\u{0}');
                    let dname = string_from_chars(dn.as_slice());
                    proof {
                        reveal_strlit("default");
                        assert(dname@ =~= default_grammar_name());
                    }
                    let d = find_grammar_named(set, &dname);
                    let default_index = match d {
                        Some(x) => x,
                        None => 0,
                    };
                    let inline = chars_of("<inline pattern>");
                    proof {
                        lemma_elems_view_len(pattern.elems@);
                        assert(elems_view(pattern.elems@).subrange(0, pattern.elems@.len() as int) =~= elems_view(pattern.elems@));
                    }
                    elems_profile_check_from(&pattern.elems, 0, inline.as_slice(), true, false, diagnostics);
                    Some(CompiledMacro {
                        name: magic.name.clone(),
                        pattern,
                        template,
                        grammar_index: default_index,
                        entry: MacroEntry::Inline,
                        decl_span: magic.span,
                    })
                }
            },
        },
    };
    compiled
}

/// Compiles every magic declaration against the grammar set: its pattern
/// and template are parsed, a code capture with nothing after it is
/// rejected, and the entry is resolved: a leading rule reference names its
/// grammar (two segments) or a rule of some grammar (one segment), must be
/// bound, and the rest of the pattern is checked against that grammar's
/// profile; any other pattern is inline, hosted by the default grammar and
/// checked as flow. A declaration that fails is reported and left out.
pub fn compile_macros(scan: &MagicScan, set: &GrammarSet, diagnostics: &mut Vec<Diagnostic>) -> (r: Vec<
    CompiledMacro,
>)
    requires
        forall|i: int| 0 <= i < scan.magics@.len() ==> magic_fits(#[trigger] scan.magics@[i]@),
        grammar_named_from(set@, default_grammar_name(), 0) is Some,
    ensures
        macros_view(r@) == spec_compile_macros(scan_view(*scan, seq![]), set@).0,
        diagnostics_view(final(diagnostics)@) == diagnostics_view(old(diagnostics)@) + spec_compile_macros(
            scan_view(*scan, seq![]),
            set@,
        ).1,
{
    let ghost st = scan_view(*scan, seq![]);
    let ghost gs = set@;
    let mut macros: Vec<CompiledMacro> = Vec::new();
    let mut i: usize = 0;
    assert(macros_view(macros@) =~= seq![]);
    assert(diagnostics_view(diagnostics@) =~= diagnostics_view(old(diagnostics)@) + seq![]);
    while i < scan.magics.len()
        invariant
            i <= scan.magics@.len(),
            st == scan_view(*scan, seq![]),
            gs == set@,
            grammar_named_from(gs, default_grammar_name(), 0) is Some,
            forall|j: int| 0 <= j < scan.magics@.len() ==> magic_fits(#[trigger] scan.magics@[j]@),
            macros_view(macros@) == macros_prefix(st.magics, gs, i as int).0,
            diagnostics_view(diagnostics@) == diagnostics_view(old(diagnostics)@) + macros_prefix(
                st.magics,
                gs,
                i as int,
            ).1,
        decreases scan.magics@.len() - i,
    {
        let magic = &scan.magics[i];
        let ghost mv = st.magics[i as int];
        assert(mv == magic@);
        assert(magic_fits(scan.magics@[i as int]@));
        let ghost before_d = diagnostics_view(diagnostics@);
        let ghost before_m = macros_view(macros@);
        let compiled = compile_one_macro(magic, set, diagnostics);
        proof {
            let (mo, d) = compile_macro(mv, gs);
            assert(macros_prefix(st.magics, gs, i + 1) == (
                macros_prefix(st.magics, gs, i as int).0 + option_macro(mo),
                macros_prefix(st.magics, gs, i as int).1 + d,
            ));
        }
        match compiled {
            Some(m) => {
                macros.push(m);
            },
            None => {},
        }
        proof {
            let (mo, d) = compile_macro(mv, gs);
            assert(macros_view(macros@) =~= before_m + option_macro(mo));
            assert(diagnostics_view(diagnostics@) =~= diagnostics_view(old(diagnostics)@) + macros_prefix(
                st.magics,
                gs,
                i + 1,
            ).1);
        }
        i += 1;
    }
    macros
}

proof fn lemma_named_in_range(gs: Seq<CompiledGrammarView>, name: Seq<char>, i: int)
    ensures
        grammar_named_from(gs, name, i) matches Some(g) ==> i <= g < gs.len(),
    decreases gs.len() - i,
{
    if 0 <= i < gs.len() && gs[i].name != name {
        lemma_named_in_range(gs, name, i + 1);
    }
}

proof fn lemma_with_rule_in_range(gs: Seq<CompiledGrammarView>, name: Seq<char>, i: int)
    ensures
        grammar_with_rule_from(gs, name, i) matches Some(g) ==> i <= g < gs.len(),
    decreases gs.len() - i,
{
    if 0 <= i < gs.len() && !has_rule_named(gs[i].rules, name) {
        lemma_with_rule_in_range(gs, name, i + 1);
    }
}

proof fn lemma_macro_grammar_in_range(m: MagicView, gs: Seq<CompiledGrammarView>)
    requires
        grammar_named_from(gs, default_grammar_name(), 0) is Some,
    ensures
        compile_macro(m, gs).0 matches Some(mv) ==> 0 <= mv.grammar_index < gs.len(),
{
    lemma_named_in_range(gs, default_grammar_name(), 0);
    match spec_parse_pattern(m.pattern, m.pattern_span) {
        Ok(p) => if p.elems.len() > 0 {
            match p.elems[0].kind {
                KindView::RuleRef { path, .. } => {
                    if path.len() > 0 {
                        lemma_named_in_range(gs, path[0], 0);
                        lemma_with_rule_in_range(gs, path[0], 0);
                    }
                },
                _ => {},
            }
        },
        _ => {},
    }
}

/// Every compiled macro is hosted by a grammar of the set it was compiled
/// against: its grammar index is in range.
pub proof fn lemma_compiled_macros_name_a_grammar(st: ScanState, gs: Seq<CompiledGrammarView>)
    requires
        grammar_named_from(gs, default_grammar_name(), 0) is Some,
    ensures
        forall|k: int|
            0 <= k < spec_compile_macros(st, gs).0.len() ==> 0 <= (#[trigger] spec_compile_macros(st, gs).0[k]).grammar_index
                < gs.len(),
{
    lemma_prefix_in_range(st.magics, gs, st.magics.len() as int);
}

proof fn lemma_prefix_in_range(ms: Seq<MagicView>, gs: Seq<CompiledGrammarView>, n: int)
    requires
        grammar_named_from(gs, default_grammar_name(), 0) is Some,
    ensures
        forall|k: int|
            0 <= k < macros_prefix(ms, gs, n).0.len() ==> 0 <= (#[trigger] macros_prefix(ms, gs, n).0[k]).grammar_index
                < gs.len(),
    decreases n,
{
    if n > 0 {
        lemma_prefix_in_range(ms, gs, n - 1);
        lemma_macro_grammar_in_range(ms[n - 1], gs);
        let a = macros_prefix(ms, gs, n - 1).0;
        let o = option_macro(compile_macro(ms[n - 1], gs).0);
        assert(macros_prefix(ms, gs, n).0 == a + o);
        assert forall|k: int| 0 <= k < (a + o).len() implies 0 <= #[trigger] (a + o)[k].grammar_index < gs.len() by {
            if k >= a.len() {
                assert((a + o)[k] == o[k - a.len()]);
            } else {
                assert((a + o)[k] == a[k]);
            }
        }
    }
}

proof fn lemma_named_found(gs: Seq<CompiledGrammarView>, name: Seq<char>, i: int, j: int)
    requires
        0 <= i <= j < gs.len(),
        gs[j].name == name,
    ensures
        grammar_named_from(gs, name, i) is Some,
    decreases j - i,
{
    if gs[i].name != name {
        lemma_named_found(gs, name, i + 1, j);
    }
}

/// A compiled grammar set always holds the default grammar, so the macros
/// compiled against it can host inline patterns.
pub proof fn lemma_compiled_set_hosts_inline_patterns(st: ScanState)
    ensures
        grammar_named_from(spec_compile_grammars(st).0, default_grammar_name(), 0) is Some,
{
    lemma_compiled_grammars_follow_the_scan(st);
    let gs = spec_compile_grammars(st).0;
    lemma_named_found(gs, default_grammar_name(), 0, gs.len() - 1);
}

proof fn lemma_trailing_code_elems(s: Seq<ElemView>)
    requires
        s.len() > 0,
        s.last().kind matches KindView::Fragment { kind, .. } && (kind is Raw || kind is Expr || kind is Type
            || kind is Block),
    ensures
        elems_untailed(s, false),
    decreases s.len(),
{
    if s.len() > 1 {
        let rest = s.subrange(1, s.len() as int);
        assert(rest.last() == s.last());
        lemma_trailing_code_elems(rest);
    } else {
        assert(s[0] == s.last());
        assert(kind_untailed(s[0].kind, false));
    }
}

/// A pattern whose last element is a `$raw`, `$expr`, `$type` or `$block`
/// capture has a code capture with nothing after it.
pub proof fn lemma_trailing_code_capture_is_untailed(p: PatternView)
    requires
        p.elems.len() > 0,
        p.elems.last().kind matches KindView::Fragment { kind, .. } && (kind is Raw || kind is Expr || kind is Type
            || kind is Block),
    ensures
        pattern_untailed(p, false),
{
    lemma_trailing_code_elems(p.elems);
}

/// A magic declaration whose pattern and template parse, and whose pattern
/// ends in a `$raw`, `$expr`, `$type` or `$block` capture, is not compiled:
/// it is reported as a capture that needs a following terminator.
pub proof fn lemma_trailing_code_capture_rejects_the_macro(m: MagicView, gs: Seq<CompiledGrammarView>)
    requires
        spec_parse_pattern(m.pattern, m.pattern_span) matches Ok(p) && p.elems.len() > 0 && (p.elems.last().kind matches KindView::Fragment { kind, .. } && (kind is Raw || kind is Expr || kind is Type
            || kind is Block)),
        spec_parse_template(m.template, m.template_span) is Ok,
    ensures
        compile_macro(m, gs) == (
            Option::<MacroView>::None,
            seq![
                DiagnosticView {
                    message: "raw capture requires a following terminator; use $text or until"@,
                    span: m.pattern_span,
                },
            ],
        ),
{
    let p = spec_parse_pattern(m.pattern, m.pattern_span)->Ok_0;
    lemma_trailing_code_capture_is_untailed(p);
}

} // verus!
