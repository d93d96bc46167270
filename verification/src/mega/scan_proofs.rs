//! What every scan result satisfies: each construct found is anchored in the
//! scanned text (its verbatim pieces are exactly the text its spans cover,
//! delimited by the brackets that opened and closed them), and the
//! constructs of each kind come in text order without overlapping.

use vstd::prelude::*;

use crate::diagnostics::Span;
use crate::mega::profile::{
    Walked, balance_from, cm, comments_advance, form_for_quote, lemma_balance_found,
    lemma_cm_comments_advance, lemma_comment_len_bound, lemma_comment_len_positive,
    lemma_form_for_quote_bound, lemma_plain_string_found_positive, spec_balance, spec_comment_len,
    spec_string_len, word_len, word_pred,
};
use crate::mega::scan::{
    GrammarView, InvocationView, MagicView, ScanState, advance_after_block, back_spaces,
    dotted_from, dotted_path, grammar_step, invocation_step, keyword_at, magic_decl_step,
    normalize_region, region_back, region_front, scan_from, scan_skip, scan_step, skip_inline_ws,
    spaces_from, spec_scan_magic, starts_ident, with_error,
};
use crate::text::{find_char, lemma_find_char, lemma_leading_count_bound, starts_with};

verus! {

/// No character of `s` is a line feed.
pub open spec fn no_line_feed(s: Seq<char>) -> bool {
    forall|k: int| 0 <= k < s.len() ==> s[k] != '\n'
}

/// A grammar declaration's body is the text between its braces, and its
/// name holds no line feed.
pub open spec fn grammar_anchored(src: Seq<char>, g: GrammarView) -> bool {
    &&& no_line_feed(g.name)
    &&& g.span.start < g.body_span.start <= g.body_span.end < g.span.end <= src.len()
    &&& g.body == src.subrange(g.body_span.start as int, g.body_span.end as int)
    &&& src[g.body_span.start - 1] == '{'
    &&& src[g.span.end - 1] == '}'
}

/// A magic declaration's pattern is the text between its parentheses and
/// its template the text between its braces, and its name holds no line
/// feed.
pub open spec fn magic_anchored(src: Seq<char>, m: MagicView) -> bool {
    &&& no_line_feed(m.name)
    &&& m.span.start < m.pattern_span.start <= m.pattern_span.end < m.template_span.start
        <= m.template_span.end < m.span.end <= src.len()
    &&& m.pattern == src.subrange(m.pattern_span.start as int, m.pattern_span.end as int)
    &&& m.template == src.subrange(m.template_span.start as int, m.template_span.end as int)
    &&& src[m.pattern_span.start - 1] == '('
    &&& src[m.pattern_span.end as int] == ')'
    &&& src[m.template_span.start - 1] == '{'
    &&& src[m.span.end - 1] == '}'
}

/// An invocation starts with `magic`, its header comes first, and its region
/// is the text its region span covers, inside the braces, with no blank at
/// either edge.
pub open spec fn invocation_anchored(src: Seq<char>, v: InvocationView) -> bool {
    &&& v.span.start == v.header_span.start < v.header_span.end < v.region_span.start
        <= v.region_span.end < v.span.end <= src.len()
    &&& v.region == src.subrange(v.region_span.start as int, v.region_span.end as int)
    &&& v.region.len() > 0 ==> !is_edge_blank(v.region[0]) && !is_edge_blank(v.region.last())
    &&& starts_with(src.skip(v.span.start as int), "magic"@)
    &&& src[v.header_span.end as int] == '{'
    &&& src[v.span.end - 1] == '}'
}

/// Two spans that share no character.
pub open spec fn spans_disjoint(a: Span, b: Span) -> bool {
    a.end <= b.start || b.end <= a.start
}

/// Constructs of different kinds never overlap.
pub open spec fn kinds_disjoint(st: ScanState) -> bool {
    &&& forall|i: int, j: int|
        0 <= i < st.grammars.len() && 0 <= j < st.magics.len() ==> spans_disjoint(
            #[trigger] st.grammars[i].span,
            #[trigger] st.magics[j].span,
        )
    &&& forall|i: int, j: int|
        0 <= i < st.grammars.len() && 0 <= j < st.invocations.len() ==> spans_disjoint(
            #[trigger] st.grammars[i].span,
            #[trigger] st.invocations[j].span,
        )
    &&& forall|i: int, j: int|
        0 <= i < st.magics.len() && 0 <= j < st.invocations.len() ==> spans_disjoint(
            #[trigger] st.magics[i].span,
            #[trigger] st.invocations[j].span,
        )
}

/// Every construct found is anchored in `src`, ends by `c`, those of each
/// kind come in text order without overlapping, and constructs of
/// different kinds do not overlap either.
pub open spec fn well_placed(src: Seq<char>, st: ScanState, c: int) -> bool {
    &&& kinds_disjoint(st)
    &&& forall|i: int| 0 <= i < st.grammars.len() ==> grammar_anchored(src, #[trigger] st.grammars[i])
        && st.grammars[i].span.end <= c
    &&& forall|i: int, j: int|
        0 <= i < j < st.grammars.len() ==> #[trigger] st.grammars[i].span.end
            <= #[trigger] st.grammars[j].span.start
    &&& forall|i: int| 0 <= i < st.magics.len() ==> magic_anchored(src, #[trigger] st.magics[i])
        && st.magics[i].span.end <= c
    &&& forall|i: int, j: int|
        0 <= i < j < st.magics.len() ==> #[trigger] st.magics[i].span.end
            <= #[trigger] st.magics[j].span.start
    &&& forall|i: int| 0 <= i < st.invocations.len() ==> invocation_anchored(src, #[trigger] st.invocations[i])
        && st.invocations[i].span.end <= c
    &&& forall|i: int, j: int|
        0 <= i < j < st.invocations.len() ==> #[trigger] st.invocations[i].span.end
            <= #[trigger] st.invocations[j].span.start
}

// ---------------------------------------------------------------------------
// Positions only move forward
// ---------------------------------------------------------------------------

pub proof fn lemma_skip_inline_ws_bounds(src: Seq<char>, c: int)
    requires
        0 <= c <= src.len(),
    ensures
        c <= skip_inline_ws(src, c) <= src.len(),
    decreases src.len() - c,
{
    if c < src.len() && (src[c] == ' ' || src[c] == '\t') {
        lemma_skip_inline_ws_bounds(src, c + 1);
    }
}

pub proof fn lemma_scan_skip_bounds(src: Seq<char>, c: int)
    requires
        0 <= c <= src.len(),
    ensures
        c <= scan_skip(src, c, cm()) <= src.len(),
    decreases src.len() - c,
{
    if c < src.len() {
        lemma_cm_comments_advance();
        lemma_comment_len_positive(src, c, cm());
        lemma_comment_len_bound(src, c, cm());
        if crate::text::is_ws(src[c]) {
            lemma_scan_skip_bounds(src, c + 1);
        } else {
            match spec_comment_len(src, c, cm()) {
                Some(l) => {
                    lemma_scan_skip_bounds(src, c + l);
                },
                None => {},
            }
        }
    }
}

pub proof fn lemma_dotted_from_bounds(src: Seq<char>, c: int, segs: Seq<Seq<char>>)
    requires
        0 <= c <= src.len(),
    ensures
        dotted_from(src, c, segs) matches Some((path, e)) ==> c < e <= src.len() && path.len()
            > segs.len(),
    decreases src.len() - c,
{
    if starts_ident(src, c) {
        assert(src.skip(c)[0] == src[c]);
        lemma_leading_count_bound(src.skip(c), word_pred());
        let e = c + word_len(src, c);
        if e < src.len() && src[e] == '.' && starts_ident(src, e + 1) && e + 1 > c {
            lemma_dotted_from_bounds(src, e + 1, segs.push(src.subrange(c, e)));
        }
    }
}

pub proof fn lemma_advance_after_block(src: Seq<char>, c: int)
    requires
        0 <= c < src.len(),
    ensures
        advance_after_block(src, c) > c,
{
    lemma_find_char(src.skip(c), '\n');
}

pub proof fn lemma_spaces_from_bounds(src: Seq<char>, s: int, e: int)
    requires
        s <= e,
    ensures
        s <= spaces_from(src, s, e) <= e,
    decreases e - s,
{
    if s < e && 0 <= s < src.len() && (src[s] == ' ' || src[s] == '\t') {
        lemma_spaces_from_bounds(src, s + 1, e);
    }
}

pub proof fn lemma_region_front_bounds(src: Seq<char>, s: int, e: int)
    requires
        0 <= s <= e < src.len(),
        src[e] == '}',
    ensures
        s <= region_front(src, s, e) <= e,
    decreases src.len() - s,
{
    lemma_spaces_from_bounds(src, s, e);
    let s1 = spaces_from(src, s, e);
    if s1 + 1 < src.len() && src[s1] == '\r' && src[s1 + 1] == '\n' {
        lemma_region_front_bounds(src, s1 + 2, e);
    } else if s1 < src.len() && (src[s1] == '\n' || src[s1] == '\r') {
        lemma_region_front_bounds(src, s1 + 1, e);
    }
}

pub proof fn lemma_back_spaces_bounds(src: Seq<char>, s: int, e: int)
    requires
        s <= e,
    ensures
        s <= back_spaces(src, s, e) <= e,
    decreases e - s,
{
    if e > s && 0 < e <= src.len() && (src[e - 1] == ' ' || src[e - 1] == '\t') {
        lemma_back_spaces_bounds(src, s, e - 1);
    }
}

pub proof fn lemma_region_back_bounds(src: Seq<char>, s: int, e: int)
    requires
        s <= e,
    ensures
        s <= region_back(src, s, e) <= e,
    decreases e - s,
{
    lemma_back_spaces_bounds(src, s, e);
    let e1 = back_spaces(src, s, e);
    if e1 >= s + 2 && 0 < e1 <= src.len() && src[e1 - 2] == '\r' && src[e1 - 1] == '\n' {
        lemma_region_back_bounds(src, s, e1 - 2);
    } else if e1 > s && 0 < e1 <= src.len() && (src[e1 - 1] == '\n' || src[e1 - 1] == '\r') {
        lemma_region_back_bounds(src, s, e1 - 1);
    }
}

pub proof fn lemma_normalize_region(src: Seq<char>, open: int, close: int)
    requires
        0 <= open < close < src.len(),
        src.len() <= usize::MAX,
        src[close] == '}',
    ensures
        ({
            let (span, text) = normalize_region(src, open, close);
            &&& open < span.start <= span.end <= close
            &&& text == src.subrange(span.start as int, span.end as int)
        }),
{
    lemma_region_front_bounds(src, open + 1, close);
    let start = region_front(src, open + 1, close);
    lemma_region_back_bounds(src, start, close);
}

pub proof fn lemma_dotted_words(src: Seq<char>, c: int, segs: Seq<Seq<char>>)
    requires
        0 <= c <= src.len(),
        forall|i: int| 0 <= i < segs.len() ==> no_line_feed(#[trigger] segs[i]),
    ensures
        dotted_from(src, c, segs) matches Some((path, e)) ==> forall|i: int|
            0 <= i < path.len() ==> no_line_feed(#[trigger] path[i]),
    decreases src.len() - c,
{
    if starts_ident(src, c) {
        lemma_leading_count_bound(src.skip(c), word_pred());
        let e = c + word_len(src, c);
        let w = src.subrange(c, e);
        assert forall|k: int| 0 <= k < w.len() implies w[k] != '\n' by {
            assert(w[k] == src.skip(c)[k]);
            assert(word_pred()(src.skip(c)[k]));
        }
        let segs2 = segs.push(w);
        assert forall|i: int| 0 <= i < segs2.len() implies no_line_feed(#[trigger] segs2[i]) by {
            if i < segs.len() {
                assert(segs2[i] == segs[i]);
            }
        }
        if e < src.len() && src[e] == '.' && starts_ident(src, e + 1) && e + 1 > c {
            lemma_dotted_from_bounds(src, c, segs);
            assert(e <= src.len()) by {
                lemma_leading_count_bound(src.skip(c), word_pred());
            }
            lemma_dotted_words(src, e + 1, segs2);
        }
    }
}

pub proof fn lemma_join_no_line_feed(parts: Seq<Seq<char>>, sep: Seq<char>)
    requires
        forall|i: int| 0 <= i < parts.len() ==> no_line_feed(#[trigger] parts[i]),
        no_line_feed(sep),
    ensures
        no_line_feed(crate::mods::join(parts, sep)),
    decreases parts.len(),
{
    if parts.len() > 1 {
        let init = parts.drop_last();
        assert forall|i: int| 0 <= i < init.len() implies no_line_feed(#[trigger] init[i]) by {
            assert(init[i] == parts[i]);
        }
        lemma_join_no_line_feed(init, sep);
        let j = crate::mods::join(init, sep) + sep + parts.last();
        assert(no_line_feed(parts.last())) by {
            assert(parts.last() == parts[parts.len() - 1]);
        }
        assert forall|k: int| 0 <= k < j.len() implies j[k] != '\n' by {
            let a = crate::mods::join(init, sep);
            if k < a.len() {
                assert(j[k] == a[k]);
            } else if k < a.len() + sep.len() {
                assert(j[k] == sep[k - a.len()]);
            } else {
                assert(j[k] == parts.last()[k - a.len() - sep.len()]);
            }
        }
    } else if parts.len() == 1 {
        assert(no_line_feed(parts[0]));
    }
}

// ---------------------------------------------------------------------------
// One construct at a time
// ---------------------------------------------------------------------------

/// A grammar declaration adds at most one grammar, anchored, spanning from
/// the keyword to where the scan resumes.
pub proof fn lemma_grammar_step(src: Seq<char>, kpos: int, klen: int, st: ScanState)
    requires
        0 <= kpos,
        klen > 0,
        kpos + klen <= src.len(),
        src.len() <= usize::MAX,
    ensures
        ({
            let (end, st2) = grammar_step(src, kpos, klen, st);
            &&& st2.magics == st.magics
            &&& st2.invocations == st.invocations
            &&& end is None ==> st2.grammars == st.grammars
            &&& end matches Some(e) ==> kpos < e <= src.len() && st2.grammars == st.grammars.push(
                st2.grammars.last(),
            ) && grammar_anchored(src, st2.grammars.last()) && st2.grammars.last().span.start == kpos
                && st2.grammars.last().span.end == e
        }),
{
    lemma_skip_inline_ws_bounds(src, kpos + klen);
    let c = scan_skip(src, skip_inline_ws(src, kpos + klen), cm());
    lemma_scan_skip_bounds(src, skip_inline_ws(src, kpos + klen));
    lemma_dotted_from_bounds(src, c, seq![]);
    lemma_dotted_words(src, c, seq![]);
    match dotted_path(src, c) {
        None => {},
        Some((name, after)) => {
            lemma_scan_skip_bounds(src, after);
            let open = scan_skip(src, after, cm());
            if 0 <= open < src.len() && src[open] == '{' {
                lemma_balance_found(src, open + 1, 1, '{', '}', cm());
            }
        },
    }
}

/// A magic declaration adds at most one magic, anchored, spanning from the
/// keyword to where the scan resumes.
pub proof fn lemma_magic_decl_step(src: Seq<char>, kpos: int, st: ScanState)
    requires
        0 <= kpos,
        kpos + 5 <= src.len(),
        src.len() <= usize::MAX,
    ensures
        ({
            let (end, st2) = magic_decl_step(src, kpos, st);
            &&& st2.grammars == st.grammars
            &&& st2.invocations == st.invocations
            &&& end is None ==> st2.magics == st.magics
            &&& end matches Some(e) ==> kpos < e <= src.len() && st2.magics == st.magics.push(
                st2.magics.last(),
            ) && magic_anchored(src, st2.magics.last()) && st2.magics.last().span.start == kpos
                && st2.magics.last().span.end == e
        }),
{
    lemma_skip_inline_ws_bounds(src, kpos + 5);
    let c = scan_skip(src, skip_inline_ws(src, kpos + 5), cm());
    lemma_scan_skip_bounds(src, skip_inline_ws(src, kpos + 5));
    lemma_dotted_from_bounds(src, c, seq![]);
    lemma_dotted_words(src, c, seq![]);
    match dotted_path(src, c) {
        None => {},
        Some((name, after)) => {
            reveal_strlit(".");
            lemma_join_no_line_feed(name, "."@);
            lemma_scan_skip_bounds(src, after);
            let po = scan_skip(src, after, cm());
            if 0 <= po < src.len() && src[po] == '(' {
                lemma_balance_found(src, po + 1, 1, '(', ')', cm());
                match spec_balance(src, po, '(', ')', cm()) {
                    Walked::Found(pc) => {
                        lemma_scan_skip_bounds(src, pc + 1);
                        let to = scan_skip(src, pc + 1, cm());
                        if 0 <= to < src.len() && src[to] == '{' {
                            lemma_balance_found(src, to + 1, 1, '{', '}', cm());
                        }
                    },
                    _ => {},
                }
            }
        },
    }
}

/// An invocation adds at most one invocation, anchored, spanning from the
/// keyword to where the scan resumes.
pub proof fn lemma_invocation_step(src: Seq<char>, kpos: int, st: ScanState)
    requires
        0 <= kpos,
        kpos + 5 <= src.len(),
        src.len() <= usize::MAX,
        keyword_at(src, kpos, "magic"@) is Some,
        skip_inline_ws(src, kpos + 5) < src.len(),
    ensures
        ({
            let (end, st2) = invocation_step(src, kpos, st);
            &&& st2.grammars == st.grammars
            &&& st2.magics == st.magics
            &&& end is None ==> st2.invocations == st.invocations
            &&& end matches Some(e) ==> kpos < e <= src.len() && st2.invocations
                == st.invocations.push(st2.invocations.last()) && invocation_anchored(
                src,
                st2.invocations.last(),
            ) && st2.invocations.last().span.start == kpos && st2.invocations.last().span.end == e
        }),
{
    lemma_skip_inline_ws_bounds(src, kpos + 5);
    let c = scan_skip(src, skip_inline_ws(src, kpos + 5) + 1, cm());
    lemma_scan_skip_bounds(src, skip_inline_ws(src, kpos + 5) + 1);
    lemma_dotted_from_bounds(src, c, seq![]);
    match dotted_path(src, c) {
        None => {},
        Some((path, after)) => {
            lemma_scan_skip_bounds(src, after);
            let c2 = scan_skip(src, after, cm());
            if 0 <= c2 < src.len() && src[c2] == ')' {
                lemma_scan_skip_bounds(src, c2 + 1);
                let c3 = scan_skip(src, c2 + 1, cm());
                if 0 <= c3 < src.len() && src[c3] == '{' {
                    let profile = crate::mega::scan::composed_region_profile(
                        st,
                        crate::mega::scan::join_dots(path),
                    );
                    lemma_balance_found(src, c3 + 1, 1, '{', '}', profile);
                    match spec_balance(src, c3, '{', '}', profile) {
                        Walked::Found(rc) => {
                            lemma_normalize_region(src, c3, rc);
                            lemma_normalized_region_is_trimmed(src, c3, rc);
                        },
                        _ => {},
                    }
                }
            }
        },
    }
}

/// Adding an anchored construct that starts where every earlier one ended
/// keeps a list in text order.
proof fn lemma_push_grammar(src: Seq<char>, st: ScanState, g: GrammarView, c: int, e: int)
    requires
        well_placed(src, st, c),
        grammar_anchored(src, g),
        g.span.start == c,
        g.span.end == e,
        c < e,
    ensures
        well_placed(src, ScanState { grammars: st.grammars.push(g), ..st }, e),
{
    let gs = st.grammars.push(g);
    assert forall|i: int, j: int| 0 <= i < j < gs.len() implies #[trigger] gs[i].span.end
        <= #[trigger] gs[j].span.start by {
        if j == gs.len() - 1 {
            assert(gs[i] == st.grammars[i]);
        } else {
            assert(gs[i] == st.grammars[i] && gs[j] == st.grammars[j]);
        }
    }
    assert forall|i: int| 0 <= i < gs.len() implies grammar_anchored(src, #[trigger] gs[i])
        && gs[i].span.end <= e by {
        if i < st.grammars.len() {
            assert(gs[i] == st.grammars[i]);
        }
    }
    assert forall|i: int, j: int| 0 <= i < gs.len() && 0 <= j < st.magics.len() implies spans_disjoint(
        #[trigger] gs[i].span,
        #[trigger] st.magics[j].span,
    ) by {
        if i < st.grammars.len() {
            assert(gs[i] == st.grammars[i]);
        }
    }
    assert forall|i: int, j: int| 0 <= i < gs.len() && 0 <= j < st.invocations.len() implies spans_disjoint(
        #[trigger] gs[i].span,
        #[trigger] st.invocations[j].span,
    ) by {
        if i < st.grammars.len() {
            assert(gs[i] == st.grammars[i]);
        }
    }
}

proof fn lemma_push_magic(src: Seq<char>, st: ScanState, m: MagicView, c: int, e: int)
    requires
        well_placed(src, st, c),
        magic_anchored(src, m),
        m.span.start == c,
        m.span.end == e,
        c < e,
    ensures
        well_placed(src, ScanState { magics: st.magics.push(m), ..st }, e),
{
    let ms = st.magics.push(m);
    assert forall|i: int, j: int| 0 <= i < j < ms.len() implies #[trigger] ms[i].span.end
        <= #[trigger] ms[j].span.start by {
        if j == ms.len() - 1 {
            assert(ms[i] == st.magics[i]);
        } else {
            assert(ms[i] == st.magics[i] && ms[j] == st.magics[j]);
        }
    }
    assert forall|i: int| 0 <= i < ms.len() implies magic_anchored(src, #[trigger] ms[i])
        && ms[i].span.end <= e by {
        if i < st.magics.len() {
            assert(ms[i] == st.magics[i]);
        }
    }
    assert forall|i: int, j: int| 0 <= i < st.grammars.len() && 0 <= j < ms.len() implies spans_disjoint(
        #[trigger] st.grammars[i].span,
        #[trigger] ms[j].span,
    ) by {
        if j < st.magics.len() {
            assert(ms[j] == st.magics[j]);
        }
    }
    assert forall|i: int, j: int| 0 <= i < ms.len() && 0 <= j < st.invocations.len() implies spans_disjoint(
        #[trigger] ms[i].span,
        #[trigger] st.invocations[j].span,
    ) by {
        if i < st.magics.len() {
            assert(ms[i] == st.magics[i]);
        }
    }
}

proof fn lemma_push_invocation(src: Seq<char>, st: ScanState, v: InvocationView, c: int, e: int)
    requires
        well_placed(src, st, c),
        invocation_anchored(src, v),
        v.span.start == c,
        v.span.end == e,
        c < e,
    ensures
        well_placed(src, ScanState { invocations: st.invocations.push(v), ..st }, e),
{
    let vs = st.invocations.push(v);
    assert forall|i: int, j: int| 0 <= i < j < vs.len() implies #[trigger] vs[i].span.end
        <= #[trigger] vs[j].span.start by {
        if j == vs.len() - 1 {
            assert(vs[i] == st.invocations[i]);
        } else {
            assert(vs[i] == st.invocations[i] && vs[j] == st.invocations[j]);
        }
    }
    assert forall|i: int| 0 <= i < vs.len() implies invocation_anchored(src, #[trigger] vs[i])
        && vs[i].span.end <= e by {
        if i < st.invocations.len() {
            assert(vs[i] == st.invocations[i]);
        }
    }
    assert forall|i: int, j: int| 0 <= i < st.grammars.len() && 0 <= j < vs.len() implies spans_disjoint(
        #[trigger] st.grammars[i].span,
        #[trigger] vs[j].span,
    ) by {
        if j < st.invocations.len() {
            assert(vs[j] == st.invocations[j]);
        }
    }
    assert forall|i: int, j: int| 0 <= i < st.magics.len() && 0 <= j < vs.len() implies spans_disjoint(
        #[trigger] st.magics[i].span,
        #[trigger] vs[j].span,
    ) by {
        if j < st.invocations.len() {
            assert(vs[j] == st.invocations[j]);
        }
    }
}

/// Placement survives moving the scan forward.
proof fn lemma_well_placed_later(src: Seq<char>, st: ScanState, c: int, d: int)
    requires
        well_placed(src, st, c),
        c <= d,
    ensures
        well_placed(src, st, d),
{
}

/// One scan step moves forward and keeps every construct well placed.
proof fn lemma_scan_step(src: Seq<char>, c: int, st: ScanState)
    requires
        0 <= c < src.len(),
        src.len() <= usize::MAX,
        well_placed(src, st, c),
    ensures
        scan_step(src, c, st).0 > c,
        well_placed(src, scan_step(src, c, st).1, scan_step(src, c, st).0),
{
    let (next, st2) = scan_step(src, c, st);
    lemma_cm_comments_advance();
    lemma_comment_len_positive(src, c, cm());
    lemma_form_for_quote_bound(cm().strings, src[c]);
    match form_for_quote(cm().strings, src[c]) {
        Some(i) => {
            lemma_plain_string_found_positive(src, c, c + 1, cm().strings[i]);
        },
        None => {},
    }
    lemma_advance_after_block(src, c);
    reveal_strlit("grammar");
    reveal_strlit("magic");
    match spec_comment_len(src, c, cm()) {
        Some(l) => {
            lemma_well_placed_later(src, st, c, next);
        },
        None => match spec_string_len(src, c, cm()) {
            Walked::Found(l) => {
                lemma_well_placed_later(src, st, c, next);
            },
            _ => match keyword_at(src, c, "grammar"@) {
                Some(w) => {
                    lemma_grammar_step(src, c, w, st);
                    let (end, sg) = grammar_step(src, c, w, st);
                    match end {
                        Some(e) => {
                            lemma_push_grammar(src, st, sg.grammars.last(), c, e);
                            assert(sg == ScanState { grammars: st.grammars.push(sg.grammars.last()), ..sg });
                        },
                        None => {
                            lemma_well_placed_later(src, st, c, next);
                        },
                    }
                },
                None => match keyword_at(src, c, "magic"@) {
                    Some(w) => {
                        let k = skip_inline_ws(src, c + w);
                        if 0 <= k < src.len() && src[k] == '(' {
                            lemma_invocation_step(src, c, st);
                            let (end, sv) = invocation_step(src, c, st);
                            match end {
                                Some(e) => {
                                    lemma_push_invocation(src, st, sv.invocations.last(), c, e);
                                },
                                None => {
                                    lemma_well_placed_later(src, st, c, next);
                                },
                            }
                        } else if starts_ident(src, k) {
                            lemma_magic_decl_step(src, c, st);
                            let (end, sm) = magic_decl_step(src, c, st);
                            match end {
                                Some(e) => {
                                    lemma_push_magic(src, st, sm.magics.last(), c, e);
                                },
                                None => {
                                    lemma_well_placed_later(src, st, c, next);
                                },
                            }
                        } else {
                            lemma_well_placed_later(src, st, c, next);
                        }
                    },
                    None => {
                        lemma_well_placed_later(src, st, c, next);
                    },
                },
            },
        },
    }
}

proof fn lemma_scan_from(src: Seq<char>, c: int, st: ScanState)
    requires
        0 <= c,
        src.len() <= usize::MAX,
        well_placed(src, st, c),
    ensures
        well_placed(src, scan_from(src, c, st), src.len() as int),
    decreases if c < src.len() {
        src.len() - c
    } else {
        0
    },
{
    if c < src.len() {
        lemma_scan_step(src, c, st);
        let (next, st2) = scan_step(src, c, st);
        lemma_scan_from(src, next, st2);
    }
}

/// Every construct a scan finds is anchored in the scanned text (its
/// verbatim body, pattern, template or region is exactly the text its span
/// covers, inside the delimiters that opened and closed it; a region has no
/// blank at either edge), and the
/// grammars, magic declarations and invocations each come in text order
/// without overlapping one another or constructs of another kind.
pub proof fn lemma_scan_constructs_are_anchored_in_order(src: Seq<char>)
    requires
        src.len() <= usize::MAX,
    ensures
        well_placed(src, spec_scan_magic(src), src.len() as int),
{
    lemma_scan_from(src, 0, crate::mega::scan::empty_scan());
}

// ---------------------------------------------------------------------------
// Region edges
// ---------------------------------------------------------------------------

/// Horizontal whitespace or a line terminator.
pub open spec fn is_edge_blank(c: char) -> bool {
    c == ' ' || c == '\t' || c == '\n' || c == '\r'
}

pub proof fn lemma_spaces_from_stops(src: Seq<char>, s: int, e: int)
    requires
        0 <= s <= e <= src.len(),
    ensures
        spaces_from(src, s, e) < e ==> !(src[spaces_from(src, s, e)] == ' ' || src[spaces_from(src, s, e)] == '\t'),
    decreases e - s,
{
    if s < e && (src[s] == ' ' || src[s] == '\t') {
        lemma_spaces_from_stops(src, s + 1, e);
    }
}

pub proof fn lemma_region_front_stops(src: Seq<char>, s: int, e: int)
    requires
        0 <= s <= e < src.len(),
        src[e] == '}',
    ensures
        region_front(src, s, e) < e ==> !is_edge_blank(src[region_front(src, s, e)]),
    decreases src.len() - s,
{
    lemma_spaces_from_bounds(src, s, e);
    lemma_spaces_from_stops(src, s, e);
    let s1 = spaces_from(src, s, e);
    if s1 + 1 < src.len() && src[s1] == '\r' && src[s1 + 1] == '\n' {
        lemma_region_front_stops(src, s1 + 2, e);
    } else if s1 < src.len() && (src[s1] == '\n' || src[s1] == '\r') {
        lemma_region_front_stops(src, s1 + 1, e);
    }
}

pub proof fn lemma_back_spaces_stops(src: Seq<char>, s: int, e: int)
    requires
        0 <= s <= e <= src.len(),
    ensures
        back_spaces(src, s, e) > s ==> !(src[back_spaces(src, s, e) - 1] == ' ' || src[back_spaces(src, s, e) - 1] == '\t'),
    decreases e - s,
{
    if e > s && 0 < e && (src[e - 1] == ' ' || src[e - 1] == '\t') {
        lemma_back_spaces_stops(src, s, e - 1);
    }
}

pub proof fn lemma_region_back_stops(src: Seq<char>, s: int, e: int)
    requires
        0 <= s <= e <= src.len(),
    ensures
        region_back(src, s, e) > s ==> !is_edge_blank(src[region_back(src, s, e) - 1]),
    decreases e - s,
{
    lemma_back_spaces_bounds(src, s, e);
    lemma_back_spaces_stops(src, s, e);
    let e1 = back_spaces(src, s, e);
    if e1 >= s + 2 && 0 < e1 <= src.len() && src[e1 - 2] == '\r' && src[e1 - 1] == '\n' {
        lemma_region_back_stops(src, s, e1 - 2);
    } else if e1 > s && 0 < e1 <= src.len() && (src[e1 - 1] == '\n' || src[e1 - 1] == '\r') {
        lemma_region_back_stops(src, s, e1 - 1);
    }
}

/// A normalized region neither starts nor ends with horizontal whitespace
/// or a line terminator: edge blanks and blank edge lines are trimmed, and
/// what remains is the text between them, verbatim.
pub proof fn lemma_normalized_region_is_trimmed(src: Seq<char>, open: int, close: int)
    requires
        0 <= open < close < src.len(),
        src.len() <= usize::MAX,
        src[close] == '}',
    ensures
        ({
            let text = normalize_region(src, open, close).1;
            text.len() > 0 ==> !is_edge_blank(text[0]) && !is_edge_blank(text.last())
        }),
{
    lemma_normalize_region(src, open, close);
    lemma_region_front_bounds(src, open + 1, close);
    lemma_region_front_stops(src, open + 1, close);
    let start = region_front(src, open + 1, close);
    lemma_region_back_bounds(src, start, close);
    lemma_region_back_stops(src, start, close);
}

} // verus!
