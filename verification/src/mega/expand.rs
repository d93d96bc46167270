//! Pieces of the expansion pass that stand on their own: its options and
//! results, provenance comments, the expansion stack, span edits and the
//! declaration-order rule.

use vstd::prelude::*;

use crate::diagnostics::{Diagnostic, DiagnosticView, Span, diagnostics_view};
use crate::mega::scan::{
    GrammarView, InvocationScan, InvocationView, MagicDeclScan, MagicScan, MagicView, ScanState,
    first_magic_named, index_opt, lemma_first_magic_is, scan_magic, scan_view, spec_scan_magic,
};
use crate::mega::scan_proofs::{
    grammar_anchored, kinds_disjoint, lemma_scan_constructs_are_anchored_in_order,
    magic_anchored, no_line_feed, well_placed,
};
use crate::text::{chars_of, push_chars, push_str, string_from_chars};

verus! {

/// One expanded invocation, recorded for tooling and provenance.
#[derive(Debug, Clone)]
pub struct ExpansionRecord {
    /// The macro name.
    pub magic: String,
    /// The invocation's span in the text the pass ran on.
    pub span: Span,
}

/// The result of a successful expansion pass.
#[derive(Debug, Clone)]
pub struct ExpansionOutcome {
    /// Pure Checkmate source: every magic declaration removed, every magic
    /// invocation replaced by its generated code.
    pub expanded: String,
    pub records: Vec<ExpansionRecord>,
}

/// Knobs for the expansion pass. The default is byte-deterministic output
/// with no annotations; `provenance` adds a `// @ magic(name) src:L:C`
/// comment above the line of every root invocation of the source text.
#[derive(Debug, Clone, Copy, Default)]
pub struct ExpandOptions {
    pub provenance: bool,
}

/// The number of line feeds in `s`.
pub open spec fn count_line_feeds(s: Seq<char>) -> nat
    decreases s.len(),
{
    if s.len() == 0 {
        0
    } else {
        count_line_feeds(s.drop_last()) + if s.last() == '\n' {
            1nat
        } else {
            0nat
        }
    }
}

/// The index of the last line feed or carriage return in `s`, or -1.
pub open spec fn last_line_break(s: Seq<char>) -> int
    decreases s.len(),
{
    if s.len() == 0 {
        -1
    } else if s.last() == '\n' || s.last() == '\r' {
        s.len() - 1
    } else {
        last_line_break(s.drop_last())
    }
}

/// The text before `offset`, clamped to the end of `src`.
pub open spec fn text_before(src: Seq<char>, offset: int) -> Seq<char> {
    src.take(
        if offset <= src.len() {
            offset
        } else {
            src.len() as int
        },
    )
}

/// The one-based line of `offset`: one more than the line feeds before it.
pub open spec fn spec_line(src: Seq<char>, offset: int) -> int {
    1 + count_line_feeds(text_before(src, offset)) as int
}

/// The one-based column of `offset`: one more than the characters since the
/// last line feed or carriage return before it.
pub open spec fn spec_column(src: Seq<char>, offset: int) -> int {
    text_before(src, offset).len() - last_line_break(text_before(src, offset))
}

/// One-based line and column of character offset `offset` in `source`
/// (clamped to its end): the line counts line feeds before it, the column
/// counts characters since the last line feed or carriage return.
pub fn line_column(source: &str, offset: usize) -> (r: (usize, usize))
    requires
        source@.len() < usize::MAX,
    ensures
        r.0 == spec_line(source@, offset as int),
        r.1 == spec_column(source@, offset as int),
{
    let s = chars_of(source);
    let m = if offset <= s.len() {
        offset
    } else {
        s.len()
    };
    let mut lines: usize = 0;
    let mut after_break: usize = 0;
    let mut i: usize = 0;
    while i < m
        invariant
            s@ == source@,
            m <= s@.len(),
            s@.len() < usize::MAX,
            i <= m,
            lines == count_line_feeds(s@.take(i as int)),
            lines <= i,
            after_break as int == last_line_break(s@.take(i as int)) + 1,
            after_break <= i,
        decreases m - i,
    {
        assert(s@.take(i + 1).drop_last() =~= s@.take(i as int));
        if s[i] == '\n' {
            lines += 1;
        }
        if s[i] == '\n' || s[i] == '\r' {
            after_break = i + 1;
        }
        i += 1;
    }
    (1 + lines, m - after_break + 1)
}

/// The number of line feeds `span` covers in `text`.
pub fn count_newlines(text: &str, span: Span) -> (r: usize)
    requires
        span.start <= span.end <= text@.len(),
    ensures
        r == count_line_feeds(text@.subrange(span.start as int, span.end as int)),
{
    let s = chars_of(text);
    let mut count: usize = 0;
    let mut i = span.start;
    assert(s@.subrange(span.start as int, i as int) =~= Seq::<char>::empty());
    while i < span.end
        invariant
            s@ == text@,
            span.start <= i <= span.end <= s@.len(),
            count == count_line_feeds(s@.subrange(span.start as int, i as int)),
            count <= i - span.start,
        decreases span.end - i,
    {
        assert(s@.subrange(span.start as int, i + 1).drop_last() =~= s@.subrange(span.start as int, i as int));
        if s[i] == '\n' {
            count += 1;
        }
        i += 1;
    }
    count
}

// ---------------------------------------------------------------------------
// Provenance comments
// ---------------------------------------------------------------------------

/// `outer` contains `inner` and is not the same span.
pub open spec fn strictly_contains(outer: Span, inner: Span) -> bool {
    outer.start <= inner.start && outer.end >= inner.end && (outer.start != inner.start || outer.end
        != inner.end)
}

/// The `i`-th invocation is a root: no other invocation strictly contains it.
pub open spec fn is_root(invs: Seq<InvocationView>, i: int) -> bool {
    forall|j: int| 0 <= j < invs.len() && j != i ==> !strictly_contains(#[trigger] invs[j].span, invs[i].span)
}

/// The decimal digit for `d`.
pub open spec fn digit_char(d: int) -> char {
    if d == 0 {
        '0'
    } else if d == 1 {
        '1'
    } else if d == 2 {
        '2'
    } else if d == 3 {
        '3'
    } else if d == 4 {
        '4'
    } else if d == 5 {
        '5'
    } else if d == 6 {
        '6'
    } else if d == 7 {
        '7'
    } else if d == 8 {
        '8'
    } else {
        '9'
    }
}

/// The decimal spelling of `n`.
pub open spec fn spec_decimal(n: nat) -> Seq<char>
    decreases n,
{
    if n < 10 {
        seq![digit_char(n as int)]
    } else {
        spec_decimal(n / 10).push(digit_char((n % 10) as int))
    }
}

fn digit(d: usize) -> (c: char)
    requires
        d < 10,
    ensures
        c == digit_char(d as int),
{
    if d == 0 {
        '0'
    } else if d == 1 {
        '1'
    } else if d == 2 {
        '2'
    } else if d == 3 {
        '3'
    } else if d == 4 {
        '4'
    } else if d == 5 {
        '5'
    } else if d == 6 {
        '6'
    } else if d == 7 {
        '7'
    } else if d == 8 {
        '8'
    } else {
        '9'
    }
}

/// The decimal spelling of `n`.
pub fn decimal(n: usize) -> (r: Vec<char>)
    ensures
        r@ == spec_decimal(n as nat),
{
    let mut out: Vec<char> = Vec::new();
    let mut m = n;
    while m >= 10
        invariant
            spec_decimal(n as nat) == spec_decimal(m as nat) + out@,
        decreases m,
    {
        let d = digit(m % 10);
        let ghost before = out@;
        out.insert(0, d);
        assert(out@ =~= seq![d] + before);
        assert(spec_decimal(m as nat) == spec_decimal((m / 10) as nat).push(d));
        assert(spec_decimal(m as nat) + before =~= spec_decimal((m / 10) as nat) + out@);
        m = m / 10;
    }
    let ghost before = out@;
    out.insert(0, digit(m));
    assert(out@ =~= seq![digit_char(m as int)] + before);
    assert(out@ =~= spec_decimal(n as nat));
    out
}

/// Where the line containing `offset` starts: just past the last line feed
/// before it.
pub open spec fn line_start(src: Seq<char>, offset: int) -> int {
    match last_line_feed(src.take(offset)) {
        Some(k) => k + 1,
        None => 0,
    }
}

/// The index of the last line feed in `s`.
pub open spec fn last_line_feed(s: Seq<char>) -> Option<int>
    decreases s.len(),
{
    if s.len() == 0 {
        None
    } else if s.last() == '\n' {
        Some(s.len() - 1)
    } else {
        last_line_feed(s.drop_last())
    }
}

/// The provenance comment of an invocation of `name` at `offset`.
pub open spec fn provenance_comment(src: Seq<char>, name: Seq<char>, offset: int) -> Seq<char> {
    "// @ magic("@ + name + ") src:"@ + spec_decimal(spec_line(src, offset) as nat) + ":"@
        + spec_decimal(spec_column(src, offset) as nat) + "\n"@
}

/// The provenance edits for the first `k` invocations: one comment line
/// inserted at the start of the line of each root invocation.
pub open spec fn provenance_upto(src: Seq<char>, invs: Seq<InvocationView>, k: int) -> Seq<(Span, Seq<char>)>
    decreases k,
{
    if k <= 0 {
        seq![]
    } else {
        let prev = provenance_upto(src, invs, k - 1);
        let v = invs[k - 1];
        if is_root(invs, k - 1) {
            let at = line_start(src, v.span.start as int) as usize;
            prev.push((Span { start: at, end: at }, provenance_comment(src, v.name, v.span.start as int)))
        } else {
            prev
        }
    }
}

pub open spec fn edits_view(edits: Seq<(Span, String)>) -> Seq<(Span, Seq<char>)> {
    edits.map_values(|e: (Span, String)| (e.0, e.1@))
}

pub open spec fn invocations_view(v: Seq<InvocationScan>) -> Seq<InvocationView> {
    v.map_values(|i: InvocationScan| i@)
}

fn is_root_exec(invs: &Vec<InvocationScan>, i: usize) -> (b: bool)
    requires
        i < invs@.len(),
    ensures
        b == is_root(invocations_view(invs@), i as int),
{
    let ghost iv = invocations_view(invs@);
    let mut j: usize = 0;
    while j < invs.len()
        invariant
            iv == invocations_view(invs@),
            i < invs@.len(),
            j <= invs@.len(),
            forall|k: int| 0 <= k < j && k != i ==> !strictly_contains(#[trigger] iv[k].span, iv[i as int].span),
        decreases invs.len() - j,
    {
        let other = invs[j].span;
        let this = invs[i].span;
        if j != i && other.start <= this.start && other.end >= this.end && (other.start != this.start
            || other.end != this.end) {
            assert(iv[j as int].span == other && iv[i as int].span == this);
            return false;
        }
        assert(iv[j as int].span == other && iv[i as int].span == this);
        j += 1;
    }
    true
}

fn line_start_exec(src: &[char], offset: usize) -> (r: usize)
    requires
        offset <= src@.len(),
    ensures
        r == line_start(src@, offset as int),
        r <= offset,
{
    let mut k = offset;
    while k > 0 && src[k - 1] != '\n'
        invariant
            k <= offset <= src@.len(),
            last_line_feed(src@.take(offset as int)) == last_line_feed(src@.take(k as int)),
        decreases k,
    {
        assert(src@.take(k as int).drop_last() =~= src@.take(k - 1));
        k -= 1;
    }
    k
}

/// The opt-in provenance edits: a `// @ magic(name) src:L:C` comment line
/// inserted at the start of the line of every root invocation (one that no
/// other invocation contains), in invocation order. Nested sites are not
/// annotated: a comment inside a foreign region could pollute captures.
pub fn provenance_edits(source: &str, scan: &MagicScan) -> (r: Vec<(Span, String)>)
    requires
        source@.len() < usize::MAX,
        forall|i: int| 0 <= i < scan.invocations@.len() ==> #[trigger] scan.invocations@[i].span.start <= source@.len(),
    ensures
        edits_view(r@) == provenance_upto(source@, invocations_view(scan.invocations@), scan.invocations@.len() as int),
{
    let src = chars_of(source);
    let ghost iv = invocations_view(scan.invocations@);
    let mut edits: Vec<(Span, String)> = Vec::new();
    let mut k: usize = 0;
    assert(edits_view(edits@) =~= seq![]);
    while k < scan.invocations.len()
        invariant
            src@ == source@,
            source@.len() < usize::MAX,
            iv == invocations_view(scan.invocations@),
            k <= scan.invocations@.len(),
            forall|i: int| 0 <= i < scan.invocations@.len() ==> #[trigger] scan.invocations@[i].span.start <= source@.len(),
            edits_view(edits@) == provenance_upto(source@, iv, k as int),
        decreases scan.invocations.len() - k,
    {
        let ghost before = edits_view(edits@);
        if is_root_exec(&scan.invocations, k) {
            let inv = &scan.invocations[k];
            let at = line_start_exec(src.as_slice(), inv.span.start);
            let (line, column) = line_column(source, inv.span.start);
            let mut text = chars_of("// @ magic(");
            push_str(&mut text, inv.name.as_str());
            push_str(&mut text, ") src:");
            push_chars(&mut text, decimal(line).as_slice());
            push_str(&mut text, ":");
            push_chars(&mut text, decimal(column).as_slice());
            push_str(&mut text, "\n");
            let edit = (Span::new(at, at), string_from_chars(text.as_slice()));
            edits.push(edit);
            assert(iv[k as int] == inv@);
            assert(text@ =~= provenance_comment(source@, inv.name@, inv.span.start as int));
            assert(edits_view(edits@) =~= before.push((edit.0, edit.1@)));
        }
        k += 1;
    }
    edits
}

// ---------------------------------------------------------------------------
// The expansion stack
// ---------------------------------------------------------------------------

/// The depth cap on nested expansion.
pub const DEPTH_CAP: usize = 64;

/// How many other invocations `invs[i]` contains.
pub open spec fn contained_count(invs: Seq<InvocationView>, i: int, upto: int) -> nat
    decreases upto,
{
    if upto <= 0 {
        0
    } else {
        contained_count(invs, i, upto - 1) + if upto - 1 != i && invs[upto - 1].span.start
            >= invs[i].span.start && invs[upto - 1].span.end <= invs[i].span.end {
            1nat
        } else {
            0nat
        }
    }
}

/// The first invocation among the first `upto` that contains the fewest
/// others.
pub open spec fn innermost_upto(invs: Seq<InvocationView>, upto: int) -> int
    decreases upto,
{
    if upto <= 1 {
        0
    } else {
        let best = innermost_upto(invs, upto - 1);
        if contained_count(invs, upto - 1, invs.len() as int) < contained_count(
            invs,
            best,
            invs.len() as int,
        ) {
            upto - 1
        } else {
            best
        }
    }
}

/// The first invocation that strictly contains `invs[c]`.
pub open spec fn first_container(invs: Seq<InvocationView>, c: int, from: int) -> Option<int>
    decreases invs.len() - from,
{
    if from < 0 || from >= invs.len() {
        None
    } else if from != c && strictly_contains(invs[from].span, invs[c].span) {
        Some(from)
    } else {
        first_container(invs, c, from + 1)
    }
}

/// Extends a containment chain outward until nothing contains its head or it
/// grows past the depth cap.
pub open spec fn chain_from(invs: Seq<InvocationView>, chain: Seq<int>) -> Seq<int>
    decreases DEPTH_CAP + 2 - chain.len(),
{
    if chain.len() == 0 || chain.len() > DEPTH_CAP + 1 {
        chain
    } else {
        match first_container(invs, chain[0], 0) {
            None => chain,
            Some(j) => chain_from(invs, seq![j] + chain),
        }
    }
}

/// The containment chain of the deepest invocation, outermost first, as
/// indices into `invs`.
pub open spec fn spec_expansion_stack(invs: Seq<InvocationView>) -> Seq<int> {
    if invs.len() == 0 {
        seq![]
    } else {
        chain_from(invs, seq![innermost_upto(invs, invs.len() as int)])
    }
}

/// A chain whose every element strictly contains the next.
pub open spec fn is_containment_chain(invs: Seq<InvocationView>, chain: Seq<int>) -> bool {
    &&& forall|k: int| 0 <= k < chain.len() ==> 0 <= #[trigger] chain[k] < invs.len()
    &&& forall|k: int|
        0 <= k < chain.len() - 1 ==> strictly_contains(invs[#[trigger] chain[k]].span, invs[chain[k + 1]].span)
}

pub proof fn lemma_first_container(invs: Seq<InvocationView>, c: int, from: int)
    ensures
        first_container(invs, c, from) matches Some(j) ==> 0 <= j < invs.len() && j != c
            && strictly_contains(invs[j].span, invs[c].span),
    decreases invs.len() - from,
{
    if 0 <= from < invs.len() && !(from != c && strictly_contains(invs[from].span, invs[c].span)) {
        lemma_first_container(invs, c, from + 1);
    }
}

pub proof fn lemma_chain_from(invs: Seq<InvocationView>, chain: Seq<int>)
    requires
        is_containment_chain(invs, chain),
    ensures
        is_containment_chain(invs, chain_from(invs, chain)),
        chain.len() > 0 ==> chain_from(invs, chain).len() > 0 && chain_from(invs, chain).last()
            == chain.last(),
    decreases DEPTH_CAP + 2 - chain.len(),
{
    if chain.len() > 0 && chain.len() <= DEPTH_CAP + 1 {
        lemma_first_container(invs, chain[0], 0);
        match first_container(invs, chain[0], 0) {
            None => {},
            Some(j) => {
                let next = seq![j] + chain;
                assert forall|k: int| 0 <= k < next.len() - 1 implies strictly_contains(
                    invs[#[trigger] next[k]].span,
                    invs[next[k + 1]].span,
                ) by {
                    if k > 0 {
                        assert(next[k] == chain[k - 1] && next[k + 1] == chain[k]);
                    }
                }
                assert forall|k: int| 0 <= k < next.len() implies 0 <= #[trigger] next[k] < invs.len() by {
                    if k > 0 {
                        assert(next[k] == chain[k - 1]);
                    }
                }
                lemma_chain_from(invs, next);
            },
        }
    }
}

/// The expansion stack is a containment chain ending at the deepest
/// invocation: each entry strictly contains the next.
pub proof fn lemma_expansion_stack_is_a_containment_chain(invs: Seq<InvocationView>)
    ensures
        is_containment_chain(invs, spec_expansion_stack(invs)),
        invs.len() > 0 ==> spec_expansion_stack(invs).len() > 0,
{
    if invs.len() > 0 {
        lemma_innermost_bound(invs, invs.len() as int);
        lemma_chain_from(invs, seq![innermost_upto(invs, invs.len() as int)]);
    }
}

pub proof fn lemma_innermost_bound(invs: Seq<InvocationView>, upto: int)
    requires
        1 <= upto <= invs.len(),
    ensures
        0 <= innermost_upto(invs, upto) < upto,
    decreases upto,
{
    if upto > 1 {
        lemma_innermost_bound(invs, upto - 1);
    }
}

fn contained_count_exec(invs: &[InvocationScan], i: usize) -> (c: usize)
    requires
        i < invs@.len(),
    ensures
        c == contained_count(invocations_view(invs@), i as int, invs@.len() as int),
{
    let ghost iv = invocations_view(invs@);
    let mut count: usize = 0;
    let mut j: usize = 0;
    while j < invs.len()
        invariant
            iv == invocations_view(invs@),
            i < invs@.len(),
            j <= invs@.len(),
            count == contained_count(iv, i as int, j as int),
            count <= j,
        decreases invs.len() - j,
    {
        assert(iv[j as int] == invs@[j as int]@ && iv[i as int] == invs@[i as int]@);
        if j != i && invs[j].span.start >= invs[i].span.start && invs[j].span.end <= invs[i].span.end {
            count += 1;
        }
        j += 1;
    }
    count
}

fn first_container_exec(invs: &[InvocationScan], c: usize) -> (r: Option<usize>)
    requires
        c < invs@.len(),
    ensures
        match r {
            Some(j) => first_container(invocations_view(invs@), c as int, 0) == Some(j as int),
            None => first_container(invocations_view(invs@), c as int, 0) is None,
        },
{
    let ghost iv = invocations_view(invs@);
    let mut j: usize = 0;
    while j < invs.len()
        invariant
            iv == invocations_view(invs@),
            c < invs@.len(),
            j <= invs@.len(),
            first_container(iv, c as int, 0) == first_container(iv, c as int, j as int),
        decreases invs.len() - j,
    {
        assert(iv[j as int] == invs@[j as int]@ && iv[c as int] == invs@[c as int]@);
        let other = invs[j].span;
        let current = invs[c].span;
        if j != c && other.start <= current.start && other.end >= current.end && (other.start
            != current.start || other.end != current.end) {
            return Some(j);
        }
        j += 1;
    }
    None
}

/// The containment chain of the deepest invocation, outermost first: the
/// expansion stack a depth-cap diagnostic reports. The deepest invocation is
/// the first that contains the fewest others; the chain stops growing past
/// the depth cap.
pub fn expansion_stack(invocations: &[InvocationScan]) -> (r: Vec<&InvocationScan>)
    ensures
        r@.len() == spec_expansion_stack(invocations_view(invocations@)).len(),
        forall|k: int|
            0 <= k < r@.len() ==> *r@[k] == invocations@[#[trigger] spec_expansion_stack(
                invocations_view(invocations@),
            )[k]],
{
    let ghost iv = invocations_view(invocations@);
    if invocations.len() == 0 {
        return Vec::new();
    }
    let mut best: usize = 0;
    let mut best_count = contained_count_exec(invocations, 0);
    let mut i: usize = 1;
    while i < invocations.len()
        invariant
            iv == invocations_view(invocations@),
            1 <= i <= invocations@.len(),
            best == innermost_upto(iv, i as int),
            best < invocations@.len(),
            best_count == contained_count(iv, best as int, invocations@.len() as int),
        decreases invocations.len() - i,
    {
        let count = contained_count_exec(invocations, i);
        if count < best_count {
            best = i;
            best_count = count;
        }
        i += 1;
    }
    let mut chain: Vec<usize> = Vec::new();
    chain.push(best);
    let ghost start = seq![best as int];
    assert(chain@.map_values(|x: usize| x as int) =~= start);
    proof {
        lemma_innermost_bound(iv, iv.len() as int);
    }
    loop
        invariant
            iv == invocations_view(invocations@),
            chain@.len() > 0,
            forall|k: int| 0 <= k < chain@.len() ==> #[trigger] chain@[k] < invocations@.len(),
            spec_expansion_stack(iv) == chain_from(iv, chain@.map_values(|x: usize| x as int)),
        ensures
            forall|k: int| 0 <= k < chain@.len() ==> #[trigger] chain@[k] < invocations@.len(),
            spec_expansion_stack(iv) == chain@.map_values(|x: usize| x as int),
        decreases DEPTH_CAP + 2 - chain@.len(),
    {
        let ghost cv = chain@.map_values(|x: usize| x as int);
        if chain.len() > DEPTH_CAP + 1 {
            break ;
        }
        match first_container_exec(invocations, chain[0]) {
            None => {
                break ;
            },
            Some(j) => {
                proof {
                    lemma_first_container(iv, chain@[0] as int, 0);
                }
                chain.insert(0, j);
                assert(chain@.map_values(|x: usize| x as int) =~= seq![j as int] + cv);
            },
        }
    }
    let ghost cv = chain@.map_values(|x: usize| x as int);
    let mut out: Vec<&InvocationScan> = Vec::new();
    let mut k: usize = 0;
    while k < chain.len()
        invariant
            iv == invocations_view(invocations@),
            spec_expansion_stack(iv) == cv,
            cv == chain@.map_values(|x: usize| x as int),
            forall|m: int| 0 <= m < chain@.len() ==> #[trigger] chain@[m] < invocations@.len(),
            k <= chain@.len(),
            out@.len() == k,
            forall|m: int| 0 <= m < k ==> *out@[m] == invocations@[#[trigger] cv[m]],
        decreases chain.len() - k,
    {
        out.push(&invocations[chain[k]]);
        k += 1;
    }
    out
}

// ---------------------------------------------------------------------------
// Expansion rounds
// ---------------------------------------------------------------------------

/// What one round of the fixpoint expansion does with the invocations that a
/// scan of the current text found.
#[derive(Debug)]
pub enum RoundDecision {
    /// No invocation is left: the expansion has reached its fixpoint.
    Done,
    /// Expanding again would pass the depth cap; the diagnostic reports the
    /// expansion stack.
    DepthExceeded(Diagnostic),
    /// Expand these invocations (indices into the scan, in scan order): the
    /// innermost ones, within which no other invocation lies.
    Expand(Vec<usize>),
}

pub enum RoundView {
    Done,
    DepthExceeded(DiagnosticView),
    Expand(Seq<int>),
}

pub open spec fn round_view(r: RoundDecision) -> RoundView {
    match r {
        RoundDecision::Done => RoundView::Done,
        RoundDecision::DepthExceeded(d) => RoundView::DepthExceeded(d@),
        RoundDecision::Expand(v) => RoundView::Expand(v@.map_values(|i: usize| i as int)),
    }
}

/// No other invocation lies within `invs[i]` (one with the same span
/// counts as lying within it).
pub open spec fn is_innermost(invs: Seq<InvocationView>, i: int) -> bool {
    forall|j: int|
        0 <= j < invs.len() && j != i ==> !(#[trigger] invs[j].span.start >= invs[i].span.start
            && invs[j].span.end <= invs[i].span.end)
}

/// The innermost invocations among the first `k`, in scan order.
pub open spec fn innermost_indices(invs: Seq<InvocationView>, k: int) -> Seq<int>
    decreases k,
{
    if k <= 0 {
        seq![]
    } else if is_innermost(invs, k - 1) {
        innermost_indices(invs, k - 1).push(k - 1)
    } else {
        innermost_indices(invs, k - 1)
    }
}

/// The line of the expansion stack for its `k`-th entry (counted from one).
pub open spec fn stack_line(v: InvocationView, k: int) -> Seq<char> {
    "\n  "@ + spec_decimal(k as nat) + ". magic("@ + v.name + ") at "@ + spec_decimal(
        v.span.start as nat,
    ) + ".."@ + spec_decimal(v.span.end as nat)
}

/// The lines of the first `k` entries of an expansion stack.
pub open spec fn stack_lines(invs: Seq<InvocationView>, chain: Seq<int>, k: int) -> Seq<char>
    decreases k,
{
    if k <= 0 {
        seq![]
    } else {
        stack_lines(invs, chain, k - 1) + stack_line(invs[chain[k - 1]], k)
    }
}

/// The message of a round that would pass the depth cap.
pub open spec fn depth_message(invs: Seq<InvocationView>) -> Seq<char> {
    let chain = spec_expansion_stack(invs);
    "expansion depth exceeded the cap of "@ + spec_decimal(DEPTH_CAP as nat)
        + "; expansion stack:"@ + stack_lines(invs, chain, chain.len() as int)
}

/// The decision of a round over `invs` after `depth` rounds have expanded.
pub open spec fn spec_round(invs: Seq<InvocationView>, depth: int) -> RoundView {
    if invs.len() == 0 {
        RoundView::Done
    } else if depth + 1 > DEPTH_CAP {
        RoundView::DepthExceeded(
            DiagnosticView { message: depth_message(invs), span: invs[0].header_span },
        )
    } else {
        RoundView::Expand(innermost_indices(invs, invs.len() as int))
    }
}

fn is_innermost_exec(invs: &Vec<InvocationScan>, i: usize) -> (b: bool)
    requires
        i < invs@.len(),
    ensures
        b == is_innermost(invocations_view(invs@), i as int),
{
    let ghost iv = invocations_view(invs@);
    let mut j: usize = 0;
    while j < invs.len()
        invariant
            iv == invocations_view(invs@),
            i < invs@.len(),
            j <= invs@.len(),
            forall|m: int|
                0 <= m < j && m != i ==> !(#[trigger] iv[m].span.start >= iv[i as int].span.start
                    && iv[m].span.end <= iv[i as int].span.end),
        decreases invs.len() - j,
    {
        if j != i && invs[j].span.start >= invs[i].span.start && invs[j].span.end
            <= invs[i].span.end {
            proof {
                assert(iv[j as int] == invs@[j as int]@);
                assert(iv[i as int] == invs@[i as int]@);
                assert(iv[j as int].span.start >= iv[i as int].span.start && iv[j as int].span.end
                    <= iv[i as int].span.end);
            }
            return false;
        }
        proof {
            assert(iv[j as int] == invs@[j as int]@);
            assert(iv[i as int] == invs@[i as int]@);
        }
        j += 1;
    }
    true
}

fn depth_message_exec(invocations: &Vec<InvocationScan>) -> (m: String)
    ensures
        m@ == depth_message(invocations_view(invocations@)),
{
    let ghost iv = invocations_view(invocations@);
    let ghost chain = spec_expansion_stack(iv);
    let stack = expansion_stack(invocations.as_slice());
    let mut out = chars_of("expansion depth exceeded the cap of ");
    let cap = decimal(DEPTH_CAP);
    push_chars(&mut out, cap.as_slice());
    push_str(&mut out, "; expansion stack:");
    let ghost head = out@;
    let mut k: usize = 0;
    while k < stack.len()
        invariant
            iv == invocations_view(invocations@),
            chain == spec_expansion_stack(iv),
            stack@.len() == chain.len(),
            forall|m: int| 0 <= m < stack@.len() ==> *stack@[m] == invocations@[#[trigger] chain[m]],
            k <= stack@.len(),
            out@ == head + stack_lines(iv, chain, k as int),
        decreases stack.len() - k,
    {
        let v = stack[k];
        proof {
            lemma_expansion_stack_is_a_containment_chain(iv);
            assert(0 <= chain[k as int] < iv.len());
            assert(iv[chain[k as int]] == v@);
        }
        let ghost before = out@;
        push_str(&mut out, "\n  ");
        let number = decimal(k + 1);
        push_chars(&mut out, number.as_slice());
        push_str(&mut out, ". magic(");
        push_str(&mut out, v.name.as_str());
        push_str(&mut out, ") at ");
        let start = decimal(v.span.start);
        push_chars(&mut out, start.as_slice());
        push_str(&mut out, "..");
        let end = decimal(v.span.end);
        push_chars(&mut out, end.as_slice());
        k += 1;
        assert(out@ =~= before + stack_line(iv[chain[k - 1]], k as int));
    }
    string_from_chars(out.as_slice())
}

/// One round of the fixpoint expansion, after `depth` rounds have expanded:
/// done when the scan of the current text found no invocation; past the
/// depth cap, the diagnostic that reports the expansion stack at the first
/// invocation's header; else the innermost invocations, which this round
/// expands side by side (breadth is unbounded, nesting depth is capped).
pub fn expansion_round(round: &MagicScan, depth: usize) -> (r: RoundDecision)
    ensures
        round_view(r) == spec_round(invocations_view(round.invocations@), depth as int),
{
    let ghost iv = invocations_view(round.invocations@);
    let invs = &round.invocations;
    if invs.len() == 0 {
        return RoundDecision::Done;
    }
    if depth >= DEPTH_CAP {
        let message = depth_message_exec(invs);
        assert(iv[0] == invs@[0]@);
        return RoundDecision::DepthExceeded(Diagnostic::parse(message, invs[0].header_span));
    }
    let mut chosen: Vec<usize> = Vec::new();
    let mut k: usize = 0;
    while k < invs.len()
        invariant
            iv == invocations_view(invs@),
            k <= invs@.len(),
            chosen@.map_values(|i: usize| i as int) == innermost_indices(iv, k as int),
        decreases invs.len() - k,
    {
        let ghost before = chosen@.map_values(|i: usize| i as int);
        if is_innermost_exec(invs, k) {
            chosen.push(k);
            assert(chosen@.map_values(|i: usize| i as int) =~= before.push(k as int));
        }
        k += 1;
    }
    RoundDecision::Expand(chosen)
}

// ---------------------------------------------------------------------------
// Applying edits
// ---------------------------------------------------------------------------

/// `a` is applied before `b`: edits go from the highest position down, and
/// on a tie on the start the wider span goes first, so a zero-width
/// insertion at the same offset lands before the replacement that follows
/// it.
pub open spec fn applied_before(a: (Span, Seq<char>), b: (Span, Seq<char>)) -> bool {
    a.0.start > b.0.start || (a.0.start == b.0.start && a.0.end > b.0.end)
}

/// `x` inserted into `sorted` after every edit not applied after it.
pub open spec fn insert_edit(sorted: Seq<(Span, Seq<char>)>, x: (Span, Seq<char>)) -> Seq<(Span, Seq<char>)>
    decreases sorted.len(),
{
    if sorted.len() == 0 {
        seq![x]
    } else if applied_before(x, sorted[0]) {
        seq![x] + sorted
    } else {
        seq![sorted[0]] + insert_edit(sorted.drop_first(), x)
    }
}

/// The edits in application order: a stable sort by descending start, then
/// descending end.
pub open spec fn sort_edits(edits: Seq<(Span, Seq<char>)>) -> Seq<(Span, Seq<char>)>
    decreases edits.len(),
{
    if edits.len() == 0 {
        seq![]
    } else {
        insert_edit(sort_edits(edits.drop_last()), edits.last())
    }
}

/// `t` with the characters in `[start, end)` replaced by `rep`.
pub open spec fn replace_span(t: Seq<char>, span: Span, rep: Seq<char>) -> Seq<char> {
    t.subrange(0, span.start as int) + rep + t.subrange(span.end as int, t.len() as int)
}

/// `t` after applying `edits` in order.
pub open spec fn apply_in_order(t: Seq<char>, edits: Seq<(Span, Seq<char>)>) -> Seq<char>
    decreases edits.len(),
{
    if edits.len() == 0 {
        t
    } else {
        apply_in_order(replace_span(t, edits[0].0, edits[0].1), edits.drop_first())
    }
}

/// Two spans that share no character (touching is fine).
pub open spec fn disjoint(a: Span, b: Span) -> bool {
    a.end <= b.start || b.end <= a.start
}

/// Edits that lie within a text of length `n` and pairwise share no
/// character.
pub open spec fn edits_fit(edits: Seq<(Span, Seq<char>)>, n: int) -> bool {
    &&& forall|i: int| 0 <= i < edits.len() ==> (#[trigger] edits[i]).0.start <= edits[i].0.end <= n
    &&& forall|i: int, j: int|
        0 <= i < edits.len() && 0 <= j < edits.len() && i != j ==> disjoint(
            #[trigger] edits[i].0,
            #[trigger] edits[j].0,
        )
}

/// No edit is applied before an earlier one.
pub open spec fn in_application_order(edits: Seq<(Span, Seq<char>)>) -> bool {
    forall|i: int, j: int| 0 <= i < j < edits.len() ==> !applied_before(#[trigger] edits[j], #[trigger] edits[i])
}

/// The position where `insert_edit` puts `x`.
pub open spec fn insert_position(sorted: Seq<(Span, Seq<char>)>, x: (Span, Seq<char>)) -> int
    decreases sorted.len(),
{
    if sorted.len() == 0 || applied_before(x, sorted[0]) {
        0
    } else {
        1 + insert_position(sorted.drop_first(), x)
    }
}

pub proof fn lemma_insert_edit(sorted: Seq<(Span, Seq<char>)>, x: (Span, Seq<char>))
    ensures
        0 <= insert_position(sorted, x) <= sorted.len(),
        insert_edit(sorted, x) == sorted.take(insert_position(sorted, x)) + seq![x] + sorted.skip(
            insert_position(sorted, x),
        ),
        forall|i: int| 0 <= i < insert_position(sorted, x) ==> !applied_before(x, #[trigger] sorted[i]),
        insert_position(sorted, x) < sorted.len() ==> applied_before(x, sorted[insert_position(sorted, x)]),
    decreases sorted.len(),
{
    if sorted.len() > 0 && !applied_before(x, sorted[0]) {
        lemma_insert_edit(sorted.drop_first(), x);
        let p = insert_position(sorted.drop_first(), x);
        assert(sorted.take(p + 1) =~= seq![sorted[0]] + sorted.drop_first().take(p));
        assert(sorted.skip(p + 1) =~= sorted.drop_first().skip(p));
        assert forall|i: int| 0 <= i < p + 1 implies !applied_before(x, #[trigger] sorted[i]) by {
            if i > 0 {
                assert(sorted[i] == sorted.drop_first()[i - 1]);
            }
        }
        assert(insert_edit(sorted, x) =~= sorted.take(p + 1) + seq![x] + sorted.skip(p + 1));
    } else {
        assert(sorted.take(0) =~= Seq::<(Span, Seq<char>)>::empty());
        assert(sorted.skip(0) =~= sorted);
        assert(insert_edit(sorted, x) =~= sorted.take(0) + seq![x] + sorted.skip(0));
    }
}

/// Sorting keeps the edits fitting, puts them in application order, and
/// takes every edit from the input.
pub proof fn lemma_sort_edits(edits: Seq<(Span, Seq<char>)>, n: int)
    requires
        edits_fit(edits, n),
    ensures
        edits_fit(sort_edits(edits), n),
        in_application_order(sort_edits(edits)),
        sort_edits(edits).len() == edits.len(),
        forall|i: int| 0 <= i < sort_edits(edits).len() ==> edits.contains(#[trigger] sort_edits(edits)[i]),
    decreases edits.len(),
{
    if edits.len() > 0 {
        let init = edits.drop_last();
        let x = edits.last();
        assert forall|i: int, j: int|
            0 <= i < init.len() && 0 <= j < init.len() && i != j implies disjoint(
            #[trigger] init[i].0,
            #[trigger] init[j].0,
        ) by {
            assert(init[i] == edits[i] && init[j] == edits[j]);
        }
        assert forall|i: int| 0 <= i < init.len() implies (#[trigger] init[i]).0.start <= init[i].0.end <= n by {
            assert(init[i] == edits[i]);
        }
        lemma_sort_edits(init, n);
        let s = sort_edits(init);
        lemma_insert_edit(s, x);
        let p = insert_position(s, x);
        let r = insert_edit(s, x);
        assert(r == sort_edits(edits));
        // Every element of `s` comes from `init`, so it is disjoint from `x`.
        assert forall|i: int| 0 <= i < s.len() implies disjoint(#[trigger] s[i].0, x.0) by {
            assert(init.contains(s[i]));
            let m = choose|m: int| 0 <= m < init.len() && init[m] == s[i];
            assert(edits[m] == init[m]);
            assert(edits[edits.len() - 1] == x);
        }
        assert forall|i: int| 0 <= i < r.len() implies edits.contains(#[trigger] r[i]) by {
            if i < p {
                assert(r[i] == s[i]);
                assert(init.contains(s[i]));
                let m = choose|m: int| 0 <= m < init.len() && init[m] == s[i];
                assert(edits[m] == init[m]);
            } else if i == p {
                assert(r[i] == x);
                assert(edits[edits.len() - 1] == x);
            } else {
                assert(r[i] == s[i - 1]);
                assert(init.contains(s[i - 1]));
                let m = choose|m: int| 0 <= m < init.len() && init[m] == s[i - 1];
                assert(edits[m] == init[m]);
            }
        }
        assert forall|i: int| 0 <= i < r.len() implies (#[trigger] r[i]).0.start <= r[i].0.end <= n by {
            if i < p {
                assert(r[i] == s[i]);
            } else if i > p {
                assert(r[i] == s[i - 1]);
            }
        }
        assert forall|i: int, j: int|
            0 <= i < r.len() && 0 <= j < r.len() && i != j implies disjoint(
            #[trigger] r[i].0,
            #[trigger] r[j].0,
        ) by {
            let si = if i < p { i } else { i - 1 };
            let sj = if j < p { j } else { j - 1 };
            if i != p {
                assert(r[i] == s[si]);
            }
            if j != p {
                assert(r[j] == s[sj]);
            }
        }
        assert forall|i: int, j: int| 0 <= i < j < r.len() implies !applied_before(
            #[trigger] r[j],
            #[trigger] r[i],
        ) by {
            if j < p {
                assert(r[i] == s[i] && r[j] == s[j]);
            } else if j == p {
                assert(r[i] == s[i]);
            } else if i == p {
                assert(r[j] == s[j - 1]);
                if p < s.len() {
                    assert(applied_before(x, s[p]));
                    if j - 1 > p {
                        assert(!applied_before(s[j - 1], s[p]));
                    }
                }
            } else if i < p {
                assert(r[i] == s[i] && r[j] == s[j - 1]);
            } else {
                assert(r[i] == s[i - 1] && r[j] == s[j - 1]);
            }
        }
    }
}

pub open spec fn edit_values(v: Seq<(Span, Vec<char>)>) -> Seq<(Span, Seq<char>)> {
    v.map_values(|e: (Span, Vec<char>)| (e.0, e.1@))
}

/// Applies non-overlapping span edits, highest position first; on a tie on
/// the start the wider span goes first, so a zero-width insertion at the
/// same offset lands before the replacement that follows it instead of
/// invalidating its coordinates.
pub fn apply_edits(text: &str, edits: &[(Span, String)]) -> (r: String)
    requires
        edits_fit(edits_view(edits@), text@.len() as int),
    ensures
        r@ == apply_in_order(text@, sort_edits(edits_view(edits@))),
{
    let ghost ev = edits_view(edits@);
    let mut sorted: Vec<(Span, Vec<char>)> = Vec::new();
    let mut k: usize = 0;
    assert(ev.take(0) =~= Seq::<(Span, Seq<char>)>::empty());
    assert(edit_values(sorted@) =~= Seq::<(Span, Seq<char>)>::empty());
    while k < edits.len()
        invariant
            ev == edits_view(edits@),
            k <= edits@.len(),
            edit_values(sorted@) == sort_edits(ev.take(k as int)),
        decreases edits.len() - k,
    {
        let x = (edits[k].0, chars_of(edits[k].1.as_str()));
        let ghost xv = (x.0, x.1@);
        assert(xv == ev[k as int]);
        let ghost sv = edit_values(sorted@);
        proof {
            lemma_insert_edit(sv, xv);
        }
        let mut p: usize = 0;
        while p < sorted.len() && !(x.0.start > sorted[p].0.start || (x.0.start == sorted[p].0.start
            && x.0.end > sorted[p].0.end))
            invariant
                sv == edit_values(sorted@),
                p <= sorted@.len(),
                xv == (x.0, x.1@),
                forall|i: int| 0 <= i < p ==> !applied_before(xv, #[trigger] sv[i]),
                p <= insert_position(sv, xv),
                insert_position(sv, xv) <= sv.len(),
                insert_position(sv, xv) < sv.len() ==> applied_before(xv, sv[insert_position(sv, xv)]),
            decreases sorted.len() - p,
        {
            assert(sv[p as int].0 == sorted@[p as int].0);
            p += 1;
        }
        proof {
            if p < sorted@.len() {
                assert(sv[p as int].0 == sorted@[p as int].0);
            }
        }
        assert(p == insert_position(sv, xv));
        sorted.insert(p, x);
        assert(edit_values(sorted@) =~= sv.take(p as int) + seq![xv] + sv.skip(p as int));
        assert(ev.take(k + 1).drop_last() =~= ev.take(k as int));
        k += 1;
    }
    assert(ev.take(k as int) =~= ev);
    let ghost order = sort_edits(ev);
    proof {
        lemma_sort_edits(ev, text@.len() as int);
    }
    let mut out = chars_of(text);
    let mut j: usize = 0;
    assert(order.skip(0) =~= order);
    while j < sorted.len()
        invariant
            order == edit_values(sorted@),
            in_application_order(order),
            edits_fit(order, text@.len() as int),
            j <= sorted@.len(),
            apply_in_order(text@, order) == apply_in_order(out@, order.skip(j as int)),
            forall|m: int| j <= m < order.len() ==> (#[trigger] order[m]).0.end <= out@.len(),
        decreases sorted.len() - j,
    {
        let span = sorted[j].0;
        assert(order[j as int].0 == span);
        let mut next = crate::text::slice_chars(out.as_slice(), 0, span.start);
        push_chars(&mut next, sorted[j].1.as_slice());
        let tail = crate::text::slice_chars(out.as_slice(), span.end, out.len());
        push_chars(&mut next, tail.as_slice());
        proof {
            assert(next@ =~= replace_span(out@, order[j as int].0, order[j as int].1));
            assert(order.skip(j as int).drop_first() =~= order.skip(j + 1));
            assert(order.skip(j as int)[0] == order[j as int]);
            assert forall|m: int| j + 1 <= m < order.len() implies (#[trigger] order[m]).0.end
                <= next@.len() by {
                assert(!applied_before(order[m], order[j as int]));
                assert(disjoint(order[m].0, order[j as int].0));
            }
        }
        out = next;
        j += 1;
    }
    assert(order.skip(j as int) =~= Seq::<(Span, Seq<char>)>::empty());
    string_from_chars(out.as_slice())
}

// ---------------------------------------------------------------------------
// Declaration order
// ---------------------------------------------------------------------------

/// `span` lies inside one of the magic declarations: an invocation authored
/// in a template, which elaborates at its declaration's own position.
pub open spec fn template_authored(magics: Seq<MagicView>, span: Span) -> bool {
    exists|k: int| 0 <= k < magics.len() && #[trigger] magics[k].span.start <= span.start && span.end <= magics[k].span.end
}

pub open spec fn order_message(name: Seq<char>) -> Seq<char> {
    "macro `"@ + name + "` must be declared before it is invoked"@
}

/// The declaration-order diagnostics for the first `k` invocations: every
/// invocation outside the declarations whose macro (the first compiled one
/// of that name) is declared after it.
pub open spec fn order_issues(
    magics: Seq<MagicView>,
    macros: Seq<MagicView>,
    invs: Seq<InvocationView>,
    k: int,
) -> Seq<DiagnosticView>
    decreases k,
{
    if k <= 0 {
        seq![]
    } else {
        let prev = order_issues(magics, macros, invs, k - 1);
        let v = invs[k - 1];
        if !template_authored(magics, v.span) && (match first_magic_named(macros, v.name) {
            Some(m) => macros[m].span.start > v.span.start,
            None => false,
        }) {
            prev.push(DiagnosticView { message: order_message(v.name), span: v.header_span })
        } else {
            prev
        }
    }
}

pub open spec fn magics_view(v: Seq<MagicDeclScan>) -> Seq<MagicView> {
    v.map_values(|m: MagicDeclScan| m@)
}

fn template_authored_exec(magics: &Vec<MagicDeclScan>, span: Span) -> (b: bool)
    ensures
        b == template_authored(magics_view(magics@), span),
{
    let ghost mv = magics_view(magics@);
    let mut k: usize = 0;
    while k < magics.len()
        invariant
            mv == magics_view(magics@),
            k <= magics@.len(),
            forall|j: int| 0 <= j < k ==> !(#[trigger] mv[j].span.start <= span.start && span.end <= mv[j].span.end),
        decreases magics.len() - k,
    {
        assert(mv[k as int].span == magics@[k as int].span);
        if magics[k].span.start <= span.start && span.end <= magics[k].span.end {
            return true;
        }
        k += 1;
    }
    false
}

fn find_macro(macros: &[MagicDeclScan], name: &str) -> (r: Option<usize>)
    ensures
        index_opt(r) == first_magic_named(magics_view(macros@), name@),
        r matches Some(m) ==> m < macros@.len(),
{
    let ghost mv = magics_view(macros@);
    let want = chars_of(name);
    let mut m: usize = 0;
    while m < macros.len()
        invariant
            mv == magics_view(macros@),
            want@ == name@,
            m <= macros@.len(),
            forall|j: int| 0 <= j < m ==> #[trigger] mv[j].name != name@,
        decreases macros.len() - m,
    {
        let mn = chars_of(macros[m].name.as_str());
        assert(mv[m as int].name == macros@[m as int].name@);
        if crate::text::chars_eq(mn.as_slice(), want.as_slice()) {
            proof {
                lemma_first_magic_is(mv, name@, m as int);
            }
            return Some(m);
        }
        m += 1;
    }
    proof {
        lemma_first_magic_is(mv, name@, m as int);
    }
    None
}

/// A macro must be declared before it is invoked. Every invocation outside
/// the magic declarations must name a macro whose declaration starts
/// earlier; invocations authored inside a declaration's template are
/// exempt, as they elaborate at the declaration's own position. `macros`
/// are the declarations whose macros compiled, in declaration order.
pub fn check_declaration_order(scan: &MagicScan, macros: &[MagicDeclScan], diagnostics: &mut Vec<Diagnostic>)
    ensures
        diagnostics_view(final(diagnostics)@) == diagnostics_view(old(diagnostics)@) + order_issues(
            magics_view(scan.magics@),
            magics_view(macros@),
            invocations_view(scan.invocations@),
            scan.invocations@.len() as int,
        ),
{
    let ghost mv = magics_view(scan.magics@);
    let ghost cv = magics_view(macros@);
    let ghost iv = invocations_view(scan.invocations@);
    let ghost start = diagnostics_view(diagnostics@);
    let mut k: usize = 0;
    assert(start + order_issues(mv, cv, iv, 0) =~= start);
    while k < scan.invocations.len()
        invariant
            mv == magics_view(scan.magics@),
            cv == magics_view(macros@),
            iv == invocations_view(scan.invocations@),
            start == diagnostics_view(old(diagnostics)@),
            k <= scan.invocations@.len(),
            diagnostics_view(diagnostics@) == start + order_issues(mv, cv, iv, k as int),
        decreases scan.invocations.len() - k,
    {
        let inv = &scan.invocations[k];
        assert(iv[k as int] == inv@);
        if !template_authored_exec(&scan.magics, inv.span) {
            match find_macro(macros, inv.name.as_str()) {
                Some(m) => {
                    assert(cv[m as int].span == macros@[m as int].span);
                    if macros[m].span.start > inv.span.start {
                        let mut text = chars_of("macro `");
                        push_str(&mut text, inv.name.as_str());
                        push_str(&mut text, "` must be declared before it is invoked");
                        let d = Diagnostic::parse(string_from_chars(text.as_slice()), inv.header_span);
                        let ghost before = diagnostics_view(diagnostics@);
                        diagnostics.push(d);
                        assert(d@ == (DiagnosticView { message: order_message(inv.name@), span: inv.header_span }));
                        assert(diagnostics_view(diagnostics@) =~= before.push(d@));
                    }
                },
                None => {},
            }
        }
        k += 1;
        assert(diagnostics_view(diagnostics@) =~= start + order_issues(mv, cv, iv, k as int));
    }
}

// ---------------------------------------------------------------------------
// Line feeds survive edits that keep them
// ---------------------------------------------------------------------------

pub proof fn lemma_line_feeds_concat(a: Seq<char>, b: Seq<char>)
    ensures
        count_line_feeds(a + b) == count_line_feeds(a) + count_line_feeds(b),
    decreases b.len(),
{
    if b.len() > 0 {
        assert((a + b).drop_last() =~= a + b.drop_last());
        assert((a + b).last() == b.last());
        lemma_line_feeds_concat(a, b.drop_last());
    } else {
        assert(a + b =~= a);
    }
}

/// Each edit's replacement has as many line feeds as the text it replaces.
pub open spec fn keeps_line_feeds(text: Seq<char>, edits: Seq<(Span, Seq<char>)>) -> bool {
    forall|i: int|
        0 <= i < edits.len() ==> count_line_feeds((#[trigger] edits[i]).1) == count_line_feeds(
            text.subrange(edits[i].0.start as int, edits[i].0.end as int),
        )
}

proof fn lemma_apply_keeps_line_feeds(
    t0: Seq<char>,
    t: Seq<char>,
    edits: Seq<(Span, Seq<char>)>,
    bound: int,
)
    requires
        0 <= bound <= t.len(),
        bound <= t0.len(),
        t.take(bound) == t0.take(bound),
        in_application_order(edits),
        edits_fit(edits, bound),
        keeps_line_feeds(t0, edits),
    ensures
        count_line_feeds(apply_in_order(t, edits)) == count_line_feeds(t),
    decreases edits.len(),
{
    if edits.len() > 0 {
        let e = edits[0];
        let s0 = e.0.start as int;
        let e0 = e.0.end as int;
        let t1 = replace_span(t, e.0, e.1);
        assert(edits[0].0.start <= edits[0].0.end <= bound);
        // The replaced text is untouched so far.
        assert(t.subrange(s0, e0) =~= t0.subrange(s0, e0)) by {
            assert forall|k: int| s0 <= k < e0 implies t[k] == t0[k] by {
                assert(0 <= k < bound);
                assert(t.take(bound)[k] == t[k]);
                assert(t0.take(bound)[k] == t0[k]);
                assert(t.take(bound)[k] == t0.take(bound)[k]);
            }
        }
        lemma_line_feeds_concat(t.subrange(0, s0), e.1);
        lemma_line_feeds_concat(t.subrange(0, s0) + e.1, t.subrange(e0, t.len() as int));
        lemma_line_feeds_concat(t.subrange(0, s0), t.subrange(s0, e0));
        lemma_line_feeds_concat(t.subrange(0, s0) + t.subrange(s0, e0), t.subrange(e0, t.len() as int));
        assert(t.subrange(0, s0) + t.subrange(s0, e0) + t.subrange(e0, t.len() as int) =~= t);
        let rest = edits.drop_first();
        assert(t1.take(s0) =~= t0.take(s0)) by {
            assert forall|k: int| 0 <= k < s0 implies t1[k] == t0[k] by {
                assert(t.take(bound)[k] == t0.take(bound)[k]);
            }
        }
        assert forall|i: int| 0 <= i < rest.len() implies (#[trigger] rest[i]).0.start <= rest[i].0.end
            <= s0 by {
            assert(rest[i] == edits[i + 1]);
            assert(!applied_before(edits[i + 1], edits[0]));
            assert(disjoint(edits[i + 1].0, edits[0].0));
        }
        assert forall|i: int, j: int|
            0 <= i < rest.len() && 0 <= j < rest.len() && i != j implies disjoint(
            #[trigger] rest[i].0,
            #[trigger] rest[j].0,
        ) by {
            assert(rest[i] == edits[i + 1] && rest[j] == edits[j + 1]);
        }
        assert forall|i: int, j: int| 0 <= i < j < rest.len() implies !applied_before(
            #[trigger] rest[j],
            #[trigger] rest[i],
        ) by {
            assert(rest[i] == edits[i + 1] && rest[j] == edits[j + 1]);
        }
        assert forall|i: int| 0 <= i < rest.len() implies count_line_feeds((#[trigger] rest[i]).1)
            == count_line_feeds(t0.subrange(rest[i].0.start as int, rest[i].0.end as int)) by {
            assert(rest[i] == edits[i + 1]);
        }
        lemma_apply_keeps_line_feeds(t0, t1, rest, s0);
    }
}

/// Edits that each keep the line feeds of the text they replace keep the
/// line feeds of the whole text: every line of the rest stays on the line
/// it was on.
pub proof fn lemma_apply_edits_keeps_line_feeds(text: Seq<char>, edits: Seq<(Span, Seq<char>)>)
    requires
        edits_fit(edits, text.len() as int),
        keeps_line_feeds(text, edits),
    ensures
        count_line_feeds(apply_in_order(text, sort_edits(edits))) == count_line_feeds(text),
{
    lemma_sort_edits(edits, text.len() as int);
    let sorted = sort_edits(edits);
    assert forall|i: int| 0 <= i < sorted.len() implies count_line_feeds((#[trigger] sorted[i]).1)
        == count_line_feeds(text.subrange(sorted[i].0.start as int, sorted[i].0.end as int)) by {
        assert(edits.contains(sorted[i]));
        let m = choose|m: int| 0 <= m < edits.len() && edits[m] == sorted[i];
        assert(count_line_feeds(edits[m].1) == count_line_feeds(
            text.subrange(edits[m].0.start as int, edits[m].0.end as int),
        ));
    }
    assert(text.take(text.len() as int) =~= text);
    lemma_apply_keeps_line_feeds(text, text, sorted, text.len() as int);
}

// ---------------------------------------------------------------------------
// Removing declaration sites
// ---------------------------------------------------------------------------

/// The comment that replaces a removed declaration, followed by as many
/// line feeds as the declaration spanned.
pub open spec fn removal_marker(kind: Seq<char>, name: Seq<char>, newlines: nat) -> Seq<char> {
    "// [megaprogram "@ + kind + " '"@ + name + "' removed by expansion]"@ + Seq::new(
        newlines,
        |i: int| '\n',
    )
}

/// The edits that replace every grammar and magic declaration of a scan of
/// `text` with its removal marker.
pub open spec fn declaration_edits(text: Seq<char>, st: ScanState) -> Seq<(Span, Seq<char>)> {
    st.grammars.map_values(
        |g: GrammarView|
            (
                g.span,
                removal_marker(
                    "grammar"@,
                    g.name,
                    count_line_feeds(text.subrange(g.span.start as int, g.span.end as int)),
                ),
            ),
    ) + st.magics.map_values(
        |m: MagicView|
            (
                m.span,
                removal_marker(
                    "magic"@,
                    m.name,
                    count_line_feeds(text.subrange(m.span.start as int, m.span.end as int)),
                ),
            ),
    )
}

pub proof fn lemma_no_line_feed_count(s: Seq<char>)
    requires
        no_line_feed(s),
    ensures
        count_line_feeds(s) == 0,
    decreases s.len(),
{
    if s.len() > 0 {
        lemma_no_line_feed_count(s.drop_last());
        assert(s.last() == s[s.len() - 1]);
    }
}

pub proof fn lemma_line_feed_run(n: nat)
    ensures
        count_line_feeds(Seq::new(n, |i: int| '\n')) == n,
    decreases n,
{
    if n > 0 {
        assert(Seq::new(n, |i: int| '\n').drop_last() =~= Seq::new((n - 1) as nat, |i: int| '\n'));
        lemma_line_feed_run((n - 1) as nat);
    }
}

pub proof fn lemma_removal_marker_line_feeds(kind: Seq<char>, name: Seq<char>, n: nat)
    requires
        no_line_feed(kind),
        no_line_feed(name),
    ensures
        count_line_feeds(removal_marker(kind, name, n)) == n,
{
    reveal_strlit("// [megaprogram ");
    reveal_strlit(" '");
    reveal_strlit("' removed by expansion]");
    let a = "// [megaprogram "@;
    let b = " '"@;
    let c = "' removed by expansion]"@;
    lemma_no_line_feed_count(a);
    lemma_no_line_feed_count(b);
    lemma_no_line_feed_count(c);
    lemma_no_line_feed_count(kind);
    lemma_no_line_feed_count(name);
    lemma_line_feed_run(n);
    lemma_line_feeds_concat(a, kind);
    lemma_line_feeds_concat(a + kind, b);
    lemma_line_feeds_concat(a + kind + b, name);
    lemma_line_feeds_concat(a + kind + b + name, c);
    lemma_line_feeds_concat(a + kind + b + name + c, Seq::new(n, |i: int| '\n'));
}

/// The declaration edits of a scan fit the text and keep its line feeds.
#[verifier::rlimit(40)]
pub proof fn lemma_declaration_edits(text: Seq<char>)
    requires
        text.len() <= usize::MAX,
    ensures
        edits_fit(declaration_edits(text, spec_scan_magic(text)), text.len() as int),
        keeps_line_feeds(text, declaration_edits(text, spec_scan_magic(text))),
{
    let st = spec_scan_magic(text);
    lemma_scan_constructs_are_anchored_in_order(text);
    assert(well_placed(text, st, text.len() as int));
    let edits = declaration_edits(text, st);
    let g = st.grammars.len();
    reveal_strlit("grammar");
    reveal_strlit("magic");
    assert(no_line_feed("grammar"@));
    assert(no_line_feed("magic"@));
    assert forall|i: int| 0 <= i < edits.len() implies (#[trigger] edits[i]).0.start <= edits[i].0.end
        <= text.len() && count_line_feeds(edits[i].1) == count_line_feeds(
        text.subrange(edits[i].0.start as int, edits[i].0.end as int),
    ) by {
        if i < g {
            let gv = st.grammars[i];
            assert(grammar_anchored(text, gv));
            assert(edits[i].0 == gv.span);
            lemma_removal_marker_line_feeds(
                "grammar"@,
                gv.name,
                count_line_feeds(text.subrange(gv.span.start as int, gv.span.end as int)),
            );
        } else {
            let mv = st.magics[i - g];
            assert(magic_anchored(text, mv));
            assert(edits[i].0 == mv.span);
            lemma_removal_marker_line_feeds(
                "magic"@,
                mv.name,
                count_line_feeds(text.subrange(mv.span.start as int, mv.span.end as int)),
            );
        }
    }
    assert forall|i: int, j: int|
        0 <= i < edits.len() && 0 <= j < edits.len() && i != j implies disjoint(
        #[trigger] edits[i].0,
        #[trigger] edits[j].0,
    ) by {
        assert(kinds_disjoint(st));
        if i < g && j < g {
            assert(edits[i].0 == st.grammars[i].span && edits[j].0 == st.grammars[j].span);
            if i < j {
                assert(st.grammars[i].span.end <= st.grammars[j].span.start);
            } else {
                assert(st.grammars[j].span.end <= st.grammars[i].span.start);
            }
        } else if i >= g && j >= g {
            assert(edits[i].0 == st.magics[i - g].span && edits[j].0 == st.magics[j - g].span);
            if i < j {
                assert(st.magics[i - g].span.end <= st.magics[j - g].span.start);
            } else {
                assert(st.magics[j - g].span.end <= st.magics[i - g].span.start);
            }
        } else if i < g {
            assert(edits[i].0 == st.grammars[i].span && edits[j].0 == st.magics[j - g].span);
        } else {
            assert(edits[i].0 == st.magics[i - g].span && edits[j].0 == st.grammars[j].span);
        }
    }
}

fn removal_marker_exec(kind: &str, name: &str, newlines: usize) -> (r: String)
    ensures
        r@ == removal_marker(kind@, name@, newlines as nat),
{
    let mut m = chars_of("// [megaprogram ");
    push_str(&mut m, kind);
    push_str(&mut m, " '");
    push_str(&mut m, name);
    push_str(&mut m, "' removed by expansion]");
    let ghost prefix = m@;
    let mut k: usize = 0;
    while k < newlines
        invariant
            k <= newlines,
            m@ == prefix + Seq::new(k as nat, |i: int| '\n'),
        decreases newlines - k,
    {
        m.push('\n');
        k += 1;
        assert(m@ =~= prefix + Seq::new(k as nat, |i: int| '\n'));
    }
    string_from_chars(m.as_slice())
}

/// Removes the declaration sites of a fully expanded text: every grammar
/// and magic declaration becomes a marker comment followed by as many line
/// feeds as the declaration spanned, so every other line keeps its number.
pub fn strip_declarations(text: &str) -> (r: String)
    requires
        text@.len() < usize::MAX,
    ensures
        r@ == apply_in_order(text@, sort_edits(declaration_edits(text@, spec_scan_magic(text@)))),
        count_line_feeds(r@) == count_line_feeds(text@),
{
    let (scan, errors) = scan_magic(text);
    let ghost st = spec_scan_magic(text@);
    proof {
        lemma_declaration_edits(text@);
    }
    assert(scan_view(scan, errors@) == st);
    let mut edits: Vec<(Span, String)> = Vec::new();
    let mut k: usize = 0;
    assert(edits_view(edits@) =~= Seq::<(Span, Seq<char>)>::empty());
    let ghost all = declaration_edits(text@, st);
    let ghost g = st.grammars.len();
    while k < scan.grammars.len()
        invariant
            scan_view(scan, errors@) == st,
            all == declaration_edits(text@, st),
            g == st.grammars.len(),
            edits_fit(all, text@.len() as int),
            k <= scan.grammars@.len(),
            edits_view(edits@) == all.take(k as int),
        decreases scan.grammars.len() - k,
    {
        let span = scan.grammars[k].span;
        assert(all[k as int].0 == span);
        let n = count_newlines(text, span);
        let marker = removal_marker_exec("grammar", scan.grammars[k].name.as_str(), n);
        let ghost before = edits_view(edits@);
        edits.push((span, marker));
        assert(all[k as int] == (span, marker@));
        assert(edits_view(edits@) =~= before.push((span, marker@)));
        assert(all.take(k + 1) =~= all.take(k as int).push(all[k as int]));
        assert(edits_view(edits@) =~= all.take(k + 1));
        k += 1;
    }
    let mut j: usize = 0;
    while j < scan.magics.len()
        invariant
            scan_view(scan, errors@) == st,
            all == declaration_edits(text@, st),
            g == st.grammars.len(),
            edits_fit(all, text@.len() as int),
            j <= scan.magics@.len(),
            edits_view(edits@) == all.take(g + j),
        decreases scan.magics.len() - j,
    {
        let span = scan.magics[j].span;
        assert(all[g + j].0 == span);
        let n = count_newlines(text, span);
        let marker = removal_marker_exec("magic", scan.magics[j].name.as_str(), n);
        let ghost before = edits_view(edits@);
        edits.push((span, marker));
        assert(all[g + j] == (span, marker@));
        assert(edits_view(edits@) =~= before.push((span, marker@)));
        assert(all.take(g + j + 1) =~= all.take(g + j).push(all[g + j]));
        assert(edits_view(edits@) =~= all.take(g + j + 1));
        j += 1;
    }
    assert(all.take(g + j) =~= all);
    proof {
        lemma_apply_edits_keeps_line_feeds(text@, all);
    }
    apply_edits(text, &edits)
}

} // verus!
