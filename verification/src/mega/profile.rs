//! Lexical profiles and profile-aware scanning.
//!
//! A grammar's profile (its skip set, comment forms and string forms) drives
//! the invocation-region scanner: regions are located by delimiter
//! balancing that honors comments, strings and string-island forms. This
//! module provides profile construction, profile extraction from grammar
//! bodies, composed-profile union, and the balancing itself. Text is a
//! sequence of characters and positions index into it.

use vstd::prelude::*;

use crate::diagnostics::{Diagnostic, DiagnosticView, Span};
use crate::text::{chars_of, is_word_char, starts_with, starts_with_at, string_from_chars};

verus! {

// ---------------------------------------------------------------------------
// Profiles
// ---------------------------------------------------------------------------

/// One member of a character set: a character or an inclusive range.
#[derive(Debug, Clone, Copy, PartialEq, Eq, Structural)]
pub enum CharItem {
    Char(char),
    Range(char, char),
}

/// A character set, optionally negated.
#[derive(Debug, Clone)]
pub struct CharSet {
    pub negated: bool,
    pub items: Vec<CharItem>,
}

/// A comment form: a line comment when `closer` is `None`.
#[derive(Debug, Clone)]
pub struct CommentForm {
    pub opener: String,
    pub closer: Option<String>,
}

/// A string form: its quote character, whether it may span lines, and an
/// optional island (`opener`, `closer`) whose content is skipped with brace
/// balancing.
#[derive(Debug, Clone)]
pub struct StringForm {
    pub quote: char,
    pub multiline: bool,
    pub island: Option<(String, String)>,
}

/// A grammar's lexical profile.
#[derive(Debug, Clone)]
pub struct LexProfile {
    pub skip: CharSet,
    pub comments: Vec<CommentForm>,
    pub strings: Vec<StringForm>,
}

pub struct CharSetView {
    pub negated: bool,
    pub items: Seq<CharItem>,
}

pub struct CommentView {
    pub opener: Seq<char>,
    pub closer: Option<Seq<char>>,
}

pub struct StringFormView {
    pub quote: char,
    pub multiline: bool,
    pub island: Option<(Seq<char>, Seq<char>)>,
}

pub struct ProfileView {
    pub skip: CharSetView,
    pub comments: Seq<CommentView>,
    pub strings: Seq<StringFormView>,
}

impl View for CharSet {
    type V = CharSetView;

    open spec fn view(&self) -> CharSetView {
        CharSetView { negated: self.negated, items: self.items@ }
    }
}

impl View for CommentForm {
    type V = CommentView;

    open spec fn view(&self) -> CommentView {
        CommentView {
            opener: self.opener@,
            closer: match self.closer {
                Some(c) => Some(c@),
                None => None,
            },
        }
    }
}

impl View for StringForm {
    type V = StringFormView;

    open spec fn view(&self) -> StringFormView {
        StringFormView {
            quote: self.quote,
            multiline: self.multiline,
            island: match self.island {
                Some((o, c)) => Some((o@, c@)),
                None => None,
            },
        }
    }
}

pub open spec fn comments_view(v: Seq<CommentForm>) -> Seq<CommentView> {
    v.map_values(|c: CommentForm| c@)
}

pub open spec fn strings_forms_view(v: Seq<StringForm>) -> Seq<StringFormView> {
    v.map_values(|s: StringForm| s@)
}

impl View for LexProfile {
    type V = ProfileView;

    open spec fn view(&self) -> ProfileView {
        ProfileView {
            skip: self.skip@,
            comments: comments_view(self.comments@),
            strings: strings_forms_view(self.strings@),
        }
    }
}

pub open spec fn item_matches(item: CharItem, c: char) -> bool {
    match item {
        CharItem::Char(x) => x == c,
        CharItem::Range(lo, hi) => lo <= c && c <= hi,
    }
}

/// `c` belongs to the set.
pub open spec fn set_matches(set: CharSetView, c: char) -> bool {
    set.negated != exists|i: int| 0 <= i < set.items.len() && item_matches(#[trigger] set.items[i], c)
}

pub open spec fn line_comment(opener: Seq<char>) -> CommentView {
    CommentView { opener, closer: None }
}

pub open spec fn block_comment(opener: Seq<char>, closer: Seq<char>) -> CommentView {
    CommentView { opener, closer: Some(closer) }
}

pub open spec fn plain_string_form(quote: char) -> StringFormView {
    StringFormView { quote, multiline: false, island: None }
}

/// Space, tab, carriage return and line feed.
pub open spec fn default_skip() -> CharSetView {
    CharSetView {
        negated: false,
        items: seq![
            CharItem::Char(' '),
            CharItem::Char('\t'),
            CharItem::Char('\r'),
            CharItem::Char('\n'),
        ],
    }
}

/// The default skip set holds exactly space, tab, carriage return and line
/// feed.
pub proof fn lemma_default_skip_is_whitespace(ch: char)
    ensures
        set_matches(default_skip(), ch) <==> (ch == ' ' || ch == '\t' || ch == '\r' || ch == '\n'),
        spec_default_profile().skip == default_skip(),
        spec_default_profile().comments.len() == 0,
        spec_default_profile().strings == seq![StringFormView { quote: '"', multiline: false, island: None }],
{
    let items = default_skip().items;
    if ch == ' ' || ch == '\t' || ch == '\r' || ch == '\n' {
        let k = if ch == ' ' {
            0int
        } else if ch == '\t' {
            1
        } else if ch == '\r' {
            2
        } else {
            3
        };
        assert(item_matches(items[k], ch));
    } else {
        assert forall|i: int| 0 <= i < items.len() implies !item_matches(#[trigger] items[i], ch) by {
            assert(items[i] == CharItem::Char(' ') || items[i] == CharItem::Char('\t') || items[i] == CharItem::Char(
                '\r',
            ) || items[i] == CharItem::Char('\n'));
        }
    }
}

/// The default profile: horizontal and newline skipping, `"` strings, no
/// comments.
pub open spec fn spec_default_profile() -> ProfileView {
    ProfileView { skip: default_skip(), comments: seq![], strings: seq![plain_string_form('"')] }
}

/// The profile that balances Checkmate-shaped text (grammar bodies, magic
/// declaration headers): `//` and `/* */` comments, `"` and `'` strings.
pub open spec fn spec_checkmate_scan_profile() -> ProfileView {
    ProfileView {
        skip: default_skip(),
        comments: seq![line_comment("//"@), block_comment("/*"@, "*/"@)],
        strings: seq![plain_string_form('"'), plain_string_form('\'')],
    }
}

/// Every comment opener is non-empty, so a comment always advances a scan.
pub open spec fn comments_advance(p: ProfileView) -> bool {
    forall|i: int| 0 <= i < p.comments.len() ==> (#[trigger] p.comments[i]).opener.len() > 0
}

impl CharSet {
    pub fn empty() -> (s: CharSet)
        ensures
            s@.negated == false,
            s@.items == Seq::<CharItem>::empty(),
    {
        CharSet { negated: false, items: Vec::new() }
    }

    /// True when `c` belongs to the set.
    pub fn matches(&self, c: char) -> (b: bool)
        ensures
            b == set_matches(self@, c),
    {
        let mut found = false;
        let mut k: usize = 0;
        while k < self.items.len()
            invariant
                k <= self.items@.len(),
                found <==> exists|i: int| 0 <= i < k && item_matches(#[trigger] self.items@[i], c),
            decreases self.items.len() - k,
        {
            let hit = match self.items[k] {
                CharItem::Char(x) => x == c,
                CharItem::Range(lo, hi) => lo <= c && c <= hi,
            };
            if hit {
                found = true;
            }
            k += 1;
        }
        assert(k == self.items@.len());
        assert(self@.items == self.items@);
        assert(found == exists|i: int| 0 <= i < self.items@.len() && item_matches(#[trigger] self.items@[i], c));
        assert(found == exists|i: int| 0 <= i < self@.items.len() && item_matches(#[trigger] self@.items[i], c));
        self.negated != found
    }
}

impl CommentForm {
    /// A line comment opened by `opener`.
    pub fn line(opener: &str) -> (c: CommentForm)
        ensures
            c@ == line_comment(opener@),
    {
        CommentForm { opener: String::from_str(opener), closer: None }
    }

    /// A block comment from `opener` through `closer`.
    pub fn block(opener: &str, closer: &str) -> (c: CommentForm)
        ensures
            c@ == block_comment(opener@, closer@),
    {
        CommentForm { opener: String::from_str(opener), closer: Some(String::from_str(closer)) }
    }
}

impl LexProfile {
    /// The empty profile: nothing skipped, no comments, no strings.
    pub fn empty() -> (p: LexProfile)
        ensures
            p@.skip.negated == false,
            p@.skip.items == Seq::<CharItem>::empty(),
            p@.comments == Seq::<CommentView>::empty(),
            p@.strings == Seq::<StringFormView>::empty(),
    {
        let p = LexProfile { skip: CharSet::empty(), comments: Vec::new(), strings: Vec::new() };
        assert(p@.comments =~= Seq::<CommentView>::empty());
        assert(p@.strings =~= Seq::<StringFormView>::empty());
        p
    }

    /// A flow-oriented profile's skip set crosses line terminators.
    pub fn is_flow_oriented(&self) -> (b: bool)
        ensures
            b == set_matches(self.skip@, '\n'),
    {
        self.skip.matches('\n')
    }
}

impl Default for LexProfile {
    fn default() -> (p: LexProfile)
        ensures
            p@.skip.negated == false,
            p@.skip.items == Seq::<CharItem>::empty(),
            p@.comments == Seq::<CommentView>::empty(),
            p@.strings == Seq::<StringFormView>::empty(),
    {
        LexProfile::empty()
    }
}

fn plain_string(quote: char) -> (f: StringForm)
    ensures
        f@ == plain_string_form(quote),
{
    StringForm { quote, multiline: false, island: None }
}

fn default_skip_set() -> (s: CharSet)
    ensures
        s@ == default_skip(),
{
    let mut items: Vec<CharItem> = Vec::new();
    items.push(CharItem::Char(' '));
    items.push(CharItem::Char('\t'));
    items.push(CharItem::Char('\r'));
    items.push(CharItem::Char('\n'));
    let s = CharSet { negated: false, items };
    assert(s@.items =~= default_skip().items);
    s
}

/// The default profile: horizontal and newline skipping, `"` strings, no
/// comments. Used for magics with inline entry patterns and as the fallback
/// for regions whose grammar profile declares no string forms.
pub fn default_profile() -> (p: LexProfile)
    ensures
        p@ == spec_default_profile(),
{
    let mut strings: Vec<StringForm> = Vec::new();
    strings.push(plain_string('"'));
    let p = LexProfile { skip: default_skip_set(), comments: Vec::new(), strings };
    assert(p@.comments =~= spec_default_profile().comments);
    assert(p@.strings =~= spec_default_profile().strings);
    p
}

/// The profile used to balance Checkmate-shaped regions: grammar bodies and
/// magic-declaration headers. It covers every quoting form pattern text
/// uses, plus line and block comments, so literals like `"("` never confuse
/// the balance.
pub fn checkmate_scan_profile() -> (p: LexProfile)
    ensures
        p@ == spec_checkmate_scan_profile(),
        comments_advance(p@),
{
    let mut comments: Vec<CommentForm> = Vec::new();
    comments.push(CommentForm::line("//"));
    comments.push(CommentForm::block("/*", "*/"));
    let mut strings: Vec<StringForm> = Vec::new();
    strings.push(plain_string('"'));
    strings.push(plain_string('\''));
    let p = LexProfile { skip: default_skip_set(), comments, strings };
    assert(p@.comments =~= spec_checkmate_scan_profile().comments);
    assert(p@.strings =~= spec_checkmate_scan_profile().strings);
    proof {
        reveal_strlit("//");
        reveal_strlit("/*");
    }
    p
}

// ---------------------------------------------------------------------------
// Copies and equality
// ---------------------------------------------------------------------------

fn copy_string(s: &String) -> (r: String)
    ensures
        r@ == s@,
{
    String::from_str(s.as_str())
}

fn copy_set(s: &CharSet) -> (r: CharSet)
    ensures
        r@ == s@,
{
    let mut items: Vec<CharItem> = Vec::new();
    let mut k: usize = 0;
    while k < s.items.len()
        invariant
            k <= s.items@.len(),
            items@ == s.items@.take(k as int),
        decreases s.items.len() - k,
    {
        items.push(s.items[k]);
        k += 1;
        assert(items@ =~= s.items@.take(k as int));
    }
    assert(s.items@.take(k as int) =~= s.items@);
    CharSet { negated: s.negated, items }
}

fn copy_comment(c: &CommentForm) -> (r: CommentForm)
    ensures
        r@ == c@,
{
    CommentForm {
        opener: copy_string(&c.opener),
        closer: match &c.closer {
            Some(x) => Some(copy_string(x)),
            None => None,
        },
    }
}

fn copy_string_form(f: &StringForm) -> (r: StringForm)
    ensures
        r@ == f@,
{
    StringForm {
        quote: f.quote,
        multiline: f.multiline,
        island: match &f.island {
            Some((o, c)) => Some((copy_string(o), copy_string(c))),
            None => None,
        },
    }
}

/// An independent copy of `p`.
pub fn copy_profile(p: &LexProfile) -> (r: LexProfile)
    ensures
        r@ == p@,
{
    let mut comments: Vec<CommentForm> = Vec::new();
    let mut k: usize = 0;
    while k < p.comments.len()
        invariant
            k <= p.comments@.len(),
            comments_view(comments@) == comments_view(p.comments@).take(k as int),
        decreases p.comments.len() - k,
    {
        let c = copy_comment(&p.comments[k]);
        let ghost before = comments_view(comments@);
        comments.push(c);
        assert(comments_view(comments@) =~= before.push(c@));
        k += 1;
        assert(comments_view(comments@) =~= comments_view(p.comments@).take(k as int));
    }
    let mut strings: Vec<StringForm> = Vec::new();
    let mut j: usize = 0;
    while j < p.strings.len()
        invariant
            j <= p.strings@.len(),
            comments_view(comments@) == comments_view(p.comments@),
            strings_forms_view(strings@) == strings_forms_view(p.strings@).take(j as int),
        decreases p.strings.len() - j,
    {
        let f = copy_string_form(&p.strings[j]);
        let ghost before = strings_forms_view(strings@);
        strings.push(f);
        assert(strings_forms_view(strings@) =~= before.push(f@));
        j += 1;
        assert(strings_forms_view(strings@) =~= strings_forms_view(p.strings@).take(j as int));
    }
    proof {
        assert(comments_view(p.comments@).take(k as int) =~= comments_view(p.comments@));
        assert(strings_forms_view(p.strings@).take(j as int) =~= strings_forms_view(p.strings@));
    }
    LexProfile { skip: copy_set(&p.skip), comments, strings }
}

fn string_eq(a: &String, b: &String) -> (r: bool)
    ensures
        r == (a@ == b@),
{
    let x = chars_of(a.as_str());
    let y = chars_of(b.as_str());
    crate::text::chars_eq(x.as_slice(), y.as_slice())
}

fn comment_eq(a: &CommentForm, b: &CommentForm) -> (r: bool)
    ensures
        r == (a@ == b@),
{
    if !string_eq(&a.opener, &b.opener) {
        return false;
    }
    match (&a.closer, &b.closer) {
        (Some(x), Some(y)) => string_eq(x, y),
        (None, None) => true,
        _ => false,
    }
}

fn string_form_eq(a: &StringForm, b: &StringForm) -> (r: bool)
    ensures
        r == (a@ == b@),
{
    if a.quote != b.quote || a.multiline != b.multiline {
        return false;
    }
    match (&a.island, &b.island) {
        (Some((o1, c1)), Some((o2, c2))) => string_eq(o1, o2) && string_eq(c1, c2),
        (None, None) => true,
        _ => false,
    }
}

// ---------------------------------------------------------------------------
// Composition
// ---------------------------------------------------------------------------

/// `acc` extended by the members of `more` it does not already hold, in order.
pub open spec fn union_comments(acc: Seq<CommentView>, more: Seq<CommentView>) -> Seq<CommentView>
    decreases more.len(),
{
    if more.len() == 0 {
        acc
    } else {
        union_comments(
            if acc.contains(more[0]) {
                acc
            } else {
                acc.push(more[0])
            },
            more.drop_first(),
        )
    }
}

pub open spec fn union_strings(acc: Seq<StringFormView>, more: Seq<StringFormView>) -> Seq<
    StringFormView,
>
    decreases more.len(),
{
    if more.len() == 0 {
        acc
    } else {
        union_strings(
            if acc.contains(more[0]) {
                acc
            } else {
                acc.push(more[0])
            },
            more.drop_first(),
        )
    }
}

/// The composed profile of `base` with each of `extras` in turn.
pub open spec fn spec_compose(base: ProfileView, extras: Seq<ProfileView>) -> ProfileView
    decreases extras.len(),
{
    if extras.len() == 0 {
        base
    } else {
        let last = extras.last();
        let before = spec_compose(base, extras.drop_last());
        ProfileView {
            skip: before.skip,
            comments: union_comments(before.comments, last.comments),
            strings: union_strings(before.strings, last.strings),
        }
    }
}

pub proof fn lemma_union_comments_step(acc: Seq<CommentView>, more: Seq<CommentView>, k: int)
    requires
        0 <= k < more.len(),
    ensures
        union_comments(acc, more.take(k + 1)) == ({
            let u = union_comments(acc, more.take(k));
            if u.contains(more[k]) {
                u
            } else {
                u.push(more[k])
            }
        }),
    decreases k,
{
    assert(more.take(k + 1)[0] == more[0]);
    if k == 0 {
        assert(more.take(1).drop_first() =~= more.take(0));
        assert(more.take(0) =~= seq![]);
        let a2 = if acc.contains(more[0]) {
            acc
        } else {
            acc.push(more[0])
        };
        assert(union_comments(a2, more.take(1).drop_first()) == a2);
    } else {
        assert(more.take(k)[0] == more[0]);
        let a2 = if acc.contains(more[0]) {
            acc
        } else {
            acc.push(more[0])
        };
        lemma_union_comments_step(a2, more.drop_first(), k - 1);
        assert(more.take(k + 1).drop_first() =~= more.drop_first().take(k));
        assert(more.take(k).drop_first() =~= more.drop_first().take(k - 1));
        assert(more.drop_first()[k - 1] == more[k]);
    }
}

pub proof fn lemma_union_strings_step(acc: Seq<StringFormView>, more: Seq<StringFormView>, k: int)
    requires
        0 <= k < more.len(),
    ensures
        union_strings(acc, more.take(k + 1)) == ({
            let u = union_strings(acc, more.take(k));
            if u.contains(more[k]) {
                u
            } else {
                u.push(more[k])
            }
        }),
    decreases k,
{
    assert(more.take(k + 1)[0] == more[0]);
    if k == 0 {
        assert(more.take(1).drop_first() =~= more.take(0));
        assert(more.take(0) =~= seq![]);
        let a2 = if acc.contains(more[0]) {
            acc
        } else {
            acc.push(more[0])
        };
        assert(union_strings(a2, more.take(1).drop_first()) == a2);
    } else {
        assert(more.take(k)[0] == more[0]);
        let a2 = if acc.contains(more[0]) {
            acc
        } else {
            acc.push(more[0])
        };
        lemma_union_strings_step(a2, more.drop_first(), k - 1);
        assert(more.take(k + 1).drop_first() =~= more.drop_first().take(k));
        assert(more.take(k).drop_first() =~= more.drop_first().take(k - 1));
        assert(more.drop_first()[k - 1] == more[k]);
    }
}

fn has_comment(v: &Vec<CommentForm>, c: &CommentForm) -> (b: bool)
    ensures
        b == comments_view(v@).contains(c@),
{
    let mut k: usize = 0;
    while k < v.len()
        invariant
            k <= v@.len(),
            forall|j: int| 0 <= j < k ==> comments_view(v@)[j] != c@,
        decreases v.len() - k,
    {
        if comment_eq(&v[k], c) {
            assert(comments_view(v@)[k as int] == c@);
            return true;
        }
        k += 1;
    }
    false
}

fn has_string_form(v: &Vec<StringForm>, f: &StringForm) -> (b: bool)
    ensures
        b == strings_forms_view(v@).contains(f@),
{
    let mut k: usize = 0;
    while k < v.len()
        invariant
            k <= v@.len(),
            forall|j: int| 0 <= j < k ==> strings_forms_view(v@)[j] != f@,
        decreases v.len() - k,
    {
        if string_form_eq(&v[k], f) {
            assert(strings_forms_view(v@)[k as int] == f@);
            return true;
        }
        k += 1;
    }
    false
}

pub open spec fn profiles_view(v: Seq<&LexProfile>) -> Seq<ProfileView> {
    v.map_values(|p: &LexProfile| p@)
}

/// Unions profiles: the base's forms plus every extra's forms not already
/// present. The composed profile of an invocation is the entry grammar's
/// profile with those of the grammars its entry pattern references.
pub fn compose(base: &LexProfile, extras: &[&LexProfile]) -> (p: LexProfile)
    ensures
        p@ == spec_compose(base@, profiles_view(extras@)),
{
    let ghost ev = profiles_view(extras@);
    let mut composed = copy_profile(base);
    let mut e: usize = 0;
    assert(ev.take(0) =~= seq![]);
    while e < extras.len()
        invariant
            ev == profiles_view(extras@),
            e <= extras@.len(),
            composed@ == spec_compose(base@, ev.take(e as int)),
        decreases extras.len() - e,
    {
        let extra: &LexProfile = extras[e];
        let ghost start = composed@;
        let mut k: usize = 0;
        assert(extra@.comments.take(0) =~= seq![]);
        while k < extra.comments.len()
            invariant
                k <= extra.comments@.len(),
                composed@.skip == start.skip,
                composed@.strings == start.strings,
                composed@.comments == union_comments(start.comments, extra@.comments.take(k as int)),
            decreases extra.comments.len() - k,
        {
            proof {
                lemma_union_comments_step(start.comments, extra@.comments, k as int);
            }
            if !has_comment(&composed.comments, &extra.comments[k]) {
                let c = copy_comment(&extra.comments[k]);
                let ghost before = comments_view(composed.comments@);
                composed.comments.push(c);
                assert(comments_view(composed.comments@) =~= before.push(c@));
            }
            k += 1;
        }
        assert(extra@.comments.take(k as int) =~= extra@.comments);
        let mut j: usize = 0;
        assert(extra@.strings.take(0) =~= seq![]);
        while j < extra.strings.len()
            invariant
                j <= extra.strings@.len(),
                composed@.skip == start.skip,
                composed@.comments == union_comments(start.comments, extra@.comments),
                composed@.strings == union_strings(start.strings, extra@.strings.take(j as int)),
            decreases extra.strings.len() - j,
        {
            proof {
                lemma_union_strings_step(start.strings, extra@.strings, j as int);
            }
            if !has_string_form(&composed.strings, &extra.strings[j]) {
                let f = copy_string_form(&extra.strings[j]);
                let ghost before = strings_forms_view(composed.strings@);
                composed.strings.push(f);
                assert(strings_forms_view(composed.strings@) =~= before.push(f@));
            }
            j += 1;
        }
        proof {
            assert(extra@.comments.take(k as int) =~= extra@.comments);
            assert(extra@.strings.take(j as int) =~= extra@.strings);
            assert(ev.take(e + 1).drop_last() =~= ev.take(e as int));
            assert(ev.take(e + 1).last() == extra@);
        }
        e += 1;
    }
    assert(ev.take(e as int) =~= ev);
    composed
}

/// Ensures a profile can balance regions that hold ordinary quoted text: a
/// grammar that declares no string forms still gets the default `"` form.
pub fn with_default_strings(profile: &LexProfile) -> (p: LexProfile)
    ensures
        p@ == (if profile@.strings.len() > 0 {
            profile@
        } else {
            ProfileView { strings: seq![plain_string_form('"')], ..profile@ }
        }),
{
    let mut composed = copy_profile(profile);
    if profile.strings.len() > 0 {
        return composed;
    }
    let f = plain_string('"');
    let ghost before = strings_forms_view(composed.strings@);
    composed.strings.push(f);
    assert(strings_forms_view(composed.strings@) =~= before.push(f@));
    assert(composed@.strings =~= seq![plain_string_form('"')]);
    composed
}


// ---------------------------------------------------------------------------
// Balancing
// ---------------------------------------------------------------------------

/// The index of the first occurrence of `pat` in `s`.
pub open spec fn find_sub(s: Seq<char>, pat: Seq<char>) -> Option<int>
    decreases s.len(),
{
    if starts_with(s, pat) {
        Some(0)
    } else if s.len() == 0 {
        None
    } else {
        match find_sub(s.drop_first(), pat) {
            Some(i) => Some(i + 1),
            None => None,
        }
    }
}

/// The index of the first line feed or carriage return in `s`.
pub open spec fn find_line_break(s: Seq<char>) -> Option<int>
    decreases s.len(),
{
    if s.len() == 0 {
        None
    } else if s[0] == '\n' || s[0] == '\r' {
        Some(0)
    } else {
        match find_line_break(s.drop_first()) {
            Some(i) => Some(i + 1),
            None => None,
        }
    }
}

/// Among the first `n` comment forms whose opener starts `rest`, the one
/// with the longest opener (the later one on a tie).
pub open spec fn best_comment(forms: Seq<CommentView>, rest: Seq<char>, n: int) -> Option<int>
    decreases n,
{
    if n <= 0 || n > forms.len() {
        None
    } else {
        let prev = best_comment(forms, rest, n - 1);
        if starts_with(rest, forms[n - 1].opener) && match prev {
            None => true,
            Some(b) => forms[n - 1].opener.len() >= forms[b].opener.len(),
        } {
            Some(n - 1)
        } else {
            prev
        }
    }
}

/// The length of the comment that starts at `pos`, if any: the longest
/// matching opener wins; a line comment runs to (not including) the line
/// break, a block comment through its closer, and an unterminated block
/// comment swallows the rest of the text.
pub open spec fn spec_comment_len(src: Seq<char>, pos: int, p: ProfileView) -> Option<int> {
    let rest = src.skip(pos);
    match best_comment(p.comments, rest, p.comments.len() as int) {
        None => None,
        Some(i) => {
            let f = p.comments[i];
            let after = rest.skip(f.opener.len() as int);
            match f.closer {
                None => Some(
                    f.opener.len() + match find_line_break(after) {
                        Some(k) => k,
                        None => after.len() as int,
                    },
                ),
                Some(cl) => match find_sub(after, cl) {
                    Some(k) => Some(f.opener.len() + k + cl.len()),
                    None => Some(rest.len() as int),
                },
            }
        },
    }
}

/// The outcome of a scan that may run off the end of the text: it found a
/// position (or length), it reached the end of the text, or the text is one
/// on which the scan would not make progress (or underflows its depth).
pub enum Walked {
    Found(int),
    Open,
    Stuck,
}

/// Skips island content from `cursor` at brace depth `depth`: the position of
/// the closer that matches the island's opener.
pub open spec fn island_from(src: Seq<char>, cursor: int, depth: int, closer: Seq<char>) -> Walked
    decreases src.len() - cursor,
{
    if cursor < 0 || cursor >= src.len() {
        Walked::Open
    } else if starts_with(src.skip(cursor), closer) && depth == 1 {
        Walked::Found(cursor)
    } else {
        let d = if src[cursor] == '{' {
            depth + 1
        } else if src[cursor] == '}' {
            depth - 1
        } else {
            depth
        };
        if d < 0 {
            Walked::Stuck
        } else {
            island_from(src, cursor + 1, d, closer)
        }
    }
}

/// The index of the first string form whose quote is `c`.
pub open spec fn form_for_quote(forms: Seq<StringFormView>, c: char) -> Option<int>
    decreases forms.len(),
{
    if forms.len() == 0 {
        None
    } else if forms[0].quote == c {
        Some(0)
    } else {
        match form_for_quote(forms.drop_first(), c) {
            Some(i) => Some(i + 1),
            None => None,
        }
    }
}

/// Scans the body of a string of form `form` opened at `pos`, from `cursor`:
/// `Found` holds the string's length. A backslash pairs with the character
/// after it (a line break there ends the scan unsuccessfully) and the scan
/// then moves one character past the pair; a single-line form that meets a
/// line break is ordinary text; an island's content is skipped with brace
/// balancing; a multiline form that never closes runs to the end.
pub open spec fn string_from(src: Seq<char>, pos: int, cursor: int, form: StringFormView) -> Walked
    decreases if cursor < src.len() {
        src.len() - cursor
    } else {
        0
    },
{
    if cursor < 0 || cursor >= src.len() {
        if form.multiline {
            Walked::Found(src.len() - pos)
        } else {
            Walked::Open
        }
    } else {
        let c = src[cursor];
        if c == '\\' && !(cursor + 1 < src.len() && src[cursor + 1] != '\n' && src[cursor + 1] != '\r') {
            Walked::Open
        } else if c != '\\' && (c == '\n' || c == '\r') && !form.multiline {
            Walked::Open
        } else if c != '\\' && c == form.quote {
            Walked::Found(cursor + 1 - pos)
        } else {
            let cur2 = if c == '\\' {
                cursor + 2
            } else {
                cursor
            };
            match form.island {
                Some((open, close)) => if starts_with(src.skip(cursor), open) {
                    match island_from(src, cur2 + open.len(), 1, close) {
                        Walked::Stuck => Walked::Stuck,
                        Walked::Open => Walked::Open,
                        Walked::Found(cp) => {
                            let next = cp + close.len();
                            if next <= cursor {
                                Walked::Stuck
                            } else {
                                string_from(src, pos, next, form)
                            }
                        },
                    }
                } else {
                    string_from(src, pos, cur2 + 1, form)
                },
                None => string_from(src, pos, cur2 + 1, form),
            }
        }
    }
}

/// The length of the string whose quote character sits at `pos`, if any.
pub open spec fn spec_string_len(src: Seq<char>, pos: int, p: ProfileView) -> Walked {
    if pos < 0 || pos >= src.len() {
        Walked::Open
    } else {
        match form_for_quote(p.strings, src[pos]) {
            None => Walked::Open,
            Some(i) => string_from(src, pos, pos + 1, p.strings[i]),
        }
    }
}

/// Balances from `cursor` at depth `depth`: the position of the `close`
/// that brings the depth to zero, skipping comments and strings.
pub open spec fn balance_from(
    src: Seq<char>,
    cursor: int,
    depth: int,
    open: char,
    close: char,
    p: ProfileView,
) -> Walked
    decreases if cursor < src.len() {
        src.len() - cursor
    } else {
        0
    },
{
    if cursor < 0 || cursor >= src.len() {
        Walked::Open
    } else {
        match spec_comment_len(src, cursor, p) {
            Some(l) => if l <= 0 {
                Walked::Stuck
            } else {
                balance_from(src, cursor + l, depth, open, close, p)
            },
            None => match spec_string_len(src, cursor, p) {
                Walked::Stuck => Walked::Stuck,
                Walked::Found(l) => if l <= 0 {
                    Walked::Stuck
                } else {
                    balance_from(src, cursor + l, depth, open, close, p)
                },
                Walked::Open => {
                    let c = src[cursor];
                    if c == open {
                        balance_from(src, cursor + 1, depth + 1, open, close, p)
                    } else if c == close {
                        if depth - 1 == 0 {
                            Walked::Found(cursor)
                        } else {
                            balance_from(src, cursor + 1, depth - 1, open, close, p)
                        }
                    } else {
                        balance_from(src, cursor + 1, depth, open, close, p)
                    }
                },
            },
        }
    }
}

/// The position of the delimiter matching the `open` at `open_pos`.
pub open spec fn spec_balance(src: Seq<char>, open_pos: int, open: char, close: char, p: ProfileView) -> Walked {
    balance_from(src, open_pos + 1, 1, open, close, p)
}

pub proof fn lemma_best_comment(forms: Seq<CommentView>, rest: Seq<char>, n: int)
    ensures
        best_comment(forms, rest, n) matches Some(b) ==> 0 <= b < n && b < forms.len() && starts_with(
            rest,
            forms[b].opener,
        ),
    decreases n,
{
    if n > 0 && n <= forms.len() {
        lemma_best_comment(forms, rest, n - 1);
    }
}

pub proof fn lemma_find_sub_step(s: Seq<char>, pat: Seq<char>, i: int)
    requires
        0 <= i < s.len(),
        !starts_with(s.skip(i), pat),
    ensures
        find_sub(s.skip(i), pat) == match find_sub(s.skip(i + 1), pat) {
            Some(k) => Some(k + 1),
            None => None::<int>,
        },
{
    assert(s.skip(i).drop_first() =~= s.skip(i + 1));
}

pub proof fn lemma_find_sub_bound(s: Seq<char>, pat: Seq<char>)
    ensures
        find_sub(s, pat) matches Some(k) ==> 0 <= k && k + pat.len() <= s.len(),
    decreases s.len(),
{
    if !starts_with(s, pat) && s.len() > 0 {
        lemma_find_sub_bound(s.drop_first(), pat);
    }
}

/// The offset, from `from`, of the first occurrence of `pat` in `s[from..]`.
fn find_sub_exec(s: &[char], from: usize, pat: &[char]) -> (r: Option<usize>)
    requires
        from <= s@.len(),
    ensures
        match r {
            Some(k) => find_sub(s@.skip(from as int), pat@) == Some(k as int),
            None => find_sub(s@.skip(from as int), pat@) is None,
        },
{
    let mut i = from;
    let n = s.len();
    while i < n
        invariant
            n == s@.len(),
            from <= i <= n,
            find_sub(s@.skip(from as int), pat@) == match find_sub(s@.skip(i as int), pat@) {
                Some(k) => Some(k + (i - from)),
                None => None::<int>,
            },
        decreases n - i,
    {
        if starts_with_at(s, i, pat) {
            return Some(i - from);
        }
        proof {
            lemma_find_sub_step(s@, pat@, i as int);
        }
        i += 1;
    }
    if starts_with_at(s, i, pat) {
        return Some(i - from);
    }
    assert(s@.skip(i as int).len() == 0);
    None
}

/// The offset, from `from`, of the first line break in `s[from..]`.
fn find_line_break_exec(s: &[char], from: usize) -> (r: Option<usize>)
    requires
        from <= s@.len(),
    ensures
        match r {
            Some(k) => find_line_break(s@.skip(from as int)) == Some(k as int) && from + k < s@.len(),
            None => find_line_break(s@.skip(from as int)) is None,
        },
{
    let mut i = from;
    let n = s.len();
    while i < n
        invariant
            n == s@.len(),
            from <= i <= n,
            find_line_break(s@.skip(from as int)) == match find_line_break(s@.skip(i as int)) {
                Some(k) => Some(k + (i - from)),
                None => None::<int>,
            },
        decreases n - i,
    {
        assert(s@.skip(i as int)[0] == s@[i as int]);
        if s[i] == '\n' || s[i] == '\r' {
            return Some(i - from);
        }
        assert(s@.skip(i as int).drop_first() =~= s@.skip(i + 1));
        i += 1;
    }
    None
}

/// The length of the comment form matching at `pos`, if any. The longest
/// matching opener wins; line comments run to (not including) the line
/// terminator, block comments through their closer (an unterminated block
/// comment swallows the rest of the text).
pub fn comment_len(source: &[char], pos: usize, profile: &LexProfile) -> (r: Option<usize>)
    requires
        pos <= source@.len(),
    ensures
        r matches Some(l) ==> pos + l <= source@.len(),
        match r {
            Some(l) => spec_comment_len(source@, pos as int, profile@) == Some(l as int),
            None => spec_comment_len(source@, pos as int, profile@) is None,
        },
{
    let ghost rest = source@.skip(pos as int);
    let ghost forms = profile@.comments;
    let mut best: Option<usize> = None;
    let mut k: usize = 0;
    while k < profile.comments.len()
        invariant
            rest == source@.skip(pos as int),
            forms == profile@.comments,
            pos <= source@.len(),
            k <= forms.len(),
            match best {
                Some(b) => best_comment(forms, rest, k as int) == Some(b as int) && b < k,
                None => best_comment(forms, rest, k as int) is None,
            },
        decreases profile.comments.len() - k,
    {
        let opener = chars_of(profile.comments[k].opener.as_str());
        assert(opener@ == forms[k as int].opener);
        if starts_with_at(source, pos, opener.as_slice()) {
            match best {
                None => {
                    best = Some(k);
                },
                Some(b) => {
                    let current = chars_of(profile.comments[b].opener.as_str());
                    assert(current@ == forms[b as int].opener);
                    if opener.len() >= current.len() {
                        best = Some(k);
                    }
                },
            }
        }
        k += 1;
    }
    let b = match best {
        Some(b) => b,
        None => {
            return None;
        },
    };
    proof {
        lemma_best_comment(forms, rest, k as int);
    }
    let form = &profile.comments[b];
    let opener = chars_of(form.opener.as_str());
    assert(opener@ == forms[b as int].opener);
    let n = source.len();
    assert(starts_with(rest, opener@));
    assert(opener@.len() <= n - pos);
    let after = pos + opener.len();
    assert(starts_with(rest, opener@));
    assert(rest.skip(opener@.len() as int) =~= source@.skip(after as int));
    match &form.closer {
        None => match find_line_break_exec(source, after) {
            Some(k) => Some(opener.len() + k),
            None => Some(opener.len() + (source.len() - after)),
        },
        Some(closer) => {
            let cl = chars_of(closer.as_str());
            match find_sub_exec(source, after, cl.as_slice()) {
                Some(k) => {
                    proof {
                        lemma_find_sub_bound(source@.skip(after as int), cl@);
                    }
                    Some(opener.len() + k + cl.len())
                },
                None => Some(source.len() - pos),
            }
        },
    }
}

pub proof fn lemma_island_past_end(src: Seq<char>, cursor: int, depth: int, closer: Seq<char>)
    requires
        cursor >= src.len(),
    ensures
        island_from(src, cursor, depth, closer) == Walked::Open,
{
}

/// Skips an island's content: from just after the island opener to just
/// before its closer, counting braces so nested blocks inside the island
/// stay transparent. The closer is checked before a `}` counts as a
/// nested-brace decrement.
/// The outcome of a scan that may run off the end of the text or stall.
pub enum Outcome {
    Found(usize),
    Open,
    Stuck,
}

pub open spec fn outcome_view(o: Outcome) -> Walked {
    match o {
        Outcome::Found(n) => Walked::Found(n as int),
        Outcome::Open => Walked::Open,
        Outcome::Stuck => Walked::Stuck,
    }
}

/// Skips an island's content from `start` (just after the island opener) to
/// the closer that matches it, counting braces so nested blocks stay
/// transparent; `Stuck` when a `}` would close more than was opened.
pub fn island_walk(source: &[char], start: usize, closer: &[char]) -> (r: Outcome)
    requires
        source@.len() < usize::MAX,
    ensures
        outcome_view(r) == island_from(source@, start as int, 1, closer@),
        r matches Outcome::Found(p) ==> start <= p < source@.len(),
{
    let n = source.len();
    let mut cursor = start;
    let mut depth: usize = 1;
    while cursor < n
        invariant
            n == source@.len(),
            n < usize::MAX,
            start <= cursor,
            island_from(source@, start as int, 1, closer@) == island_from(
                source@,
                cursor as int,
                depth as int,
                closer@,
            ),
            depth <= cursor - start + 1,
        decreases n - cursor,
    {
        if starts_with_at(source, cursor, closer) && depth == 1 {
            return Outcome::Found(cursor);
        }
        if source[cursor] == '{' {
            depth += 1;
        } else if source[cursor] == '}' {
            if depth == 0 {
                return Outcome::Stuck;
            }
            depth -= 1;
        }
        cursor += 1;
    }
    Outcome::Open
}

/// Skips an island's content: from just after the island opener to just
/// before its closer, counting braces so nested Checkmate blocks inside the
/// island stay transparent. The closer is checked before a `}` counts as a
/// nested close.
pub fn balance_island(source: &[char], start: usize, closer: &[char]) -> (r: Option<usize>)
    requires
        source@.len() < usize::MAX,
        !(island_from(source@, start as int, 1, closer@) is Stuck),
    ensures
        match island_from(source@, start as int, 1, closer@) {
            Walked::Found(p) => r == Some(p as usize) && start <= p < source@.len(),
            _ => r is None,
        },
{
    match island_walk(source, start, closer) {
        Outcome::Found(p) => Some(p),
        _ => None,
    }
}


pub proof fn lemma_form_for_quote(forms: Seq<StringFormView>, c: char, k: int)
    requires
        0 <= k <= forms.len(),
        forall|j: int| 0 <= j < k ==> (#[trigger] forms[j]).quote != c,
    ensures
        k < forms.len() && forms[k].quote == c ==> form_for_quote(forms, c) == Some(k),
        k == forms.len() ==> form_for_quote(forms, c) is None,
    decreases k,
{
    if k > 0 {
        assert forall|j: int| 0 <= j < k - 1 implies (#[trigger] forms.drop_first()[j]).quote != c by {
            assert(forms.drop_first()[j] == forms[j + 1]);
        }
        lemma_form_for_quote(forms.drop_first(), c, k - 1);
        if k < forms.len() {
            assert(forms.drop_first()[k - 1] == forms[k]);
        }
    }
}

pub proof fn lemma_string_past_end(src: Seq<char>, pos: int, a: int, b: int, form: StringFormView)
    requires
        a >= src.len(),
        b >= src.len(),
    ensures
        string_from(src, pos, a, form) == string_from(src, pos, b, form),
{
}

/// The outcome of scanning the string whose quote sits at `pos`: its
/// length, `Open` when there is no string there (or it does not close),
/// `Stuck` when an island would make the scan stall or close more braces
/// than it opened.
pub fn string_walk(source: &[char], pos: usize, profile: &LexProfile) -> (r: Outcome)
    requires
        source@.len() < usize::MAX,
    ensures
        outcome_view(r) == spec_string_len(source@, pos as int, profile@),
        r matches Outcome::Found(l) ==> 0 < l && pos + l <= source@.len(),
{
    let n = source.len();
    if pos >= n {
        return Outcome::Open;
    }
    let first = source[pos];
    let ghost forms = profile@.strings;
    let mut i: usize = 0;
    while i < profile.strings.len() && profile.strings[i].quote != first
        invariant
            forms == profile@.strings,
            i <= forms.len(),
            forall|j: int| 0 <= j < i ==> (#[trigger] forms[j]).quote != first,
        decreases profile.strings.len() - i,
    {
        i += 1;
    }
    proof {
        lemma_form_for_quote(forms, first, i as int);
    }
    if i >= profile.strings.len() {
        return Outcome::Open;
    }
    let form = &profile.strings[i];
    let ghost fv = form@;
    assert(fv == forms[i as int]);
    let mut cursor = pos + 1;
    while cursor < n
        invariant
            n == source@.len(),
            n < usize::MAX,
            pos < cursor <= n + 1,
            fv == form@,
            spec_string_len(source@, pos as int, profile@) == string_from(source@, pos as int, cursor as int, fv),
        decreases n + 1 - cursor,
    {
        let c = source[cursor];
        if c == '\\' {
            if !(cursor + 1 < n && source[cursor + 1] != '\n' && source[cursor + 1] != '\r') {
                return Outcome::Open;
            }
        } else if (c == '\n' || c == '\r') && !form.multiline {
            return Outcome::Open;
        } else if c == form.quote {
            return Outcome::Found(cursor + 1 - pos);
        }
        let cur2 = if c == '\\' {
            cursor + 2
        } else {
            cursor
        };
        match &form.island {
            Some((open, close)) => {
                let o = chars_of(open.as_str());
                if starts_with_at(source, cursor, o.as_slice()) {
                    if o.len() >= n - cur2 {
                        proof {
                            lemma_island_past_end(source@, cur2 + o@.len(), 1, close@);
                        }
                        return Outcome::Open;
                    }
                    let start = cur2 + o.len();
                    let cl = chars_of(close.as_str());
                    match island_walk(source, start, cl.as_slice()) {
                        Outcome::Stuck => {
                            return Outcome::Stuck;
                        },
                        Outcome::Open => {
                            return Outcome::Open;
                        },
                        Outcome::Found(cp) => {
                            if cl.len() < n - cp && cp + cl.len() <= cursor {
                                return Outcome::Stuck;
                            }
                            if cl.len() >= n - cp {
                                proof {
                                    lemma_string_past_end(source@, pos as int, cp + cl@.len(), n as int, fv);
                                }
                                cursor = n;
                            } else {
                                cursor = cp + cl.len();
                            }
                        },
                    }
                } else {
                    cursor = cur2 + 1;
                }
            },
            None => {
                cursor = cur2 + 1;
            },
        }
    }
    if form.multiline {
        Outcome::Found(n - pos)
    } else {
        Outcome::Open
    }
}

/// The length of the string whose quote character sits at `pos`, if any. A
/// single-line form that does not close before the line terminator is
/// ordinary text (an apostrophe in prose cannot swallow the file); a
/// multiline form that never closes swallows the rest of the text. Islands
/// are transparent: their content is skipped with brace balancing.
pub fn string_len(source: &[char], pos: usize, profile: &LexProfile) -> (r: Option<usize>)
    requires
        source@.len() < usize::MAX,
        !(spec_string_len(source@, pos as int, profile@) is Stuck),
    ensures
        r matches Some(l) ==> pos + l <= source@.len() && l > 0,
        match spec_string_len(source@, pos as int, profile@) {
            Walked::Found(l) => 0 < l && pos + l <= source@.len() && r == Some(l as usize),
            _ => r is None,
        },
{
    match string_walk(source, pos, profile) {
        Outcome::Found(l) => Some(l),
        _ => None,
    }
}

/// A delimiter-balancing failure: the opener's span plus a message.
pub struct BalanceError {
    pub span: Span,
    pub message: String,
}

pub open spec fn unclosed_message(open: char, close: char) -> Seq<char> {
    "unclosed `"@ + seq![open] + "`: no matching `"@ + seq![close] + "` before the end of the file"@
}

/// The outcome of balancing the `open` at `open_pos`: the position of its
/// matching `close`, `Open` when the text ends first, or `Stuck` when a
/// comment or string form would stall the scan.
pub fn balance_walk(source: &[char], open_pos: usize, open: char, close: char, profile: &LexProfile) -> (r: Outcome)
    requires
        source@.len() < usize::MAX,
        open_pos < usize::MAX,
    ensures
        outcome_view(r) == spec_balance(source@, open_pos as int, open, close, profile@),
        r matches Outcome::Found(q) ==> open_pos < q < source@.len(),
{
    let n = source.len();
    let mut cursor = open_pos + 1;
    let mut depth: usize = 1;
    while cursor < n
        invariant
            n == source@.len(),
            n < usize::MAX,
            open_pos < cursor,
            1 <= depth <= cursor - open_pos,
            spec_balance(source@, open_pos as int, open, close, profile@) == balance_from(
                source@,
                cursor as int,
                depth as int,
                open,
                close,
                profile@,
            ),
        decreases n - cursor,
    {
        match comment_len(source, cursor, profile) {
            Some(l) => {
                if l == 0 {
                    return Outcome::Stuck;
                }
                cursor = cursor + l;
                continue ;
            },
            None => {},
        }
        match string_walk(source, cursor, profile) {
            Outcome::Found(l) => {
                cursor = cursor + l;
                continue ;
            },
            Outcome::Stuck => {
                return Outcome::Stuck;
            },
            Outcome::Open => {},
        }
        let c = source[cursor];
        if c == open {
            depth += 1;
        } else if c == close {
            depth -= 1;
            if depth == 0 {
                return Outcome::Found(cursor);
            }
        }
        cursor += 1;
    }
    Outcome::Open
}

/// Finds the position of the delimiter matching the `open` character at
/// `open_pos`, honoring the profile's comment forms (longest opener first),
/// string forms (islands transparent) and nesting.
pub fn balance(source: &[char], open_pos: usize, open: char, close: char, profile: &LexProfile) -> (r: Result<
    usize,
    BalanceError,
>)
    requires
        source@.len() < usize::MAX,
        open_pos < usize::MAX,
        !(spec_balance(source@, open_pos as int, open, close, profile@) is Stuck),
    ensures
        match spec_balance(source@, open_pos as int, open, close, profile@) {
            Walked::Found(p) => r matches Ok(q) && q == p && open_pos < q < source@.len(),
            _ => r matches Err(e) && e.span == (Span { start: open_pos, end: (open_pos + 1) as usize })
                && e.message@ == unclosed_message(open, close),
        },
{
    match balance_walk(source, open_pos, open, close, profile) {
        Outcome::Found(q) => Ok(q),
        _ => Err(unclosed_error(open_pos, open, close)),
    }
}

/// The error of an `open` at `open_pos` that nothing closes.
pub fn unclosed_error(open_pos: usize, open: char, close: char) -> (e: BalanceError)
    requires
        open_pos < usize::MAX,
    ensures
        e.span == (Span { start: open_pos, end: (open_pos + 1) as usize }),
        e.message@ == unclosed_message(open, close),
{
    let mut m = chars_of("unclosed `");
    m.push(open);
    crate::text::push_str(&mut m, "`: no matching `");
    m.push(close);
    crate::text::push_str(&mut m, "` before the end of the file");
    assert(m@ =~= unclosed_message(open, close));
    BalanceError { span: Span::new(open_pos, open_pos + 1), message: string_from_chars(m.as_slice()) }
}


// ---------------------------------------------------------------------------
// Profile extraction from grammar bodies
// ---------------------------------------------------------------------------

/// Skips skip-set characters and comments from `c`: the first position that
/// is neither (comments must advance, see [`comments_advance`]).
pub open spec fn skip_wsc(src: Seq<char>, c: int, p: ProfileView) -> int
    decreases if 0 <= c < src.len() {
        src.len() - c
    } else {
        0
    },
{
    if c < 0 || c >= src.len() {
        c
    } else if set_matches(p.skip, src[c]) {
        skip_wsc(src, c + 1, p)
    } else {
        match spec_comment_len(src, c, p) {
            Some(l) => if l > 0 {
                skip_wsc(src, c + l, p)
            } else {
                c
            },
            None => c,
        }
    }
}

pub proof fn lemma_skip_wsc_bounds(src: Seq<char>, c: int, p: ProfileView)
    requires
        0 <= c,
    ensures
        c <= skip_wsc(src, c, p),
        c <= src.len() ==> skip_wsc(src, c, p) <= src.len(),
    decreases if 0 <= c < src.len() {
        src.len() - c
    } else {
        0
    },
{
    if c < src.len() {
        if set_matches(p.skip, src[c]) {
            lemma_skip_wsc_bounds(src, c + 1, p);
        } else {
            match spec_comment_len(src, c, p) {
                Some(l) => if l > 0 {
                    lemma_comment_len_bound(src, c, p);
                    lemma_skip_wsc_bounds(src, c + l, p);
                },
                None => {},
            }
        }
    }
}

pub proof fn lemma_comment_len_bound(src: Seq<char>, pos: int, p: ProfileView)
    requires
        0 <= pos <= src.len(),
    ensures
        spec_comment_len(src, pos, p) matches Some(l) ==> 0 <= l && pos + l <= src.len(),
{
    let rest = src.skip(pos);
    lemma_best_comment(p.comments, rest, p.comments.len() as int);
    match best_comment(p.comments, rest, p.comments.len() as int) {
        None => {},
        Some(i) => {
            let f = p.comments[i];
            let after = rest.skip(f.opener.len() as int);
            lemma_find_line_break_bound(after);
            match f.closer {
                None => {},
                Some(cl) => {
                    lemma_find_sub_bound(after, cl);
                },
            }
        },
    }
}

pub proof fn lemma_comment_len_positive(src: Seq<char>, pos: int, p: ProfileView)
    requires
        0 <= pos <= src.len(),
        comments_advance(p),
    ensures
        spec_comment_len(src, pos, p) matches Some(l) ==> l > 0,
{
    let rest = src.skip(pos);
    lemma_best_comment(p.comments, rest, p.comments.len() as int);
    lemma_comment_len_bound(src, pos, p);
    match best_comment(p.comments, rest, p.comments.len() as int) {
        None => {},
        Some(i) => {
            let f = p.comments[i];
            let after = rest.skip(f.opener.len() as int);
            lemma_find_line_break_bound(after);
            match f.closer {
                None => {},
                Some(cl) => {
                    lemma_find_sub_bound(after, cl);
                },
            }
        },
    }
}

pub proof fn lemma_find_line_break_bound(s: Seq<char>)
    ensures
        find_line_break(s) matches Some(k) ==> 0 <= k < s.len(),
    decreases s.len(),
{
    if s.len() > 0 && !(s[0] == '\n' || s[0] == '\r') {
        lemma_find_line_break_bound(s.drop_first());
    }
}

/// Skips whitespace and comments from `cursor` onward.
pub fn skip_ws_and_comments(text: &[char], cursor: usize, profile: &LexProfile) -> (r: usize)
    requires
        cursor <= text@.len(),
        comments_advance(profile@),
    ensures
        r == skip_wsc(text@, cursor as int, profile@),
        cursor <= r <= text@.len(),
{
    let n = text.len();
    let mut c = cursor;
    proof {
        lemma_skip_wsc_bounds(text@, cursor as int, profile@);
    }
    while c < n
        invariant
            n == text@.len(),
            cursor <= c <= n,
            comments_advance(profile@),
            skip_wsc(text@, cursor as int, profile@) == skip_wsc(text@, c as int, profile@),
        decreases n - c,
    {
        if profile.skip.matches(text[c]) {
            c += 1;
            continue ;
        }
        match comment_len(text, c, profile) {
            Some(l) => {
                proof {
                    lemma_comment_len_positive(text@, c as int, profile@);
                }
                c += l;
            },
            None => {
                return c;
            },
        }
    }
    c
}

pub open spec fn word_pred() -> spec_fn(char) -> bool {
    |c: char| is_word_char(c)
}

/// The length of the identifier-like word (`[A-Za-z0-9_]*`) at `c`.
pub open spec fn word_len(src: Seq<char>, c: int) -> int {
    crate::text::leading_count(src.skip(c), word_pred()) as int
}

/// The identifier-like word starting at `cursor`.
pub fn next_word(text: &[char], cursor: usize) -> (w: Vec<char>)
    requires
        cursor <= text@.len(),
    ensures
        w@ == text@.subrange(cursor as int, cursor + word_len(text@, cursor as int)),
        cursor + word_len(text@, cursor as int) <= text@.len(),
{
    let n = text.len();
    let mut e = cursor;
    while e < n && crate::text::char_is_word(text[e])
        invariant
            n == text@.len(),
            cursor <= e <= n,
            forall|k: int| 0 <= k < e - cursor ==> word_pred()(#[trigger] text@.skip(cursor as int)[k]),
        decreases n - e,
    {
        assert(text@.skip(cursor as int)[e - cursor] == text@[e as int]);
        e += 1;
    }
    proof {
        if e < n {
            assert(text@.skip(cursor as int)[e - cursor] == text@[e as int]);
        }
        crate::text::lemma_leading_count_is(text@.skip(cursor as int), word_pred(), e - cursor);
    }
    crate::text::slice_chars(text, cursor, e)
}

pub(crate) fn word_is(w: &Vec<char>, lit: &str) -> (b: bool)
    ensures
        b == (w@ == lit@),
{
    crate::text::chars_eq_str(w.as_slice(), lit)
}

pub open spec fn char_escape(e: char) -> char {
    if e == 'n' {
        '\n'
    } else if e == 't' {
        '\t'
    } else if e == 'r' {
        '\r'
    } else if e == '0' {
        '\0'
    } else {
        e
    }
}

/// A quoted char literal (`'a'`, `'\t'`) at `c`: the character and the
/// number of characters the literal spans.
pub open spec fn spec_char_literal(src: Seq<char>, c: int) -> Option<(char, int)> {
    let rest = src.skip(c);
    if rest.len() < 2 || rest[0] != '\'' {
        None
    } else {
        let (value, consumed) = if rest[1] == '\\' {
            if rest.len() < 3 {
                ('\\', -1int)
            } else {
                (char_escape(rest[2]), 3int)
            }
        } else {
            (rest[1], 2int)
        };
        if consumed < 0 || consumed >= rest.len() || rest[consumed] != '\'' {
            None
        } else {
            Some((value, consumed + 1))
        }
    }
}

/// A quoted escaped char literal `'\e'` reads as the character it names:
/// `\n`, `\t`, `\r` and `\0` stand for line feed, tab, carriage return and
/// NUL, and any other escaped character for itself; the literal spans four
/// characters.
pub proof fn lemma_escaped_char_literal_names_its_character(src: Seq<char>, c: int)
    requires
        0 <= c,
        c + 4 <= src.len(),
        src[c] == '\'',
        src[c + 1] == '\\',
        src[c + 3] == '\'',
    ensures
        spec_char_literal(src, c) == Some((
            if src[c + 2] == 'n' {
                '\n'
            } else if src[c + 2] == 't' {
                '\t'
            } else if src[c + 2] == 'r' {
                '\r'
            } else if src[c + 2] == '0' {
                '\0'
            } else {
                src[c + 2]
            },
            4int,
        )),
{
    let rest = src.skip(c);
    assert(rest[0] == src[c] && rest[1] == src[c + 1] && rest[2] == src[c + 2] && rest[3] == src[c + 3]);
}

/// A quoted plain char literal `'x'` reads as `x` and spans three
/// characters.
pub proof fn lemma_plain_char_literal_is_its_character(src: Seq<char>, c: int)
    requires
        0 <= c,
        c + 3 <= src.len(),
        src[c] == '\'',
        src[c + 1] != '\\',
        src[c + 2] == '\'',
    ensures
        spec_char_literal(src, c) == Some((src[c + 1], 3int)),
{
    let rest = src.skip(c);
    assert(rest[0] == src[c] && rest[1] == src[c + 1] && rest[2] == src[c + 2]);
}

/// A quoted char literal at `cursor`; the decoded character and the
/// consumed length.
pub fn parse_char_literal(text: &[char], cursor: usize) -> (r: Option<(char, usize)>)
    requires
        cursor <= text@.len(),
    ensures
        match r {
            Some((v, l)) => spec_char_literal(text@, cursor as int) == Some((v, l as int)) && cursor
                + l <= text@.len(),
            None => spec_char_literal(text@, cursor as int) is None,
        },
{
    let n = text.len();
    let ghost rest = text@.skip(cursor as int);
    if n - cursor < 2 || text[cursor] != '\'' {
        return None;
    }
    assert(rest[0] == text@[cursor as int] && rest[1] == text@[cursor + 1]);
    let mut consumed: usize = 2;
    let value = if text[cursor + 1] == '\\' {
        if n - cursor < 3 {
            return None;
        }
        assert(rest[2] == text@[cursor + 2]);
        consumed = 3;
        let e = text[cursor + 2];
        if e == 'n' {
            '\n'
        } else if e == 't' {
            '\t'
        } else if e == 'r' {
            '\r'
        } else if e == '0' {
            '\0'
        } else {
            e
        }
    } else {
        text[cursor + 1]
    };
    if consumed >= n - cursor || text[cursor + consumed] != '\'' {
        return None;
    }
    assert(rest[consumed as int] == text@[cursor + consumed]);
    Some((value, consumed + 1))
}

pub open spec fn string_escape(e: char) -> char {
    if e == 'n' {
        '\n'
    } else if e == 't' {
        '\t'
    } else if e == 'r' {
        '\r'
    } else {
        e
    }
}

/// The rest of a double-quoted literal from index `i` of `rest`, the value
/// decoded so far in `acc`: the value and the index just past the quote.
pub open spec fn string_lit_from(rest: Seq<char>, i: int, acc: Seq<char>) -> Option<(Seq<char>, int)>
    decreases rest.len() - i,
{
    if i < 0 || i >= rest.len() {
        None
    } else if rest[i] == '"' {
        Some((acc, i + 1))
    } else if rest[i] == '\\' {
        if i + 1 >= rest.len() {
            None
        } else {
            string_lit_from(rest, i + 2, acc.push(string_escape(rest[i + 1])))
        }
    } else {
        string_lit_from(rest, i + 1, acc.push(rest[i]))
    }
}

/// Inside a double-quoted literal, `\n`, `\t` and `\r` decode to line
/// feed, tab and carriage return, any other escaped character to itself,
/// and decoding goes on after the two characters.
pub proof fn lemma_string_escape_names_its_character(rest: Seq<char>, i: int, acc: Seq<char>)
    requires
        0 <= i,
        i + 1 < rest.len(),
        rest[i] == '\\',
    ensures
        string_lit_from(rest, i, acc) == string_lit_from(
            rest,
            i + 2,
            acc.push(
                if rest[i + 1] == 'n' {
                    '\n'
                } else if rest[i + 1] == 't' {
                    '\t'
                } else if rest[i + 1] == 'r' {
                    '\r'
                } else {
                    rest[i + 1]
                },
            ),
        ),
{
}

/// A plain character inside a double-quoted literal decodes to itself.
pub proof fn lemma_plain_string_character_is_itself(rest: Seq<char>, i: int, acc: Seq<char>)
    requires
        0 <= i < rest.len(),
        rest[i] != '\\',
        rest[i] != '"',
    ensures
        string_lit_from(rest, i, acc) == string_lit_from(rest, i + 1, acc.push(rest[i])),
{
}

/// A double-quoted string literal (backslash escapes) at `c`: the decoded
/// text and the number of characters the literal spans.
pub open spec fn spec_string_literal(src: Seq<char>, c: int) -> Option<(Seq<char>, int)> {
    let rest = src.skip(c);
    if rest.len() == 0 || rest[0] != '"' {
        None
    } else {
        string_lit_from(rest, 1, seq![])
    }
}

pub proof fn lemma_string_lit_bound(rest: Seq<char>, i: int, acc: Seq<char>)
    ensures
        string_lit_from(rest, i, acc) matches Some((_, e)) ==> i < e <= rest.len(),
    decreases rest.len() - i,
{
    if 0 <= i < rest.len() && rest[i] != '"' {
        if rest[i] == '\\' {
            if i + 1 < rest.len() {
                lemma_string_lit_bound(rest, i + 2, acc.push(string_escape(rest[i + 1])));
            }
        } else {
            lemma_string_lit_bound(rest, i + 1, acc.push(rest[i]));
        }
    }
}

/// A double-quoted string literal at `cursor`; the decoded text and the
/// consumed length.
pub fn parse_string_literal(text: &[char], cursor: usize) -> (r: Option<(Vec<char>, usize)>)
    requires
        cursor <= text@.len(),
    ensures
        match r {
            Some((v, l)) => spec_string_literal(text@, cursor as int) == Some((v@, l as int)) && 0 < l
                && cursor + l <= text@.len(),
            None => spec_string_literal(text@, cursor as int) is None,
        },
{
    let n = text.len();
    let ghost rest = text@.skip(cursor as int);
    if cursor >= n || text[cursor] != '"' {
        return None;
    }
    assert(rest[0] == text@[cursor as int]);
    let mut value: Vec<char> = Vec::new();
    let mut i = cursor + 1;
    while i < n
        invariant
            n == text@.len(),
            cursor < i <= n,
            rest == text@.skip(cursor as int),
            spec_string_literal(text@, cursor as int) == string_lit_from(rest, i - cursor, value@),
        decreases n - i,
    {
        let c = text[i];
        assert(rest[i - cursor] == c);
        if c == '"' {
            return Some((value, i + 1 - cursor));
        } else if c == '\\' {
            if i + 1 >= n {
                return None;
            }
            let e = text[i + 1];
            assert(rest[i - cursor + 1] == e);
            value.push(
                if e == 'n' {
                    '\n'
                } else if e == 't' {
                    '\t'
                } else if e == 'r' {
                    '\r'
                } else {
                    e
                },
            );
            i += 2;
        } else {
            value.push(c);
            i += 1;
        }
    }
    None
}


/// A profile-extraction failure: the message and the offset it points at.
pub type ProfileErr = (Seq<char>, int);

pub open spec fn cm() -> ProfileView {
    spec_checkmate_scan_profile()
}

pub open spec fn word_at(src: Seq<char>, c: int) -> Seq<char> {
    src.subrange(c, c + word_len(src, c))
}

pub proof fn lemma_word_len(src: Seq<char>, c: int)
    requires
        0 <= c <= src.len(),
    ensures
        0 <= word_len(src, c) <= src.len() - c,
{
    crate::text::lemma_leading_count_bound(src.skip(c), word_pred());
}

pub proof fn lemma_char_literal_len(src: Seq<char>, c: int)
    requires
        0 <= c <= src.len(),
    ensures
        spec_char_literal(src, c) matches Some((_, l)) ==> 3 <= l && (0 <= c ==> c + l <= src.len()),
{
}

pub proof fn lemma_string_literal_len(src: Seq<char>, c: int)
    requires
        0 <= c <= src.len(),
    ensures
        spec_string_literal(src, c) matches Some((_, l)) ==> 0 < l && c + l <= src.len(),
{
    lemma_string_lit_bound(src.skip(c), 1, seq![]);
}

/// The members of a skip set from `c` (after its `[`).
pub open spec fn bracket_from(src: Seq<char>, c: int, set: CharSetView) -> Result<(CharSetView, int), ProfileErr>
    decreases if 0 <= c < src.len() {
        src.len() - c
    } else {
        0
    },
{
    if c < 0 {
        Err(("unterminated skip set: expected `]`"@, c))
    } else {
        let c2 = skip_wsc(src, c, cm());
        proof {
            lemma_skip_wsc_bounds(src, c, cm());
        }
        if c2 >= src.len() {
            Err(("unterminated skip set: expected `]`"@, c2))
        } else if src[c2] == ']' {
            Ok((set, c2 + 1))
        } else if src[c2] == '^' && set.items.len() == 0 && !set.negated {
            bracket_from(src, c2 + 1, CharSetView { negated: true, ..set })
        } else if src[c2] == ',' {
            bracket_from(src, c2 + 1, set)
        } else {
            match spec_char_literal(src, c2) {
                Some((v, l)) => {
                    proof {
                        lemma_char_literal_len(src, c2);
                    }
                    bracket_from(
                        src,
                        c2 + l,
                        CharSetView { items: set.items.push(CharItem::Char(v)), ..set },
                    )
                },
                None => Err(("expected a character literal in the skip set"@, c2)),
            }
        }
    }
}

/// The `[ … ]` character set of a `skip` declaration at `c`: quoted char
/// literals with optional commas, optionally `^`-negated.
pub open spec fn spec_bracket_set(src: Seq<char>, c: int) -> Result<(CharSetView, int), ProfileErr> {
    if 0 <= c < src.len() && src[c] == '[' {
        bracket_from(src, c + 1, CharSetView { negated: false, items: seq![] })
    } else {
        Err(("expected `[` to open a skip set"@, c))
    }
}

pub proof fn lemma_bracket_from_bounds(src: Seq<char>, c: int, set: CharSetView)
    requires
        0 <= c,
    ensures
        bracket_from(src, c, set) matches Ok((_, e)) ==> c < e <= src.len(),
        bracket_from(src, c, set) matches Err((_, e)) ==> 0 <= e <= src.len() || c > src.len(),
    decreases if 0 <= c < src.len() {
        src.len() - c
    } else {
        0
    },
{
    let c2 = skip_wsc(src, c, cm());
    lemma_skip_wsc_bounds(src, c, cm());
    if c2 < src.len() && src[c2] != ']' {
        if src[c2] == '^' && set.items.len() == 0 && !set.negated {
            lemma_bracket_from_bounds(src, c2 + 1, CharSetView { negated: true, ..set });
        } else if src[c2] == ',' {
            lemma_bracket_from_bounds(src, c2 + 1, set);
        } else {
            lemma_char_literal_len(src, c2);
            match spec_char_literal(src, c2) {
                Some((v, l)) => {
                    lemma_bracket_from_bounds(
                        src,
                        c2 + l,
                        CharSetView { items: set.items.push(CharItem::Char(v)), ..set },
                    );
                },
                None => {},
            }
        }
    }
}

fn parse_bracket_set(text: &[char], cursor: usize) -> (r: Result<(CharSet, usize), (Vec<char>, usize)>)
    requires
        cursor <= text@.len(),
    ensures
        match r {
            Ok((set, e)) => spec_bracket_set(text@, cursor as int) == Ok::<(CharSetView, int), ProfileErr>((set@, e as int)),
            Err((m, e)) => spec_bracket_set(text@, cursor as int) == Err::<(CharSetView, int), ProfileErr>((m@, e as int)),
        },
{
    let n = text.len();
    if cursor >= n || text[cursor] != '[' {
        return Err((chars_of("expected `[` to open a skip set"), cursor));
    }
    let scanner = checkmate_scan_profile();
    let mut set = CharSet::empty();
    let mut c = cursor + 1;
    assert(set@ == CharSetView { negated: false, items: seq![] });
    loop
        invariant
            n == text@.len(),
            cursor < c <= n,
            scanner@ == cm(),
            comments_advance(scanner@),
            spec_bracket_set(text@, cursor as int) == bracket_from(text@, c as int, set@),
        decreases n - c,
    {
        let c2 = skip_ws_and_comments(text, c, &scanner);
        if c2 >= n {
            return Err((chars_of("unterminated skip set: expected `]`"), c2));
        }
        let ch = text[c2];
        if ch == ']' {
            return Ok((set, c2 + 1));
        } else if ch == '^' && set.items.len() == 0 && !set.negated {
            set.negated = true;
            c = c2 + 1;
        } else if ch == ',' {
            c = c2 + 1;
        } else {
            match parse_char_literal(text, c2) {
                Some((v, l)) => {
                    proof {
                        lemma_char_literal_len(text@, c2 as int);
                    }
                    set.items.push(CharItem::Char(v));
                    c = c2 + l;
                },
                None => {
                    return Err((chars_of("expected a character literal in the skip set"), c2));
                },
            }
        }
    }
}

/// A `comment ( "opener" [ until "closer" ] )` declaration whose `(` is at `c`.
pub open spec fn spec_comment_form(src: Seq<char>, c: int) -> Result<(CommentView, int), ProfileErr> {
    if !(0 <= c < src.len() && src[c] == '(') {
        Err(("expected `(` after `comment`"@, c))
    } else {
        let c1 = skip_wsc(src, c + 1, cm());
        match spec_string_literal(src, c1) {
            None => Err(("expected a string literal for the comment opener"@, c1)),
            Some((opener, l)) => {
                let c2 = skip_wsc(src, c1 + l, cm());
                let tail: Result<(Option<Seq<char>>, int), ProfileErr> = if word_at(src, c2) == "until"@ {
                    let c3 = skip_wsc(src, c2 + word_len(src, c2), cm());
                    match spec_string_literal(src, c3) {
                        None => Err(("expected a string literal for the comment closer"@, c3)),
                        Some((closer, l2)) => Ok((Some(closer), c3 + l2)),
                    }
                } else {
                    Ok((None, c2))
                };
                match tail {
                    Err(e) => Err(e),
                    Ok((closer, c4)) => {
                        let c5 = skip_wsc(src, c4, cm());
                        if !(c5 < src.len() && src[c5] == ')') {
                            Err(("expected `)` to close the comment form"@, c5))
                        } else {
                            Ok((CommentView { opener, closer }, c5 + 1))
                        }
                    },
                }
            },
        }
    }
}

fn parse_comment_form(text: &[char], cursor: usize) -> (r: Result<(CommentForm, usize), (Vec<char>, usize)>)
    requires
        cursor <= text@.len(),
    ensures
        match r {
            Ok((f, e)) => spec_comment_form(text@, cursor as int) == Ok::<(CommentView, int), ProfileErr>((f@, e as int)) && cursor < e <= text@.len(),
            Err((m, e)) => spec_comment_form(text@, cursor as int) == Err::<(CommentView, int), ProfileErr>((m@, e as int)) && e <= text@.len(),
        },
{
    let n = text.len();
    let scanner = checkmate_scan_profile();
    if cursor >= n || text[cursor] != '(' {
        return Err((chars_of("expected `(` after `comment`"), cursor));
    }
    let c1 = skip_ws_and_comments(text, cursor + 1, &scanner);
    let (opener, l) = match parse_string_literal(text, c1) {
        Some(found) => found,
        None => {
            return Err((chars_of("expected a string literal for the comment opener"), c1));
        },
    };
    let c2 = skip_ws_and_comments(text, c1 + l, &scanner);
    let word = next_word(text, c2);
    let mut closer: Option<Vec<char>> = None;
    let mut c4 = c2;
    if word_is(&word, "until") {
        let c3 = skip_ws_and_comments(text, c2 + word.len(), &scanner);
        match parse_string_literal(text, c3) {
            Some((cl, l2)) => {
                closer = Some(cl);
                c4 = c3 + l2;
            },
            None => {
                return Err((chars_of("expected a string literal for the comment closer"), c3));
            },
        }
    }
    let c5 = skip_ws_and_comments(text, c4, &scanner);
    if c5 >= n || text[c5] != ')' {
        return Err((chars_of("expected `)` to close the comment form"), c5));
    }
    let form = CommentForm {
        opener: string_from_chars(opener.as_slice()),
        closer: match closer {
            Some(cl) => Some(string_from_chars(cl.as_slice())),
            None => None,
        },
    };
    Ok((form, c5 + 1))
}

/// The options of a string form from `c`: `multiline`, `island ( "open"
/// "close" )`, up to the closing `)`.
pub open spec fn string_form_from(src: Seq<char>, c: int, form: StringFormView) -> Result<(StringFormView, int), ProfileErr>
    decreases if 0 <= c < src.len() {
        src.len() - c
    } else {
        0
    },
{
    if c < 0 || c > src.len() {
        Err(("unexpected `"@ + "` in a string form"@, c))
    } else {
        let c2 = skip_wsc(src, c, cm());
        proof {
            lemma_skip_wsc_bounds(src, c, cm());
            lemma_word_len(src, c2);
        }
        if c2 < src.len() && src[c2] == ')' {
            Ok((form, c2 + 1))
        } else {
            let word = word_at(src, c2);
            if word == "multiline"@ {
                proof {
                    reveal_strlit("multiline");
                }
                string_form_from(src, c2 + word_len(src, c2), StringFormView { multiline: true, ..form })
            } else if word == "island"@ {
                proof {
                    reveal_strlit("island");
                }
                let c3 = skip_wsc(src, c2 + word_len(src, c2), cm());
                if !(c3 < src.len() && src[c3] == '(') {
                    Err(("expected `(` after `island`"@, c3))
                } else {
                    let c4 = skip_wsc(src, c3 + 1, cm());
                    match spec_string_literal(src, c4) {
                        None => Err(("expected a string literal for the island opener"@, c4)),
                        Some((open, l)) => {
                            let c5 = skip_wsc(src, c4 + l, cm());
                            match spec_string_literal(src, c5) {
                                None => Err(("expected a string literal for the island closer"@, c5)),
                                Some((close, l2)) => {
                                    let c6 = skip_wsc(src, c5 + l2, cm());
                                    if !(c6 < src.len() && src[c6] == ')') {
                                        Err(("expected `)` to close the island form"@, c6))
                                    } else {
                                        proof {
                                            assert(word_len(src, c2) == 6);
                                            lemma_skip_wsc_bounds(src, c2 + word_len(src, c2), cm());
                                            lemma_skip_wsc_bounds(src, c3 + 1, cm());
                                            lemma_string_literal_len(src, c4);
                                            lemma_skip_wsc_bounds(src, c4 + l, cm());
                                            lemma_string_literal_len(src, c5);
                                            lemma_skip_wsc_bounds(src, c5 + l2, cm());
                                        }
                                        string_form_from(
                                            src,
                                            c6 + 1,
                                            StringFormView { island: Some((open, close)), ..form },
                                        )
                                    }
                                },
                            }
                        },
                    }
                }
            } else {
                Err(("unexpected `"@ + word + "` in a string form"@, c2))
            }
        }
    }
}

/// A `string ( '"' [multiline] [island ( "open" "close" )] )` declaration
/// whose `(` is at `c`. The delimiter is a char literal or a one-character
/// string literal.
pub open spec fn spec_string_form(src: Seq<char>, c: int) -> Result<(StringFormView, int), ProfileErr> {
    if !(0 <= c < src.len() && src[c] == '(') {
        Err(("expected `(` after `string`"@, c))
    } else {
        let c1 = skip_wsc(src, c + 1, cm());
        let quote: Option<(char, int)> = match spec_char_literal(src, c1) {
            Some((v, l)) => Some((v, l)),
            None => match spec_string_literal(src, c1) {
                Some((v, l)) => if v.len() == 1 {
                    Some((v[0], l))
                } else {
                    None
                },
                None => None,
            },
        };
        match quote {
            None => Err(("expected a character literal for the string delimiter"@, c1)),
            Some((q, l)) => string_form_from(
                src,
                c1 + l,
                StringFormView { quote: q, multiline: false, island: None },
            ),
        }
    }
}


fn parse_string_form(text: &[char], cursor: usize) -> (r: Result<(StringForm, usize), (Vec<char>, usize)>)
    requires
        cursor <= text@.len(),
    ensures
        match r {
            Ok((f, e)) => spec_string_form(text@, cursor as int) == Ok::<(StringFormView, int), ProfileErr>((f@, e as int)) && cursor < e <= text@.len(),
            Err((m, e)) => spec_string_form(text@, cursor as int) == Err::<(StringFormView, int), ProfileErr>((m@, e as int)) && e <= text@.len(),
        },
{
    let n = text.len();
    let scanner = checkmate_scan_profile();
    if cursor >= n || text[cursor] != '(' {
        return Err((chars_of("expected `(` after `string`"), cursor));
    }
    let c1 = skip_ws_and_comments(text, cursor + 1, &scanner);
    let (quote, l) = match parse_char_literal(text, c1) {
        Some(found) => found,
        None => match parse_string_literal(text, c1) {
            Some((v, l)) => {
                if v.len() == 1 {
                    (v[0], l)
                } else {
                    return Err((chars_of("expected a character literal for the string delimiter"), c1));
                }
            },
            None => {
                return Err((chars_of("expected a character literal for the string delimiter"), c1));
            },
        },
    };
    proof {
        lemma_char_literal_len(text@, c1 as int);
        lemma_string_literal_len(text@, c1 as int);
    }
    let mut multiline = false;
    let mut island: Option<(Vec<char>, Vec<char>)> = None;
    let ghost form0 = StringFormView { quote, multiline: false, island: None };
    let mut c = c1 + l;
    loop
        invariant
            n == text@.len(),
            cursor < c <= n,
            scanner@ == cm(),
            comments_advance(scanner@),
            spec_string_form(text@, cursor as int) == string_form_from(
                text@,
                c as int,
                StringFormView {
                    quote,
                    multiline,
                    island: match island {
                        Some((o, cl)) => Some((o@, cl@)),
                        None => None,
                    },
                },
            ),
        decreases n - c,
    {
        let c2 = skip_ws_and_comments(text, c, &scanner);
        proof {
            lemma_word_len(text@, c2 as int);
        }
        if c2 < n && text[c2] == ')' {
            let form = StringForm {
                quote,
                multiline,
                island: match island {
                    Some((o, cl)) => Some((string_from_chars(o.as_slice()), string_from_chars(cl.as_slice()))),
                    None => None,
                },
            };
            return Ok((form, c2 + 1));
        }
        let word = next_word(text, c2);
        if word_is(&word, "multiline") {
            proof {
                reveal_strlit("multiline");
            }
            multiline = true;
            c = c2 + word.len();
        } else if word_is(&word, "island") {
            proof {
                reveal_strlit("island");
            }
            let c3 = skip_ws_and_comments(text, c2 + word.len(), &scanner);
            if c3 >= n || text[c3] != '(' {
                return Err((chars_of("expected `(` after `island`"), c3));
            }
            let c4 = skip_ws_and_comments(text, c3 + 1, &scanner);
            let (open, l1) = match parse_string_literal(text, c4) {
                Some(found) => found,
                None => {
                    return Err((chars_of("expected a string literal for the island opener"), c4));
                },
            };
            let c5 = skip_ws_and_comments(text, c4 + l1, &scanner);
            let (close, l2) = match parse_string_literal(text, c5) {
                Some(found) => found,
                None => {
                    return Err((chars_of("expected a string literal for the island closer"), c5));
                },
            };
            let c6 = skip_ws_and_comments(text, c5 + l2, &scanner);
            if c6 >= n || text[c6] != ')' {
                return Err((chars_of("expected `)` to close the island form"), c6));
            }
            island = Some((open, close));
            c = c6 + 1;
        } else {
            let mut m = chars_of("unexpected `");
            crate::text::push_chars(&mut m, word.as_slice());
            crate::text::push_str(&mut m, "` in a string form");
            return Err((m, c2));
        }
    }
}

/// The position just past a `( … )` run from `cur` at paren depth `depth`,
/// with strings transparent.
pub open spec fn paren_from(src: Seq<char>, cur: int, depth: int) -> int
    decreases if 0 <= cur < src.len() {
        src.len() - cur
    } else {
        0
    },
{
    if cur < 0 || cur >= src.len() {
        cur
    } else {
        match spec_string_len(src, cur, cm()) {
            Walked::Found(l) => if l > 0 {
                paren_from(src, cur + l, depth)
            } else {
                cur
            },
            _ => if src[cur] == '(' {
                paren_from(src, cur + 1, depth + 1)
            } else if src[cur] == ')' {
                if depth - 1 == 0 {
                    cur + 1
                } else {
                    paren_from(src, cur + 1, depth - 1)
                }
            } else {
                paren_from(src, cur + 1, depth)
            },
        }
    }
}

/// The position just past a rule body from `cur` at brace depth `depth`,
/// with comments and strings transparent.
pub open spec fn brace_from(src: Seq<char>, cur: int, depth: int) -> int
    decreases if 0 <= cur < src.len() {
        src.len() - cur
    } else {
        0
    },
{
    if cur < 0 || cur >= src.len() {
        cur
    } else {
        match spec_comment_len(src, cur, cm()) {
            Some(l) => if l > 0 {
                brace_from(src, cur + l, depth)
            } else {
                cur
            },
            None => match spec_string_len(src, cur, cm()) {
                Walked::Found(l) => if l > 0 {
                    brace_from(src, cur + l, depth)
                } else {
                    cur
                },
                _ => if src[cur] == '{' {
                    brace_from(src, cur + 1, depth + 1)
                } else if src[cur] == '}' {
                    if depth - 1 == 0 {
                        cur + 1
                    } else {
                        brace_from(src, cur + 1, depth - 1)
                    }
                } else {
                    brace_from(src, cur + 1, depth)
                },
            },
        }
    }
}

/// Skips a `rule name [( context … )] { body }` declaration whose keyword
/// ends at `c`, balancing parens and braces.
pub open spec fn spec_skip_rule(src: Seq<char>, c: int) -> int {
    let c2 = skip_wsc(src, c, cm());
    let c3 = c2 + word_len(src, c2);
    let c4 = skip_wsc(src, c3, cm());
    let c5 = if 0 <= c4 < src.len() && src[c4] == '(' {
        skip_wsc(src, paren_from(src, c4, 0), cm())
    } else {
        c4
    };
    brace_from(src, c5, 0)
}

/// Strings of a profile without islands always end their scan.
pub proof fn lemma_plain_strings_never_stuck(src: Seq<char>, pos: int, p: ProfileView)
    requires
        forall|i: int| 0 <= i < p.strings.len() ==> (#[trigger] p.strings[i]).island is None,
    ensures
        !(spec_string_len(src, pos, p) is Stuck),
{
    if 0 <= pos < src.len() {
        lemma_form_for_quote_bound(p.strings, src[pos]);
        match form_for_quote(p.strings, src[pos]) {
            Some(i) => {
                lemma_plain_string_from(src, pos, pos + 1, p.strings[i]);
            },
            None => {},
        }
    }
}

pub proof fn lemma_form_for_quote_bound(forms: Seq<StringFormView>, c: char)
    ensures
        form_for_quote(forms, c) matches Some(i) ==> 0 <= i < forms.len(),
    decreases forms.len(),
{
    if forms.len() > 0 && forms[0].quote != c {
        lemma_form_for_quote_bound(forms.drop_first(), c);
    }
}

pub proof fn lemma_plain_string_from(src: Seq<char>, pos: int, cursor: int, form: StringFormView)
    requires
        form.island is None,
    ensures
        !(string_from(src, pos, cursor, form) is Stuck),
    decreases if cursor < src.len() {
        src.len() - cursor
    } else {
        0
    },
{
    if 0 <= cursor < src.len() {
        let c = src[cursor];
        let cur2 = if c == '\\' {
            cursor + 2
        } else {
            cursor
        };
        lemma_plain_string_from(src, pos, cur2 + 1, form);
    }
}

/// A balance that finds its delimiter finds the closing character.
pub proof fn lemma_balance_found(src: Seq<char>, cursor: int, depth: int, open: char, close: char, p: ProfileView)
    ensures
        balance_from(src, cursor, depth, open, close, p) matches Walked::Found(q) ==> cursor <= q
            < src.len() && src[q] == close,
    decreases if 0 <= cursor < src.len() {
        src.len() - cursor
    } else {
        0
    },
{
    if 0 <= cursor < src.len() {
        match spec_comment_len(src, cursor, p) {
            Some(l) => {
                if l > 0 {
                    lemma_balance_found(src, cursor + l, depth, open, close, p);
                }
            },
            None => match spec_string_len(src, cursor, p) {
                Walked::Found(l) => {
                    if l > 0 {
                        lemma_balance_found(src, cursor + l, depth, open, close, p);
                    }
                },
                Walked::Open => {
                    lemma_balance_found(src, cursor + 1, depth + 1, open, close, p);
                    lemma_balance_found(src, cursor + 1, depth - 1, open, close, p);
                    lemma_balance_found(src, cursor + 1, depth, open, close, p);
                },
                Walked::Stuck => {},
            },
        }
    }
}

/// A string without islands that closes has a positive length and ends
/// within the text.
pub proof fn lemma_plain_string_found_positive(src: Seq<char>, pos: int, cursor: int, form: StringFormView)
    requires
        form.island is None,
        0 <= pos < src.len(),
        pos < cursor,
    ensures
        string_from(src, pos, cursor, form) matches Walked::Found(l) ==> l > 0 && pos + l <= src.len(),
    decreases if cursor < src.len() {
        src.len() - cursor
    } else {
        0
    },
{
    if 0 <= cursor < src.len() {
        let c = src[cursor];
        let cur2 = if c == '\\' {
            cursor + 2
        } else {
            cursor
        };
        lemma_plain_string_found_positive(src, pos, cur2 + 1, form);
    }
}

/// The comment openers of the Checkmate scan profile are non-empty.
pub proof fn lemma_cm_comments_advance()
    ensures
        comments_advance(cm()),
{
    reveal_strlit("//");
    reveal_strlit("/*");
    assert(cm().comments[0].opener.len() > 0);
    assert(cm().comments[1].opener.len() > 0);
}

/// Only `"` and `'` open strings of the Checkmate scan profile.
pub proof fn lemma_cm_quotes(c: char)
    requires
        c != '"' && c != '\'',
    ensures
        form_for_quote(cm().strings, c) is None,
{
    let s = cm().strings;
    assert(s.drop_first() =~= seq![plain_string_form('\'')]);
    assert(s.drop_first().drop_first() =~= Seq::<StringFormView>::empty());
    assert(form_for_quote(s.drop_first().drop_first(), c) is None);
    assert(form_for_quote(s.drop_first(), c) is None);
}

fn skip_parens(text: &[char], c4: usize, scanner: &LexProfile) -> (r: usize)
    requires
        c4 < text@.len(),
        text@.len() < usize::MAX,
        text@[c4 as int] == '(',
        scanner@ == cm(),
    ensures
        r == paren_from(text@, c4 as int, 0),
        c4 < r <= text@.len(),
{
    let n = text.len();
    let mut c = c4;
    let mut depth: usize = 0;
    proof {
        assert forall|i: int| 0 <= i < scanner@.strings.len() implies (#[trigger] scanner@.strings[i]).island is None by {}
    }
    while c < n
        invariant
            n == text@.len(),
            n < usize::MAX,
            c4 <= c <= n,
            c4 < n,
            text@[c4 as int] == '(',
            c == c4 ==> depth == 0,
            c > c4 ==> depth > 0,
            scanner@ == cm(),
            forall|i: int| 0 <= i < scanner@.strings.len() ==> (#[trigger] scanner@.strings[i]).island is None,
            depth <= c - c4,
            paren_from(text@, c4 as int, 0) == paren_from(text@, c as int, depth as int),
        decreases n - c,
    {
        proof {
            lemma_plain_strings_never_stuck(text@, c as int, scanner@);
            if c == c4 {
                lemma_cm_quotes(text@[c as int]);
            }
        }
        match string_len(text, c, scanner) {
            Some(l) => {
                c = c + l;
                continue ;
            },
            None => {},
        }
        let ch = text[c];
        if ch == '(' {
            depth += 1;
        } else if ch == ')' {
            depth -= 1;
            c += 1;
            if depth == 0 {
                return c;
            }
            continue ;
        }
        c += 1;
    }
    c
}

fn skip_braces(text: &[char], c5: usize, scanner: &LexProfile) -> (r: usize)
    requires
        c5 <= text@.len(),
        text@.len() < usize::MAX,
        scanner@ == cm(),
        comments_advance(scanner@),
    ensures
        r == brace_from(text@, c5 as int, 0),
        c5 <= r <= text@.len(),
{
    let n = text.len();
    let mut c = c5;
    let mut opens: usize = 0;
    let mut closes: usize = 0;
    proof {
        assert forall|i: int| 0 <= i < scanner@.strings.len() implies (#[trigger] scanner@.strings[i]).island is None by {}
    }
    while c < n
        invariant
            n == text@.len(),
            n < usize::MAX,
            c5 <= c <= n,
            scanner@ == cm(),
            comments_advance(scanner@),
            forall|i: int| 0 <= i < scanner@.strings.len() ==> (#[trigger] scanner@.strings[i]).island is None,
            opens + closes <= c - c5,
            brace_from(text@, c5 as int, 0) == brace_from(text@, c as int, opens - closes),
        decreases n - c,
    {
        match comment_len(text, c, scanner) {
            Some(l) => {
                proof {
                    lemma_comment_len_positive(text@, c as int, scanner@);
                }
                c = c + l;
                continue ;
            },
            None => {},
        }
        proof {
            lemma_plain_strings_never_stuck(text@, c as int, scanner@);
        }
        match string_len(text, c, scanner) {
            Some(l) => {
                c = c + l;
                continue ;
            },
            None => {},
        }
        let ch = text[c];
        if ch == '{' {
            opens += 1;
        } else if ch == '}' {
            closes += 1;
            c += 1;
            if opens == closes {
                return c;
            }
            continue ;
        }
        c += 1;
    }
    c
}

fn skip_rule_declaration(text: &[char], cursor: usize) -> (r: usize)
    requires
        cursor <= text@.len(),
        text@.len() < usize::MAX,
    ensures
        r == spec_skip_rule(text@, cursor as int),
        cursor <= r <= text@.len(),
{
    let n = text.len();
    let scanner = checkmate_scan_profile();
    let c2 = skip_ws_and_comments(text, cursor, &scanner);
    let word = next_word(text, c2);
    let c3 = c2 + word.len();
    let c4 = skip_ws_and_comments(text, c3, &scanner);
    let c5 = if c4 < n && text[c4] == '(' {
        let e = skip_parens(text, c4, &scanner);
        skip_ws_and_comments(text, e, &scanner)
    } else {
        c4
    };
    skip_braces(text, c5, &scanner)
}


/// The profile declarations (`skip`, `comment`, `string`) of a grammar body
/// from `c`, added to `prof`; `rule` declarations are skipped wholesale and
/// any other character is stepped over. Every declaration advances the scan.
pub open spec fn profile_from(src: Seq<char>, c: int, prof: ProfileView) -> Result<ProfileView, ProfileErr>
    decreases if 0 <= c < src.len() {
        src.len() - c
    } else {
        0
    },
{
    if c < 0 || c >= src.len() {
        Ok(prof)
    } else {
        let c2 = skip_wsc(src, c, cm());
        proof {
            lemma_skip_wsc_bounds(src, c, cm());
        }
        if c2 >= src.len() {
            Ok(prof)
        } else {
            let w = word_at(src, c2);
            let after = c2 + word_len(src, c2);
            let next: Result<(ProfileView, int), ProfileErr> = if w == "skip"@ {
                match spec_bracket_set(src, skip_wsc(src, after, cm())) {
                    Err(e) => Err(e),
                    Ok((set, e)) => Ok((ProfileView { skip: set, ..prof }, e)),
                }
            } else if w == "comment"@ {
                match spec_comment_form(src, skip_wsc(src, after, cm())) {
                    Err(e) => Err(e),
                    Ok((f, e)) => Ok((ProfileView { comments: prof.comments.push(f), ..prof }, e)),
                }
            } else if w == "string"@ {
                match spec_string_form(src, skip_wsc(src, after, cm())) {
                    Err(e) => Err(e),
                    Ok((f, e)) => Ok((ProfileView { strings: prof.strings.push(f), ..prof }, e)),
                }
            } else if w == "rule"@ {
                Ok((prof, spec_skip_rule(src, after)))
            } else {
                Ok((prof, c2 + 1))
            };
            match next {
                Err(e) => Err(e),
                Ok((p2, e)) => if e > c {
                    profile_from(src, e, p2)
                } else {
                    Ok(p2)
                },
            }
        }
    }
}

/// The lexical profile a grammar body declares.
pub open spec fn spec_parse_profile(src: Seq<char>) -> Result<ProfileView, ProfileErr> {
    profile_from(
        src,
        0,
        ProfileView { skip: CharSetView { negated: false, items: seq![] }, comments: seq![], strings: seq![] },
    )
}

/// `span` shifted to point `offset` characters into the region it covers
/// (clamped to its end), zero-width.
pub open spec fn offset_span(span: Span, offset: int) -> Span {
    let start = if span.start + offset <= span.end {
        span.start + offset
    } else {
        span.end as int
    };
    Span { start: start as usize, end: start as usize }
}

pub(crate) fn offset_span_exec(span: Span, offset: usize) -> (r: Span)
    requires
        span.start + offset <= usize::MAX,
    ensures
        r == offset_span(span, offset as int),
{
    let shifted = span.start + offset;
    let start = if shifted <= span.end {
        shifted
    } else {
        span.end
    };
    Span::new(start, start)
}

/// Parses the lexical profile declarations (`skip`, `comment`, `string`) of
/// a grammar body, skipping `rule` declarations wholesale. Bodies are
/// Checkmate-shaped, so `//` and `/* */` comments are transparent. `span`
/// is the body's span in the file; errors point into it.
pub fn parse_profile(body: &[char], span: Span) -> (r: Result<LexProfile, Diagnostic>)
    requires
        body@.len() < usize::MAX,
        span.start + body@.len() <= usize::MAX,
    ensures
        match spec_parse_profile(body@) {
            Ok(p) => r matches Ok(q) && q@ == p,
            Err((m, off)) => r matches Err(d) && d@ == (DiagnosticView {
                message: m,
                span: offset_span(span, off),
            }),
        },
{
    let n = body.len();
    let scanner = checkmate_scan_profile();
    let mut profile = LexProfile::empty();
    let mut c: usize = 0;
    assert(profile@ == ProfileView {
        skip: CharSetView { negated: false, items: seq![] },
        comments: seq![],
        strings: seq![],
    });
    while c < n
        invariant
            n == body@.len(),
            n < usize::MAX,
            span.start + n <= usize::MAX,
            c <= n,
            scanner@ == cm(),
            comments_advance(scanner@),
            spec_parse_profile(body@) == profile_from(body@, c as int, profile@),
        decreases n - c,
    {
        let c2 = skip_ws_and_comments(body, c, &scanner);
        if c2 >= n {
            return Ok(profile);
        }
        let word = next_word(body, c2);
        let after = c2 + word.len();
        let e: usize;
        if word_is(&word, "skip") {
            let c3 = skip_ws_and_comments(body, after, &scanner);
            match parse_bracket_set(body, c3) {
                Ok((set, e2)) => {
                    profile.skip = set;
                    proof {
                        lemma_bracket_from_bounds(body@, c3 + 1, CharSetView { negated: false, items: seq![] });
                    }
                    e = e2;
                },
                Err((m, off)) => {
                    proof {
                        lemma_bracket_from_bounds(body@, c3 + 1, CharSetView { negated: false, items: seq![] });
                    }
                    let d = Diagnostic::parse(string_from_chars(m.as_slice()), offset_span_exec(span, off));
                    return Err(d);
                },
            }
        } else if word_is(&word, "comment") {
            let c3 = skip_ws_and_comments(body, after, &scanner);
            match parse_comment_form(body, c3) {
                Ok((f, e2)) => {
                    let ghost before = profile@.comments;
                    profile.comments.push(f);
                    assert(profile@.comments =~= before.push(f@));
                    e = e2;
                },
                Err((m, off)) => {
                    let d = Diagnostic::parse(string_from_chars(m.as_slice()), offset_span_exec(span, off));
                    return Err(d);
                },
            }
        } else if word_is(&word, "string") {
            let c3 = skip_ws_and_comments(body, after, &scanner);
            match parse_string_form(body, c3) {
                Ok((f, e2)) => {
                    let ghost before = profile@.strings;
                    profile.strings.push(f);
                    assert(profile@.strings =~= before.push(f@));
                    e = e2;
                },
                Err((m, off)) => {
                    let d = Diagnostic::parse(string_from_chars(m.as_slice()), offset_span_exec(span, off));
                    return Err(d);
                },
            }
        } else if word_is(&word, "rule") {
            e = skip_rule_declaration(body, after);
            proof {
                reveal_strlit("rule");
            }
        } else {
            e = c2 + 1;
        }
        c = e;
    }
    Ok(profile)
}

} // verus!
