//! Multi-file mod support: the `mod.toml` manifest reader, the mapping of a
//! `src/` tree onto module paths, and the assembly of module sources into one
//! program text with per-module byte ranges.
//!
//! A mod is a directory with a `mod.toml` manifest and a `src/` tree of `.cm`
//! files; `src/gamemode/rules.cm` is the module `self.gamemode.rules`. The
//! manifest grammar is the TOML subset the format uses (comments, bare and
//! quoted keys, single- and double-quoted single-line strings, one
//! `[schemas]` table); anything outside it is a line-anchored issue.

use vstd::prelude::*;

use crate::order::{lemma_path_lt_order, path_less, path_lt, strings_view};
use crate::text::{
    char_is_ascii_alpha, char_is_ascii_digit, char_is_word, char_is_word_start, chars_of,
    find_char, is_ascii_alnum, is_ascii_digit, is_word_char, is_word_start, leading_count,
    lemma_find_char, lemma_find_char_is, lemma_find_char_none, lemma_leading_count_bound,
    lemma_leading_count_is, lemma_trim_start_is_skip, push_chars, push_str, skip_whitespace,
    slice_chars, starts_with, starts_with_str, string_from_chars, trim_start, ws_pred, chars_eq,
    chars_eq_str,
};

verus! {

// ---------------------------------------------------------------------------
// Issues and the manifest
// ---------------------------------------------------------------------------

/// A mod-level problem that is not anchored to a `.cm` source span: a
/// manifest defect (with its 1-based `mod.toml` line) or a structure defect
/// (missing or invalid `src/` tree, unreadable file).
#[derive(Debug, Clone)]
pub struct ModIssue {
    pub message: String,
    /// The file the issue belongs to (`mod.toml` or a mod-relative path).
    pub file: Option<String>,
    /// The 1-based line inside `file`, for issues that come from a line.
    pub line: Option<usize>,
}

/// The mathematical value of a [`ModIssue`].
pub struct IssueView {
    pub message: Seq<char>,
    pub file: Option<Seq<char>>,
    pub line: Option<usize>,
}

pub open spec fn opt_string_view(o: Option<String>) -> Option<Seq<char>> {
    match o {
        Some(s) => Some(s@),
        None => None,
    }
}

pub open spec fn opt_chars_view(o: Option<Vec<char>>) -> Option<Seq<char>> {
    match o {
        Some(s) => Some(s@),
        None => None,
    }
}

impl View for ModIssue {
    type V = IssueView;

    open spec fn view(&self) -> IssueView {
        IssueView { message: self.message@, file: opt_string_view(self.file), line: self.line }
    }
}

pub open spec fn issues_view(v: Seq<ModIssue>) -> Seq<IssueView> {
    v.map_values(|i: ModIssue| i@)
}

/// An issue anchored at a line of `mod.toml`.
pub open spec fn manifest_issue(message: Seq<char>, line: usize) -> IssueView {
    IssueView { message, file: Some("mod.toml"@), line: Some(line) }
}

/// An issue about the mod's structure, with no file or line.
pub open spec fn structure_issue(message: Seq<char>) -> IssueView {
    IssueView { message, file: None, line: None }
}

/// An issue about one file of the mod, with no line.
pub open spec fn file_issue(message: Seq<char>, file: Seq<char>) -> IssueView {
    IssueView { message, file: Some(file), line: None }
}

impl ModIssue {
    fn manifest(message: String, line: usize) -> (r: Self)
        ensures
            r@ == manifest_issue(message@, line),
    {
        ModIssue { message, file: Some(String::from_str("mod.toml")), line: Some(line) }
    }

    fn structure(message: String) -> (r: Self)
        ensures
            r@ == structure_issue(message@),
    {
        ModIssue { message, file: None, line: None }
    }

    fn at_file(message: String, file: String) -> (r: Self)
        ensures
            r@ == file_issue(message@, file@),
    {
        ModIssue { message, file: Some(file), line: None }
    }
}

/// The parsed `mod.toml`. Schema entries keep declaration order.
#[derive(Debug, Clone)]
pub struct ModManifest {
    pub name: String,
    pub version: String,
    pub checkmate_version: String,
    pub schemas: Vec<(String, String)>,
}

/// The mathematical value of a [`ModManifest`].
pub struct ManifestView {
    pub name: Seq<char>,
    pub version: Seq<char>,
    pub checkmate_version: Seq<char>,
    pub schemas: Seq<(Seq<char>, Seq<char>)>,
}

impl View for ModManifest {
    type V = ManifestView;

    open spec fn view(&self) -> ManifestView {
        ManifestView {
            name: self.name@,
            version: self.version@,
            checkmate_version: self.checkmate_version@,
            schemas: self.schemas@.map_values(|p: (String, String)| (p.0@, p.1@)),
        }
    }
}

// ---------------------------------------------------------------------------
// Identifiers and versions
// ---------------------------------------------------------------------------

/// A Checkmate identifier segment: `[A-Za-z_][A-Za-z0-9_]*`.
pub open spec fn spec_is_identifier(s: Seq<char>) -> bool {
    s.len() > 0 && is_word_start(s[0]) && forall|i: int| 1 <= i < s.len() ==> is_word_char(#[trigger] s[i])
}

/// `s` is `X.Y.Z` with non-empty, all-digit components, the dots at `i` and `j`.
pub open spec fn version_dots(s: Seq<char>, i: int, j: int) -> bool {
    &&& 0 < i
    &&& i + 1 < j
    &&& j + 1 < s.len()
    &&& s[i] == '.'
    &&& s[j] == '.'
    &&& forall|k: int| 0 <= k < s.len() && k != i && k != j ==> is_ascii_digit(#[trigger] s[k])
}

/// The version shape every manifest version field uses: `X.Y.Z`, each
/// component a non-empty run of ASCII digits.
pub open spec fn spec_is_mod_version(s: Seq<char>) -> bool {
    exists|i: int, j: int| version_dots(s, i, j)
}

fn chars_is_identifier(s: &[char]) -> (b: bool)
    ensures
        b == spec_is_identifier(s@),
{
    if s.len() == 0 || !char_is_word_start(s[0]) {
        return false;
    }
    let mut i: usize = 1;
    while i < s.len()
        invariant
            1 <= i <= s@.len(),
            forall|k: int| 1 <= k < i ==> is_word_char(#[trigger] s@[k]),
        decreases s.len() - i,
    {
        if !char_is_word(s[i]) {
            return false;
        }
        i += 1;
    }
    true
}

/// True when `name` is a legal Checkmate identifier segment
/// (`[A-Za-z_][A-Za-z0-9_]*`), the shape a module path segment must have to
/// be spellable in an import.
pub fn is_identifier(name: &str) -> (b: bool)
    ensures
        b == spec_is_identifier(name@),
{
    let chars = chars_of(name);
    chars_is_identifier(chars.as_slice())
}

fn is_mod_version(s: &[char]) -> (b: bool)
    ensures
        b == spec_is_mod_version(s@),
{
    let n = s.len();
    let mut dots: usize = 0;
    let mut first: usize = 0;
    let mut second: usize = 0;
    let mut digits_only = true;
    let mut k: usize = 0;
    while k < n
        invariant
            n == s@.len(),
            k <= n,
            dots <= k,
            dots >= 1 ==> first < k && s@[first as int] == '.',
            dots >= 1 ==> forall|m: int| 0 <= m < first ==> #[trigger] s@[m] != '.',
            dots == 0 ==> forall|m: int| 0 <= m < k ==> #[trigger] s@[m] != '.',
            dots >= 2 ==> first < second < k && s@[second as int] == '.',
            dots >= 2 ==> forall|m: int| first < m < second ==> #[trigger] s@[m] != '.',
            dots == 1 ==> forall|m: int| first < m < k ==> #[trigger] s@[m] != '.',
            dots == 2 ==> forall|m: int| second < m < k ==> #[trigger] s@[m] != '.',
            dots >= 3 ==> exists|m: int| second < m < k && #[trigger] s@[m] == '.',
            digits_only <==> forall|m: int|
                0 <= m < k ==> (#[trigger] s@[m] == '.' || is_ascii_digit(s@[m])),
        decreases n - k,
    {
        let c = s[k];
        if c == '.' {
            if dots == 0 {
                first = k;
            } else if dots == 1 {
                second = k;
            }
            proof {
                if dots >= 2 {
                    assert(s@[k as int] == '.');
                }
            }
            dots += 1;
        } else if !char_is_ascii_digit(c) {
            digits_only = false;
        }
        k += 1;
    }
    let ok = digits_only && dots == 2 && 0 < first && first + 1 < second && second + 1 < n;
    proof {
        if ok {
            assert(version_dots(s@, first as int, second as int)) by {
                assert forall|m: int| 0 <= m < s@.len() && m != first && m != second implies is_ascii_digit(
                    #[trigger] s@[m],
                ) by {
                    assert(s@[m] == '.' || is_ascii_digit(s@[m]));
                }
            }
        } else {
            assert forall|i: int, j: int| !version_dots(s@, i, j) by {
                if version_dots(s@, i, j) {
                    assert(s@[i] == '.' && s@[j] == '.');
                    if !digits_only {
                        let m = choose|m: int| 0 <= m < n && !(#[trigger] s@[m] == '.' || is_ascii_digit(s@[m]));
                        assert(m == i || m == j);
                    }
                    assert(dots >= 1);
                    if first != i {
                        assert(first == j || is_ascii_digit(s@[first as int]));
                        if first == j {
                            assert(s@[i] != '.');
                        }
                    }
                    assert(first == i);
                    assert(dots >= 2);
                    if second != j {
                        assert(second == i || is_ascii_digit(s@[second as int]));
                    }
                    assert(second == j);
                    if dots >= 3 {
                        let m = choose|m: int| second < m < n && #[trigger] s@[m] == '.';
                        assert(m != i && m != j);
                        assert(is_ascii_digit(s@[m]));
                    }
                    assert(dots == 2);
                }
            }
        }
    }
    ok
}

// ---------------------------------------------------------------------------
// Manifest scanning primitives
// ---------------------------------------------------------------------------

/// A bare manifest key character: `[A-Za-z0-9_-]`.
pub open spec fn is_bare_key_char(c: char) -> bool {
    is_ascii_alnum(c) || c == '_' || c == '-'
}

pub open spec fn bare_key_pred() -> spec_fn(char) -> bool {
    |c: char| is_bare_key_char(c)
}

/// The rest of a double-quoted basic string from index `i` of `u`, with the
/// value decoded so far in `acc`: the decoded value and the index just past
/// the closing quote. Escapes `\n \t \r \" \\` only; a line break or any
/// other escape rejects the string.
pub open spec fn basic_string_from(u: Seq<char>, i: int, acc: Seq<char>) -> Option<(Seq<char>, int)>
    decreases u.len() - i,
{
    if i < 0 || i >= u.len() {
        None
    } else if u[i] == '"' {
        Some((acc, i + 1))
    } else if u[i] == '\\' {
        if i + 1 >= u.len() {
            None
        } else {
            let e = u[i + 1];
            if e == 'n' {
                basic_string_from(u, i + 2, acc.push('\n'))
            } else if e == 't' {
                basic_string_from(u, i + 2, acc.push('\t'))
            } else if e == 'r' {
                basic_string_from(u, i + 2, acc.push('\r'))
            } else if e == '"' {
                basic_string_from(u, i + 2, acc.push('"'))
            } else if e == '\\' {
                basic_string_from(u, i + 2, acc.push('\\'))
            } else {
                None
            }
        }
    } else if u[i] == '\n' {
        None
    } else {
        basic_string_from(u, i + 1, acc.push(u[i]))
    }
}

/// In a manifest basic string, `\n`, `\t`, `\r`, `\"` and `\\` decode to
/// line feed, tab, carriage return, quote and backslash; any other escape
/// rejects the string.
pub proof fn lemma_basic_string_escapes_decode(u: Seq<char>, i: int, acc: Seq<char>)
    requires
        0 <= i,
        i + 1 < u.len(),
        u[i] == '\\',
    ensures
        u[i + 1] == 'n' ==> basic_string_from(u, i, acc) == basic_string_from(u, i + 2, acc.push('\n')),
        u[i + 1] == 't' ==> basic_string_from(u, i, acc) == basic_string_from(u, i + 2, acc.push('\t')),
        u[i + 1] == 'r' ==> basic_string_from(u, i, acc) == basic_string_from(u, i + 2, acc.push('\r')),
        u[i + 1] == '"' ==> basic_string_from(u, i, acc) == basic_string_from(u, i + 2, acc.push('"')),
        u[i + 1] == '\\' ==> basic_string_from(u, i, acc) == basic_string_from(u, i + 2, acc.push('\\')),
        !(u[i + 1] == 'n' || u[i + 1] == 't' || u[i + 1] == 'r' || u[i + 1] == '"' || u[i + 1] == '\\')
            ==> basic_string_from(u, i, acc) is None,
{
}

/// A basic string whose opening quote is `u[0]`: its decoded value and the
/// number of characters it spans, both quotes included.
pub open spec fn spec_scan_basic_string(u: Seq<char>) -> Option<(Seq<char>, int)> {
    if u.len() == 0 {
        None
    } else {
        basic_string_from(u, 1, seq![])
    }
}

/// A single-quoted literal string whose opening quote is `u[0]`: verbatim
/// content up to the next `'`, which must not span a line break.
pub open spec fn spec_scan_literal_string(u: Seq<char>) -> Option<(Seq<char>, int)> {
    if u.len() == 0 {
        None
    } else {
        match find_char(u.skip(1), '\'') {
            None => None,
            Some(e) => if find_char(u.skip(1).take(e), '\n') is Some {
                None
            } else {
                Some((u.skip(1).take(e), e + 2))
            },
        }
    }
}

/// A manifest key at the start of `u`: a bare `[A-Za-z0-9_-]+` run or a
/// quoted string; the key and the number of characters it spans.
pub open spec fn spec_scan_key(u: Seq<char>) -> Option<(Seq<char>, int)> {
    if u.len() == 0 {
        None
    } else if u[0] == '"' {
        spec_scan_basic_string(u)
    } else if u[0] == '\'' {
        spec_scan_literal_string(u)
    } else if is_bare_key_char(u[0]) {
        let n = leading_count(u, bare_key_pred()) as int;
        Some((u.take(n), n))
    } else {
        None
    }
}

/// The text after a value holds only whitespace and at most a comment.
pub open spec fn spec_rest_is_comment(r: Seq<char>) -> bool {
    trim_start(r).len() == 0 || trim_start(r)[0] == '#'
}

/// A manifest value: a single-line basic or literal string; the multiline
/// forms are outside the subset.
pub open spec fn spec_scan_string_value(u: Seq<char>) -> Option<(Seq<char>, int)> {
    if starts_with(u, "\"\"\""@) || starts_with(u, "'''"@) {
        None
    } else if u.len() > 0 && u[0] == '"' {
        spec_scan_basic_string(u)
    } else if u.len() > 0 && u[0] == '\'' {
        spec_scan_literal_string(u)
    } else {
        None
    }
}

/// A table header after its `[`: the name, then `]` after optional
/// whitespace; the name and the number of characters up to and including `]`.
pub open spec fn spec_scan_table_header(rest: Seq<char>) -> Option<(Seq<char>, int)> {
    match spec_scan_key(rest) {
        None => None,
        Some((name, consumed)) => {
            let after = trim_start(rest.skip(consumed));
            if name.len() == 0 || !(after.len() > 0 && after[0] == ']') {
                None
            } else {
                Some((name, rest.len() - after.len() + 1))
            }
        },
    }
}

proof fn lemma_basic_string_bounds(u: Seq<char>, i: int, acc: Seq<char>)
    ensures
        basic_string_from(u, i, acc) matches Some((_, e)) ==> i < e <= u.len(),
    decreases u.len() - i,
{
    if i < 0 || i >= u.len() {
    } else if u[i] == '"' {
    } else if u[i] == '\\' {
        if i + 1 < u.len() {
            lemma_basic_string_bounds(u, i + 2, acc.push('\n'));
            lemma_basic_string_bounds(u, i + 2, acc.push('\t'));
            lemma_basic_string_bounds(u, i + 2, acc.push('\r'));
            lemma_basic_string_bounds(u, i + 2, acc.push('"'));
            lemma_basic_string_bounds(u, i + 2, acc.push('\\'));
        }
    } else if u[i] != '\n' {
        lemma_basic_string_bounds(u, i + 1, acc.push(u[i]));
    }
}

/// Scans a basic string whose opening quote is `t[from]`.
fn scan_basic_string(t: &[char], from: usize) -> (r: Option<(Vec<char>, usize)>)
    requires
        from < t@.len(),
    ensures
        match r {
            Some((v, n)) => spec_scan_basic_string(t@.skip(from as int)) == Some((v@, n as int)),
            None => spec_scan_basic_string(t@.skip(from as int)) is None,
        },
{
    let ghost u = t@.skip(from as int);
    let mut value: Vec<char> = Vec::new();
    let n = t.len();
    let mut i: usize = from + 1;
    while i < n
        invariant
            n == t@.len(),
            from < i <= n,
            u == t@.skip(from as int),
            spec_scan_basic_string(u) == basic_string_from(u, i - from, value@),
        decreases n - i,
    {
        let c = t[i];
        assert(u[i - from] == c);
        if c == '"' {
            return Some((value, i - from + 1));
        } else if c == '\\' {
            if i + 1 >= n {
                return None;
            }
            let e = t[i + 1];
            assert(u[i - from + 1] == e);
            if e == 'n' {
                value.push('\n');
            } else if e == 't' {
                value.push('\t');
            } else if e == 'r' {
                value.push('\r');
            } else if e == '"' {
                value.push('"');
            } else if e == '\\' {
                value.push('\\');
            } else {
                return None;
            }
            i += 2;
        } else if c == '\n' {
            return None;
        } else {
            value.push(c);
            i += 1;
        }
    }
    None
}

/// Scans a literal string whose opening quote is `t[from]`.
fn scan_literal_string(t: &[char], from: usize) -> (r: Option<(Vec<char>, usize)>)
    requires
        from < t@.len(),
    ensures
        match r {
            Some((v, n)) => spec_scan_literal_string(t@.skip(from as int)) == Some((v@, n as int)),
            None => spec_scan_literal_string(t@.skip(from as int)) is None,
        },
{
    let ghost u = t@.skip(from as int);
    let n = t.len();
    let ghost rest = u.skip(1);
    let mut i: usize = from + 1;
    let mut saw_newline = false;
    while i < n && t[i] != '\''
        invariant
            n == t@.len(),
            from < i <= n,
            u == t@.skip(from as int),
            rest == u.skip(1),
            forall|k: int| 0 <= k < i - from - 1 ==> #[trigger] rest[k] != '\'',
            saw_newline <==> exists|k: int| 0 <= k < i - from - 1 && #[trigger] rest[k] == '\n',
        decreases n - i,
    {
        assert(rest[i - from - 1] == t@[i as int]);
        if t[i] == '\n' {
            saw_newline = true;
        }
        i += 1;
    }
    proof {
        lemma_find_char(rest, '\'');
    }
    if i >= n {
        proof {
            lemma_find_char_none(rest, '\'');
        }
        return None;
    }
    let e = i - from - 1;
    proof {
        assert(rest[e as int] == t@[i as int]);
        lemma_find_char_is(rest, '\'', e as int);
        let body = rest.take(e as int);
        lemma_find_char(body, '\n');
        if saw_newline {
            let k = choose|k: int| 0 <= k < e && #[trigger] rest[k] == '\n';
            assert(body[k] == '\n');
        } else {
            assert forall|k: int| 0 <= k < body.len() implies #[trigger] body[k] != '\n' by {
                assert(body[k] == rest[k]);
            }
            lemma_find_char_none(body, '\n');
        }
    }
    if saw_newline {
        return None;
    }
    let v = slice_chars(t, from + 1, i);
    assert(v@ =~= rest.take(e as int));
    Some((v, e + 2))
}

/// Scans a manifest key starting at `t[from]`.
fn scan_key(t: &[char], from: usize) -> (r: Option<(Vec<char>, usize)>)
    requires
        from <= t@.len(),
    ensures
        match r {
            Some((v, n)) => spec_scan_key(t@.skip(from as int)) == Some((v@, n as int)),
            None => spec_scan_key(t@.skip(from as int)) is None,
        },
{
    let ghost u = t@.skip(from as int);
    if from >= t.len() {
        return None;
    }
    assert(u[0] == t@[from as int]);
    let first = t[from];
    if first == '"' {
        return scan_basic_string(t, from);
    }
    if first == '\'' {
        return scan_literal_string(t, from);
    }
    if !(char_is_ascii_alpha(first) || char_is_ascii_digit(first) || first == '_' || first == '-') {
        return None;
    }
    let mut end = from;
    while end < t.len() && (char_is_ascii_alpha(t[end]) || char_is_ascii_digit(t[end]) || t[end]
        == '_' || t[end] == '-')
        invariant
            from <= end <= t@.len(),
            u == t@.skip(from as int),
            forall|k: int| 0 <= k < end - from ==> bare_key_pred()(#[trigger] u[k]),
        decreases t.len() - end,
    {
        assert(u[end - from] == t@[end as int]);
        end += 1;
    }
    proof {
        if end < t@.len() {
            assert(u[end - from] == t@[end as int]);
        }
        lemma_leading_count_is(u, bare_key_pred(), end - from);
    }
    let v = slice_chars(t, from, end);
    assert(v@ =~= u.take(end - from));
    Some((v, end - from))
}

/// True when `t[from..]` holds only whitespace and at most one comment.
fn rest_after_value_is_comment(t: &[char], from: usize) -> (b: bool)
    requires
        from <= t@.len(),
    ensures
        b == spec_rest_is_comment(t@.skip(from as int)),
{
    let i = skip_whitespace(t, from);
    proof {
        if i < t@.len() {
            assert(t@.skip(i as int)[0] == t@[i as int]);
        }
    }
    i >= t.len() || t[i] == '#'
}

/// Scans a manifest value starting at `t[from]`.
fn scan_string_value(t: &[char], from: usize) -> (r: Option<(Vec<char>, usize)>)
    requires
        from <= t@.len(),
    ensures
        match r {
            Some((v, n)) => spec_scan_string_value(t@.skip(from as int)) == Some((v@, n as int)),
            None => spec_scan_string_value(t@.skip(from as int)) is None,
        },
{
    if starts_with_str(t, from, "\"\"\"") || starts_with_str(t, from, "'''") {
        return None;
    }
    if from < t.len() && t[from] == '"' {
        return scan_basic_string(t, from);
    }
    if from < t.len() && t[from] == '\'' {
        return scan_literal_string(t, from);
    }
    None
}

/// Scans a table header starting at `t[from]`, just after its `[`.
fn scan_table_header(t: &[char], from: usize) -> (r: Option<(Vec<char>, usize)>)
    requires
        from <= t@.len(),
    ensures
        match r {
            Some((v, n)) => spec_scan_table_header(t@.skip(from as int)) == Some((v@, n as int)),
            None => spec_scan_table_header(t@.skip(from as int)) is None,
        },
{
    let ghost rest = t@.skip(from as int);
    let (name, consumed) = match scan_key(t, from) {
        Some(found) => found,
        None => {
            return None;
        },
    };
    proof {
        lemma_scan_key_bounds(rest);
    }
    if name.len() == 0 {
        return None;
    }
    let n = t.len();
    assert(from + consumed <= n);
    let after = skip_whitespace(t, from + consumed);
    proof {
        assert(rest.skip(consumed as int) =~= t@.skip(from + consumed));
        if after < t@.len() {
            assert(t@.skip(after as int)[0] == t@[after as int]);
        }
    }
    if after >= t.len() || t[after] != ']' {
        return None;
    }
    Some((name, after - from + 1))
}

proof fn lemma_scan_key_bounds(u: Seq<char>)
    ensures
        spec_scan_key(u) matches Some((_, n)) ==> 0 <= n <= u.len(),
        spec_scan_string_value(u) matches Some((_, n)) ==> 0 <= n <= u.len(),
{
    if u.len() > 0 {
        lemma_basic_string_bounds(u, 1, seq![]);
        lemma_find_char(u.skip(1), '\'');
        lemma_leading_count_bound(u, bare_key_pred());
    }
}


// ---------------------------------------------------------------------------
// Lines
// ---------------------------------------------------------------------------

/// `l` without one trailing carriage return.
pub open spec fn strip_cr(l: Seq<char>) -> Seq<char> {
    if l.len() > 0 && l.last() == '\r' {
        l.drop_last()
    } else {
        l
    }
}

/// The lines of `s` as `str::lines` yields them: split at `\n`, a `\r`
/// right before the `\n` removed, no empty line after a final terminator.
pub open spec fn split_lines(s: Seq<char>) -> Seq<Seq<char>>
    decreases s.len(),
{
    if s.len() == 0 {
        seq![]
    } else {
        match find_char(s, '\n') {
            None => seq![s],
            Some(i) => if 0 <= i < s.len() {
                seq![strip_cr(s.take(i))] + split_lines(s.skip(i + 1))
            } else {
                seq![]
            },
        }
    }
}

fn lines_of(s: &[char]) -> (lines: Vec<Vec<char>>)
    ensures
        lines@.map_values(|l: Vec<char>| l@) == split_lines(s@),
{
    let mut lines: Vec<Vec<char>> = Vec::new();
    let mut start: usize = 0;
    let mut i: usize = 0;
    let n = s.len();
    assert(s@.skip(0) =~= s@);
    assert(lines@.map_values(|l: Vec<char>| l@) + split_lines(s@.skip(0)) =~= split_lines(s@));
    while i < n
        invariant
            n == s@.len(),
            start <= i <= n,
            forall|k: int| start <= k < i ==> #[trigger] s@[k] != '\n',
            lines@.map_values(|l: Vec<char>| l@) + split_lines(s@.skip(start as int)) == split_lines(
                s@,
            ),
        decreases n - i,
    {
        if s[i] == '\n' {
            let ghost u = s@.skip(start as int);
            proof {
                assert forall|k: int| 0 <= k < i - start implies #[trigger] u[k] != '\n' by {
                    assert(u[k] == s@[start + k]);
                }
                lemma_find_char_is(u, '\n', i - start);
                assert(u.skip(i - start + 1) =~= s@.skip(i + 1));
                assert(u.take(i - start) =~= s@.subrange(start as int, i as int));
            }
            let mut line = slice_chars(s, start, i);
            if line.len() > 0 && line[line.len() - 1] == '\r' {
                line.pop();
            }
            assert(line@ == strip_cr(s@.subrange(start as int, i as int)));
            let ghost before = lines@.map_values(|l: Vec<char>| l@);
            lines.push(line);
            assert(lines@.map_values(|l: Vec<char>| l@) =~= before.push(line@));
            start = i + 1;
            proof {
                assert(before + split_lines(u) =~= before.push(line@) + split_lines(
                    s@.skip(start as int),
                ));
            }
        }
        i += 1;
    }
    if start < n {
        let ghost u = s@.skip(start as int);
        proof {
            assert forall|k: int| 0 <= k < u.len() implies #[trigger] u[k] != '\n' by {
                assert(u[k] == s@[start + k]);
            }
            lemma_find_char_none(u, '\n');
        }
        let line = slice_chars(s, start, n);
        assert(line@ =~= u);
        let ghost before = lines@.map_values(|l: Vec<char>| l@);
        lines.push(line);
        assert(lines@.map_values(|l: Vec<char>| l@) =~= before + split_lines(u));
    } else {
        assert(lines@.map_values(|l: Vec<char>| l@) =~= lines@.map_values(|l: Vec<char>| l@)
            + split_lines(s@.skip(start as int)));
    }
    lines
}

// ---------------------------------------------------------------------------
// Manifest semantics
// ---------------------------------------------------------------------------

/// The reader's state between lines of `mod.toml`.
pub struct ManifestState {
    pub issues: Seq<IssueView>,
    pub name: Option<Seq<char>>,
    pub version: Option<Seq<char>>,
    pub checkmate_version: Option<Seq<char>>,
    pub schemas: Seq<(Seq<char>, Seq<char>)>,
    /// The current table: `None` at the top level.
    pub section: Option<Seq<char>>,
    pub seen_sections: Seq<Seq<char>>,
    /// (table, key) pairs seen so far.
    pub seen_keys: Seq<(Option<Seq<char>>, Seq<char>)>,
}

pub open spec fn initial_manifest_state() -> ManifestState {
    ManifestState {
        issues: seq![],
        name: None,
        version: None,
        checkmate_version: None,
        schemas: seq![],
        section: None,
        seen_sections: seq![],
        seen_keys: seq![],
    }
}

pub open spec fn with_issue(st: ManifestState, message: Seq<char>, line: usize) -> ManifestState {
    ManifestState { issues: st.issues.push(manifest_issue(message, line)), ..st }
}

pub open spec fn version_message(field: Seq<char>, value: Seq<char>) -> Seq<char> {
    "`"@ + field + "` must be a version like `1.0.0`, but is `"@ + value + "`"@
}

pub open spec fn check_version(
    st: ManifestState,
    field: Seq<char>,
    value: Seq<char>,
    line: usize,
) -> ManifestState {
    if spec_is_mod_version(value) {
        st
    } else {
        with_issue(st, version_message(field, value), line)
    }
}

pub open spec fn unknown_field_message(key: Seq<char>) -> Seq<char> {
    "unknown field `"@ + key
        + "`; expected one of `name`, `version`, `checkmate_version` (schema versions live under `[schemas]`)"@
}

pub open spec fn where_text(section: Option<Seq<char>>) -> Seq<char> {
    match section {
        Some(t) => "`["@ + t + "]`"@,
        None => "the manifest"@,
    }
}

/// A `[table]` header line, `rest` being the text after its `[`.
pub open spec fn header_step(st: ManifestState, rest: Seq<char>, line: usize) -> ManifestState {
    match spec_scan_table_header(rest) {
        None => with_issue(st, "expected a table name followed by `]`"@, line),
        Some((header, consumed)) => if !spec_rest_is_comment(rest.skip(consumed)) {
            with_issue(st, "unexpected text after the table header"@, line)
        } else if st.seen_sections.contains(header) {
            with_issue(st, "duplicate table `["@ + header + "]`"@, line)
        } else if header != "schemas"@ {
            with_issue(st, "unknown table `["@ + header + "]`; expected `[schemas]`"@, line)
        } else {
            ManifestState {
                seen_sections: st.seen_sections.push(header),
                section: Some(header),
                ..st
            }
        },
    }
}

/// Records an accepted `key = value` pair in the current table.
pub open spec fn assign_step(
    st: ManifestState,
    key: Seq<char>,
    value: Seq<char>,
    line: usize,
) -> ManifestState {
    match st.section {
        None => if key == "name"@ {
            let s2 = if value.len() == 0 {
                with_issue(st, "`name` must not be empty"@, line)
            } else {
                st
            };
            ManifestState { name: Some(value), ..s2 }
        } else if key == "version"@ {
            ManifestState { version: Some(value), ..check_version(st, "version"@, value, line) }
        } else if key == "checkmate_version"@ {
            ManifestState {
                checkmate_version: Some(value),
                ..check_version(st, "checkmate_version"@, value, line)
            }
        } else {
            with_issue(st, unknown_field_message(key), line)
        },
        Some(t) => if t == "schemas"@ {
            let s2 = if !spec_is_identifier(key) {
                with_issue(st, "schema namespace `"@ + key + "` is not a valid identifier"@, line)
            } else {
                st
            };
            let s3 = check_version(s2, "schemas."@ + key, value, line);
            ManifestState { schemas: s3.schemas.push((key, value)), ..s3 }
        } else {
            st
        },
    }
}

/// A `key = value` line (already trimmed at the start).
pub open spec fn entry_step(st: ManifestState, line: Seq<char>, line_no: usize) -> ManifestState {
    match spec_scan_key(line) {
        None => with_issue(st, "expected a key"@, line_no),
        Some((key, after_key)) => {
            let rest = trim_start(line.skip(after_key));
            if !(rest.len() > 0 && rest[0] == '=') {
                with_issue(st, "expected `=` after key `"@ + key + "`"@, line_no)
            } else {
                let value_text = trim_start(rest.skip(1));
                match spec_scan_string_value(value_text) {
                    None => with_issue(
                        st,
                        "key `"@ + key + "` needs a string value in double or single quotes"@,
                        line_no,
                    ),
                    Some((value, consumed)) => if !spec_rest_is_comment(value_text.skip(consumed)) {
                        with_issue(st, "unexpected text after the value"@, line_no)
                    } else if st.seen_keys.contains((st.section, key)) {
                        with_issue(
                            st,
                            "duplicate key `"@ + key + "` in "@ + where_text(st.section),
                            line_no,
                        )
                    } else {
                        assign_step(
                            ManifestState { seen_keys: st.seen_keys.push((st.section, key)), ..st },
                            key,
                            value,
                            line_no,
                        )
                    },
                }
            }
        },
    }
}

/// One line of `mod.toml`: blank lines and comments change nothing, a line
/// starting with `[` is a table header, any other line is a `key = value`.
pub open spec fn manifest_step(st: ManifestState, raw: Seq<char>, line_no: usize) -> ManifestState {
    let line = trim_start(raw);
    if line.len() == 0 || line[0] == '#' {
        st
    } else if line[0] == '[' {
        header_step(st, line.skip(1), line_no)
    } else {
        entry_step(st, line, line_no)
    }
}

/// The state after the first `n` lines.
pub open spec fn manifest_fold(lines: Seq<Seq<char>>, n: nat) -> ManifestState
    decreases n,
{
    if n == 0 || n > lines.len() {
        initial_manifest_state()
    } else {
        manifest_step(manifest_fold(lines, (n - 1) as nat), lines[n - 1], n as usize)
    }
}

/// The issues of a finished read: the line issues, then one per missing
/// identity field.
pub open spec fn final_issues(st: ManifestState) -> Seq<IssueView> {
    st.issues + (if st.name is None {
        seq![structure_issue("manifest is missing the `name` field"@)]
    } else {
        seq![]
    }) + (if st.version is None {
        seq![structure_issue("manifest is missing the `version` field"@)]
    } else {
        seq![]
    }) + (if st.checkmate_version is None {
        seq![structure_issue("manifest is missing the `checkmate_version` field"@)]
    } else {
        seq![]
    })
}

pub open spec fn or_empty(o: Option<Seq<char>>) -> Seq<char> {
    match o {
        Some(s) => s,
        None => seq![],
    }
}

/// Every issue is reported against `mod.toml` at a line from 1 to `n`.
pub open spec fn line_anchored(issues: Seq<IssueView>, n: int) -> bool {
    forall|i: int|
        0 <= i < issues.len() ==> (#[trigger] issues[i]).file == Some("mod.toml"@) && (
        issues[i].line matches Some(l) && 1 <= l <= n)
}

proof fn lemma_with_issue_anchored(st: ManifestState, message: Seq<char>, line: usize, n: int)
    requires
        line_anchored(st.issues, n),
        1 <= line <= n,
    ensures
        line_anchored(with_issue(st, message, line).issues, n),
{
    let issues = with_issue(st, message, line).issues;
    assert forall|i: int| 0 <= i < issues.len() implies (#[trigger] issues[i]).file == Some(
        "mod.toml"@,
    ) && (issues[i].line matches Some(l) && 1 <= l <= n) by {
        if i < st.issues.len() {
            assert(issues[i] == st.issues[i]);
        }
    }
}

proof fn lemma_check_version_anchored(st: ManifestState, field: Seq<char>, value: Seq<char>, line: usize, n: int)
    requires
        line_anchored(st.issues, n),
        1 <= line <= n,
    ensures
        line_anchored(check_version(st, field, value, line).issues, n),
{
    if !spec_is_mod_version(value) {
        lemma_with_issue_anchored(st, version_message(field, value), line, n);
    }
}

proof fn lemma_manifest_step_anchored(st: ManifestState, raw: Seq<char>, line_no: usize)
    requires
        line_anchored(st.issues, line_no as int),
        1 <= line_no,
    ensures
        line_anchored(manifest_step(st, raw, line_no).issues, line_no as int),
{
    let n = line_no as int;
    let line = trim_start(raw);
    if line.len() == 0 || line[0] == '#' {
    } else if line[0] == '[' {
        let rest = line.skip(1);
        match spec_scan_table_header(rest) {
            None => lemma_with_issue_anchored(st, "expected a table name followed by `]`"@, line_no, n),
            Some((header, consumed)) => {
                if !spec_rest_is_comment(rest.skip(consumed)) {
                    lemma_with_issue_anchored(st, "unexpected text after the table header"@, line_no, n);
                } else if st.seen_sections.contains(header) {
                    lemma_with_issue_anchored(st, "duplicate table `["@ + header + "]`"@, line_no, n);
                } else if header != "schemas"@ {
                    lemma_with_issue_anchored(
                        st,
                        "unknown table `["@ + header + "]`; expected `[schemas]`"@,
                        line_no,
                        n,
                    );
                }
            },
        }
    } else {
        match spec_scan_key(line) {
            None => lemma_with_issue_anchored(st, "expected a key"@, line_no, n),
            Some((key, after_key)) => {
                let rest = trim_start(line.skip(after_key));
                if !(rest.len() > 0 && rest[0] == '=') {
                    lemma_with_issue_anchored(st, "expected `=` after key `"@ + key + "`"@, line_no, n);
                } else {
                    let value_text = trim_start(rest.skip(1));
                    match spec_scan_string_value(value_text) {
                        None => lemma_with_issue_anchored(
                            st,
                            "key `"@ + key + "` needs a string value in double or single quotes"@,
                            line_no,
                            n,
                        ),
                        Some((value, consumed)) => {
                            if !spec_rest_is_comment(value_text.skip(consumed)) {
                                lemma_with_issue_anchored(st, "unexpected text after the value"@, line_no, n);
                            } else if st.seen_keys.contains((st.section, key)) {
                                lemma_with_issue_anchored(
                                    st,
                                    "duplicate key `"@ + key + "` in "@ + where_text(st.section),
                                    line_no,
                                    n,
                                );
                            } else {
                                let s1 = ManifestState { seen_keys: st.seen_keys.push((st.section, key)), ..st };
                                match s1.section {
                                    None => {
                                        if key == "name"@ {
                                            if value.len() == 0 {
                                                lemma_with_issue_anchored(s1, "`name` must not be empty"@, line_no, n);
                                            }
                                        } else if key == "version"@ {
                                            lemma_check_version_anchored(s1, "version"@, value, line_no, n);
                                        } else if key == "checkmate_version"@ {
                                            lemma_check_version_anchored(s1, "checkmate_version"@, value, line_no, n);
                                        } else {
                                            lemma_with_issue_anchored(s1, unknown_field_message(key), line_no, n);
                                        }
                                    },
                                    Some(t) => {
                                        if t == "schemas"@ {
                                            let s2 = if !spec_is_identifier(key) {
                                                with_issue(
                                                    s1,
                                                    "schema namespace `"@ + key + "` is not a valid identifier"@,
                                                    line_no,
                                                )
                                            } else {
                                                s1
                                            };
                                            if !spec_is_identifier(key) {
                                                lemma_with_issue_anchored(
                                                    s1,
                                                    "schema namespace `"@ + key + "` is not a valid identifier"@,
                                                    line_no,
                                                    n,
                                                );
                                            }
                                            lemma_check_version_anchored(s2, "schemas."@ + key, value, line_no, n);
                                        }
                                    },
                                }
                            }
                        },
                    }
                }
            },
        }
    }
}

proof fn lemma_manifest_fold_anchored(lines: Seq<Seq<char>>, n: nat)
    requires
        n <= lines.len(),
        lines.len() <= usize::MAX,
    ensures
        line_anchored(manifest_fold(lines, n).issues, n as int),
    decreases n,
{
    if n > 0 {
        lemma_manifest_fold_anchored(lines, (n - 1) as nat);
        let prev = manifest_fold(lines, (n - 1) as nat);
        assert forall|i: int| 0 <= i < prev.issues.len() implies (#[trigger] prev.issues[i]).file == Some(
            "mod.toml"@,
        ) && (prev.issues[i].line matches Some(l) && 1 <= l <= n) by {
            assert(prev.issues[i].line matches Some(l) && 1 <= l <= n - 1);
        }
        lemma_manifest_step_anchored(prev, lines[n - 1], n as usize);
    }
}

/// Every manifest problem a line causes is reported against `mod.toml` at
/// that line (one of the text's lines); the only other problems are missing
/// identity fields, which belong to no line.
pub proof fn lemma_manifest_issues_are_line_anchored(text: Seq<char>)
    requires
        split_lines(text).len() <= usize::MAX,
    ensures
        spec_parse_manifest(text) matches Err(issues) ==> forall|i: int|
            0 <= i < issues.len() ==> (#[trigger] issues[i].line matches Some(l) ==> issues[i].file
                == Some("mod.toml"@) && 1 <= l <= split_lines(text).len()) && (issues[i].line is None
                ==> issues[i].file is None),
{
    let lines = split_lines(text);
    lemma_manifest_fold_anchored(lines, lines.len());
    let st = manifest_fold(lines, lines.len());
    let issues = final_issues(st);
    assert forall|i: int| 0 <= i < issues.len() implies (#[trigger] issues[i].line matches Some(l) ==> issues[i].file
        == Some("mod.toml"@) && 1 <= l <= lines.len()) && (issues[i].line is None ==> issues[i].file is None) by {
        if i < st.issues.len() {
            assert(issues[i] == st.issues[i]);
        }
    }
}

/// What reading `text` as a `mod.toml` gives: every issue found, or the
/// manifest when there is none.
pub open spec fn spec_parse_manifest(text: Seq<char>) -> Result<ManifestView, Seq<IssueView>> {
    let lines = split_lines(text);
    let st = manifest_fold(lines, lines.len());
    let issues = final_issues(st);
    if issues.len() > 0 {
        Err(issues)
    } else {
        Ok(
            ManifestView {
                name: or_empty(st.name),
                version: or_empty(st.version),
                checkmate_version: or_empty(st.checkmate_version),
                schemas: st.schemas,
            },
        )
    }
}

pub open spec fn manifest_result_view(r: Result<ModManifest, Vec<ModIssue>>) -> Result<
    ManifestView,
    Seq<IssueView>,
> {
    match r {
        Ok(m) => Ok(m@),
        Err(v) => Err(issues_view(v@)),
    }
}


// ---------------------------------------------------------------------------
// Manifest reader
// ---------------------------------------------------------------------------

/// The executable reader state; its view is a [`ManifestState`].
struct ManifestBuilder {
    issues: Vec<ModIssue>,
    name: Option<Vec<char>>,
    version: Option<Vec<char>>,
    checkmate_version: Option<Vec<char>>,
    schemas: Vec<(Vec<char>, Vec<char>)>,
    section: Option<Vec<char>>,
    seen_sections: Vec<Vec<char>>,
    seen_keys: Vec<(Option<Vec<char>>, Vec<char>)>,
}

pub open spec fn chars_pairs_view(v: Seq<(Vec<char>, Vec<char>)>) -> Seq<(Seq<char>, Seq<char>)> {
    v.map_values(|p: (Vec<char>, Vec<char>)| (p.0@, p.1@))
}

pub open spec fn chars_seq_view(v: Seq<Vec<char>>) -> Seq<Seq<char>> {
    v.map_values(|l: Vec<char>| l@)
}

pub open spec fn keys_view(v: Seq<(Option<Vec<char>>, Vec<char>)>) -> Seq<(Option<Seq<char>>, Seq<char>)> {
    v.map_values(|p: (Option<Vec<char>>, Vec<char>)| (opt_chars_view(p.0), p.1@))
}

impl View for ManifestBuilder {
    type V = ManifestState;

    closed spec fn view(&self) -> ManifestState {
        ManifestState {
            issues: issues_view(self.issues@),
            name: opt_chars_view(self.name),
            version: opt_chars_view(self.version),
            checkmate_version: opt_chars_view(self.checkmate_version),
            schemas: chars_pairs_view(self.schemas@),
            section: opt_chars_view(self.section),
            seen_sections: chars_seq_view(self.seen_sections@),
            seen_keys: keys_view(self.seen_keys@),
        }
    }
}

fn copy_chars(v: &[char]) -> (r: Vec<char>)
    ensures
        r@ == v@,
{
    let r = slice_chars(v, 0, v.len());
    assert(r@ =~= v@);
    r
}

fn copy_opt_chars(v: &Option<Vec<char>>) -> (r: Option<Vec<char>>)
    ensures
        opt_chars_view(r) == opt_chars_view(*v),
{
    match v {
        Some(c) => Some(copy_chars(c.as_slice())),
        None => None,
    }
}

/// `a` followed by `b` followed by `c`.
fn join3(a: &str, b: &[char], c: &str) -> (r: Vec<char>)
    ensures
        r@ == a@ + b@ + c@,
{
    let mut r = chars_of(a);
    push_chars(&mut r, b);
    push_str(&mut r, c);
    r
}

impl ManifestBuilder {
    fn new() -> (b: Self)
        ensures
            b@ == initial_manifest_state(),
    {
        let b = ManifestBuilder {
            issues: Vec::new(),
            name: None,
            version: None,
            checkmate_version: None,
            schemas: Vec::new(),
            section: None,
            seen_sections: Vec::new(),
            seen_keys: Vec::new(),
        };
        assert(b@.issues =~= seq![]);
        assert(b@.schemas =~= seq![]);
        assert(b@.seen_sections =~= seq![]);
        assert(b@.seen_keys =~= seq![]);
        b
    }

    fn add_issue(&mut self, message: Vec<char>, line: usize)
        ensures
            final(self)@ == with_issue(old(self)@, message@, line),
    {
        let m = string_from_chars(message.as_slice());
        let issue = ModIssue::manifest(m, line);
        self.issues.push(issue);
        assert(issues_view(self.issues@) =~= issues_view(old(self).issues@).push(issue@));
    }

    fn check_version(&mut self, field: Vec<char>, value: &[char], line: usize)
        ensures
            final(self)@ == check_version(old(self)@, field@, value@, line),
    {
        if !is_mod_version(value) {
            let mut m = join3("`", field.as_slice(), "` must be a version like `1.0.0`, but is `");
            push_chars(&mut m, value);
            push_str(&mut m, "`");
            self.add_issue(m, line);
        }
    }

    fn has_section(&self, header: &[char]) -> (b: bool)
        ensures
            b == self@.seen_sections.contains(header@),
    {
        let mut k: usize = 0;
        while k < self.seen_sections.len()
            invariant
                k <= self.seen_sections@.len(),
                forall|j: int| 0 <= j < k ==> self.seen_sections@[j]@ != header@,
            decreases self.seen_sections.len() - k,
        {
            if chars_eq(self.seen_sections[k].as_slice(), header) {
                assert(self@.seen_sections[k as int] == header@);
                return true;
            }
            k += 1;
        }
        assert forall|j: int| 0 <= j < self@.seen_sections.len() implies self@.seen_sections[j]
            != header@ by {
            assert(self@.seen_sections[j] == self.seen_sections@[j]@);
        }
        false
    }

    fn has_key(&self, key: &[char]) -> (b: bool)
        ensures
            b == self@.seen_keys.contains((self@.section, key@)),
    {
        let mut k: usize = 0;
        while k < self.seen_keys.len()
            invariant
                k <= self.seen_keys@.len(),
                forall|j: int|
                    0 <= j < k ==> #[trigger] keys_view(self.seen_keys@)[j] != (
                        self@.section,
                        key@,
                    ),
            decreases self.seen_keys.len() - k,
        {
            let entry = &self.seen_keys[k];
            let same_section = match (&entry.0, &self.section) {
                (Some(a), Some(b)) => chars_eq(a.as_slice(), b.as_slice()),
                (None, None) => true,
                _ => false,
            };
            if same_section && chars_eq(entry.1.as_slice(), key) {
                assert(keys_view(self.seen_keys@)[k as int] == (self@.section, key@));
                return true;
            }
            k += 1;
        }
        false
    }

    /// A table header line; `from` indexes the character after `[`.
    fn header(&mut self, t: &[char], from: usize, line: usize)
        requires
            from <= t@.len(),
        ensures
            final(self)@ == header_step(old(self)@, t@.skip(from as int), line),
    {
        let ghost rest = t@.skip(from as int);
        let (header, consumed) = match scan_table_header(t, from) {
            Some(found) => found,
            None => {
                self.add_issue(chars_of("expected a table name followed by `]`"), line);
                return ;
            },
        };
        proof {
            lemma_scan_key_bounds(rest);
            // the header's extent lies within the line
            assert(consumed <= rest.len()) by {
                let (n, c) = spec_scan_key(rest)->0;
                assert(trim_start(rest.skip(c)).len() <= rest.len() - c) by {
                    lemma_trim_start_is_skip(rest.skip(c));
                    lemma_leading_count_bound(rest.skip(c), ws_pred());
                }
            }
        }
        let n = t.len();
        assert(from + consumed <= n);
        if !rest_after_value_is_comment(t, from + consumed) {
            assert(rest.skip(consumed as int) =~= t@.skip(from + consumed));
            self.add_issue(chars_of("unexpected text after the table header"), line);
            return ;
        }
        assert(rest.skip(consumed as int) =~= t@.skip(from + consumed));
        if self.has_section(header.as_slice()) {
            let m = join3("duplicate table `[", header.as_slice(), "]`");
            self.add_issue(m, line);
            return ;
        }
        if !chars_eq_str(header.as_slice(), "schemas") {
            let m = join3("unknown table `[", header.as_slice(), "]`; expected `[schemas]`");
            self.add_issue(m, line);
            return ;
        }
        let ghost before = self@;
        let copy = copy_chars(header.as_slice());
        self.seen_sections.push(copy);
        assert(chars_seq_view(self.seen_sections@) =~= before.seen_sections.push(header@));
        self.section = Some(header);
    }

    /// Records an accepted pair in the current table.
    fn assign(&mut self, key: Vec<char>, value: Vec<char>, line: usize)
        ensures
            final(self)@ == assign_step(old(self)@, key@, value@, line),
    {
        match &self.section {
            None => {
                if chars_eq_str(key.as_slice(), "name") {
                    if value.len() == 0 {
                        self.add_issue(chars_of("`name` must not be empty"), line);
                    }
                    self.name = Some(value);
                } else if chars_eq_str(key.as_slice(), "version") {
                    self.check_version(chars_of("version"), value.as_slice(), line);
                    self.version = Some(value);
                } else if chars_eq_str(key.as_slice(), "checkmate_version") {
                    self.check_version(chars_of("checkmate_version"), value.as_slice(), line);
                    self.checkmate_version = Some(value);
                } else {
                    let m = join3(
                        "unknown field `",
                        key.as_slice(),
                        "`; expected one of `name`, `version`, `checkmate_version` (schema versions live under `[schemas]`)",
                    );
                    self.add_issue(m, line);
                }
            },
            Some(table) => {
                if chars_eq_str(table.as_slice(), "schemas") {
                    if !chars_is_identifier(key.as_slice()) {
                        let m = join3("schema namespace `", key.as_slice(), "` is not a valid identifier");
                        self.add_issue(m, line);
                    }
                    let mut field = chars_of("schemas.");
                    push_chars(&mut field, key.as_slice());
                    self.check_version(field, value.as_slice(), line);
                    let ghost before = self@;
                    self.schemas.push((key, value));
                    assert(chars_pairs_view(self.schemas@) =~= before.schemas.push((key@, value@)));
                }
            },
        }
    }

    /// A `key = value` line; `from` indexes its first non-blank character.
    fn entry(&mut self, t: &[char], from: usize, line: usize)
        requires
            from <= t@.len(),
        ensures
            final(self)@ == entry_step(old(self)@, t@.skip(from as int), line),
    {
        let ghost l = t@.skip(from as int);
        let (key, after_key) = match scan_key(t, from) {
            Some(found) => found,
            None => {
                self.add_issue(chars_of("expected a key"), line);
                return ;
            },
        };
        proof {
            lemma_scan_key_bounds(l);
        }
        let n = t.len();
        assert(from + after_key <= n);
        let eq_pos = skip_whitespace(t, from + after_key);
        assert(l.skip(after_key as int) =~= t@.skip(from + after_key));
        proof {
            if eq_pos < n {
                assert(t@.skip(eq_pos as int)[0] == t@[eq_pos as int]);
            }
        }
        if eq_pos >= n || t[eq_pos] != '=' {
            let m = join3("expected `=` after key `", key.as_slice(), "`");
            self.add_issue(m, line);
            return ;
        }
        let value_pos = skip_whitespace(t, eq_pos + 1);
        assert(t@.skip(eq_pos as int).skip(1) =~= t@.skip(eq_pos + 1));
        let (value, consumed) = match scan_string_value(t, value_pos) {
            Some(found) => found,
            None => {
                let m = join3("key `", key.as_slice(), "` needs a string value in double or single quotes");
                self.add_issue(m, line);
                return ;
            },
        };
        proof {
            lemma_scan_key_bounds(t@.skip(value_pos as int));
        }
        assert(value_pos + consumed <= n);
        assert(t@.skip(value_pos as int).skip(consumed as int) =~= t@.skip(value_pos + consumed));
        if !rest_after_value_is_comment(t, value_pos + consumed) {
            self.add_issue(chars_of("unexpected text after the value"), line);
            return ;
        }
        if self.has_key(key.as_slice()) {
            let mut m = join3("duplicate key `", key.as_slice(), "` in ");
            match &self.section {
                Some(table) => {
                    let w = join3("`[", table.as_slice(), "]`");
                    push_chars(&mut m, w.as_slice());
                },
                None => {
                    push_str(&mut m, "the manifest");
                },
            }
            self.add_issue(m, line);
            return ;
        }
        let ghost before = self@;
        let section_copy = copy_opt_chars(&self.section);
        let key_copy = copy_chars(key.as_slice());
        self.seen_keys.push((section_copy, key_copy));
        assert(keys_view(self.seen_keys@) =~= before.seen_keys.push((before.section, key@)));
        self.assign(key, value, line);
    }

    /// One raw line of the manifest.
    fn step(&mut self, raw: &[char], line: usize)
        ensures
            final(self)@ == manifest_step(old(self)@, raw@, line),
    {
        let start = skip_whitespace(raw, 0);
        assert(raw@.skip(0) =~= raw@);
        proof {
            if start < raw@.len() {
                assert(raw@.skip(start as int)[0] == raw@[start as int]);
            }
        }
        if start >= raw.len() || raw[start] == '#' {
            return ;
        }
        if raw[start] == '[' {
            assert(raw@.skip(start as int).skip(1) =~= raw@.skip(start + 1));
            self.header(raw, start + 1, line);
        } else {
            self.entry(raw, start, line);
        }
    }

    fn finish(self) -> (r: Result<ModManifest, Vec<ModIssue>>)
        ensures
            manifest_result_view(r) == ({
                let issues = final_issues(self@);
                if issues.len() > 0 {
                    Err(issues)
                } else {
                    Ok(
                        ManifestView {
                            name: or_empty(self@.name),
                            version: or_empty(self@.version),
                            checkmate_version: or_empty(self@.checkmate_version),
                            schemas: self@.schemas,
                        },
                    )
                }
            }),
    {
        let ghost st = self@;
        let mut issues = self.issues;
        if self.name.is_none() {
            let ghost before = issues_view(issues@);
            let i = ModIssue::structure(String::from_str("manifest is missing the `name` field"));
            issues.push(i);
            assert(issues_view(issues@) =~= before + seq![i@]);
        }
        let ghost mid1 = issues_view(issues@);
        if self.version.is_none() {
            let i = ModIssue::structure(String::from_str("manifest is missing the `version` field"));
            issues.push(i);
            assert(issues_view(issues@) =~= mid1 + seq![i@]);
        }
        let ghost mid2 = issues_view(issues@);
        if self.checkmate_version.is_none() {
            let i = ModIssue::structure(
                String::from_str("manifest is missing the `checkmate_version` field"),
            );
            issues.push(i);
            assert(issues_view(issues@) =~= mid2 + seq![i@]);
        }
        assert(issues_view(issues@) =~= final_issues(st));
        if issues.len() > 0 {
            return Err(issues);
        }
        let name = match self.name {
            Some(v) => v,
            None => Vec::new(),
        };
        let version = match self.version {
            Some(v) => v,
            None => Vec::new(),
        };
        let checkmate_version = match self.checkmate_version {
            Some(v) => v,
            None => Vec::new(),
        };
        let mut schemas: Vec<(String, String)> = Vec::new();
        let mut k: usize = 0;
        while k < self.schemas.len()
            invariant
                k <= self.schemas@.len(),
                schemas@.map_values(|p: (String, String)| (p.0@, p.1@)) == chars_pairs_view(
                    self.schemas@,
                ).take(k as int),
            decreases self.schemas.len() - k,
        {
            let ghost before = schemas@.map_values(|p: (String, String)| (p.0@, p.1@));
            let a = string_from_chars(self.schemas[k].0.as_slice());
            let b = string_from_chars(self.schemas[k].1.as_slice());
            schemas.push((a, b));
            assert(schemas@.map_values(|p: (String, String)| (p.0@, p.1@)) =~= before.push((a@, b@)));
            assert(chars_pairs_view(self.schemas@)[k as int] == (a@, b@));
            assert(chars_pairs_view(self.schemas@).take(k + 1) =~= chars_pairs_view(self.schemas@).take(k as int).push((a@, b@)));
            k += 1;
            assert(schemas@.map_values(|p: (String, String)| (p.0@, p.1@)) =~= chars_pairs_view(
                self.schemas@,
            ).take(k as int));
        }
        assert(chars_pairs_view(self.schemas@).take(k as int) =~= chars_pairs_view(self.schemas@));
        Ok(
            ModManifest {
                name: string_from_chars(name.as_slice()),
                version: string_from_chars(version.as_slice()),
                checkmate_version: string_from_chars(checkmate_version.as_slice()),
                schemas,
            },
        )
    }
}

/// Parses a `mod.toml` manifest: every defect found (a mod with a broken
/// manifest has no usable identity, so any issue is fatal), or the manifest.
///
/// The accepted grammar is the TOML subset the format uses: comments (`#`),
/// blank lines, `key = "value"` pairs with bare or quoted keys, and one
/// `[schemas]` table. Multiline strings, typed values and dotted keys are
/// rejected with a line-anchored issue.
pub fn parse_manifest(text: &str) -> (r: Result<ModManifest, Vec<ModIssue>>)
    ensures
        manifest_result_view(r) == spec_parse_manifest(text@),
{
    let chars = chars_of(text);
    let lines = lines_of(chars.as_slice());
    let ghost ls = split_lines(text@);
    let mut builder = ManifestBuilder::new();
    let mut index: usize = 0;
    while index < lines.len()
        invariant
            chars_seq_view(lines@) == ls,
            index <= lines@.len(),
            builder@ == manifest_fold(ls, index as nat),
        decreases lines.len() - index,
    {
        assert(lines@[index as int]@ == ls[index as int]);
        builder.step(lines[index].as_slice(), index + 1);
        index += 1;
    }
    builder.finish()
}


// ---------------------------------------------------------------------------
// Discovery: the `src/` tree as module paths
// ---------------------------------------------------------------------------

/// One entry of a directory listing under `src/`, in the order it was read.
pub enum SrcEntry {
    /// A directory: its file name, its displayable path, and what reading it gave.
    Dir { name: String, path: String, listing: SrcListing },
    /// A non-directory entry: its file name and displayable path.
    File { name: String, path: String },
}

/// What reading one directory gave: its entries, or the read error's text.
pub enum SrcListing {
    Entries(Vec<SrcEntry>),
    Unreadable(String),
}

/// The `src/` directory of a mod as found on disk.
pub enum SrcTree {
    /// There is no `src` entry; `expected` is the path that was looked for.
    Missing { expected: String },
    /// `src` exists but is not a directory.
    NotADirectory { path: String },
    /// `src` is a directory; its path and listing.
    Present { path: String, listing: SrcListing },
}

/// One discovered `.cm` file: its `self`-rooted module path, its location,
/// and its mod-relative path for display.
#[derive(Debug, Clone)]
pub struct DiscoveredModule {
    pub module_segments: Vec<String>,
    pub file_path: String,
    pub display_path: String,
}

pub struct DiscoveredView {
    pub module_segments: Seq<Seq<char>>,
    pub file_path: Seq<char>,
    pub display_path: Seq<char>,
}

impl View for DiscoveredModule {
    type V = DiscoveredView;

    open spec fn view(&self) -> DiscoveredView {
        DiscoveredView {
            module_segments: strings_view(self.module_segments@),
            file_path: self.file_path@,
            display_path: self.display_path@,
        }
    }
}

pub open spec fn modules_view(v: Seq<DiscoveredModule>) -> Seq<DiscoveredView> {
    v.map_values(|m: DiscoveredModule| m@)
}

/// `parts` joined by `sep` (`[T]::join`).
pub open spec fn join(parts: Seq<Seq<char>>, sep: Seq<char>) -> Seq<char>
    decreases parts.len(),
{
    if parts.len() == 0 {
        seq![]
    } else if parts.len() == 1 {
        parts[0]
    } else {
        join(parts.drop_last(), sep) + sep + parts.last()
    }
}

/// The discoveries and issues of walking part of the tree.
pub struct Walk {
    pub found: Seq<DiscoveredView>,
    pub issues: Seq<IssueView>,
}

pub open spec fn empty_walk() -> Walk {
    Walk { found: seq![], issues: seq![] }
}

pub open spec fn then_walk(a: Walk, b: Walk) -> Walk {
    Walk { found: a.found + b.found, issues: a.issues + b.issues }
}

pub open spec fn issue_walk(i: IssueView) -> Walk {
    Walk { found: seq![], issues: seq![i] }
}

/// The mod-relative display path of the module `stem` under `prefix`.
pub open spec fn display_path_of(prefix: Seq<Seq<char>>, stem: Seq<char>) -> Seq<char> {
    let d = join(prefix, "/"@);
    "src/"@ + (if d.len() > 0 {
        d + "/"@
    } else {
        d
    }) + stem + ".cm"@
}

pub open spec fn is_hidden(name: Seq<char>) -> bool {
    name.len() > 0 && name[0] == '.'
}

/// The name ends in `.cm`.
pub open spec fn is_cm_file(name: Seq<char>) -> bool {
    name.len() >= 3 && name[name.len() - 3] == '.' && name[name.len() - 2] == 'c' && name[name.len()
        - 1] == 'm'
}

/// Walks a directory listing whose displayable path is `path`; `prefix` is
/// the module path below `self` that the directory stands for.
pub open spec fn walk_listing(l: SrcListing, path: Seq<char>, prefix: Seq<Seq<char>>) -> Walk
    decreases l,
{
    match l {
        SrcListing::Unreadable(e) => issue_walk(
            structure_issue("cannot read directory `"@ + path + "`: "@ + e@),
        ),
        SrcListing::Entries(v) => walk_entries(v@, prefix),
    }
}

pub open spec fn walk_entries(s: Seq<SrcEntry>, prefix: Seq<Seq<char>>) -> Walk
    decreases s,
{
    if s.len() == 0 {
        empty_walk()
    } else {
        then_walk(walk_entry(s[0], prefix), walk_entries(s.drop_first(), prefix))
    }
}

/// One entry: dot-prefixed entries are skipped; a directory or `.cm` file
/// whose name cannot be a module path segment is an issue; a `.cm` file is a
/// module; other files are not modules.
pub open spec fn walk_entry(e: SrcEntry, prefix: Seq<Seq<char>>) -> Walk
    decreases e,
{
    match e {
        SrcEntry::Dir { name, path, listing } => if is_hidden(name@) {
            empty_walk()
        } else if !spec_is_identifier(name@) {
            issue_walk(
                structure_issue(
                    "directory `"@ + path@ + "` cannot map to a module path: `"@ + name@
                        + "` is not a valid identifier segment"@,
                ),
            )
        } else {
            walk_listing(listing, path@, prefix.push(name@))
        },
        SrcEntry::File { name, path } => {
            let stem = name@.take(name@.len() - 3);
            if is_hidden(name@) || !is_cm_file(name@) {
                empty_walk()
            } else if !spec_is_identifier(stem) {
                issue_walk(
                    structure_issue(
                        "file `"@ + path@ + "` cannot map to a module path: `"@ + stem
                            + "` is not a valid identifier segment"@,
                    ),
                )
            } else {
                Walk {
                    found: seq![
                        DiscoveredView {
                            module_segments: seq!["self"@] + prefix.push(stem),
                            file_path: path@,
                            display_path: display_path_of(prefix, stem),
                        },
                    ],
                    issues: seq![],
                }
            }
        },
    }
}

/// Modules in ascending module-path order.
pub open spec fn sorted_by_path(s: Seq<DiscoveredView>) -> bool {
    forall|i: int, j: int| 0 <= i < j < s.len() ==> !path_lt(s[j].module_segments, s[i].module_segments)
}

/// The module paths in `s` are pairwise distinct.
pub open spec fn distinct_paths(s: Seq<DiscoveredView>) -> bool {
    forall|i: int, j: int|
        0 <= i < s.len() && 0 <= j < s.len() && i != j ==> #[trigger] s[i].module_segments
            != #[trigger] s[j].module_segments
}

/// Discovery's order is fixed by what it finds: two module-path-ordered
/// arrangements of the same modules, with distinct module paths, are the
/// same sequence, whatever order the directories listed their entries in.
pub proof fn lemma_path_ordered_modules_are_unique(a: Seq<DiscoveredView>, b: Seq<DiscoveredView>)
    requires
        sorted_by_path(a),
        sorted_by_path(b),
        a.to_multiset() == b.to_multiset(),
        distinct_paths(a),
    ensures
        a == b,
    decreases a.len(),
{
    a.to_multiset_ensures();
    b.to_multiset_ensures();
    if a.len() > 0 {
        assert(b.len() == a.len());
        assert(a.to_multiset().count(a[0]) > 0);
        assert(b.contains(a[0]));
        assert(b.to_multiset().count(b[0]) > 0);
        assert(a.contains(b[0]));
        let k = choose|k: int| 0 <= k < a.len() && a[k] == b[0];
        let m = choose|m: int| 0 <= m < b.len() && b[m] == a[0];
        lemma_path_lt_order(a[0].module_segments, b[0].module_segments, b[0].module_segments);
        if k > 0 {
            assert(!path_lt(a[k].module_segments, a[0].module_segments));
        }
        if m > 0 {
            assert(!path_lt(b[m].module_segments, b[0].module_segments));
        }
        assert(a[0].module_segments == b[0].module_segments);
        assert(k == 0);
        assert(a[0] == b[0]);
        let a1 = a.drop_first();
        let b1 = b.drop_first();
        assert(a.remove(0) =~= a1);
        assert(b.remove(0) =~= b1);
        assert(a1.to_multiset() =~= b1.to_multiset());
        assert forall|i: int, j: int| 0 <= i < j < a1.len() implies !path_lt(
            a1[j].module_segments,
            a1[i].module_segments,
        ) by {
            assert(a1[i] == a[i + 1] && a1[j] == a[j + 1]);
        }
        assert forall|i: int, j: int| 0 <= i < j < b1.len() implies !path_lt(
            b1[j].module_segments,
            b1[i].module_segments,
        ) by {
            assert(b1[i] == b[i + 1] && b1[j] == b[j + 1]);
        }
        assert forall|i: int, j: int|
            0 <= i < a1.len() && 0 <= j < a1.len() && i != j implies #[trigger] a1[i].module_segments
            != #[trigger] a1[j].module_segments by {
            assert(a1[i] == a[i + 1] && a1[j] == a[j + 1]);
        }
        lemma_path_ordered_modules_are_unique(a1, b1);
        assert(a =~= seq![a[0]] + a1);
        assert(b =~= seq![b[0]] + b1);
    } else {
        assert(b.len() == 0);
        assert(a =~= b);
    }
}

/// What discovering `tree` gives: the issues, or every module in
/// module-path order.
pub open spec fn discovery_issues(tree: SrcTree) -> Seq<IssueView> {
    match tree {
        SrcTree::Missing { expected } => seq![
            structure_issue("mod is missing a `src/` directory (expected "@ + expected@ + ")"@),
        ],
        SrcTree::NotADirectory { path } => seq![
            structure_issue("`src` is not a directory ("@ + path@ + ")"@),
        ],
        SrcTree::Present { path, listing } => {
            let w = walk_listing(listing, path@, seq![]);
            if w.found.len() == 0 && w.issues.len() == 0 {
                seq![structure_issue("no `.cm` files found under `src/`"@)]
            } else {
                w.issues
            }
        },
    }
}

pub open spec fn discovery_found(tree: SrcTree) -> Seq<DiscoveredView> {
    match tree {
        SrcTree::Present { path, listing } => walk_listing(listing, path@, seq![]).found,
        _ => seq![],
    }
}

fn join_strings(parts: &[String], from: usize, sep: &str) -> (r: Vec<char>)
    requires
        from <= parts@.len(),
    ensures
        r@ == join(strings_view(parts@).skip(from as int), sep@),
{
    let ghost all = strings_view(parts@).skip(from as int);
    let mut r: Vec<char> = Vec::new();
    let mut k: usize = from;
    while k < parts.len()
        invariant
            from <= k <= parts@.len(),
            all == strings_view(parts@).skip(from as int),
            r@ == join(all.take(k - from), sep@),
        decreases parts.len() - k,
    {
        let ghost before = all.take(k - from);
        if k > from {
            push_str(&mut r, sep);
        }
        push_str(&mut r, parts[k].as_str());
        k += 1;
        proof {
            let now = all.take(k - from);
            assert(now.drop_last() =~= before);
            assert(now.last() == parts@[k - 1]@);
            if k == from + 1 {
                assert(before =~= seq![]);
            }
        }
    }
    assert(all.take(k - from) =~= all);
    r
}

fn string_of_str(s: &str) -> (r: String)
    ensures
        r@ == s@,
{
    String::from_str(s)
}

fn copy_strings(v: &Vec<String>) -> (r: Vec<String>)
    ensures
        strings_view(r@) == strings_view(v@),
{
    let mut r: Vec<String> = Vec::new();
    let mut k: usize = 0;
    while k < v.len()
        invariant
            k <= v@.len(),
            strings_view(r@) == strings_view(v@).take(k as int),
        decreases v.len() - k,
    {
        let item = string_of_str(v[k].as_str());
        let ghost before = strings_view(r@);
        r.push(item);
        assert(strings_view(r@) =~= before.push(item@));
        k += 1;
        assert(strings_view(r@) =~= strings_view(v@).take(k as int));
    }
    assert(strings_view(v@).take(v@.len() as int) =~= strings_view(v@));
    r
}

fn push_walk(found: &mut Vec<DiscoveredModule>, issues: &mut Vec<ModIssue>, issue: ModIssue)
    ensures
        modules_view(final(found)@) == modules_view(old(found)@),
        issues_view(final(issues)@) == issues_view(old(issues)@).push(issue@),
{
    issues.push(issue);
    assert(issues_view(issues@) =~= issues_view(old(issues)@).push(issue@));
}

fn walk_listing_exec(
    l: &SrcListing,
    path: &String,
    prefix: &Vec<String>,
    found: &mut Vec<DiscoveredModule>,
    issues: &mut Vec<ModIssue>,
)
    ensures
        ({
            let w = walk_listing(*l, path@, strings_view(prefix@));
            &&& modules_view(final(found)@) == modules_view(old(found)@) + w.found
            &&& issues_view(final(issues)@) == issues_view(old(issues)@) + w.issues
        }),
    decreases l, 0int,
{
    match l {
        SrcListing::Unreadable(e) => {
            let mut m = chars_of("cannot read directory `");
            push_str(&mut m, path.as_str());
            push_str(&mut m, "`: ");
            push_str(&mut m, e.as_str());
            let issue = ModIssue::structure(string_from_chars(m.as_slice()));
            push_walk(found, issues, issue);
            assert(modules_view(found@) =~= modules_view(old(found)@) + seq![]);
            assert(issues_view(issues@) =~= issues_view(old(issues)@) + seq![issue@]);
        },
        SrcListing::Entries(v) => {
            walk_entries_exec(v, 0, prefix, found, issues);
            assert(v@.skip(0) =~= v@);
        },
    }
}

fn walk_entries_exec(
    v: &Vec<SrcEntry>,
    from: usize,
    prefix: &Vec<String>,
    found: &mut Vec<DiscoveredModule>,
    issues: &mut Vec<ModIssue>,
)
    requires
        from <= v@.len(),
    ensures
        ({
            let w = walk_entries(v@.skip(from as int), strings_view(prefix@));
            &&& modules_view(final(found)@) == modules_view(old(found)@) + w.found
            &&& issues_view(final(issues)@) == issues_view(old(issues)@) + w.issues
        }),
    decreases v, v@.len() - from,
{
    if from >= v.len() {
        assert(modules_view(found@) =~= modules_view(old(found)@) + seq![]);
        assert(issues_view(issues@) =~= issues_view(old(issues)@) + seq![]);
        return ;
    }
    let ghost s = v@.skip(from as int);
    assert(s[0] == v@[from as int]);
    assert(s.drop_first() =~= v@.skip(from + 1));
    proof {
        assert(decreases_to!(v@ => v@[from as int]));
    }
    walk_entry_exec(&v[from], prefix, found, issues);
    let ghost mid_found = modules_view(found@);
    let ghost mid_issues = issues_view(issues@);
    walk_entries_exec(v, from + 1, prefix, found, issues);
    assert(modules_view(found@) =~= modules_view(old(found)@) + walk_entries(
        s,
        strings_view(prefix@),
    ).found);
    assert(issues_view(issues@) =~= issues_view(old(issues)@) + walk_entries(
        s,
        strings_view(prefix@),
    ).issues);
}

fn walk_entry_exec(
    e: &SrcEntry,
    prefix: &Vec<String>,
    found: &mut Vec<DiscoveredModule>,
    issues: &mut Vec<ModIssue>,
)
    ensures
        ({
            let w = walk_entry(*e, strings_view(prefix@));
            &&& modules_view(final(found)@) == modules_view(old(found)@) + w.found
            &&& issues_view(final(issues)@) == issues_view(old(issues)@) + w.issues
        }),
    decreases e, 0int,
{
    match e {
        SrcEntry::Dir { name, path, listing } => {
            let n = chars_of(name.as_str());
            if n.len() > 0 && n[0] == '.' {
                assert(modules_view(found@) =~= modules_view(old(found)@) + seq![]);
                assert(issues_view(issues@) =~= issues_view(old(issues)@) + seq![]);
                return ;
            }
            if !chars_is_identifier(n.as_slice()) {
                let mut m = chars_of("directory `");
                push_str(&mut m, path.as_str());
                push_str(&mut m, "` cannot map to a module path: `");
                push_chars(&mut m, n.as_slice());
                push_str(&mut m, "` is not a valid identifier segment");
                let issue = ModIssue::structure(string_from_chars(m.as_slice()));
                push_walk(found, issues, issue);
                assert(modules_view(found@) =~= modules_view(old(found)@) + seq![]);
                assert(issues_view(issues@) =~= issues_view(old(issues)@) + seq![issue@]);
                return ;
            }
            let mut child = copy_strings(prefix);
            child.push(string_of_str(name.as_str()));
            assert(strings_view(child@) =~= strings_view(prefix@).push(name@));
            walk_listing_exec(listing, path, &child, found, issues);
        },
        SrcEntry::File { name, path } => {
            let n = chars_of(name.as_str());
            let len = n.len();
            let hidden = len > 0 && n[0] == '.';
            let cm = len >= 3 && n[len - 3] == '.' && n[len - 2] == 'c' && n[len - 1] == 'm';
            if hidden || !cm {
                assert(modules_view(found@) =~= modules_view(old(found)@) + seq![]);
                assert(issues_view(issues@) =~= issues_view(old(issues)@) + seq![]);
                return ;
            }
            let stem = slice_chars(n.as_slice(), 0, len - 3);
            assert(stem@ =~= name@.take(name@.len() - 3));
            if !chars_is_identifier(stem.as_slice()) {
                let mut m = chars_of("file `");
                push_str(&mut m, path.as_str());
                push_str(&mut m, "` cannot map to a module path: `");
                push_chars(&mut m, stem.as_slice());
                push_str(&mut m, "` is not a valid identifier segment");
                let issue = ModIssue::structure(string_from_chars(m.as_slice()));
                push_walk(found, issues, issue);
                assert(modules_view(found@) =~= modules_view(old(found)@) + seq![]);
                assert(issues_view(issues@) =~= issues_view(old(issues)@) + seq![issue@]);
                return ;
            }
            let mut module_segments: Vec<String> = Vec::new();
            module_segments.push(string_of_str("self"));
            let mut k: usize = 0;
            while k < prefix.len()
                invariant
                    k <= prefix@.len(),
                    strings_view(module_segments@) == seq!["self"@] + strings_view(prefix@).take(
                        k as int,
                    ),
                decreases prefix.len() - k,
            {
                let item = string_of_str(prefix[k].as_str());
                let ghost before = strings_view(module_segments@);
                module_segments.push(item);
                assert(strings_view(module_segments@) =~= before.push(item@));
                k += 1;
                assert(strings_view(module_segments@) =~= seq!["self"@] + strings_view(prefix@).take(
                    k as int,
                ));
            }
            let stem_string = string_from_chars(stem.as_slice());
            let ghost before = strings_view(module_segments@);
            module_segments.push(stem_string);
            assert(strings_view(module_segments@) =~= before.push(stem@));
            assert(strings_view(prefix@).take(prefix@.len() as int) =~= strings_view(prefix@));
            assert(strings_view(module_segments@) =~= seq!["self"@] + strings_view(prefix@).push(
                stem@,
            ));
            let mut display = chars_of("src/");
            let d = join_strings(prefix.as_slice(), 0, "/");
            assert(strings_view(prefix@).skip(0) =~= strings_view(prefix@));
            push_chars(&mut display, d.as_slice());
            if d.len() > 0 {
                push_str(&mut display, "/");
            }
            push_chars(&mut display, stem.as_slice());
            push_str(&mut display, ".cm");
            assert(display@ =~= display_path_of(strings_view(prefix@), stem@));
            let module = DiscoveredModule {
                module_segments,
                file_path: string_of_str(path.as_str()),
                display_path: string_from_chars(display.as_slice()),
            };
            found.push(module);
            assert(modules_view(found@) =~= modules_view(old(found)@) + seq![module@]);
            assert(issues_view(issues@) =~= issues_view(old(issues)@) + seq![]);
        },
    }
}

/// Sorts modules by module path (stable selection of the least remaining).
fn sort_modules(v: Vec<DiscoveredModule>) -> (r: Vec<DiscoveredModule>)
    ensures
        modules_view(r@).to_multiset() == modules_view(v@).to_multiset(),
        sorted_by_path(modules_view(r@)),
{
    broadcast use vstd::seq_lib::group_to_multiset_ensures;
    broadcast use vstd::multiset::group_multiset_axioms;

    let mut rem = v;
    let mut out: Vec<DiscoveredModule> = Vec::new();
    assert(modules_view(out@) =~= seq![]);
    while rem.len() > 0
        invariant
            modules_view(out@).to_multiset().add(modules_view(rem@).to_multiset())
                == modules_view(v@).to_multiset(),
            sorted_by_path(modules_view(out@)),
            forall|i: int, j: int|
                0 <= i < out@.len() && 0 <= j < rem@.len() ==> !path_lt(
                    #[trigger] modules_view(rem@)[j].module_segments,
                    #[trigger] modules_view(out@)[i].module_segments,
                ),
        decreases rem.len(),
    {
        let ghost rv = modules_view(rem@);
        let mut m: usize = 0;
        let mut k: usize = 1;
        proof {
            lemma_path_lt_order(rv[0].module_segments, rv[0].module_segments, rv[0].module_segments);
        }
        while k < rem.len()
            invariant
                rv == modules_view(rem@),
                1 <= k <= rem@.len(),
                m < k,
                forall|j: int| 0 <= j < k ==> !path_lt(#[trigger] rv[j].module_segments, rv[m as int].module_segments),
            decreases rem.len() - k,
        {
            if path_less(&rem[k].module_segments, &rem[m].module_segments) {
                proof {
                    assert forall|j: int| 0 <= j < k + 1 implies !path_lt(
                        #[trigger] rv[j].module_segments,
                        rv[k as int].module_segments,
                    ) by {
                        lemma_path_lt_order(rv[j].module_segments, rv[k as int].module_segments, rv[m as int].module_segments);
                        lemma_path_lt_order(rv[k as int].module_segments, rv[k as int].module_segments, rv[k as int].module_segments);
                    }
                }
                m = k;
            }
            k += 1;
        }
        let ghost ov = modules_view(out@);
        let x = rem.remove(m);
        assert(x@ == rv[m as int]);
        assert(modules_view(rem@) =~= rv.remove(m as int));
        out.push(x);
        assert(modules_view(out@) =~= ov.push(x@));
        proof {
            rv.to_multiset_ensures();
            ov.to_multiset_ensures();
            assert(rv.to_multiset().count(x@) > 0) by {
                assert(rv[m as int] == x@);
                assert(rv.contains(x@));
            }
            assert(ov.push(x@).to_multiset() =~= ov.to_multiset().insert(x@));
            assert(rv.remove(m as int).to_multiset() =~= rv.to_multiset().remove(x@));
            assert(ov.push(x@).to_multiset().add(rv.remove(m as int).to_multiset()) =~= ov.to_multiset().add(
                rv.to_multiset(),
            ));
            assert forall|i: int, j: int|
                0 <= i < out@.len() && 0 <= j < rem@.len() implies !path_lt(
                #[trigger] modules_view(rem@)[j].module_segments,
                #[trigger] modules_view(out@)[i].module_segments,
            ) by {
                let jj = if j < m { j } else { j + 1 };
                assert(modules_view(rem@)[j] == rv[jj]);
                if i < ov.len() {
                    assert(modules_view(out@)[i] == ov[i]);
                }
            }
            assert forall|i: int, j: int|
                0 <= i < j < out@.len() implies !path_lt(
                modules_view(out@)[j].module_segments,
                modules_view(out@)[i].module_segments,
            ) by {
                if j == ov.len() {
                    assert(modules_view(out@)[i] == ov[i]);
                    assert(rv[m as int] == x@);
                } else {
                    assert(modules_view(out@)[i] == ov[i]);
                    assert(modules_view(out@)[j] == ov[j]);
                }
            }
        }
    }
    assert(modules_view(rem@) =~= seq![]);
    assert(modules_view(rem@).to_multiset() =~= vstd::multiset::Multiset::empty());
    assert(modules_view(out@).to_multiset().add(vstd::multiset::Multiset::empty()) =~= modules_view(out@).to_multiset());
    out
}

/// Maps every `.cm` file under the `src/` tree to its module path.
/// Dot-prefixed entries are skipped; a file or directory whose name cannot be
/// a module path segment is an issue (silently excluding it would hide code
/// from compilation). The modules come sorted by module path, so the result
/// does not depend on the order the directories were read in.
pub fn discover_modules(tree: &SrcTree) -> (r: Result<Vec<DiscoveredModule>, Vec<ModIssue>>)
    ensures
        discovery_issues(*tree).len() > 0 ==> (r matches Err(e) && issues_view(e@)
            == discovery_issues(*tree)),
        discovery_issues(*tree).len() == 0 ==> (r matches Ok(v) && sorted_by_path(
            modules_view(v@),
        ) && modules_view(v@).to_multiset() == discovery_found(*tree).to_multiset()),
{
    match tree {
        SrcTree::Missing { expected } => {
            let mut m = chars_of("mod is missing a `src/` directory (expected ");
            push_str(&mut m, expected.as_str());
            push_str(&mut m, ")");
            let mut issues = Vec::new();
            issues.push(ModIssue::structure(string_from_chars(m.as_slice())));
            assert(issues_view(issues@) =~= discovery_issues(*tree));
            Err(issues)
        },
        SrcTree::NotADirectory { path } => {
            let mut m = chars_of("`src` is not a directory (");
            push_str(&mut m, path.as_str());
            push_str(&mut m, ")");
            let mut issues = Vec::new();
            issues.push(ModIssue::structure(string_from_chars(m.as_slice())));
            assert(issues_view(issues@) =~= discovery_issues(*tree));
            Err(issues)
        },
        SrcTree::Present { path, listing } => {
            let mut found: Vec<DiscoveredModule> = Vec::new();
            let mut issues: Vec<ModIssue> = Vec::new();
            let prefix: Vec<String> = Vec::new();
            assert(strings_view(prefix@) =~= seq![]);
            walk_listing_exec(listing, path, &prefix, &mut found, &mut issues);
            assert(modules_view(found@) =~= discovery_found(*tree));
            if found.len() == 0 && issues.len() == 0 {
                issues.push(ModIssue::structure(string_of_str("no `.cm` files found under `src/`")));
                assert(issues_view(issues@) =~= discovery_issues(*tree));
                return Err(issues);
            }
            assert(issues_view(issues@) =~= discovery_issues(*tree));
            if issues.len() > 0 {
                return Err(issues);
            }
            Ok(sort_modules(found))
        },
    }
}


// ---------------------------------------------------------------------------
// Loading
// ---------------------------------------------------------------------------

/// A discovered module together with its source text.
#[derive(Debug, Clone)]
pub struct LoadedModule {
    pub module_segments: Vec<String>,
    pub display_path: String,
    pub source: String,
}

pub struct LoadedModuleView {
    pub module_segments: Seq<Seq<char>>,
    pub display_path: Seq<char>,
    pub source: Seq<char>,
}

impl View for LoadedModule {
    type V = LoadedModuleView;

    open spec fn view(&self) -> LoadedModuleView {
        LoadedModuleView {
            module_segments: strings_view(self.module_segments@),
            display_path: self.display_path@,
            source: self.source@,
        }
    }
}

pub open spec fn loaded_view(v: Seq<LoadedModule>) -> Seq<LoadedModuleView> {
    v.map_values(|m: LoadedModule| m@)
}

/// The outcome of loading a mod directory. With any issue, `manifest` and
/// `modules` may be incomplete, and the mod must not be compiled.
#[derive(Debug, Clone)]
pub struct LoadedMod {
    pub manifest: Option<ModManifest>,
    pub modules: Vec<LoadedModule>,
    pub issues: Vec<ModIssue>,
}

/// What was found at the mod's `mod.toml`.
pub enum ManifestFile {
    /// There is no `mod.toml`; `root` is the mod directory's displayable path.
    Missing { root: String },
    /// The file exists but could not be read; the error's text.
    Unreadable { error: String },
    /// The file's text.
    Text(String),
}

/// The issues that the manifest contributes to a load.
pub open spec fn manifest_file_issues(m: ManifestFile) -> Seq<IssueView> {
    match m {
        ManifestFile::Missing { root } => seq![structure_issue("no mod.toml in "@ + root@)],
        ManifestFile::Unreadable { error } => seq![
            file_issue("cannot read mod.toml: "@ + error@, "mod.toml"@),
        ],
        ManifestFile::Text(t) => match spec_parse_manifest(t@) {
            Ok(_) => seq![],
            Err(issues) => issues,
        },
    }
}

pub open spec fn manifest_file_value(m: ManifestFile) -> Option<ManifestView> {
    match m {
        ManifestFile::Text(t) => match spec_parse_manifest(t@) {
            Ok(v) => Some(v),
            Err(_) => None,
        },
        _ => None,
    }
}

/// The modules whose source could be read, in discovery order.
pub open spec fn read_modules(found: Seq<DiscoveredView>, reads: Seq<Result<String, String>>) -> Seq<
    LoadedModuleView,
>
    decreases found.len(),
{
    if found.len() == 0 || reads.len() == 0 {
        seq![]
    } else {
        (match reads[0] {
            Ok(source) => seq![
                LoadedModuleView {
                    module_segments: found[0].module_segments,
                    display_path: found[0].display_path,
                    source: source@,
                },
            ],
            Err(_) => seq![],
        }) + read_modules(found.drop_first(), reads.drop_first())
    }
}

/// One issue per module whose source could not be read, in discovery order.
pub open spec fn read_issues(found: Seq<DiscoveredView>, reads: Seq<Result<String, String>>) -> Seq<
    IssueView,
>
    decreases found.len(),
{
    if found.len() == 0 || reads.len() == 0 {
        seq![]
    } else {
        (match reads[0] {
            Ok(_) => seq![],
            Err(e) => seq![file_issue("cannot read module: "@ + e@, found[0].display_path)],
        }) + read_issues(found.drop_first(), reads.drop_first())
    }
}

fn copy_string(s: &String) -> (r: String)
    ensures
        r@ == s@,
{
    String::from_str(s.as_str())
}

/// A discovery outcome by its views.
pub open spec fn discovery_view(d: Result<Vec<DiscoveredModule>, Vec<ModIssue>>) -> Result<
    Seq<DiscoveredView>,
    Seq<IssueView>,
> {
    match d {
        Ok(found) => Ok(modules_view(found@)),
        Err(issues) => Err(issues_view(issues@)),
    }
}

/// The issues of a load: the manifest's, then the discovery issues or one
/// per module whose source could not be read.
pub open spec fn load_issues(
    manifest: ManifestFile,
    discovery: Result<Seq<DiscoveredView>, Seq<IssueView>>,
    reads: Seq<Result<String, String>>,
) -> Seq<IssueView> {
    manifest_file_issues(manifest) + match discovery {
        Ok(found) => read_issues(found, reads),
        Err(issues) => issues,
    }
}

/// The modules of a load: those discovered whose source could be read.
pub open spec fn load_modules(
    discovery: Result<Seq<DiscoveredView>, Seq<IssueView>>,
    reads: Seq<Result<String, String>>,
) -> Seq<LoadedModuleView> {
    match discovery {
        Ok(found) => read_modules(found, reads),
        Err(_) => seq![],
    }
}

/// Combines what loading a mod directory found: the manifest first, then
/// either the discovery issues or, per discovered module, its source or an
/// issue for the read that failed. `reads[i]` is the outcome of reading the
/// `i`-th discovered module.
pub fn load_mod(
    manifest: &ManifestFile,
    discovery: Result<Vec<DiscoveredModule>, Vec<ModIssue>>,
    reads: Vec<Result<String, String>>,
) -> (r: LoadedMod)
    requires
        discovery matches Ok(found) ==> reads@.len() == found@.len(),
    ensures
        (match r.manifest {
            Some(m) => Some(m@),
            None => None,
        }) == manifest_file_value(*manifest),
        issues_view(r.issues@) == load_issues(*manifest, discovery_view(discovery), reads@),
        loaded_view(r.modules@) == load_modules(discovery_view(discovery), reads@),
{
    let mut issues: Vec<ModIssue> = Vec::new();
    let parsed = match manifest {
        ManifestFile::Missing { root } => {
            let mut m = chars_of("no mod.toml in ");
            push_str(&mut m, root.as_str());
            issues.push(ModIssue::structure(string_from_chars(m.as_slice())));
            None
        },
        ManifestFile::Unreadable { error } => {
            let mut m = chars_of("cannot read mod.toml: ");
            push_str(&mut m, error.as_str());
            issues.push(
                ModIssue::at_file(string_from_chars(m.as_slice()), String::from_str("mod.toml")),
            );
            None
        },
        ManifestFile::Text(text) => match parse_manifest(text.as_str()) {
            Ok(parsed) => Some(parsed),
            Err(found_issues) => {
                issues = found_issues;
                None
            },
        },
    };
    assert(issues_view(issues@) =~= manifest_file_issues(*manifest));
    let ghost head = issues_view(issues@);
    let mut modules: Vec<LoadedModule> = Vec::new();
    match discovery {
        Ok(found) => {
            let ghost fv = modules_view(found@);
            let mut k: usize = 0;
            while k < found.len()
                invariant
                    fv == modules_view(found@),
                    reads@.len() == found@.len(),
                    k <= found@.len(),
                    issues_view(issues@) == head + read_issues(fv.take(k as int), reads@.take(
                        k as int,
                    )),
                    loaded_view(modules@) == read_modules(fv.take(k as int), reads@.take(k as int)),
                decreases found.len() - k,
            {
                proof {
                    lemma_read_split(fv, reads@, k as int);
                }
                let ghost before_i = issues_view(issues@);
                let ghost before_m = loaded_view(modules@);
                match &reads[k] {
                    Ok(source) => {
                        let item = LoadedModule {
                            module_segments: copy_strings(&found[k].module_segments),
                            display_path: copy_string(&found[k].display_path),
                            source: copy_string(source),
                        };
                        modules.push(item);
                        assert(loaded_view(modules@) =~= before_m + seq![item@]);
                        assert(issues_view(issues@) =~= before_i + seq![]);
                    },
                    Err(error) => {
                        let mut m = chars_of("cannot read module: ");
                        push_str(&mut m, error.as_str());
                        let item = ModIssue::at_file(
                            string_from_chars(m.as_slice()),
                            copy_string(&found[k].display_path),
                        );
                        issues.push(item);
                        assert(issues_view(issues@) =~= before_i + seq![item@]);
                        assert(loaded_view(modules@) =~= before_m + seq![]);
                    },
                }
                k += 1;
            }
            assert(fv.take(k as int) =~= fv);
            assert(reads@.take(k as int) =~= reads@);
        },
        Err(discovery_issues) => {
            let ghost before = issues_view(issues@);
            let mut k: usize = 0;
            while k < discovery_issues.len()
                invariant
                    k <= discovery_issues@.len(),
                    issues_view(issues@) == before + issues_view(discovery_issues@).take(k as int),
                decreases discovery_issues.len() - k,
            {
                let file = match &discovery_issues[k].file {
                    Some(f) => Some(copy_string(f)),
                    None => None,
                };
                let item = ModIssue {
                    message: copy_string(&discovery_issues[k].message),
                    file,
                    line: discovery_issues[k].line,
                };
                let ghost b = issues_view(issues@);
                issues.push(item);
                assert(issues_view(issues@) =~= b.push(item@));
                k += 1;
                assert(issues_view(issues@) =~= before + issues_view(discovery_issues@).take(
                    k as int,
                ));
            }
            assert(issues_view(discovery_issues@).take(k as int) =~= issues_view(discovery_issues@));
            assert(loaded_view(modules@) =~= seq![]);
        },
    }
    LoadedMod { manifest: parsed, modules, issues }
}

/// With one read per module, no read issue arises exactly when every read
/// succeeded, and then every module is kept, in order, with its source.
proof fn lemma_reads_all_succeed(found: Seq<DiscoveredView>, reads: Seq<Result<String, String>>)
    requires
        reads.len() == found.len(),
    ensures
        read_issues(found, reads).len() == 0 <==> forall|i: int| 0 <= i < reads.len() ==> #[trigger] reads[i] is Ok,
        read_issues(found, reads).len() == 0 ==> read_modules(found, reads).len() == found.len() && forall|i: int|
            0 <= i < found.len() ==> #[trigger] read_modules(found, reads)[i] == (LoadedModuleView {
                module_segments: found[i].module_segments,
                display_path: found[i].display_path,
                source: reads[i]->Ok_0@,
            }),
    decreases found.len(),
{
    if found.len() > 0 {
        let f1 = found.drop_first();
        let r1 = reads.drop_first();
        lemma_reads_all_succeed(f1, r1);
        assert forall|i: int| 1 <= i < reads.len() implies #[trigger] reads[i] == r1[i - 1] by {}
        if read_issues(found, reads).len() == 0 {
            assert(reads[0] is Ok);
            assert forall|i: int| 0 <= i < reads.len() implies #[trigger] reads[i] is Ok by {
                if i > 0 {
                    assert(r1[i - 1] is Ok);
                }
            }
            let head = seq![
                LoadedModuleView {
                    module_segments: found[0].module_segments,
                    display_path: found[0].display_path,
                    source: reads[0]->Ok_0@,
                },
            ];
            assert(read_modules(found, reads) == head + read_modules(f1, r1));
            assert forall|i: int| 0 <= i < found.len() implies #[trigger] read_modules(found, reads)[i]
                == (LoadedModuleView {
                module_segments: found[i].module_segments,
                display_path: found[i].display_path,
                source: reads[i]->Ok_0@,
            }) by {
                if i > 0 {
                    assert(read_modules(found, reads)[i] == read_modules(f1, r1)[i - 1]);
                    assert(f1[i - 1] == found[i]);
                }
            }
        } else if forall|i: int| 0 <= i < reads.len() ==> #[trigger] reads[i] is Ok {
            assert(reads[0] is Ok);
            assert forall|i: int| 0 <= i < r1.len() implies #[trigger] r1[i] is Ok by {
                assert(reads[i + 1] is Ok);
            }
        }
    }
}

/// A load has no issue exactly when the manifest reads and parses, the
/// discovery of the module tree succeeds and every module's source reads.
/// Then the manifest is the parsed one and the modules are the discovered
/// ones, in module-path order, each with the text that was read for it.
pub proof fn lemma_load_is_clean_exactly_when_each_part_is(
    manifest: ManifestFile,
    tree: SrcTree,
    discovery: Result<Seq<DiscoveredView>, Seq<IssueView>>,
    reads: Seq<Result<String, String>>,
)
    requires
        discovery_issues(tree).len() > 0 ==> discovery == Err::<Seq<DiscoveredView>, Seq<IssueView>>(
            discovery_issues(tree),
        ),
        discovery_issues(tree).len() == 0 ==> (discovery matches Ok(found) && sorted_by_path(found)
            && found.to_multiset() == discovery_found(tree).to_multiset() && reads.len() == found.len()),
    ensures
        load_issues(manifest, discovery, reads).len() == 0 <==> {
            &&& (manifest matches ManifestFile::Text(t) && spec_parse_manifest(t@) is Ok)
            &&& discovery_issues(tree).len() == 0
            &&& forall|i: int| 0 <= i < reads.len() ==> #[trigger] reads[i] is Ok
        },
        load_issues(manifest, discovery, reads).len() == 0 ==> {
            &&& (manifest matches ManifestFile::Text(t) && manifest_file_value(manifest) == Some(
                spec_parse_manifest(t@)->Ok_0,
            ))
            &&& (discovery matches Ok(found) && sorted_by_path(found) && found.to_multiset()
                == discovery_found(tree).to_multiset() && load_modules(discovery, reads).len()
                == found.len() && forall|i: int|
                0 <= i < found.len() ==> #[trigger] load_modules(discovery, reads)[i] == (LoadedModuleView {
                    module_segments: found[i].module_segments,
                    display_path: found[i].display_path,
                    source: reads[i]->Ok_0@,
                }))
        },
{
    let mi = manifest_file_issues(manifest);
    assert(mi.len() == 0 <==> (manifest matches ManifestFile::Text(t) && spec_parse_manifest(t@) is Ok));
    match discovery {
        Ok(found) => {
            lemma_reads_all_succeed(found, reads);
        },
        Err(issues) => {},
    }
}

proof fn lemma_read_split(found: Seq<DiscoveredView>, reads: Seq<Result<String, String>>, k: int)
    requires
        0 <= k < found.len(),
        found.len() == reads.len(),
    ensures
        read_issues(found.take(k + 1), reads.take(k + 1)) == read_issues(found.take(k), reads.take(k))
            + (match reads[k] {
            Ok(_) => seq![],
            Err(e) => seq![file_issue("cannot read module: "@ + e@, found[k].display_path)],
        }),
        read_modules(found.take(k + 1), reads.take(k + 1)) == read_modules(
            found.take(k),
            reads.take(k),
        ) + (match reads[k] {
            Ok(source) => seq![
                LoadedModuleView {
                    module_segments: found[k].module_segments,
                    display_path: found[k].display_path,
                    source: source@,
                },
            ],
            Err(_) => seq![],
        }),
    decreases k,
{
    if k == 0 {
        assert(found.take(1).drop_first() =~= seq![]);
        assert(reads.take(1).drop_first() =~= seq![]);
        assert(found.take(0) =~= seq![]);
        assert(reads.take(1)[0] == reads[0]);
        assert(found.take(1)[0] == found[0]);
        assert(read_issues(found.take(1).drop_first(), reads.take(1).drop_first()) == Seq::<IssueView>::empty());
        assert(read_modules(found.take(1).drop_first(), reads.take(1).drop_first()) == Seq::<LoadedModuleView>::empty());
        assert(read_issues(found.take(1), reads.take(1)) =~= (match reads[0] {
            Ok(_) => seq![],
            Err(e) => seq![file_issue("cannot read module: "@ + e@, found[0].display_path)],
        }));
        assert(read_modules(found.take(1), reads.take(1)) =~= (match reads[0] {
            Ok(source) => seq![
                LoadedModuleView {
                    module_segments: found[0].module_segments,
                    display_path: found[0].display_path,
                    source: source@,
                },
            ],
            Err(_) => seq![],
        }));
    } else {
        lemma_read_split(found.drop_first(), reads.drop_first(), k - 1);
        assert(found.take(k + 1).drop_first() =~= found.drop_first().take(k));
        assert(reads.take(k + 1).drop_first() =~= reads.drop_first().take(k));
        assert(found.take(k).drop_first() =~= found.drop_first().take(k - 1));
        assert(reads.take(k).drop_first() =~= reads.drop_first().take(k - 1));
        assert(found.drop_first()[k - 1] == found[k]);
        assert(reads.drop_first()[k - 1] == reads[k]);
    }
}


// ---------------------------------------------------------------------------
// Assembly and span attribution
// ---------------------------------------------------------------------------

/// One module's character range inside the assembled program text.
#[derive(Debug, Clone)]
pub struct ModuleRange {
    pub module_segments: Vec<String>,
    pub display_path: String,
    /// Inclusive start offset of the module's text in the assembled text.
    pub start: usize,
    /// Exclusive end offset (start + source length).
    pub end: usize,
}

pub struct RangeView {
    pub module_segments: Seq<Seq<char>>,
    pub display_path: Seq<char>,
    pub start: int,
    pub end: int,
}

impl View for ModuleRange {
    type V = RangeView;

    open spec fn view(&self) -> RangeView {
        RangeView {
            module_segments: strings_view(self.module_segments@),
            display_path: self.display_path@,
            start: self.start as int,
            end: self.end as int,
        }
    }
}

pub open spec fn ranges_view(v: Seq<ModuleRange>) -> Seq<RangeView> {
    v.map_values(|r: ModuleRange| r@)
}

/// The assembled mod text: the module sources joined by blank lines, with
/// the range each module occupies in it.
#[derive(Debug)]
pub struct AssembledProgram {
    pub ranges: Vec<ModuleRange>,
    pub source: String,
}

pub open spec fn module_sources(mods: Seq<LoadedModuleView>) -> Seq<Seq<char>> {
    mods.map_values(|m: LoadedModuleView| m.source)
}

/// The module separator of the assembled text.
pub open spec fn separator() -> Seq<char> {
    seq!['\n', '\n']
}

/// Where the `i`-th module starts in the assembled text.
pub open spec fn range_start(srcs: Seq<Seq<char>>, i: int) -> int {
    if i == 0 {
        0
    } else {
        join(srcs.take(i), separator()).len() + 2int
    }
}

pub open spec fn assembled_ranges(mods: Seq<LoadedModuleView>) -> Seq<RangeView> {
    Seq::new(
        mods.len(),
        |i: int|
            RangeView {
                module_segments: mods[i].module_segments,
                display_path: mods[i].display_path,
                start: range_start(module_sources(mods), i),
                end: range_start(module_sources(mods), i) + mods[i].source.len(),
            },
    )
}

proof fn lemma_join_step(parts: Seq<Seq<char>>, i: int, sep: Seq<char>)
    requires
        0 <= i < parts.len(),
    ensures
        join(parts.take(i + 1), sep) == if i == 0 {
            parts[0]
        } else {
            join(parts.take(i), sep) + sep + parts[i]
        },
{
    let t = parts.take(i + 1);
    assert(t.drop_last() =~= parts.take(i));
    assert(t.last() == parts[i]);
}

/// Joining a prefix of the parts gives a prefix of the joined text.
proof fn lemma_join_prefix(parts: Seq<Seq<char>>, i: int, j: int, sep: Seq<char>)
    requires
        0 <= i <= j <= parts.len(),
    ensures
        join(parts.take(i), sep).len() <= join(parts.take(j), sep).len(),
        join(parts.take(j), sep).take(join(parts.take(i), sep).len() as int) == join(
            parts.take(i),
            sep,
        ),
    decreases j - i,
{
    if i == j {
        assert(join(parts.take(j), sep).take(join(parts.take(i), sep).len() as int) =~= join(
            parts.take(i),
            sep,
        ));
    } else {
        lemma_join_prefix(parts, i, j - 1, sep);
        lemma_join_step(parts, j - 1, sep);
        let a = join(parts.take(i), sep);
        let b = join(parts.take(j - 1), sep);
        let c = join(parts.take(j), sep);
        if j - 1 == 0 {
            assert(parts.take(0) =~= seq![]);
            assert(c.take(0) =~= seq![]);
        } else {
            assert(c.take(b.len() as int) =~= b);
            assert(c.take(a.len() as int) =~= b.take(a.len() as int));
        }
    }
}

/// Concatenates the module sources into one program text (modules
/// separated by blank lines) and records each module's range in it.
/// Offsets count characters.
pub fn assemble(modules: &[LoadedModule]) -> (p: AssembledProgram)
    requires
        join(module_sources(loaded_view(modules@)), separator()).len() <= usize::MAX,
    ensures
        p.source@ == join(module_sources(loaded_view(modules@)), separator()),
        ranges_view(p.ranges@) == assembled_ranges(loaded_view(modules@)),
        forall|i: int|
            0 <= i < p.ranges@.len() ==> p.source@.subrange(
                #[trigger] p.ranges@[i].start as int,
                p.ranges@[i].end as int,
            ) == modules@[i].source@,
        forall|i: int|
            0 <= i < p.ranges@.len() - 1 ==> #[trigger] p.ranges@[i + 1].start == p.ranges@[i].end
                + 2,
{
    let ghost mods = loaded_view(modules@);
    let ghost srcs = module_sources(mods);
    let mut source = String::new();
    let mut ranges: Vec<ModuleRange> = Vec::new();
    let mut pos: usize = 0;
    let mut k: usize = 0;
    assert(srcs.take(0) =~= seq![]);
    while k < modules.len()
        invariant
            mods == loaded_view(modules@),
            srcs == module_sources(mods),
            join(srcs, separator()).len() <= usize::MAX,
            k <= modules@.len(),
            source@ == join(srcs.take(k as int), separator()),
            pos == source@.len(),
            ranges_view(ranges@) == assembled_ranges(mods).take(k as int),
        decreases modules.len() - k,
    {
        proof {
            lemma_join_step(srcs, k as int, separator());
            lemma_join_prefix(srcs, k + 1, srcs.len() as int, separator());
            assert(srcs.take(srcs.len() as int) =~= srcs);
            assert(srcs[k as int] == modules@[k as int].source@);
        }
        if k > 0 {
            source.append("\n\n");
            proof {
                reveal_strlit("\n\n");
                assert("\n\n"@ =~= separator());
            }
            pos = pos + 2;
        }
        let start = pos;
        let text = chars_of(modules[k].source.as_str());
        source.append(modules[k].source.as_str());
        pos = pos + text.len();
        let range = ModuleRange {
            module_segments: copy_strings(&modules[k].module_segments),
            display_path: copy_string(&modules[k].display_path),
            start,
            end: pos,
        };
        let ghost before = ranges_view(ranges@);
        ranges.push(range);
        k += 1;
        proof {
            assert(ranges_view(ranges@) =~= before.push(range@));
            assert(range@ == assembled_ranges(mods)[k - 1]);
            assert(ranges_view(ranges@) =~= assembled_ranges(mods).take(k as int));
        }
    }
    assert(srcs.take(k as int) =~= srcs);
    let p = AssembledProgram { ranges, source };
    proof {
        assert forall|i: int| 0 <= i < p.ranges@.len() implies p.source@.subrange(
            #[trigger] p.ranges@[i].start as int,
            p.ranges@[i].end as int,
        ) == modules@[i].source@ by {
            assert(ranges_view(p.ranges@)[i] == assembled_ranges(mods)[i]);
            lemma_join_step(srcs, i, separator());
            lemma_join_prefix(srcs, i + 1, srcs.len() as int, separator());
            let pre = join(srcs.take(i + 1), separator());
            assert(p.source@.take(pre.len() as int) == pre);
            assert(srcs[i] == modules@[i].source@);
            assert(p.source@.subrange(p.ranges@[i].start as int, p.ranges@[i].end as int)
                =~= pre.subrange(p.ranges@[i].start as int, p.ranges@[i].end as int));
            if i > 0 {
                assert(pre =~= join(srcs.take(i), separator()) + separator() + srcs[i]);
            }
            assert(pre.subrange(p.ranges@[i].start as int, p.ranges@[i].end as int) =~= srcs[i]);
        }
        assert forall|i: int| 0 <= i < p.ranges@.len() - 1 implies #[trigger] p.ranges@[i + 1].start
            == p.ranges@[i].end + 2 by {
            assert(ranges_view(p.ranges@)[i] == assembled_ranges(mods)[i]);
            assert(ranges_view(p.ranges@)[i + 1] == assembled_ranges(mods)[i + 1]);
            lemma_join_step(srcs, i, separator());
        }
    }
    p
}

/// Range `i` owns offset `pos`: the last range with the greatest start at or
/// before `pos`.
pub open spec fn is_owner(ranges: Seq<RangeView>, pos: int, i: int) -> bool {
    &&& 0 <= i < ranges.len()
    &&& ranges[i].start <= pos
    &&& forall|j: int| 0 <= j < ranges.len() && ranges[j].start <= pos ==> #[trigger] ranges[j].start <= ranges[i].start
    &&& forall|j: int| i < j < ranges.len() && ranges[j].start <= pos ==> #[trigger] ranges[j].start < ranges[i].start
}

/// `span` translated into the coordinates of `owner` and clamped to it.
pub open spec fn local_span(owner: RangeView, span: crate::diagnostics::Span) -> crate::diagnostics::Span {
    let start = if span.start - owner.start > owner.end - owner.start {
        owner.end - owner.start
    } else {
        span.start - owner.start
    };
    let raw_end = if span.end >= owner.start {
        span.end - owner.start
    } else {
        0
    };
    let end = if raw_end < start {
        start
    } else if raw_end > owner.end - owner.start {
        owner.end - owner.start
    } else {
        raw_end
    };
    crate::diagnostics::Span { start: start as usize, end: end as usize }
}

/// Re-anchors an assembled-text span to the module that owns it: the module
/// range plus the span in that module's own coordinates, clamped into the
/// range (a recovery shape may reach past its module's end, and a span in
/// the blank separator after a module is pinned to that module's end).
pub fn attribute_span(ranges: &[ModuleRange], span: crate::diagnostics::Span) -> (r: Option<
    (&ModuleRange, crate::diagnostics::Span),
>)
    requires
        forall|j: int| 0 <= j < ranges@.len() ==> #[trigger] ranges@[j].start <= ranges@[j].end,
    ensures
        r is None <==> forall|j: int| 0 <= j < ranges@.len() ==> #[trigger] ranges@[j].start > span.start,
        r matches Some((owner, local)) ==> exists|i: int|
            is_owner(ranges_view(ranges@), span.start as int, i) && *owner == #[trigger] ranges@[i] && local
                == local_span(ranges@[i]@, span),
{
    let ghost rv = ranges_view(ranges@);
    let mut best: Option<usize> = None;
    let mut k: usize = 0;
    while k < ranges.len()
        invariant
            rv == ranges_view(ranges@),
            k <= ranges@.len(),
            best is None ==> forall|j: int| 0 <= j < k ==> #[trigger] ranges@[j].start > span.start,
            best matches Some(b) ==> b < k && is_owner(rv.take(k as int), span.start as int, b as int),
        decreases ranges.len() - k,
    {
        let s = ranges[k].start;
        let ghost old_best = best;
        if s <= span.start {
            match best {
                None => {
                    best = Some(k);
                },
                Some(b) => {
                    if s >= ranges[b].start {
                        best = Some(k);
                    }
                },
            }
        }
        proof {
            let t = rv.take(k + 1);
            assert forall|j: int| 0 <= j <= k implies t[j] == #[trigger] rv[j] by {}
            assert(rv[k as int].start == ranges@[k as int].start);
            match best {
                Some(b) => {
                    assert(t[b as int].start == ranges@[b as int].start);
                    assert forall|j: int| 0 <= j < t.len() && t[j].start <= span.start implies #[trigger] t[j].start
                        <= t[b as int].start by {
                        assert(t[j] == rv[j]);
                        assert(rv[j].start == ranges@[j].start);
                        match old_best {
                            Some(ob) => {
                                if j < k {
                                    assert(rv.take(k as int)[j] == rv[j]);
                                    assert(rv.take(k as int)[ob as int] == rv[ob as int]);
                                }
                            },
                            None => {},
                        }
                    }
                    assert forall|j: int| b < j < t.len() && t[j].start <= span.start implies #[trigger] t[j].start
                        < t[b as int].start by {
                        assert(t[j] == rv[j]);
                        match old_best {
                            Some(ob) => {
                                if j < k {
                                    assert(rv.take(k as int)[j] == rv[j]);
                                    assert(rv.take(k as int)[ob as int] == rv[ob as int]);
                                }
                            },
                            None => {},
                        }
                    }
                },
                None => {},
            }
        }
        k += 1;
    }
    assert(rv.take(k as int) =~= rv);
    match best {
        None => None,
        Some(b) => {
            let owner = &ranges[b];
            assert(rv[b as int] == owner@);
            let len = owner.end - owner.start;
            let start = if span.start - owner.start > len {
                len
            } else {
                span.start - owner.start
            };
            let raw_end = if span.end >= owner.start {
                span.end - owner.start
            } else {
                0
            };
            let end = if raw_end < start {
                start
            } else if raw_end > len {
                len
            } else {
                raw_end
            };
            Some((owner, crate::diagnostics::Span::new(start, end)))
        },
    }
}

/// A span inside module `i` of an assembled program is attributed back to
/// module `i`, at the same offset from the module's start.
pub proof fn lemma_assembled_span_attributes_to_its_module(
    mods: Seq<LoadedModuleView>,
    i: int,
    span: crate::diagnostics::Span,
)
    requires
        0 <= i < mods.len(),
        assembled_ranges(mods)[i].start <= span.start <= span.end <= assembled_ranges(mods)[i].end,
    ensures
        is_owner(assembled_ranges(mods), span.start as int, i),
        local_span(assembled_ranges(mods)[i], span) == (crate::diagnostics::Span {
            start: (span.start - assembled_ranges(mods)[i].start) as usize,
            end: (span.end - assembled_ranges(mods)[i].start) as usize,
        }),
{
    let rs = assembled_ranges(mods);
    let srcs = module_sources(mods);
    assert forall|a: int, b: int| 0 <= a < b < mods.len() implies #[trigger] rs[a].end + 2 <= #[trigger] rs[b].start by {
        lemma_starts_grow(mods, a, b);
    }
    assert forall|j: int| 0 <= j < rs.len() && rs[j].start <= span.start implies #[trigger] rs[j].start
        <= rs[i].start by {
        if j > i {
            assert(rs[i].end + 2 <= rs[j].start);
        } else if j < i {
            assert(rs[j].end + 2 <= rs[i].start);
        }
    }
    assert forall|j: int| i < j < rs.len() && rs[j].start <= span.start implies #[trigger] rs[j].start
        < rs[i].start by {
        assert(rs[i].end + 2 <= rs[j].start);
    }
}

proof fn lemma_starts_grow(mods: Seq<LoadedModuleView>, a: int, b: int)
    requires
        0 <= a < b < mods.len(),
    ensures
        assembled_ranges(mods)[a].end + 2 <= assembled_ranges(mods)[b].start,
        assembled_ranges(mods)[a].start <= assembled_ranges(mods)[a].end,
    decreases b - a,
{
    let srcs = module_sources(mods);
    let rs = assembled_ranges(mods);
    lemma_join_step(srcs, a, separator());
    if b == a + 1 {
        lemma_join_step(srcs, b, separator());
        assert(srcs[a] == mods[a].source);
    } else {
        lemma_starts_grow(mods, a + 1, b);
        lemma_starts_grow(mods, a, a + 1);
    }
}

// ---------------------------------------------------------------------------
// Imports
// ---------------------------------------------------------------------------

/// An `import` statement: its dotted path and the statement's span.
#[derive(Debug, Clone)]
pub struct ImportSite {
    pub path: Vec<String>,
    pub span: crate::diagnostics::Span,
}

pub struct ImportView {
    pub path: Seq<Seq<char>>,
    pub span: crate::diagnostics::Span,
}

impl View for ImportSite {
    type V = ImportView;

    open spec fn view(&self) -> ImportView {
        ImportView { path: strings_view(self.path@), span: self.span }
    }
}

pub open spec fn imports_view(v: Seq<ImportSite>) -> Seq<ImportView> {
    v.map_values(|i: ImportSite| i@)
}

pub open spec fn is_self_rooted(path: Seq<Seq<char>>) -> bool {
    path.len() > 0 && path[0] == "self"@
}

/// Some module of the mod has the module path `path` names.
pub open spec fn names_a_module(path: Seq<Seq<char>>, mods: Seq<LoadedModuleView>) -> bool {
    exists|j: int|
        0 <= j < mods.len() && (#[trigger] mods[j]).module_segments.len() == path.len()
            && mods[j].module_segments.skip(1) == path.skip(1)
}

pub open spec fn unresolved_import_message(path: Seq<Seq<char>>) -> Seq<char> {
    "import of `"@ + join(path, "."@)
        + "` does not match any module in this mod (expected a file at `src/"@ + join(
        path.skip(1),
        "/"@,
    ) + ".cm`)"@
}

/// One diagnostic per `self`-rooted import that names no module of the mod,
/// in import order.
pub open spec fn unresolved_imports(imports: Seq<ImportView>, mods: Seq<LoadedModuleView>) -> Seq<
    crate::diagnostics::DiagnosticView,
>
    decreases imports.len(),
{
    if imports.len() == 0 {
        seq![]
    } else {
        let last = imports.last();
        unresolved_imports(imports.drop_last(), mods) + if is_self_rooted(last.path) && !names_a_module(
            last.path,
            mods,
        ) {
            seq![
                crate::diagnostics::DiagnosticView {
                    message: unresolved_import_message(last.path),
                    span: last.span,
                },
            ]
        } else {
            seq![]
        }
    }
}

pub open spec fn self_import_message(path: Seq<Seq<char>>) -> Seq<char> {
    "cannot import `"@ + join(path, "."@)
        + "` outside of a mod; `self` names the internal tree of a mod directory with a mod.toml"@
}

/// One diagnostic per `self`-rooted import, in import order.
pub open spec fn standalone_self_imports(imports: Seq<ImportView>) -> Seq<
    crate::diagnostics::DiagnosticView,
>
    decreases imports.len(),
{
    if imports.len() == 0 {
        seq![]
    } else {
        let last = imports.last();
        standalone_self_imports(imports.drop_last()) + if is_self_rooted(last.path) {
            seq![
                crate::diagnostics::DiagnosticView {
                    message: self_import_message(last.path),
                    span: last.span,
                },
            ]
        } else {
            seq![]
        }
    }
}

fn path_is_self_rooted(path: &Vec<String>) -> (b: bool)
    ensures
        b == is_self_rooted(strings_view(path@)),
{
    if path.len() == 0 {
        return false;
    }
    let first = chars_of(path[0].as_str());
    chars_eq_str(first.as_slice(), "self")
}

/// The segments of `a` and `b` from index 1 on are equal.
fn same_tail(a: &Vec<String>, b: &Vec<String>) -> (r: bool)
    requires
        a@.len() == b@.len(),
        a@.len() > 0,
    ensures
        r == (strings_view(a@).skip(1) == strings_view(b@).skip(1)),
{
    let mut k: usize = 1;
    while k < a.len()
        invariant
            a@.len() == b@.len(),
            1 <= k <= a@.len(),
            forall|j: int| 1 <= j < k ==> a@[j]@ == b@[j]@,
        decreases a.len() - k,
    {
        let x = chars_of(a[k].as_str());
        let y = chars_of(b[k].as_str());
        if !chars_eq(x.as_slice(), y.as_slice()) {
            assert(strings_view(a@).skip(1)[k - 1] != strings_view(b@).skip(1)[k - 1]);
            return false;
        }
        k += 1;
    }
    assert(strings_view(a@).skip(1) =~= strings_view(b@).skip(1));
    true
}

fn path_names_a_module(path: &Vec<String>, modules: &[LoadedModule]) -> (b: bool)
    requires
        path@.len() > 0,
    ensures
        b == names_a_module(strings_view(path@), loaded_view(modules@)),
{
    let ghost mods = loaded_view(modules@);
    let mut j: usize = 0;
    while j < modules.len()
        invariant
            mods == loaded_view(modules@),
            path@.len() > 0,
            j <= modules@.len(),
            forall|i: int|
                0 <= i < j ==> !((#[trigger] mods[i]).module_segments.len() == path@.len()
                    && mods[i].module_segments.skip(1) == strings_view(path@).skip(1)),
        decreases modules.len() - j,
    {
        assert(mods[j as int] == modules@[j as int]@);
        if modules[j].module_segments.len() == path.len() && same_tail(
            &modules[j].module_segments,
            path,
        ) {
            return true;
        }
        j += 1;
    }
    false
}

fn push_diag(diags: &mut Vec<crate::diagnostics::Diagnostic>, message: Vec<char>, span: crate::diagnostics::Span)
    ensures
        crate::diagnostics::diagnostics_view(final(diags)@) == crate::diagnostics::diagnostics_view(
            old(diags)@,
        ).push(crate::diagnostics::DiagnosticView { message: message@, span }),
{
    let d = crate::diagnostics::Diagnostic::parse(string_from_chars(message.as_slice()), span);
    diags.push(d);
    assert(crate::diagnostics::diagnostics_view(diags@) =~= crate::diagnostics::diagnostics_view(
        old(diags)@,
    ).push(d@));
}

/// Checks `self`-rooted imports against the modules of the mod: an import
/// naming no module is a diagnostic at the import site. Imports with any
/// other root name host schema namespaces and are accepted here.
pub fn validate_imports(imports: &[ImportSite], modules: &[LoadedModule]) -> (r: Vec<
    crate::diagnostics::Diagnostic,
>)
    ensures
        crate::diagnostics::diagnostics_view(r@) == unresolved_imports(
            imports_view(imports@),
            loaded_view(modules@),
        ),
{
    let ghost iv = imports_view(imports@);
    let mut diags: Vec<crate::diagnostics::Diagnostic> = Vec::new();
    let mut k: usize = 0;
    assert(iv.take(0) =~= seq![]);
    assert(crate::diagnostics::diagnostics_view(diags@) =~= seq![]);
    while k < imports.len()
        invariant
            iv == imports_view(imports@),
            k <= imports@.len(),
            crate::diagnostics::diagnostics_view(diags@) == unresolved_imports(
                iv.take(k as int),
                loaded_view(modules@),
            ),
        decreases imports.len() - k,
    {
        let site = &imports[k];
        assert(iv.take(k + 1).drop_last() =~= iv.take(k as int));
        assert(iv.take(k + 1).last() == site@);
        if path_is_self_rooted(&site.path) && !path_names_a_module(&site.path, modules) {
            let mut m = chars_of("import of `");
            let dotted = join_strings(site.path.as_slice(), 0, ".");
            assert(strings_view(site.path@).skip(0) =~= strings_view(site.path@));
            push_chars(&mut m, dotted.as_slice());
            push_str(&mut m, "` does not match any module in this mod (expected a file at `src/");
            let relative = join_strings(site.path.as_slice(), 1, "/");
            push_chars(&mut m, relative.as_slice());
            push_str(&mut m, ".cm`)");
            push_diag(&mut diags, m, site.span);
        }
        k += 1;
    }
    assert(iv.take(k as int) =~= iv);
    diags
}

/// Diagnostics for imports in a single-file build: a `self`-rooted import
/// has no mod tree to resolve against, so it is always an error; imports
/// with other roots remain legal.
pub fn standalone_import_diagnostics(imports: &[ImportSite]) -> (r: Vec<crate::diagnostics::Diagnostic>)
    ensures
        crate::diagnostics::diagnostics_view(r@) == standalone_self_imports(imports_view(imports@)),
{
    let ghost iv = imports_view(imports@);
    let mut diags: Vec<crate::diagnostics::Diagnostic> = Vec::new();
    let mut k: usize = 0;
    assert(iv.take(0) =~= seq![]);
    assert(crate::diagnostics::diagnostics_view(diags@) =~= seq![]);
    while k < imports.len()
        invariant
            iv == imports_view(imports@),
            k <= imports@.len(),
            crate::diagnostics::diagnostics_view(diags@) == standalone_self_imports(iv.take(k as int)),
        decreases imports.len() - k,
    {
        let site = &imports[k];
        assert(iv.take(k + 1).drop_last() =~= iv.take(k as int));
        assert(iv.take(k + 1).last() == site@);
        if path_is_self_rooted(&site.path) {
            let mut m = chars_of("cannot import `");
            let dotted = join_strings(site.path.as_slice(), 0, ".");
            assert(strings_view(site.path@).skip(0) =~= strings_view(site.path@));
            push_chars(&mut m, dotted.as_slice());
            push_str(
                &mut m,
                "` outside of a mod; `self` names the internal tree of a mod directory with a mod.toml",
            );
            push_diag(&mut diags, m, site.span);
        }
        k += 1;
    }
    assert(iv.take(k as int) =~= iv);
    diags
}

/// A bare manifest key is read whole: it is the longest run of ASCII
/// letters, digits, `_` and `-` at the start of the text, so a key such as
/// `box2d` keeps its digits.
pub proof fn lemma_bare_key_is_the_longest_key_run(u: Seq<char>)
    requires
        u.len() > 0,
        ('a' <= u[0] && u[0] <= 'z') || ('A' <= u[0] && u[0] <= 'Z') || ('0' <= u[0] && u[0] <= '9') || u[0]
            == '_' || u[0] == '-',
    ensures
        spec_scan_key(u) matches Some((k, n)) && 0 < n <= u.len() && k == u.take(n) && (forall|i: int|
            0 <= i < n ==> ('a' <= #[trigger] u[i] && u[i] <= 'z') || ('A' <= u[i] && u[i] <= 'Z') || ('0'
                <= u[i] && u[i] <= '9') || u[i] == '_' || u[i] == '-') && (n < u.len() ==> !(('a' <= u[n]
            && u[n] <= 'z') || ('A' <= u[n] && u[n] <= 'Z') || ('0' <= u[n] && u[n] <= '9') || u[n] == '_'
            || u[n] == '-')),
{
    lemma_leading_count_bound(u, bare_key_pred());
    let n = leading_count(u, bare_key_pred()) as int;
    assert(bare_key_pred()(u[0]));
    assert(n > 0) by {
        assert(u.len() > 0 && bare_key_pred()(u[0]));
    }
    assert forall|i: int| 0 <= i < n implies ('a' <= #[trigger] u[i] && u[i] <= 'z') || ('A' <= u[i] && u[i]
        <= 'Z') || ('0' <= u[i] && u[i] <= '9') || u[i] == '_' || u[i] == '-' by {
        assert(bare_key_pred()(u[i]));
    }
    if n < u.len() {
        assert(!bare_key_pred()(u[n]));
    }
}

} // verus!
