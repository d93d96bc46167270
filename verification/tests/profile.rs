use cme_compiler::diagnostics::Span;
use cme_compiler::mega::profile::{
    CommentForm, LexProfile, balance, balance_island, checkmate_scan_profile, comment_len,
    compose, default_profile, parse_profile, string_len, with_default_strings,
};

fn chars(text: &str) -> Vec<char> {
    text.chars().collect()
}

#[test]
fn balance_island_finds_the_matching_closer() {
    let text = chars("a { b } c } d");
    assert_eq!(balance_island(&text, 0, &chars("}")), Some(10));
    // The island's own closer is checked before a brace counts as nesting.
    let text = chars("x}y");
    assert_eq!(balance_island(&text, 0, &chars("}")), Some(1));
    assert_eq!(balance_island(&chars("never closes"), 0, &chars("}")), None);
}

#[test]
fn comment_len_prefers_the_longest_opener() {
    let mut profile = LexProfile::empty();
    profile.comments.push(CommentForm::line("/"));
    profile.comments.push(CommentForm::block("/*", "*/"));
    let text = chars("/* a */ b");
    assert_eq!(comment_len(&text, 0, &profile), Some(7));
    let text = chars("/ line\nnext");
    assert_eq!(comment_len(&text, 0, &profile), Some(6));
    // An unterminated block comment swallows the rest of the text.
    let text = chars("/* open");
    assert_eq!(comment_len(&text, 0, &profile), Some(7));
    assert_eq!(comment_len(&chars("x"), 0, &profile), None);
}

#[test]
fn string_len_stops_at_line_breaks_for_single_line_forms() {
    let profile = checkmate_scan_profile();
    assert_eq!(string_len(&chars("\"ab\" x"), 0, &profile), Some(4));
    assert_eq!(string_len(&chars("\"a\\\"b\" x"), 0, &profile), Some(6));
    assert_eq!(string_len(&chars("don't\nstop"), 3, &profile), None);
    assert_eq!(string_len(&chars("plain"), 0, &profile), None);
}

#[test]
fn balance_skips_strings_and_comments() {
    let profile = checkmate_scan_profile();
    let text = chars("{ \"}\" // }\n { } }");
    assert_eq!(balance(&text, 0, '{', '}', &profile).ok(), Some(16));
    let error = balance(&chars("{ never"), 0, '{', '}', &profile).unwrap_err();
    assert_eq!(error.span, Span::new(0, 1));
    assert_eq!(
        error.message,
        "unclosed `{`: no matching `}` before the end of the file"
    );
}

#[test]
fn default_strings_are_added_only_when_missing() {
    let empty = LexProfile::empty();
    let composed = with_default_strings(&empty);
    assert_eq!(composed.strings.len(), 1);
    assert_eq!(composed.strings[0].quote, '"');
    let scan = checkmate_scan_profile();
    assert_eq!(with_default_strings(&scan).strings.len(), 2);
}

#[test]
fn compose_unions_forms_without_duplicates() {
    let base = default_profile();
    let scan = checkmate_scan_profile();
    let composed = compose(&base, &[&scan, &scan]);
    assert_eq!(composed.comments.len(), 2);
    assert_eq!(composed.strings.len(), 2);
    assert_eq!(composed.strings[0].quote, '"');
    assert_eq!(composed.strings[1].quote, '\'');
}

#[test]
fn parse_profile_reads_skip_comment_and_string_declarations() {
    let body = chars(" skip [ ' ', '\\t' ] comment ( \"--\" ) string ( '\"' multiline ) rule r { \"x\" } ");
    let profile = parse_profile(&body, Span::new(10, 10 + body.len())).unwrap();
    assert!(!profile.is_flow_oriented());
    assert_eq!(profile.comments.len(), 1);
    assert_eq!(profile.comments[0].opener, "--");
    assert_eq!(profile.strings.len(), 1);
    assert!(profile.strings[0].multiline);
}

#[test]
fn parse_profile_errors_point_into_the_body() {
    let body = chars("comment ( 42 )");
    let error = parse_profile(&body, Span::new(100, 100 + body.len())).unwrap_err();
    assert!(error.span().start >= 100 && error.span().start <= 100 + body.len());
    assert_eq!(error.span().start, error.span().end);
}
