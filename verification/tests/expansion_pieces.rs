use cme_compiler::mega::expand::{ExpandOptions, line_column};
use cme_compiler::mega::matcher::{LineMap, MatchFailure, MatchRegion, char_utf8_width};
use cme_compiler::mega::template::escape_checkmate;
use cme_compiler::parser::unescape_interp_literal;

#[test]
fn escape_checkmate_escapes_quotes_backslashes_and_control_characters() {
    assert_eq!(escape_checkmate("say \"hi\"\\\n\t\r!"), "say \\\"hi\\\"\\\\\\n\\t\\r!");
    assert_eq!(escape_checkmate("plain"), "plain");
}

#[test]
fn unescaping_undoes_escaping_without_carriage_returns() {
    for text in ["", "a \"quoted\" word", "back\\slash", "two\nlines\tand tabs", "ünïcödé"] {
        assert_eq!(unescape_interp_literal(&escape_checkmate(text)), text);
    }
    // A carriage return escapes to `\r`, which chunk unescaping keeps as is.
    assert_eq!(unescape_interp_literal(&escape_checkmate("\r")), "\\r");
}

#[test]
fn line_column_counts_lines_and_columns_from_one() {
    let source = "ab\ncd\r\nef";
    assert_eq!(line_column(source, 0), (1, 1));
    assert_eq!(line_column(source, 1), (1, 2));
    assert_eq!(line_column(source, 3), (2, 1));
    assert_eq!(line_column(source, 5), (2, 3));
    assert_eq!(line_column(source, 7), (3, 1));
    // Offsets past the end clamp to it.
    assert_eq!(line_column(source, 100), (3, 3));
}

#[test]
fn match_region_maps_characters_to_byte_offsets() {
    let source = "x = é€😀!";
    let region = &source[4..];
    let input = MatchRegion::new(source, 4, region);
    assert_eq!(input.base, 4);
    assert_eq!(input.chars, vec!['é', '€', '😀', '!']);
    assert_eq!(input.byte_offsets, vec![0, 2, 5, 9]);
    assert_eq!(input.byte_len, region.len());
    assert_eq!(input.source, source);
    assert_eq!(char_utf8_width('a'), 1);
    assert_eq!(char_utf8_width('😀'), 4);
}

#[test]
fn line_map_tracks_columns_with_tab_stops_and_line_ends() {
    let chars: Vec<char> = "a\tb\r\ncd\ne".chars().collect();
    let map = LineMap::build(&chars);
    // `a` ends at column 1, the tab jumps to 8, `b` to 9; terminators keep
    // the column before them.
    assert_eq!(map.col_of, vec![1, 8, 9, 9, 9, 1, 2, 2, 1]);
    assert_eq!(map.line_ends, vec![4, 8, 9]);
    assert_eq!(map.col(2), 9);
    assert_eq!(map.col(100), 0);
    assert_eq!(map.line_end(0), 4);
    assert_eq!(map.line_end(4), 4);
    assert_eq!(map.next_line_start(4), 8);
    assert_eq!(map.next_line_start(8), 9);
    assert_eq!(map.next_line_start(9), 9);
}

#[test]
fn expansion_defaults_to_no_provenance() {
    let options = ExpandOptions::default();
    assert!(!options.provenance);
    let failure = MatchFailure { position: 3, byte_offset: 5, message: "no match".to_string() };
    assert_eq!(failure.position, 3);
    assert_eq!(failure.byte_offset, 5);
}

use cme_compiler::diagnostics::Span;
use cme_compiler::mega::expand::{apply_edits, count_newlines, decimal, expansion_stack, provenance_edits};
use cme_compiler::mega::scan::{InvocationScan, scan_magic};

const PROVENANCE_SOURCE: &str = r#"
grammar test {
    rule thing { $word w }
}

magic runIt(test.thing as t) {
    "x"
}

str a = magic(runIt) {
    alpha
}

str b = magic(runIt) { beta }
"#;

#[test]
fn provenance_edits_annotate_root_sites_with_their_source_position() {
    let (scan, errors) = scan_magic(PROVENANCE_SOURCE);
    assert!(errors.is_empty(), "{errors:?}");
    let edits = provenance_edits(PROVENANCE_SOURCE, &scan);
    assert_eq!(edits.len(), 2);
    assert_eq!(edits[0].1, "// @ magic(runIt) src:10:9\n");
    assert_eq!(edits[1].1, "// @ magic(runIt) src:14:9\n");
    // Each comment is inserted at the start of its invocation's line.
    let line_a = PROVENANCE_SOURCE.find("str a").unwrap();
    assert_eq!(edits[0].0, Span::new(line_a, line_a));
    let annotated = apply_edits(PROVENANCE_SOURCE, &edits);
    assert!(annotated.contains("// @ magic(runIt) src:10:9\nstr a = magic(runIt) {"));
    assert!(annotated.contains("// @ magic(runIt) src:14:9\nstr b = magic(runIt) { beta }"));
    let stripped = annotated
        .replace("// @ magic(runIt) src:10:9\n", "")
        .replace("// @ magic(runIt) src:14:9\n", "");
    assert_eq!(stripped, PROVENANCE_SOURCE);
}

fn invocation(name: &str, start: usize, end: usize) -> InvocationScan {
    InvocationScan {
        name: name.to_string(),
        span: Span::new(start, end),
        header_span: Span::new(start, start + 1),
        region_span: Span::new(start + 1, end - 1),
        region: String::new(),
    }
}

#[test]
fn only_uncontained_invocations_get_provenance() {
    let mut scan = scan_magic("").0;
    scan.invocations.push(invocation("outer", 0, 20));
    scan.invocations.push(invocation("inner", 5, 10));
    let source = "x".repeat(30);
    let edits = provenance_edits(&source, &scan);
    assert_eq!(edits.len(), 1);
    assert_eq!(edits[0].1, "// @ magic(outer) src:1:1\n");
}

#[test]
fn expansion_stack_lists_the_containment_chain_outermost_first() {
    let invocations = vec![
        invocation("b", 10, 90),
        invocation("a", 0, 100),
        invocation("c", 20, 30),
        invocation("sibling", 150, 160),
    ];
    let stack = expansion_stack(&invocations);
    let names: Vec<&str> = stack.iter().map(|invocation| invocation.name.as_str()).collect();
    assert_eq!(names, vec!["a", "b", "c"]);
    // The deepest site is the first that contains no other invocation.
    let reordered = vec![
        invocation("sibling", 150, 160),
        invocation("a", 0, 100),
        invocation("c", 20, 30),
    ];
    let stack = expansion_stack(&reordered);
    let names: Vec<&str> = stack.iter().map(|invocation| invocation.name.as_str()).collect();
    assert_eq!(names, vec!["sibling"]);
    assert!(expansion_stack(&[]).is_empty());
}

#[test]
fn apply_edits_goes_from_the_highest_position_down() {
    let text = "0123456789";
    let edits = vec![
        (Span::new(2, 4), "ab".to_string()),
        (Span::new(8, 8), "<".to_string()),
        (Span::new(8, 10), "XY".to_string()),
        (Span::new(0, 0), "^".to_string()),
    ];
    // The insertion at 8 lands before the replacement starting there.
    assert_eq!(apply_edits(text, &edits), "^01ab4567<XY");
    assert_eq!(apply_edits(text, &[]), text);
}

#[test]
fn count_newlines_counts_line_feeds_inside_the_span() {
    let text = "a\nb\r\nc\n";
    assert_eq!(count_newlines(text, Span::new(0, 7)), 3);
    assert_eq!(count_newlines(text, Span::new(2, 4)), 0);
    assert_eq!(count_newlines(text, Span::new(3, 5)), 1);
}

#[test]
fn decimal_spells_numbers() {
    assert_eq!(decimal(0).into_iter().collect::<String>(), "0");
    assert_eq!(decimal(7).into_iter().collect::<String>(), "7");
    assert_eq!(decimal(1024).into_iter().collect::<String>(), "1024");
    assert_eq!(decimal(usize::MAX).into_iter().collect::<String>(), usize::MAX.to_string());
}

use cme_compiler::mega::expand::check_declaration_order;

#[test]
fn macros_must_be_declared_before_their_invocations() {
    let source = "\nstr v = magic(later) {\n    x\n}\n\nmagic later($word w) {\n    $\"{$w}!\"\n}\n";
    let (scan, errors) = scan_magic(source);
    assert!(errors.is_empty(), "{errors:?}");
    let mut diagnostics = Vec::new();
    check_declaration_order(&scan, &scan.magics, &mut diagnostics);
    assert_eq!(diagnostics.len(), 1);
    assert_eq!(diagnostics[0].message(), "macro `later` must be declared before it is invoked");
    assert_eq!(diagnostics[0].span(), scan.invocations[0].header_span);
}

#[test]
fn invocations_in_a_template_and_after_the_declaration_pass_the_order_check() {
    let source = "\
magic inner($word w) {
    \"[{$w}]\"
}

magic outer($word w) {
    magic(inner) { text }
}

str v = magic(outer) { x }
";
    let (scan, errors) = scan_magic(source);
    assert!(errors.is_empty(), "{errors:?}");
    assert_eq!(scan.invocations.len(), 1);
    let mut diagnostics = Vec::new();
    check_declaration_order(&scan, &scan.magics, &mut diagnostics);
    assert!(diagnostics.is_empty(), "{diagnostics:?}");

    // An invocation inside a declaration's template is exempt even when it
    // names a macro declared later: here `outer` inside `inner`'s template.
    let mut with_nested = scan_magic(source).0;
    with_nested.invocations.push(invocation("outer", 5, 20));
    let mut diagnostics = Vec::new();
    check_declaration_order(&with_nested, &with_nested.magics, &mut diagnostics);
    assert!(diagnostics.is_empty(), "{diagnostics:?}");

    // The same invocation outside every declaration is reported.
    let mut outside = scan_magic(source).0;
    outside.magics.remove(0);
    outside.invocations.push(invocation("outer", 5, 20));
    let mut diagnostics = Vec::new();
    check_declaration_order(&outside, &outside.magics, &mut diagnostics);
    assert_eq!(diagnostics.len(), 1);
    assert_eq!(diagnostics[0].message(), "macro `outer` must be declared before it is invoked");
}

use cme_compiler::mega::expand::strip_declarations;

#[test]
fn stripping_declarations_keeps_every_other_line_in_place() {
    let source = "\
grammar test {
    rule thing { $word w }
}

magic runIt(test.thing as t) {
    \"x\"
}

int x = 1
";
    let stripped = strip_declarations(source);
    assert_eq!(
        stripped,
        "// [megaprogram grammar 'test' removed by expansion]\n\n\n\n\
// [megaprogram magic 'runIt' removed by expansion]\n\n\n\n\
int x = 1\n"
    );
    assert_eq!(stripped.lines().count(), source.lines().count());
    let plain = "int x = 1\n";
    assert_eq!(strip_declarations(plain), plain);
}

use cme_compiler::mega::expand::{RoundDecision, expansion_round};

#[test]
fn a_round_with_no_invocation_is_the_fixpoint() {
    let scan = scan_magic("int x = 1\n").0;
    assert!(matches!(expansion_round(&scan, 0), RoundDecision::Done));
    assert!(matches!(expansion_round(&scan, 500), RoundDecision::Done));
}

#[test]
fn a_round_expands_the_innermost_invocations_side_by_side() {
    let mut scan = scan_magic("").0;
    scan.invocations.push(invocation("outer", 0, 40));
    scan.invocations.push(invocation("inner", 10, 20));
    scan.invocations.push(invocation("sibling", 50, 60));
    match expansion_round(&scan, 0) {
        RoundDecision::Expand(chosen) => assert_eq!(chosen, vec![1, 2]),
        other => panic!("unexpected round: {other:?}"),
    }
    // The last round under the cap still expands.
    match expansion_round(&scan, 63) {
        RoundDecision::Expand(chosen) => assert_eq!(chosen, vec![1, 2]),
        other => panic!("unexpected round: {other:?}"),
    }
}

#[test]
fn a_round_past_the_depth_cap_reports_the_expansion_stack() {
    let mut scan = scan_magic("").0;
    scan.invocations.push(invocation("outer", 0, 40));
    scan.invocations.push(invocation("inner", 10, 20));
    match expansion_round(&scan, 64) {
        RoundDecision::DepthExceeded(diagnostic) => {
            assert_eq!(
                diagnostic.message(),
                "expansion depth exceeded the cap of 64; expansion stack:\n  1. magic(outer) at 0..40\n  2. magic(inner) at 10..20"
            );
            assert_eq!(diagnostic.span(), scan.invocations[0].header_span);
        }
        other => panic!("unexpected round: {other:?}"),
    }
}
