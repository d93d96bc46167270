use cme_compiler::diagnostics::Span;
use cme_compiler::mega::pattern::{FragKind, PatKind, Pattern, parse_pattern, parse_rule_declaration};
use cme_compiler::mega::profile::CharItem;

fn chars(text: &str) -> Vec<char> {
    text.chars().collect()
}

fn parse(text: &str) -> Pattern {
    let t = chars(text);
    parse_pattern(&t, Span::new(0, t.len()))
        .unwrap_or_else(|error| panic!("pattern parse failed: {}", error.message()))
}

fn branch_labels(pattern: &Pattern) -> Vec<&str> {
    pattern
        .elems
        .iter()
        .find_map(|element| match &element.kind {
            PatKind::OneOf { branches, .. } => Some(
                branches
                    .iter()
                    .map(|(label, _)| label.as_str())
                    .collect::<Vec<_>>(),
            ),
            _ => None,
        })
        .expect("no top-level oneof")
}

#[test]
fn oneof_branch_labels_survive_a_bare_ruleref_branch() {
    // `number => number` on its own line must not steal the next branch's
    // label as an implicit bind.
    let pattern = parse(
        "oneof {\n null => \"null\"\n bool => oneof { t => \"true\" }\n number => number\n string => $str text\n }",
    );
    assert_eq!(branch_labels(&pattern), vec!["null", "bool", "number", "string"]);
}

#[test]
fn qualified_rule_ref_binds_and_reads_context() {
    let pattern = parse("json.value as v");
    match &pattern.elems[0].kind {
        PatKind::RuleRef { path, ctx, bind } => {
            assert_eq!(path, &["json".to_string(), "value".to_string()]);
            assert_eq!(bind.as_deref(), Some("v"));
            assert!(ctx.is_empty());
        }
        other => panic!("unexpected {:?}", other),
    }
}

#[test]
fn oneof_takes_a_trailing_bind() {
    let pattern = parse("oneof { eq => \"=\", ne => \"!=\" } as op");
    match &pattern.elems[0].kind {
        PatKind::OneOf { branches, bind } => {
            assert_eq!(branches.len(), 2);
            assert_eq!(bind.as_deref(), Some("op"));
        }
        other => panic!("unexpected {:?}", other),
    }
}

#[test]
fn fragments_parse_with_kinds_and_binds() {
    let pattern = parse("\"def\" $word fname \"(\" each sep \",\" { param } as params \")\"");
    assert_eq!(pattern.elems.len(), 5);
    match &pattern.elems[1].kind {
        PatKind::Fragment { kind, bind, .. } => {
            assert!(matches!(kind, FragKind::Word));
            assert_eq!(bind.as_deref(), Some("fname"));
        }
        other => panic!("unexpected {:?}", other),
    }
    match &pattern.elems[3].kind {
        PatKind::Each { sep, bind, .. } => {
            assert!(sep.is_some());
            assert_eq!(bind.as_deref(), Some("params"));
        }
        other => panic!("unexpected {:?}", other),
    }
}

#[test]
fn indent_directly_after_eol_is_rejected() {
    let t = chars("eol indent { \"x\" }");
    let error = parse_pattern(&t, Span::new(0, 20)).expect_err("indent after eol must be rejected");
    assert!(
        error.message().contains("`indent` may not directly follow `eol`"),
        "unexpected message: {}",
        error.message()
    );

    // Nested sequences are checked too.
    let t = chars("( eol indent { \"x\" } )");
    let error = parse_pattern(&t, Span::new(0, 24)).expect_err("nested indent after eol must be rejected");
    assert!(
        error.message().contains("`indent` may not directly follow `eol`"),
        "unexpected message: {}",
        error.message()
    );

    // An element between them makes it legal.
    let t = chars("eol \"x\" indent { \"y\" }");
    assert!(parse_pattern(&t, Span::new(0, 24)).is_ok());
}

#[test]
fn element_spans_cover_their_text() {
    let pattern = parse("\"a\"  $ident name");
    assert_eq!(pattern.elems[0].span, Span::new(0, 3));
    assert_eq!(pattern.elems[1].span, Span::new(5, 16));
    let pattern = parse("x");
    assert!(matches!(&pattern.elems[0].kind, PatKind::RuleRef { bind: None, .. }));
}

#[test]
fn classes_ranges_and_escapes() {
    let pattern = parse("[^a-z_\\n] as c");
    match &pattern.elems[0].kind {
        PatKind::Class { set, bind } => {
            assert!(set.negated);
            assert!(matches!(set.items[0], CharItem::Range('a', 'z')));
            assert!(matches!(set.items[1], CharItem::Char('_')));
            assert!(matches!(set.items[2], CharItem::Char('\n')));
            assert_eq!(bind.as_deref(), Some("c"));
        }
        other => panic!("unexpected {:?}", other),
    }
    let t = chars("[ab");
    let error = parse_pattern(&t, Span::new(10, 20)).unwrap_err();
    assert_eq!(error.message(), "unterminated character class");
    assert_eq!(error.span(), Span::new(13, 13));
}

#[test]
fn each_bounds_conditions_and_bad_input() {
    let pattern = parse("each + [2, 5] { $int n } as ns where n > 1");
    match &pattern.elems[0].kind {
        PatKind::Each { plus, bounds, bind, .. } => {
            assert!(*plus);
            assert_eq!(*bounds, Some((2, Some(5))));
            assert_eq!(bind.as_deref(), Some("ns"));
        }
        other => panic!("unexpected {:?}", other),
    }
    assert!(matches!(&pattern.elems[1].kind, PatKind::Where { .. }));

    let t = chars("sep");
    let error = parse_pattern(&t, Span::new(0, 3)).unwrap_err();
    assert_eq!(error.message(), "unexpected `sep` in a pattern");

    let t = chars("$bogus");
    let error = parse_pattern(&t, Span::new(0, 6)).unwrap_err();
    assert_eq!(error.message(), "unknown fragment `$bogus`");

    let t = chars("( \"a\"");
    let error = parse_pattern(&t, Span::new(0, 5)).unwrap_err();
    assert_eq!(error.message(), "expected ) before the end of the pattern");

    let t = chars("\"a\" }");
    let error = parse_pattern(&t, Span::new(0, 5)).unwrap_err();
    assert_eq!(error.message(), "unexpected `}` in a pattern");

    // A `label =>` at the top level ends the pattern early.
    let t = chars("\"a\" x => \"b\"");
    let error = parse_pattern(&t, Span::new(0, 12)).unwrap_err();
    assert_eq!(error.message(), "unexpected `x` after the pattern");
    assert_eq!(error.span(), Span::new(4, 4));
}

#[test]
fn rules_parse_with_context_fields() {
    let t = chars("rule pick(context { selector parent = none }) { oneof { a => \"a\", b => \"b\" } }");
    let (name, context, _pattern, _) = parse_rule_declaration(&t, 0, Span::new(0, 90)).unwrap();
    assert_eq!(name, "pick");
    assert_eq!(context.len(), 1);
    assert_eq!(context[0].name, "parent");
}

#[test]
fn rule_declarations_end_after_their_body_and_refuse_a_field_that_reads_nothing() {
    let t = chars("xx rule r { \"a\" } rest");
    let (name, context, pattern, end) = parse_rule_declaration(&t, 3, Span::new(0, 24)).unwrap();
    assert_eq!(name, "r");
    assert!(context.is_empty());
    assert_eq!(pattern.elems.len(), 1);
    assert_eq!(end, 17);

    let t = chars("rule r(context { @ }) { x }");
    let error = parse_rule_declaration(&t, 0, Span::new(0, 27)).unwrap_err();
    assert_eq!(error.message(), "expected a context field");

    let t = chars("rule r(ctx) { x }");
    let error = parse_rule_declaration(&t, 0, Span::new(0, 17)).unwrap_err();
    assert_eq!(error.message(), "expected `context` in the rule signature");
    assert_eq!(error.span(), Span::new(7, 7));
}
