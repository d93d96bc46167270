use cme_compiler::diagnostics::Span;
use cme_compiler::mega::grammars::{
    GrammarSet, MacroEntry, check_profiles, compile_grammars, compile_macros, pattern_has_untailed_code_fragment,
};
use cme_compiler::mega::pattern::parse_pattern;
use cme_compiler::mega::scan::scan_magic;

fn compile(source: &str) -> (GrammarSet, Vec<String>) {
    let (scan, errors) = scan_magic(source);
    assert!(errors.is_empty(), "{source:?} should scan cleanly: {errors:?}");
    let mut diagnostics = Vec::new();
    let set = compile_grammars(&scan, &mut diagnostics);
    (set, diagnostics.iter().map(|d| d.message().to_string()).collect())
}

fn rule_names(set: &GrammarSet, index: usize) -> Vec<&str> {
    set.grammars[index].rules.iter().map(|rule| rule.name.as_str()).collect()
}

#[test]
fn rules_are_compiled_in_order_and_the_default_grammar_comes_last() {
    let source = "grammar calc {\n    skip [ ' ' ]\n    rule sum { \"a\" \"+\" \"b\" }\n    rule one { \"1\" }\n}\n";
    let (set, diagnostics) = compile(source);
    assert!(diagnostics.is_empty(), "{diagnostics:?}");
    assert_eq!(set.grammars.len(), 2);
    assert_eq!(set.grammars[0].name, "calc");
    assert_eq!(rule_names(&set, 0), vec!["sum", "one"]);
    assert_eq!(set.grammars[0].rules[0].pattern.elems.len(), 3);
    assert_eq!(set.grammars[1].name, "\u{0}default");
    assert!(set.grammars[1].rules.is_empty());
}

#[test]
fn a_grammar_without_string_forms_gets_the_double_quote_form() {
    let (set, _) = compile("grammar g {\n    rule r { \"x\" }\n}\n");
    assert_eq!(set.grammars[0].profile.strings.len(), 1);
    assert_eq!(set.grammars[0].profile.strings[0].quote, '"');
}

#[test]
fn a_malformed_rule_is_reported_and_ends_its_body() {
    let source = "grammar g {\n    rule first { \"x\" }\n    rule bad \"y\"\n    rule later { \"z\" }\n}\n";
    let (set, diagnostics) = compile(source);
    assert_eq!(diagnostics, vec!["expected `{` to open the rule body".to_string()]);
    assert_eq!(rule_names(&set, 0), vec!["first"]);
}

#[test]
fn each_grammar_is_compiled_separately() {
    let source = "grammar a {\n    rule x { \"1\" }\n}\n\ngrammar b {\n    rule y { \"2\" }\n    rule z { \"3\" }\n}\n";
    let (set, diagnostics) = compile(source);
    assert!(diagnostics.is_empty());
    assert_eq!(set.grammars.len(), 3);
    let names: Vec<&str> = set.grammars.iter().map(|g| g.name.as_str()).collect();
    assert_eq!(names, vec!["a", "b", "\u{0}default"]);
    assert_eq!(rule_names(&set, 0), vec!["x"]);
    assert_eq!(rule_names(&set, 1), vec!["y", "z"]);
}

fn profile_errors(source: &str) -> Vec<String> {
    let (set, diagnostics) = compile(source);
    assert!(diagnostics.is_empty(), "{diagnostics:?}");
    let mut errors = Vec::new();
    check_profiles(&set, &mut errors);
    errors.iter().map(|d| d.message().to_string()).collect()
}

#[test]
fn eol_in_a_flow_grammar_is_rejected() {
    let source = "grammar bad {\n    skip [ ' ', '\\t', '\\r', '\\n' ]\n\n    rule r {\n        $word w eol\n    }\n}\n";
    let errors = profile_errors(source);
    assert_eq!(errors.len(), 1, "{errors:?}");
    assert!(errors[0].starts_with("line-mode element `eol` in flow grammar `bad`"), "{errors:?}");
}

#[test]
fn indent_inside_soft_is_rejected() {
    let source = "grammar pyish {\n    skip [ ' ' ]\n\n    rule def {\n        \"def\" $word name \":\" soft { indent { $word body } }\n    }\n}\n";
    let errors = profile_errors(source);
    assert_eq!(errors.len(), 1, "{errors:?}");
    assert!(errors[0].starts_with("`indent` inside `soft` is rejected"), "{errors:?}");
}

#[test]
fn soft_in_a_flow_grammar_is_rejected_and_line_grammars_pass() {
    let flow = "grammar f {\n    skip [ ' ', '\\n' ]\n    rule r { soft { \"a\" } }\n}\n";
    let errors = profile_errors(flow);
    assert_eq!(errors, vec!["`soft` in flow grammar `f`: newlines already join the skip set, so soft is a no-op there".to_string()]);
    let line = "grammar l {\n    skip [ ' ' ]\n    rule r { \"a\" eol soft { \"b\" } }\n}\n";
    assert!(profile_errors(line).is_empty());
}

fn untailed(text: &str) -> bool {
    let chars: Vec<char> = text.chars().collect();
    let pattern = parse_pattern(&chars, Span::new(0, chars.len()))
        .unwrap_or_else(|error| panic!("pattern parse failed: {}", error.message()));
    pattern_has_untailed_code_fragment(&pattern)
}

#[test]
fn a_code_capture_needs_something_after_it() {
    assert!(untailed("$expr e"));
    assert!(untailed("\"let\" $block b"));
    assert!(!untailed("$expr e \";\""));
    assert!(!untailed("each { $expr e }"));
    assert!(!untailed("$word w"));
}

#[test]
fn macros_resolve_their_entry_or_are_reported() {
    let source = "grammar calc {\n    skip [ ' ' ]\n    rule sum { \"a\" }\n}\n\n\
magic byRule(calc.sum as s) { \"x\" }\n\
magic byName(sum as s) { \"x\" }\n\
magic inline(\"hi\" $word w) { \"y\" }\n\
magic unbound(calc.sum) { \"z\" }\n\
magic lost(nope.sum as s) { \"z\" }\n\
magic open($expr e) { \"z\" }\n";
    let (scan, errors) = scan_magic(source);
    assert!(errors.is_empty(), "{errors:?}");
    let mut diagnostics = Vec::new();
    let set = compile_grammars(&scan, &mut diagnostics);
    assert!(diagnostics.is_empty());
    let macros = compile_macros(&scan, &set, &mut diagnostics);
    let names: Vec<&str> = macros.iter().map(|m| m.name.as_str()).collect();
    assert_eq!(names, vec!["byRule", "byName", "inline"]);
    assert_eq!(macros[0].grammar_index, 0);
    assert!(matches!(&macros[0].entry, MacroEntry::RuleRef { bind } if bind == "s"));
    assert_eq!(macros[1].grammar_index, 0);
    assert_eq!(macros[2].grammar_index, 1);
    assert!(matches!(&macros[2].entry, MacroEntry::Inline));
    let messages: Vec<String> = diagnostics.iter().map(|d| d.message().to_string()).collect();
    assert_eq!(
        messages,
        vec![
            "the entry pattern must bind its capture (`grammar.rule as name`)".to_string(),
            "unknown grammar `nope` in the entry pattern".to_string(),
            "raw capture requires a following terminator; use $text or until".to_string(),
        ]
    );
}
