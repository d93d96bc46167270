use cme_compiler::diagnostics::Span;
use cme_compiler::mega::ctxexpr::CtxExpr;
use cme_compiler::mega::template::{Template, TmplNode, TmplStrPart, TmplValue, parse_template};

fn chars(text: &str) -> Vec<char> {
    text.chars().collect()
}

fn parse(text: &str) -> Template {
    let t = chars(text);
    parse_template(&t, Span::new(0, t.len()))
        .unwrap_or_else(|error| panic!("template parse failed: {}", error.message()))
}

fn parse_error(text: &str) -> String {
    let t = chars(text);
    match parse_template(&t, Span::new(0, t.len())) {
        Ok(_) => panic!("template parsed: {text}"),
        Err(error) => error.message().to_string(),
    }
}

fn strings(path: &[String]) -> Vec<&str> {
    path.iter().map(|s| s.as_str()).collect()
}

#[test]
fn splice_between_text_keeps_the_brackets_as_text_and_reads_a_dotted_path() {
    let template = parse("fn f() { $name.line }");
    assert_eq!(template.nodes.len(), 3);
    match &template.nodes[0] {
        TmplNode::Text { text, span } => {
            assert_eq!(text, "fn f() { ");
            assert_eq!((span.start, span.end), (0, 9));
        }
        other => panic!("unexpected node {other:?}"),
    }
    match &template.nodes[1] {
        TmplNode::Splice { path, accessor, span } => {
            assert_eq!(strings(path), vec!["name", "line"]);
            assert!(accessor.is_none());
            assert_eq!((span.start, span.end), (9, 19));
        }
        other => panic!("unexpected node {other:?}"),
    }
    match &template.nodes[2] {
        TmplNode::Text { text, .. } => assert_eq!(text, " }"),
        other => panic!("unexpected node {other:?}"),
    }
}

#[test]
fn splice_path_has_dotted_segments() {
    let template = parse("$a.b.c");
    assert_eq!(template.nodes.len(), 1);
    match &template.nodes[0] {
        TmplNode::Splice { path, accessor, .. } => {
            assert_eq!(strings(path), vec!["a", "b", "c"]);
            assert!(accessor.is_none());
        }
        other => panic!("unexpected node {other:?}"),
    }
}

#[test]
fn interpolation_collects_literal_and_hole_parts() {
    let template = parse("$\"id {{x}} = {$name}\\n\"");
    assert_eq!(template.nodes.len(), 1);
    match &template.nodes[0] {
        TmplNode::Interp { parts, span } => {
            assert_eq!(parts.len(), 3);
            match &parts[0] {
                TmplStrPart::Lit(text) => assert_eq!(text, "id {x}} = "),
                other => panic!("unexpected part {other:?}"),
            }
            match &parts[1] {
                TmplStrPart::Hole { path, accessor } => {
                    assert_eq!(strings(path), vec!["name"]);
                    assert!(accessor.is_none());
                }
                other => panic!("unexpected part {other:?}"),
            }
            match &parts[2] {
                TmplStrPart::Lit(text) => assert_eq!(text, "\n"),
                other => panic!("unexpected part {other:?}"),
            }
            assert_eq!((span.start, span.end), (0, 23));
        }
        other => panic!("unexpected node {other:?}"),
    }
}

#[test]
fn text_inside_string_literals_is_not_parsed() {
    let template = parse("x = \"$x }\";");
    assert_eq!(template.nodes.len(), 1);
    match &template.nodes[0] {
        TmplNode::Text { text, .. } => assert_eq!(text, "x = \"$x }\";"),
        other => panic!("unexpected node {other:?}"),
    }
}

#[test]
fn bracketed_each_has_element_list_and_body() {
    let template = parse("[each item in $items { $item, }]");
    assert_eq!(template.nodes.len(), 1);
    match &template.nodes[0] {
        TmplNode::Each { element, list, body, span } => {
            assert_eq!(element, "item");
            match list {
                TmplValue::Capture { path } => assert_eq!(strings(path), vec!["items"]),
                other => panic!("unexpected list {other:?}"),
            }
            assert_eq!(body.nodes.len(), 3);
            assert!(matches!(&body.nodes[1], TmplNode::Splice { .. }));
            assert_eq!((span.start, span.end), (0, 32));
        }
        other => panic!("unexpected node {other:?}"),
    }
}

#[test]
fn bare_each_without_a_name_binds_item() {
    let template = parse("each in $xs { x }");
    match &template.nodes[0] {
        TmplNode::Each { element, body, .. } => {
            assert_eq!(element, "item");
            assert_eq!(body.nodes.len(), 1);
        }
        other => panic!("unexpected node {other:?}"),
    }
}

#[test]
fn when_has_a_condition_and_two_branches() {
    let template = parse("[when present($x) { a } else { b }]");
    assert_eq!(template.nodes.len(), 1);
    match &template.nodes[0] {
        TmplNode::When { cond, then, otherwise, .. } => {
            assert!(matches!(cond, CtxExpr::Present { .. }));
            match &then.nodes[0] {
                TmplNode::Text { text, .. } => assert_eq!(text, " a "),
                other => panic!("unexpected node {other:?}"),
            }
            match &otherwise.nodes[0] {
                TmplNode::Text { text, .. } => assert_eq!(text, " b "),
                other => panic!("unexpected node {other:?}"),
            }
        }
        other => panic!("unexpected node {other:?}"),
    }
}

#[test]
fn when_without_else_has_an_empty_otherwise() {
    let template = parse("[when $n > 1 { many }]");
    match &template.nodes[0] {
        TmplNode::When { otherwise, .. } => assert!(otherwise.nodes.is_empty()),
        other => panic!("unexpected node {other:?}"),
    }
}

#[test]
fn match_arms_are_split_at_labels() {
    let template = parse("match ($kind) { Add => plus Sub => { minus } }");
    assert_eq!(template.nodes.len(), 1);
    match &template.nodes[0] {
        TmplNode::Match { scrutinee, arms, .. } => {
            assert_eq!(strings(scrutinee), vec!["kind"]);
            assert_eq!(arms.len(), 2);
            assert_eq!(arms[0].0, "Add");
            match &arms[0].1.nodes[0] {
                TmplNode::Text { text, .. } => assert_eq!(text, " plus "),
                other => panic!("unexpected node {other:?}"),
            }
            assert_eq!(arms[1].0, "Sub");
        }
        other => panic!("unexpected node {other:?}"),
    }
}

#[test]
fn let_binds_a_value() {
    let template = parse("let n = 42");
    match &template.nodes[0] {
        TmplNode::Let { name, value, span } => {
            assert_eq!(name, "n");
            assert!(matches!(value, TmplValue::Int(42)));
            assert_eq!((span.start, span.end), (0, 10));
        }
        other => panic!("unexpected node {other:?}"),
    }
}

#[test]
fn require_has_a_condition_and_a_message() {
    let template = parse("require($n > 0, \"need one\")");
    match &template.nodes[0] {
        TmplNode::Require { cond, message, .. } => {
            assert!(matches!(cond, CtxExpr::Bin(..)));
            assert_eq!(message, "need one");
        }
        other => panic!("unexpected node {other:?}"),
    }
}

#[test]
fn calls_take_values_and_cm_parse_takes_a_rule_path() {
    let template = parse("@gen.name($x, \"s\", true) cm.parse(js.expr, $src)");
    let calls: Vec<&TmplNode> = template.nodes.iter().filter(|n| matches!(n, TmplNode::Call { .. })).collect();
    assert_eq!(calls.len(), 2);
    match calls[0] {
        TmplNode::Call { path, args, .. } => {
            assert_eq!(strings(path), vec!["gen", "name"]);
            assert_eq!(args.len(), 3);
            assert!(matches!(&args[1], TmplValue::Str(s) if s == "s"));
            assert!(matches!(&args[2], TmplValue::Bool(true)));
        }
        other => panic!("unexpected node {other:?}"),
    }
    match calls[1] {
        TmplNode::Call { path, args, .. } => {
            assert_eq!(strings(path), vec!["cm", "parse"]);
            assert!(matches!(&args[0], TmplValue::Str(s) if s == "js.expr"));
            assert!(matches!(&args[1], TmplValue::Capture { .. }));
        }
        other => panic!("unexpected node {other:?}"),
    }
}

#[test]
fn unbalanced_brackets_are_reported() {
    assert_eq!(parse_error("a ] b"), "unbalanced brackets in template");
}

#[test]
fn unterminated_constructs_are_reported() {
    assert_eq!(parse_error("[each x in $xs { a "), "unterminated template construct");
    assert_eq!(parse_error("$\"abc"), "unterminated template string");
    assert_eq!(parse_error("$\"abc\\"), "unterminated template string");
}

#[test]
fn each_without_in_is_reported() {
    assert_eq!(parse_error("[each x $xs { a }]"), "expected `in` in an `each` construct");
}
