use cme_compiler::diagnostics::Span;
use cme_compiler::mega::ctxexpr::{CtxExpr, parse_expr};

fn chars(text: &str) -> Vec<char> {
    text.chars().collect()
}

/// Parses `text` from its start inside a region anchored at 100..300.
fn parse(text: &str) -> (Result<CtxExpr, cme_compiler::diagnostics::Diagnostic>, usize) {
    let t = chars(text);
    let mut cursor = 0;
    let r = parse_expr(&t, &mut cursor, Span::new(100, 300));
    (r, cursor)
}

fn shape(text: &str) -> String {
    match parse(text) {
        (Ok(e), _) => format!("{e:?}"),
        (Err(d), _) => panic!("{text:?} did not parse: {d:?}"),
    }
}

#[test]
fn a_comparison_parses_with_its_operands() {
    let (r, cursor) = parse("a == 1");
    assert_eq!(
        format!("{:?}", r.unwrap()),
        "Bin(Eq, Capture { path: [\"a\"], accessor: None }, Int(1))"
    );
    assert_eq!(cursor, 6);
    assert_eq!(
        shape("$x.y >= 'c'"),
        "Bin(Ge, Capture { path: [\"x\", \"y\"], accessor: None }, Str(\"c\"))"
    );
    assert_eq!(shape("n != \"a\\tb\""), "Bin(Ne, Capture { path: [\"n\"], accessor: None }, Str(\"a\\tb\"))");
}

#[test]
fn chained_comparisons_are_refused() {
    let (r, cursor) = parse("a < b < c");
    let d = r.unwrap_err();
    assert_eq!(d.message(), "chained comparison; write `a < b && b < c`");
    assert_eq!(d.span(), Span::new(106, 106));
    assert_eq!(cursor, 6);
    // Parenthesized, the second comparison is fine.
    assert_eq!(
        shape("(a < b) == true"),
        "Bin(Eq, Bin(Lt, Capture { path: [\"a\"], accessor: None }, Capture { path: [\"b\"], accessor: None }), Bool(true))"
    );
}

#[test]
fn mixing_and_with_or_needs_parentheses() {
    let (r, _) = parse("a && b || c");
    let d = r.unwrap_err();
    assert_eq!(d.message(), "mixing `&&` with `||` requires parentheses");
    assert_eq!(d.span(), Span::new(107, 107));
    let (r, _) = parse("a || b && c");
    let d = r.unwrap_err();
    assert_eq!(d.message(), "mixing `&&` with `||` requires parentheses");
    assert_eq!(d.span(), Span::new(102, 102));
    assert_eq!(
        shape("(a && b) || c"),
        "Bin(Or, Bin(And, Capture { path: [\"a\"], accessor: None }, Capture { path: [\"b\"], accessor: None }), Capture { path: [\"c\"], accessor: None })"
    );
    assert_eq!(
        shape("a || (b && c) || d"),
        "Bin(Or, Bin(Or, Capture { path: [\"a\"], accessor: None }, Bin(And, Capture { path: [\"b\"], accessor: None }, Capture { path: [\"c\"], accessor: None })), Capture { path: [\"d\"], accessor: None })"
    );
    assert_eq!(
        shape("a && b && c"),
        "Bin(And, Bin(And, Capture { path: [\"a\"], accessor: None }, Capture { path: [\"b\"], accessor: None }), Capture { path: [\"c\"], accessor: None })"
    );
}

#[test]
fn negation_presence_quantifiers_and_calls() {
    assert_eq!(shape("!present(x.y)"), "Not(Present { path: [\"x\", \"y\"] })");
    assert_eq!(
        shape("some f in fields { f.name == \"id\" }"),
        "SomeIn { var: \"f\", list: Capture { path: [\"fields\"], accessor: None }, cond: Bin(Eq, Capture { path: [\"f\", \"name\"], accessor: None }, Str(\"id\")) }"
    );
    assert_eq!(
        shape("all x in items .length { x > 0 }"),
        "AllIn { var: \"x\", list: Capture { path: [\"items\"], accessor: Some(Length) }, cond: Bin(Gt, Capture { path: [\"x\"], accessor: None }, Int(0)) }"
    );
    assert_eq!(
        shape("@len(name, 3) <= 10"),
        "Bin(Le, Call { path: [\"len\"], args: [Capture { path: [\"name\"], accessor: None }, Int(3)] }, Int(10))"
    );
    assert_eq!(shape("f()"), "Call { path: [\"f\"], args: [] }");
}

#[test]
fn numbers_read_as_integers_or_floats() {
    assert_eq!(shape("9223372036854775807"), "Int(9223372036854775807)");
    assert_eq!(shape("9223372036854775808"), "Float(\"9223372036854775808\")");
    assert_eq!(shape("1.5"), "Float(\"1.5\")");
    let (r, cursor) = parse("1.2.3");
    let d = r.unwrap_err();
    assert_eq!(d.message(), "expected a capture path");
    assert_eq!(d.span(), Span::new(100, 100));
    assert_eq!(cursor, 0);
}

#[test]
fn malformed_conditions_report_where_they_stop() {
    let (r, cursor) = parse("(a == b");
    let d = r.unwrap_err();
    assert_eq!(d.message(), "expected `)` to close the condition group");
    assert_eq!(d.span(), Span::new(107, 107));
    assert_eq!(cursor, 7);

    let (r, _) = parse("");
    assert_eq!(r.unwrap_err().message(), "expected a condition expression");

    let (r, _) = parse("some in xs { x }");
    assert_eq!(r.unwrap_err().message(), "expected `in` in `some … in …`");

    let (r, cursor) = parse("all v in xs .bogus { v }");
    let d = r.unwrap_err();
    assert_eq!(
        d.message(),
        "unknown accessor (expected `matched`, `line`, `col`, `length`, or `span`)"
    );
    assert_eq!(d.span(), Span::new(112, 112));
    assert_eq!(cursor, 13);

    let (r, _) = parse("present x");
    assert_eq!(r.unwrap_err().message(), "expected `(` after `present`");

    // Offsets past the region are clamped to its end.
    let t = chars("a < b < c");
    let mut cursor = 0;
    let d = parse_expr(&t, &mut cursor, Span::new(10, 12)).unwrap_err();
    assert_eq!(d.span(), Span::new(12, 12));
}

#[test]
fn a_condition_stops_where_the_text_moves_on() {
    let t = chars("x > 1 } rest");
    let mut cursor = 0;
    let r = parse_expr(&t, &mut cursor, Span::new(0, 12));
    assert!(r.is_ok());
    assert_eq!(cursor, 6);
    assert_eq!(t[cursor], '}');
}
