use cme_compiler::mega::scan::{MagicScan, scan_magic};

    fn scan_ok(source: &str) -> MagicScan {
        let (scan, errors) = scan_magic(source);
        assert!(
            errors.is_empty(),
            "{source:?} should scan cleanly: {errors:?}"
        );
        scan
    }

    #[test]
    fn finds_invocation_and_normalizes_region() {
        let source = "int x = 1\nstr s = magic(json.value) {\n    \"host\"\n}\n";
        let scan = scan_ok(source);
        assert_eq!(scan.invocations.len(), 1);
        let invocation = &scan.invocations[0];
        assert_eq!(invocation.name, "json.value");
        assert_eq!(invocation.region, "\"host\"");
        // The region span points at the scanned text, not a copy.
        assert_eq!(
            &source[invocation.region_span.start..invocation.region_span.end],
            "\"host\""
        );
        // The invocation span covers `magic … }`.
        assert!(
            source[invocation.span.start..invocation.span.end].starts_with("magic(json.value)")
        );
    }

    #[test]
    fn braces_inside_region_strings_do_not_close_the_region() {
        let source = "magic(js.run) {\n    console.log(\"}\")\n}\nint x = 1\n";
        let scan = scan_ok(source);
        assert_eq!(scan.invocations.len(), 1);
        assert_eq!(scan.invocations[0].region, "console.log(\"}\")");
        // Everything after the region stays outside it.
        assert_eq!(&source[scan.invocations[0].span.end..], "\nint x = 1\n");
    }

    #[test]
    fn html_region_balances_strings_comments_and_prose_apostrophes() {
        let source = "magic(html.fragment) {\n\
            <!-- it's fine -->\n\
            <div class=\"hud\">x</div>\n\
            <p>don't</p>\n\
        }\n";
        let scan = scan_ok(source);
        assert_eq!(scan.invocations.len(), 1);
        assert_eq!(
            scan.invocations[0].region,
            "<!-- it's fine -->\n<div class=\"hud\">x</div>\n<p>don't</p>"
        );
    }

    #[test]
    fn region_normalization_trims_edges() {
        let source = "magic(m) {  \n\n   body text   \n\n  }\n";
        let scan = scan_ok(source);
        assert_eq!(scan.invocations[0].region, "body text");
    }

    #[test]
    fn scans_grammar_and_extracts_profile() {
        let source = "\
grammar yaml {
    skip    [ ' ' ]
    comment ( \"#\" )
    string  ( '\"' )
    string  ( '\\'' )

    rule document { oneof { blockDoc => blockNode } }
}

magic value(yaml.document as doc) {
    @toValue($doc)
}
";
        let scan = scan_ok(source);
        assert_eq!(scan.grammars.len(), 1);
        let grammar = &scan.grammars[0];
        assert_eq!(grammar.name, "yaml");
        assert!(!grammar.profile.is_flow_oriented());
        assert_eq!(grammar.profile.comments.len(), 1);
        assert_eq!(grammar.profile.comments[0].opener, "#");
        assert_eq!(grammar.profile.strings.len(), 2);
        assert_eq!(grammar.profile.strings[0].quote, '"');

        assert_eq!(scan.magics.len(), 1);
        let magic = &scan.magics[0];
        assert_eq!(magic.name, "value");
        assert_eq!(magic.pattern, "yaml.document as doc");
        assert_eq!(magic.template, "\n    @toValue($doc)\n");
    }

    #[test]
    fn parses_island_forms_in_string_declarations() {
        let source = "\
grammar js {
    string  ( '`' multiline island ( \"${\" \"}\" ) )
    rule program { each { statement } as stmts }
}
";
        let scan = scan_ok(source);
        let strings = &scan.grammars[0].profile.strings;
        assert_eq!(strings.len(), 1);
        assert!(strings[0].multiline);
        assert_eq!(strings[0].island, Some(("${".to_string(), "}".to_string())));
    }

    #[test]
    fn magic_word_inside_strings_and_comments_is_inert() {
        let source = "\
// magic(fake) { not real }
str s = \"magic(fake) { also not }\"
int x = 1
";
        let scan = scan_ok(source);
        assert!(scan.is_empty());
    }

    #[test]
    fn nested_magic_inside_a_region_stays_wholesale() {
        let source = "magic(js.run) {\n    magic(json.value) { 1 }\n}\n";
        let scan = scan_ok(source);
        assert_eq!(scan.invocations.len(), 1);
        assert_eq!(scan.invocations[0].region, "magic(json.value) { 1 }");
    }

    #[test]
    fn unknown_macro_region_uses_default_profile_and_still_scans() {
        let source = "magic(ghost) {\n    { \"brace\": 1 }\n}\n";
        let scan = scan_ok(source);
        assert_eq!(scan.invocations.len(), 1);
        assert_eq!(scan.invocations[0].name, "ghost");
        assert_eq!(scan.invocations[0].region, "{ \"brace\": 1 }");
    }

    #[test]
    fn composed_profile_uses_the_entry_grammar() {
        // `grammar toml` has a `#` comment form; a comment inside the region
        // must not misbalance the braces even though the text contains `{`.
        let source = "\
grammar toml {
    skip    [ ' ', '\\t' ]
    comment ( \"#\" )
    rule document { each { oneof { kv => keyval } } as items }
    rule keyval { $word key \"=\" value eol }
}

magic value(toml.document as doc) {
    @toValue($doc)
}

str[] lines = magic(value) {
    [table]  # { not a brace }
    x = 1
}
";
        let scan = scan_ok(source);
        assert_eq!(scan.invocations.len(), 1);
        // Interior indentation is preserved verbatim; only the edges trim.
        assert_eq!(
            scan.invocations[0].region,
            "[table]  # { not a brace }\n    x = 1"
        );
    }

    #[test]
    fn pattern_parens_containing_braces_and_strings_scan() {
        // The pattern text contains a brace literal and a paren literal in
        // strings; the declaration balancer must be string-aware.
        let source = "\
magic bound(re.pattern as p) {
    reQuantified($p)
}

magic reQuantified({\"{\" $int min \"}\"} as q) {
    $q
}
";
        let scan = scan_ok(source);
        assert_eq!(scan.magics.len(), 2);
        assert_eq!(scan.magics[1].pattern, "{\"{\" $int min \"}\"} as q");
    }

    #[test]
    fn malformed_constructs_report_and_recover() {
        let (scan, errors) = scan_magic("grammar {\nint x = 1\n");
        assert!(scan.grammars.is_empty());
        assert!(
            errors
                .iter()
                .any(|error| error.message().contains("grammar name"))
        );

        let (scan, errors) = scan_magic("magic {\nint x = 1\n");
        assert!(scan.magics.is_empty() && scan.invocations.is_empty());
        assert!(
            errors
                .iter()
                .any(|error| error.message().contains("macro name"))
        );

        let (_, errors) = scan_magic("magic(m) {\nnever closed\n");
        assert!(
            errors
                .iter()
                .any(|error| error.message().contains("unclosed"))
        );
    }

    #[test]
    fn empty_source_scans_to_nothing() {
        let scan = scan_ok("");
        assert!(scan.is_empty());
    }

#[test]
fn a_region_with_a_brace_in_a_string_closes_at_its_own_brace() {
    let source = "magic(js.run) {\n    console.log(\"}\")\n}\nint x = 1\n";
    let (scan, errors) = scan_magic(source);
    assert!(errors.is_empty());
    assert_eq!(scan.invocations.len(), 1);
    assert_eq!(scan.invocations[0].region, "console.log(\"}\")");
}

#[test]
fn a_region_whose_island_closes_more_than_it_opened_is_reported_unclosed() {
    // The island of the grammar's backquote strings closes with `]`, so the
    // second `}` inside it would close a brace that was never opened: the
    // region cannot be balanced and is reported, and the scan goes on.
    let source = "\
grammar g {
    string ( '`' island ( \"${\" \"]\" ) )
}

magic m(g.x as v) {
    \"y\"
}

str s = magic(m) { `${}}` }
";
    let (scan, errors) = scan_magic(source);
    assert_eq!(scan.invocations.len(), 0);
    assert_eq!(scan.grammars.len(), 1);
    assert_eq!(scan.magics.len(), 1);
    assert_eq!(errors.len(), 1);
    assert!(errors[0].message().contains("unclosed `{`"));
}
