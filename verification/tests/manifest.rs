use cme_compiler::mods::parse_manifest;

#[test]
fn parses_a_full_manifest() {
    let text = "\
name = \"advanced_rules\"
version = \"1.0.0\"
checkmate_version = \"0.5.0\"

[schemas]
engine = \"1.4.0\"
physics = '1.0.0'   # literal strings work too
";
    let manifest = parse_manifest(text).unwrap_or_else(|issues| panic!("{issues:#?}"));
    assert_eq!(manifest.name, "advanced_rules");
    assert_eq!(manifest.version, "1.0.0");
    assert_eq!(manifest.checkmate_version, "0.5.0");
    assert_eq!(
        manifest.schemas,
        vec![
            ("engine".to_string(), "1.4.0".to_string()),
            ("physics".to_string(), "1.0.0".to_string()),
        ]
    );
}

#[test]
fn parses_a_minimal_manifest_without_schemas() {
    let manifest =
        parse_manifest("name = \"m\"\nversion = \"0.1.0\"\ncheckmate_version = \"0.5.0\"\n")
            .unwrap_or_else(|issues| panic!("{issues:#?}"));
    assert!(manifest.schemas.is_empty());
}

#[test]
fn manifest_escapes_and_comments_are_honored() {
    let text = "\
# identity
name = \"a \\\"quoted\\\" name\"
version = \"1.0.0\"    # trailing comment
checkmate_version = \"0.5.0\"
";
    let manifest = parse_manifest(text).unwrap_or_else(|issues| panic!("{issues:#?}"));
    assert_eq!(manifest.name, "a \"quoted\" name");
}

#[test]
fn manifest_missing_fields_are_reported_individually() {
    let issues = parse_manifest("[schemas]\nengine = \"1.0.0\"\n").unwrap_err();
    for field in ["`name`", "`version`", "`checkmate_version`"] {
        assert!(
            issues.iter().any(|issue| issue.message.contains(field)),
            "{issues:#?}"
        );
    }
}

#[test]
fn manifest_rejects_unknown_fields_and_tables() {
    let issues = parse_manifest(
        "name = \"m\"\nversion = \"1.0.0\"\ncheckmate_version = \"0.5.0\"\ncheese = \"yes\"\n",
    )
    .unwrap_err();
    assert!(
        issues
            .iter()
            .any(|issue| issue.message.contains("unknown field `cheese`")),
        "{issues:#?}"
    );

    let issues = parse_manifest(
        "name = \"m\"\nversion = \"1.0.0\"\ncheckmate_version = \"0.5.0\"\n[secrets]\n",
    )
    .unwrap_err();
    assert!(
        issues
            .iter()
            .any(|issue| issue.message.contains("unknown table `[secrets]`")),
        "{issues:#?}"
    );
}

#[test]
fn manifest_rejects_duplicates() {
    let issues = parse_manifest(
        "name = \"m\"\nname = \"n\"\nversion = \"1.0.0\"\ncheckmate_version = \"0.5.0\"\n",
    )
    .unwrap_err();
    assert!(
        issues
            .iter()
            .any(|issue| issue.message.contains("duplicate key `name`")),
        "{issues:#?}"
    );

    let issues = parse_manifest(
        "name = \"m\"\nversion = \"1.0.0\"\ncheckmate_version = \"0.5.0\"\n[schemas]\n[schemas]\n",
    )
    .unwrap_err();
    assert!(
        issues
            .iter()
            .any(|issue| issue.message.contains("duplicate table")),
        "{issues:#?}"
    );
}

#[test]
fn manifest_versions_must_be_x_y_z() {
    for bad in ["1.0", "one.two.three", "1..0", "1.0.0.0", ""] {
        let text = format!("name = \"m\"\nversion = \"{bad}\"\ncheckmate_version = \"0.5.0\"\n");
        let issues = parse_manifest(&text).unwrap_err();
        assert!(
            issues
                .iter()
                .any(|issue| issue.message.contains("`version` must be a version")),
            "{bad:?}: {issues:#?}"
        );
    }
}

#[test]
fn manifest_values_must_be_strings() {
    let issues =
        parse_manifest("name = m\nversion = 1.0\ncheckmate_version = \"0.5.0\"\n").unwrap_err();
    // Two non-string values, plus the two missing-field reports that
    // follow because the values never landed.
    assert_eq!(
        issues
            .iter()
            .filter(|issue| issue
                .message
                .contains("needs a string value in double or single quotes"))
            .count(),
        2,
        "{issues:#?}"
    );

    // Multiline string forms are outside the subset, not a shorthand.
    let issues = parse_manifest(
        "name = \"\"\"m\"\"\"\nversion = \"1.0.0\"\ncheckmate_version = \"0.5.0\"\n",
    )
    .unwrap_err();
    assert!(
        issues
            .iter()
            .any(|issue| issue.message.contains("needs a string value")),
        "{issues:#?}"
    );
}

#[test]
fn manifest_dotted_keys_are_outside_the_subset() {
    let issues = parse_manifest(
        "name = \"m\"\nversion = \"1.0.0\"\ncheckmate_version = \"0.5.0\"\n[schemas]\nengine.graphics = \"1.0.0\"\n",
    )
    .unwrap_err();
    assert!(
        issues
            .iter()
            .any(|issue| issue.message.contains("expected `=` after key `engine`")),
        "{issues:#?}"
    );
}

#[test]
fn manifest_schema_namespaces_must_be_identifiers() {
    let issues = parse_manifest(
        "name = \"m\"\nversion = \"1.0.0\"\ncheckmate_version = \"0.5.0\"\n[schemas]\n\"my engine\" = \"1.0.0\"\n",
    )
    .unwrap_err();
    assert!(
        issues.iter().any(|issue| issue
            .message
            .contains("schema namespace `my engine` is not a valid identifier")),
        "{issues:#?}"
    );
}

#[test]
fn manifest_line_numbers_point_at_offenders() {
    let issues =
        parse_manifest("name = \"m\"\nversion = \"bad\"\ncheckmate_version = \"0.5.0\"\n")
            .unwrap_err();
    let version_issue = issues
        .iter()
        .find(|issue| issue.message.contains("`version`"))
        .unwrap();
    assert_eq!(version_issue.line, Some(2));
    assert_eq!(version_issue.file.as_deref(), Some("mod.toml"));
}
