use cme_compiler::diagnostics::Span;
use cme_compiler::mods::{
    DiscoveredModule, ImportSite, LoadedModule, ManifestFile, SrcEntry, SrcListing, SrcTree,
    assemble, attribute_span, discover_modules, load_mod, standalone_import_diagnostics,
    validate_imports,
};

const ROOT: &str = "/work/mod";

fn file(relative: &str) -> SrcEntry {
    let name = relative.rsplit('/').next().unwrap().to_string();
    SrcEntry::File { name, path: format!("{ROOT}/src/{relative}") }
}

fn dir(relative: &str, entries: Vec<SrcEntry>) -> SrcEntry {
    let name = relative.rsplit('/').next().unwrap().to_string();
    SrcEntry::Dir {
        name,
        path: format!("{ROOT}/src/{relative}"),
        listing: SrcListing::Entries(entries),
    }
}

fn src_tree(entries: Vec<SrcEntry>) -> SrcTree {
    SrcTree::Present { path: format!("{ROOT}/src"), listing: SrcListing::Entries(entries) }
}

fn module_paths(modules: &[DiscoveredModule]) -> Vec<String> {
    modules.iter().map(|module| module.module_segments.join(".")).collect()
}

#[test]
fn discovery_maps_the_src_tree_to_module_paths() {
    // Entries in an order other than the module-path order.
    let tree = src_tree(vec![
        file("main.cm"),
        dir("gamemode", vec![file("gamemode/rules.cm"), file("gamemode/events.cm")]),
        dir("ui", vec![file("ui/hud.cm")]),
        file("notes.txt"),
        file(".hidden.cm"),
    ]);
    let modules = discover_modules(&tree).unwrap_or_else(|issues| panic!("{issues:#?}"));
    assert_eq!(
        module_paths(&modules),
        vec!["self.gamemode.events", "self.gamemode.rules", "self.main", "self.ui.hud",],
        "modules are sorted by module path regardless of disk order"
    );
    let rules = modules
        .iter()
        .find(|module| module.display_path == "src/gamemode/rules.cm")
        .unwrap();
    assert_eq!(rules.module_segments, vec!["self", "gamemode", "rules"]);
    assert!(rules.file_path.ends_with("src/gamemode/rules.cm"));
}

#[test]
fn discovery_reports_a_missing_or_empty_src_tree() {
    let missing = SrcTree::Missing { expected: format!("{ROOT}/src") };
    let issues = discover_modules(&missing).unwrap_err();
    assert!(
        issues.iter().any(|issue| issue.message.contains("missing a `src/` directory")),
        "{issues:#?}"
    );

    let empty = src_tree(Vec::new());
    let issues = discover_modules(&empty).unwrap_err();
    assert!(
        issues.iter().any(|issue| issue.message.contains("no `.cm` files found under `src/`")),
        "{issues:#?}"
    );
}

#[test]
fn discovery_rejects_unmappable_names() {
    let tree = src_tree(vec![file("ok.cm"), file("my-file.cm")]);
    let issues = discover_modules(&tree).unwrap_err();
    assert!(
        issues
            .iter()
            .any(|issue| issue.message.contains("`my-file` is not a valid identifier segment")),
        "{issues:#?}"
    );

    let tree = src_tree(vec![dir("my stuff", vec![file("my stuff/x.cm")])]);
    let issues = discover_modules(&tree).unwrap_err();
    assert!(
        issues
            .iter()
            .any(|issue| issue.message.contains("`my stuff` is not a valid identifier segment")),
        "{issues:#?}"
    );
}

#[test]
fn discovery_of_a_file_named_src_is_a_structure_issue() {
    let tree = SrcTree::NotADirectory { path: format!("{ROOT}/src") };
    let issues = discover_modules(&tree).unwrap_err();
    assert_eq!(issues.len(), 1);
    assert_eq!(issues[0].message, format!("`src` is not a directory ({ROOT}/src)"));
    assert_eq!(issues[0].file, None);
    assert_eq!(issues[0].line, None);
}

#[test]
fn discovery_reports_unreadable_directories() {
    let tree = src_tree(vec![
        file("main.cm"),
        SrcEntry::Dir {
            name: "locked".to_string(),
            path: format!("{ROOT}/src/locked"),
            listing: SrcListing::Unreadable("permission denied".to_string()),
        },
    ]);
    let issues = discover_modules(&tree).unwrap_err();
    assert_eq!(issues.len(), 1);
    assert_eq!(
        issues[0].message,
        format!("cannot read directory `{ROOT}/src/locked`: permission denied")
    );
}

fn read_all(modules: &[DiscoveredModule], sources: &[(&str, &str)]) -> Vec<Result<String, String>> {
    modules
        .iter()
        .map(|module| {
            let found = sources.iter().find(|(path, _)| module.display_path == *path);
            Ok(found.unwrap().1.to_string())
        })
        .collect()
}

#[test]
fn load_mod_reads_manifest_and_sources() {
    let manifest = ManifestFile::Text(
        "name = \"sample\"\nversion = \"1.0.0\"\ncheckmate_version = \"0.5.0\"\n\n[schemas]\nengine = \"1.4.0\"\n"
            .to_string(),
    );
    let tree = src_tree(vec![file("main.cm"), file("util.cm")]);
    let sources = [
        ("src/main.cm", "import self.util\nint main() {\n    return util()\n}\n"),
        ("src/util.cm", "int util() {\n    return 7\n}\n"),
    ];
    let discovery = discover_modules(&tree);
    let reads = match &discovery {
        Ok(modules) => read_all(modules, &sources),
        Err(_) => Vec::new(),
    };
    let loaded = load_mod(&manifest, discovery, reads);
    assert!(loaded.issues.is_empty(), "{:#?}", loaded.issues);
    let manifest = loaded.manifest.expect("manifest parses");
    assert_eq!(manifest.name, "sample");
    assert_eq!(manifest.schemas, vec![("engine".to_string(), "1.4.0".to_string())]);
    assert_eq!(loaded.modules.len(), 2);
    assert_eq!(loaded.modules[0].module_segments, vec!["self", "main"]);
    assert_eq!(loaded.modules[1].module_segments, vec!["self", "util"]);
}

#[test]
fn load_mod_without_manifest_reports_and_still_discovers() {
    let manifest = ManifestFile::Missing { root: ROOT.to_string() };
    let tree = src_tree(vec![file("main.cm")]);
    let discovery = discover_modules(&tree);
    let reads = vec![Ok("int main() {\n    return 0\n}\n".to_string())];
    let loaded = load_mod(&manifest, discovery, reads);
    assert!(loaded.manifest.is_none());
    assert!(
        loaded.issues.iter().any(|issue| issue.message.contains("no mod.toml")),
        "{:#?}",
        loaded.issues
    );
    assert_eq!(loaded.modules.len(), 1);
}

#[test]
fn load_mod_reports_unreadable_sources_and_keeps_the_rest() {
    let manifest =
        ManifestFile::Text("name = \"m\"\nversion = \"1.0.0\"\ncheckmate_version = \"0.5.0\"\n".to_string());
    let tree = src_tree(vec![file("a.cm"), file("b.cm")]);
    let discovery = discover_modules(&tree);
    let reads = vec![Err("disk on fire".to_string()), Ok("int b() {\n    return 2\n}\n".to_string())];
    let loaded = load_mod(&manifest, discovery, reads);
    assert_eq!(loaded.modules.len(), 1);
    assert_eq!(loaded.modules[0].display_path, "src/b.cm");
    assert_eq!(loaded.issues.len(), 1);
    assert_eq!(loaded.issues[0].message, "cannot read module: disk on fire");
    assert_eq!(loaded.issues[0].file.as_deref(), Some("src/a.cm"));
}

fn module(name: &str, source: &str) -> LoadedModule {
    LoadedModule {
        module_segments: vec!["self".to_string(), name.to_string()],
        display_path: format!("src/{name}.cm"),
        source: source.to_string(),
    }
}

fn import(path: &str, start: usize) -> ImportSite {
    ImportSite {
        path: path.split('.').map(str::to_string).collect(),
        span: Span::new(start, start + 7 + path.len()),
    }
}

#[test]
fn assembled_modules_are_separated_by_a_blank_line() {
    let modules = [
        module("main", "import self.util\nint main() {\n    return util(3)\n}\n"),
        module("util", "int util(int x) {\n    return x + 1\n}\n"),
    ];
    let program = assemble(&modules);
    assert_eq!(program.ranges.len(), 2);
    assert_eq!(program.ranges[1].start, program.ranges[0].end + 2);
    assert_eq!(
        program.source,
        format!("{}\n\n{}", modules[0].source, modules[1].source)
    );
    assert_eq!(program.ranges[0].start, 0);
    assert_eq!(program.ranges[0].end, modules[0].source.len());
    assert_eq!(program.ranges[1].display_path, "src/util.cm");
    // The self import resolves against the module table.
    assert!(validate_imports(&[import("self.util", 0)], &modules).is_empty());
}

#[test]
fn import_of_a_missing_module_names_the_expected_file() {
    let modules = [module("main", "import self.gamemode.rules\nint main() {\n    return 0\n}\n")];
    let diagnostics = validate_imports(&[import("self.gamemode.rules", 0)], &modules);
    assert_eq!(diagnostics.len(), 1);
    assert!(
        diagnostics[0]
            .message()
            .contains("import of `self.gamemode.rules` does not match any module"),
        "{diagnostics:#?}"
    );
    assert!(
        diagnostics[0].message().contains("expected a file at `src/gamemode/rules.cm`"),
        "{diagnostics:#?}"
    );
    assert_eq!(diagnostics[0].span(), Span::new(0, 26));
}

#[test]
fn host_rooted_imports_need_no_module() {
    let modules = [module("main", "import engine.graphics\nint main() {\n    return 0\n}\n")];
    assert!(validate_imports(&[import("engine.graphics", 0)], &modules).is_empty());
}

#[test]
fn spans_attribute_back_to_the_module_that_owns_them() {
    let modules = [
        module("main", "int main() {\n    return 0\n}\n"),
        module("broken", "int f() {\n    return 1 +\n}\n"),
    ];
    let program = assemble(&modules);
    let brace = program.source.rfind('}').unwrap();
    let (owner, local) = attribute_span(&program.ranges, Span::new(brace, brace + 1)).unwrap();
    assert_eq!(owner.display_path, "src/broken.cm");
    assert!(local.end <= owner.end - owner.start);
    assert_eq!(&modules[1].source[local.start..local.end], "}");

    // A span reaching past its module is clamped to the module's end.
    let (owner, local) = attribute_span(&program.ranges, Span::new(3, 10_000)).unwrap();
    assert_eq!(owner.display_path, "src/main.cm");
    assert_eq!(local, Span::new(3, modules[0].source.len()));

    // A span in the blank separator after a module is pinned to its end.
    let gap = modules[0].source.len() + 1;
    let (owner, local) = attribute_span(&program.ranges, Span::new(gap, gap + 1)).unwrap();
    assert_eq!(owner.display_path, "src/main.cm");
    assert_eq!(local, Span::new(modules[0].source.len(), modules[0].source.len()));

    // Nothing owns a span before the first module.
    let shifted = [cme_compiler::mods::ModuleRange {
        module_segments: vec!["self".to_string(), "x".to_string()],
        display_path: "src/x.cm".to_string(),
        start: 5,
        end: 9,
    }];
    assert!(attribute_span(&shifted, Span::new(2, 3)).is_none());
}

#[test]
fn standalone_self_import_sites_are_rejected() {
    let diagnostics = standalone_import_diagnostics(&[import("self.util", 0)]);
    assert_eq!(diagnostics.len(), 1);
    assert!(
        diagnostics[0].message().contains("cannot import `self.util` outside of a mod"),
        "{diagnostics:#?}"
    );
    assert!(standalone_import_diagnostics(&[import("engine.graphics", 0)]).is_empty());
}
