use ogham::diagnostics::{Diagnostics, Severity};
use ogham::index::ParsedFile;
use ogham::pipeline::{parse_source, SourceFile};
use ogham::resolve::validate_imports;

fn files(sources: &[(&str, &str)]) -> Vec<ParsedFile> {
    let mut diag = Diagnostics::new();
    let fs: Vec<ParsedFile> = sources
        .iter()
        .map(|(n, c)| parse_source(&SourceFile { name: n.to_string(), content: c.to_string() }, &mut diag))
        .collect();
    fs
}

fn messages(fs: &[ParsedFile], module: Option<&str>, std_paths: &[String]) -> Vec<String> {
    let mut diag = Diagnostics::new();
    validate_imports(fs, module, std_paths, &mut diag);
    assert!(diag.all().iter().all(|d| d.severity == Severity::Error));
    diag.all().iter().map(|d| d.message.clone()).collect()
}

#[test]
fn two_imports_with_one_name_collide() {
    let fs = files(&[(
        "a.ogham",
        "package a;\nimport github.com/x/db;\nimport github.com/y/db;\n",
    )]);
    let ms = messages(&fs, None, &[]);
    assert_eq!(
        ms,
        vec![
            "import name collision: 'db' already imported from 'github.com/x/db' — use an alias: import github.com/y/db as <alias>;"
                .to_string()
        ]
    );
}

#[test]
fn an_alias_avoids_the_collision() {
    let fs = files(&[(
        "a.ogham",
        "package a;\nimport github.com/x/db;\nimport github.com/y/db as ydb;\n",
    )]);
    assert!(messages(&fs, None, &[]).is_empty());
}

#[test]
fn the_same_path_twice_is_no_collision() {
    let fs = files(&[(
        "a.ogham",
        "package a;\nimport github.com/x/db;\nimport github.com/x/db;\n",
    )]);
    assert!(messages(&fs, None, &[]).is_empty());
}

#[test]
fn unknown_std_package_is_reported() {
    let fs = files(&[("a.ogham", "package a;\nimport github.com/oghamlang/std/nothing;\n")]);
    let std_paths = vec!["github.com/oghamlang/std/uuid".to_string()];
    let ms = messages(&fs, None, &std_paths);
    assert_eq!(ms, vec!["unknown standard library package: github.com/oghamlang/std/nothing".to_string()]);
}

#[test]
fn known_std_package_is_accepted() {
    let fs = files(&[("a.ogham", "package a;\nimport github.com/oghamlang/std/uuid;\n")]);
    let std_paths = vec!["github.com/oghamlang/std/uuid".to_string()];
    assert!(messages(&fs, None, &std_paths).is_empty());
}

#[test]
fn missing_local_package_lists_the_packages_in_order() {
    let fs = files(&[
        ("m.ogham", "package models;\nimport example.com/proj/billing;\n"),
        ("a.ogham", "package api;\n"),
        ("b.ogham", "package models;\n"),
    ]);
    let ms = messages(&fs, Some("example.com/proj"), &[]);
    assert_eq!(
        ms,
        vec!["local package 'billing' not found in module — available packages: api, models".to_string()]
    );
}

#[test]
fn present_local_package_is_accepted() {
    let fs = files(&[
        ("m.ogham", "package models;\nimport example.com/proj/api;\n"),
        ("a.ogham", "package api;\n"),
    ]);
    assert!(messages(&fs, Some("example.com/proj"), &[]).is_empty());
}

#[test]
fn external_imports_are_not_checked() {
    let fs = files(&[("m.ogham", "package models;\nimport github.com/other/thing;\n")]);
    assert!(messages(&fs, Some("example.com/proj"), &[]).is_empty());
}
