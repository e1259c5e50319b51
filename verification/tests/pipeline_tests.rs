use ogham::diagnostics::{Diagnostics, Severity};
use ogham::hir::{Arenas, Interner, SymbolTable};
use ogham::index::collect_checked;
use ogham::pipeline::{parse_source, CompileOptions, SourceFile};

fn source(name: &str, content: &str) -> SourceFile {
    SourceFile { name: name.to_string(), content: content.to_string() }
}

#[test]
fn parse_source_reads_package_and_tree() {
    let mut diag = Diagnostics::new();
    let f = parse_source(&source("a.ogham", "package shop;\ntype A {}"), &mut diag);
    assert_eq!(f.file_name, "a.ogham");
    assert_eq!(f.package, "shop");
    assert_eq!(f.root.text(), "package shop;\ntype A {}");
    assert!(diag.is_empty());
}

#[test]
fn parse_source_defaults_the_package() {
    let mut diag = Diagnostics::new();
    let f = parse_source(&source("b.ogham", "type A {}"), &mut diag);
    assert_eq!(f.package, "default");
}

#[test]
fn parse_source_reports_parse_errors_then_short_imports() {
    let mut diag = Diagnostics::new();
    let src = "package p;\nimport uuid;\nimport github.com/oghamlang/std/uuid;\n$";
    let _ = parse_source(&source("c.ogham", src), &mut diag);
    let all = diag.all();
    assert!(all.len() >= 2);
    assert_eq!(all[0].message, "unexpected character");
    assert_eq!(all[0].file(), "c.ogham");
    let last = &all[all.len() - 1];
    assert_eq!(
        last.message,
        "short name import 'uuid' is not allowed — use full module path (e.g., github.com/oghamlang/std/uuid)"
    );
    let start = src.find("import uuid;").unwrap();
    assert_eq!(last.span(), start..start + "import uuid;".len());
    assert_eq!(all.iter().filter(|d| d.message.starts_with("short name import")).count(), 1);
}

#[test]
fn compile_options_default_has_no_module() {
    let o = CompileOptions::default();
    assert!(o.module.is_none());
}

#[test]
fn summary_counts_errors_and_warnings() {
    let mut d = Diagnostics::new();
    assert_eq!(d.summary(), None);
    d.error("f", 0..1, "a");
    d.error("f", 0..1, "b");
    assert_eq!(d.summary().unwrap(), "  2 error(s) emitted");
    d.warning("f", 0..1, "c");
    assert_eq!(d.count(Severity::Error), 2);
    assert_eq!(d.count(Severity::Warning), 1);
    assert_eq!(d.summary().unwrap(), "  2 error(s) and 1 warning(s) emitted");
    let mut w = Diagnostics::new();
    w.warning("f", 0..1, "c");
    assert_eq!(w.summary().unwrap(), "  1 warning(s) emitted");
}

#[test]
fn checked_collection_indexes_a_file() {
    let mut diag = Diagnostics::new();
    let f = parse_source(&source("d.ogham", "package p;\ntype A {}\nenum E { X = 1; }"), &mut diag);
    let mut interner = Interner::default();
    let mut arenas = Arenas::default();
    let mut symbols = SymbolTable::default();
    assert!(collect_checked(&f, &mut interner, &mut arenas, &mut symbols, &mut diag));
    assert_eq!(arenas.types.len(), 1);
    assert_eq!(arenas.enums.len(), 1);
    assert!(interner.intern_lookup("p.A").is_some());
    assert!(interner.intern_lookup("d.ogham").is_some());
}
