use la_arena::{Idx, RawIdx};
use ogham::diagnostics::Diagnostics;
use ogham::hir::{Arenas, Interner, ResolvedType, ScalarKind, SymbolTable, TypeDef};
use ogham::index::collect_checked;
use ogham::pipeline::{parse_source, SourceFile};
use ogham::resolve::{expand_shapes, expand_shapes_checked, populate_and_resolve};

fn expand_all(sources: &[&str]) -> (Interner, Arenas, SymbolTable, Diagnostics) {
    let mut interner = Interner::default();
    let mut arenas = Arenas::default();
    let mut symbols = SymbolTable::default();
    let mut diag = Diagnostics::new();
    let mut files = Vec::new();
    for (i, s) in sources.iter().enumerate() {
        let src = SourceFile { name: format!("shape{}.ogham", i), content: s.to_string() };
        let f = parse_source(&src, &mut diag);
        assert!(!diag.has_errors(), "parse errors: {:?}", diag.all());
        assert!(collect_checked(&f, &mut interner, &mut arenas, &mut symbols, &mut diag));
        files.push(f);
    }
    populate_and_resolve(&files, &mut interner, &mut arenas, &symbols, &mut diag);
    expand_shapes(&files, &mut interner, &mut arenas, &symbols, &mut diag);
    (interner, arenas, symbols, diag)
}

fn type_of<'a>(int: &Interner, arenas: &'a Arenas, symbols: &SymbolTable, full: &str) -> &'a TypeDef {
    let key = int.intern_lookup(full).unwrap();
    let id = symbols.types[&key];
    &arenas.types[Idx::from_raw(RawIdx::from(id))]
}

fn messages(diag: &Diagnostics) -> Vec<String> {
    diag.all().iter().map(|d| d.message.clone()).collect()
}

#[test]
fn compile_shape_injection() {
    let (int, arenas, symbols, diag) = expand_all(&[r#"package example;
shape Timestamps { uint64 created_at; uint64 updated_at; }
type User { Timestamps(1..2) string email = 3; }
"#]);
    assert!(!diag.has_errors(), "errors: {:?}", diag.all());
    let fields = &type_of(&int, &arenas, &symbols, "example.User").fields;
    assert_eq!(fields.len(), 3);
    assert!(fields[0].trace.is_some());
    assert!(fields[1].trace.is_some());
    assert!(fields[2].trace.is_none());
}

#[test]
fn injected_fields_are_numbered_from_range_start() {
    let (int, arenas, symbols, diag) = expand_all(&[r#"package example;
shape Timestamps { uint64 created_at; uint64 updated_at; }
type User { Timestamps(10..12) string email = 3; }
"#]);
    assert!(!diag.has_errors(), "errors: {:?}", diag.all());
    let fields = &type_of(&int, &arenas, &symbols, "example.User").fields;
    let names: Vec<&str> = fields.iter().map(|f| int.resolve(f.name)).collect();
    assert_eq!(names, vec!["created_at", "updated_at", "email"]);
    let numbers: Vec<u32> = fields.iter().map(|f| f.number).collect();
    assert_eq!(numbers, vec![10, 11, 3]);
    assert!(matches!(fields[0].ty, ResolvedType::Scalar(ScalarKind::Uint64)));
    let origin = fields[1].trace.as_ref().unwrap().shape.as_ref().unwrap();
    assert_eq!(int.resolve(origin.shape_name), "Timestamps");
    assert_eq!(origin.range_start, 10);
    assert_eq!(origin.range_end, 12);
    assert!(!fields[0].is_repeated);
}

#[test]
fn included_shape_fields_come_first() {
    let (int, arenas, symbols, diag) = expand_all(&[r#"package example;
shape Base { string id; }
shape Audited { Base; string author; }
type Doc { Audited(1..5) string body = 6; }
"#]);
    assert!(!diag.has_errors(), "errors: {:?}", diag.all());
    let fields = &type_of(&int, &arenas, &symbols, "example.Doc").fields;
    let names: Vec<&str> = fields.iter().map(|f| int.resolve(f.name)).collect();
    assert_eq!(names, vec!["id", "author", "body"]);
    let numbers: Vec<u32> = fields.iter().map(|f| f.number).collect();
    assert_eq!(numbers, vec![1, 2, 6]);
    let origin = fields[0].trace.as_ref().unwrap().shape.as_ref().unwrap();
    assert_eq!(int.resolve(origin.shape_name), "Audited");
}

#[test]
fn unresolved_shape_is_reported() {
    let (int, arenas, symbols, diag) = expand_all(&["package example;\ntype User { Missing(1..2) string email = 3; }"]);
    assert_eq!(messages(&diag), vec!["unresolved shape: Missing".to_string()]);
    let fields = &type_of(&int, &arenas, &symbols, "example.User").fields;
    assert_eq!(fields.len(), 1);
    assert_eq!(int.resolve(fields[0].name), "email");
}

#[test]
fn injection_range_too_small_is_reported() {
    let (int, arenas, symbols, diag) = expand_all(&[r#"package example;
shape Timestamps { uint64 created_at; uint64 updated_at; }
type User { Timestamps(1..1) string email = 3; }
"#]);
    assert_eq!(
        messages(&diag),
        vec!["shape Timestamps has 2 fields but injection range 1..1 only fits 1".to_string()]
    );
    let fields = &type_of(&int, &arenas, &symbols, "example.User").fields;
    let numbers: Vec<u32> = fields.iter().map(|f| f.number).collect();
    assert_eq!(numbers, vec![1, 2, 3]);
}

#[test]
fn unresolved_include_is_reported() {
    let (int, arenas, symbols, diag) = expand_all(&[r#"package example;
shape Audited { Nowhere; string author; }
type Doc { Audited(1..3) string body = 4; }
"#]);
    assert_eq!(messages(&diag), vec!["unresolved shape include: Nowhere".to_string()]);
    let fields = &type_of(&int, &arenas, &symbols, "example.Doc").fields;
    let names: Vec<&str> = fields.iter().map(|f| int.resolve(f.name)).collect();
    assert_eq!(names, vec!["author", "body"]);
}

#[test]
fn qualified_shape_name_resolves_by_package() {
    let (int, arenas, symbols, diag) = expand_all(&[
        "package rpc;\nshape PageRequest { int32 page_size; string page_token; }",
        "package example;\ntype ListUsers { rpc.PageRequest(1..2) string filter = 3; }",
    ]);
    assert!(!diag.has_errors(), "errors: {:?}", diag.all());
    let fields = &type_of(&int, &arenas, &symbols, "example.ListUsers").fields;
    let names: Vec<&str> = fields.iter().map(|f| int.resolve(f.name)).collect();
    assert_eq!(names, vec!["page_size", "page_token", "filter"]);
}

#[test]
fn injection_keeps_its_position_among_fields() {
    let (int, arenas, symbols, diag) = expand_all(&[r#"package example;
shape Timestamps { uint64 created_at; }
type User { string email = 1; Timestamps(2..2) string name = 3; }
"#]);
    assert!(!diag.has_errors(), "errors: {:?}", diag.all());
    let fields = &type_of(&int, &arenas, &symbols, "example.User").fields;
    let names: Vec<&str> = fields.iter().map(|f| int.resolve(f.name)).collect();
    // The injection is the first one in the body, so it lands at position 0.
    assert_eq!(names, vec!["created_at", "email", "name"]);
}

fn checked(sources: &[&str]) -> (bool, Interner, Arenas, SymbolTable, Diagnostics) {
    let mut interner = Interner::default();
    let mut arenas = Arenas::default();
    let mut symbols = SymbolTable::default();
    let mut diag = Diagnostics::new();
    let mut files = Vec::new();
    for (i, s) in sources.iter().enumerate() {
        let src = SourceFile { name: format!("shape{}.ogham", i), content: s.to_string() };
        let f = parse_source(&src, &mut diag);
        assert!(collect_checked(&f, &mut interner, &mut arenas, &mut symbols, &mut diag));
        files.push(f);
    }
    populate_and_resolve(&files, &mut interner, &mut arenas, &symbols, &mut diag);
    let ok = expand_shapes_checked(&files, &mut interner, &mut arenas, &symbols, &mut diag);
    (ok, interner, arenas, symbols, diag)
}

#[test]
fn checked_expansion_applies_sound_injections() {
    let (ok, int, arenas, symbols, diag) = checked(&[r#"package example;
shape Timestamps { uint64 created_at; uint64 updated_at; }
type User { Timestamps(1..2) string email = 3; }
"#]);
    assert!(ok);
    assert!(!diag.has_errors());
    let fields = &type_of(&int, &arenas, &symbols, "example.User").fields;
    assert_eq!(fields.len(), 3);
}

#[test]
fn checked_expansion_refuses_include_cycles() {
    let (ok, int, arenas, symbols, diag) = checked(&[r#"package example;
shape A { B; string a; }
shape B { A; string b; }
type T { A(1..4) string t = 5; }
"#]);
    assert!(!ok);
    assert!(!diag.has_errors());
    let fields = &type_of(&int, &arenas, &symbols, "example.T").fields;
    assert_eq!(fields.len(), 1);
}

#[test]
fn checked_expansion_refuses_reversed_ranges() {
    let (ok, int, arenas, symbols, _diag) = checked(&[r#"package example;
shape Timestamps { uint64 created_at; }
type User { Timestamps(5..4) string email = 1; }
"#]);
    assert!(!ok);
    let fields = &type_of(&int, &arenas, &symbols, "example.User").fields;
    assert_eq!(fields.len(), 1);
}
