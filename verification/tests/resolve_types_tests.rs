use la_arena::{Idx, RawIdx};
use ogham::ast::{AstNode, Root, TypeRef};
use ogham::diagnostics::Diagnostics;
use ogham::hir::{Arenas, Interner, ResolvedType, ScalarKind, SymbolTable};
use ogham::index::collect_checked;
use ogham::pipeline::{parse_source, SourceFile};
use ogham::resolve::{collect_imports, resolve_type_ref};

struct World {
    interner: Interner,
    symbols: SymbolTable,
    diag: Diagnostics,
    roots: Vec<(Root, String)>,
}

fn world(sources: &[&str]) -> World {
    let mut diag = Diagnostics::new();
    let mut interner = Interner::default();
    let mut arenas = Arenas::default();
    let mut symbols = SymbolTable::default();
    let mut roots = Vec::new();
    for (i, s) in sources.iter().enumerate() {
        let src = SourceFile { name: format!("f{}.ogham", i), content: s.to_string() };
        let f = parse_source(&src, &mut diag);
        assert!(collect_checked(&f, &mut interner, &mut arenas, &mut symbols, &mut diag));
        roots.push((Root::cast(f.root.clone()).unwrap(), f.package.clone()));
    }
    assert!(!diag.has_errors());
    World { interner, symbols, diag, roots }
}

/// The type reference of field `k` of type declaration `t` of file `f`.
fn field_type(w: &World, f: usize, t: usize, k: usize) -> TypeRef {
    let decl = w.roots[f].0.type_decls().remove(t);
    decl.body().unwrap().fields().remove(k).type_ref().unwrap()
}

fn resolve(w: &mut World, f: usize, t: usize, k: usize) -> ResolvedType {
    let tr = field_type(w, f, t, k);
    let imports = collect_imports(&w.roots[f].0);
    let pkg = w.roots[f].1.clone();
    resolve_type_ref(&tr, &mut w.interner, &pkg, &imports, &w.symbols, &mut w.diag, "f.ogham")
}

#[test]
fn unknown_single_name_is_left_unresolved() {
    let mut w = world(&["package example;\ntype Box { T value = 1; }"]);
    match resolve(&mut w, 0, 0, 0) {
        ResolvedType::Unresolved(s) => assert_eq!(w.interner.resolve(s), "T"),
        other => panic!("resolved: {:?}", other),
    }
    assert!(w.diag.is_empty());
}

#[test]
fn unknown_dotted_name_is_an_error() {
    let mut w = world(&["package example;\ntype User { money.Amount total = 1; }"]);
    assert!(matches!(resolve(&mut w, 0, 0, 0), ResolvedType::Error));
    let all = w.diag.all();
    assert_eq!(all.len(), 1);
    assert_eq!(all[0].message, "unresolved type: money.Amount");
    assert_eq!(all[0].span(), 0..0);
}

#[test]
fn imported_package_type() {
    let mut w = world(&[
        "package example;\nimport github.com/org/uuid;\ntype User { uuid.UUID id = 1; }",
        "package uuid;\ntype UUID { bytes value = 1; }",
    ]);
    assert!(matches!(resolve(&mut w, 0, 0, 0), ResolvedType::Message(1)));
    assert!(w.diag.is_empty());
}

#[test]
fn import_aliases_and_last_segments() {
    let w = world(&["package p;\nimport github.com/org/database as db;\nimport github.com/org/money;"]);
    let imports = collect_imports(&w.roots[0].0);
    assert_eq!(imports.get("db").unwrap(), "github.com/org/database");
    assert_eq!(imports.get("money").unwrap(), "github.com/org/money");
    assert!(imports.get("database").is_none());
}

fn field_def(w: &mut World, name: &str, ty: ResolvedType) -> ogham::hir::FieldDef {
    ogham::hir::FieldDef {
        name: w.interner.intern(name),
        number: 1,
        ty,
        is_optional: false,
        is_repeated: false,
        annotations: Vec::new(),
        mapping: None,
        trace: None,
        loc: ogham::hir::Loc::default(),
    }
}

#[test]
fn type_alias_expansion() {

    let src = "package p;\ntype Id = string;\ntype User { Id id = 1; []Id ids = 2; map<string, Id> m = 3; }";
    let mut diag = Diagnostics::new();
    let mut interner = Interner::default();
    let mut arenas = Arenas::default();
    let mut symbols = SymbolTable::default();
    let f = parse_source(&SourceFile { name: "a.ogham".to_string(), content: src.to_string() }, &mut diag);
    assert!(collect_checked(&f, &mut interner, &mut arenas, &mut symbols, &mut diag));
    let root = Root::cast(f.root.clone()).unwrap();
    let mut w = World { interner, symbols, diag, roots: vec![(root, "p".to_string())] };
    // Populate User's fields with their resolved types.
    let mut fields = Vec::new();
    for (k, name) in ["id", "ids", "m"].iter().enumerate() {
        let ty = resolve(&mut w, 0, 1, k);
        fields.push(field_def(&mut w, name, ty));
    }
    assert!(matches!(fields[0].ty, ResolvedType::Message(0)));
    arenas.types[Idx::from_raw(RawIdx::from(1u32))].fields = fields;
    let mut symbols = w.symbols;
    ogham::resolve::expand_type_aliases(&[f], &mut w.interner, &mut arenas, &mut symbols, &mut w.diag);
    let user = &arenas.types[Idx::from_raw(RawIdx::from(1u32))];
    assert!(matches!(user.fields[0].ty, ResolvedType::Scalar(ScalarKind::String)));
    match &user.fields[1].ty {
        ResolvedType::Array(inner) => assert!(matches!(**inner, ResolvedType::Scalar(ScalarKind::String))),
        other => panic!("not an array: {:?}", other),
    }
    match &user.fields[2].ty {
        ResolvedType::MapOf { value, .. } => assert!(matches!(**value, ResolvedType::Scalar(ScalarKind::String))),
        other => panic!("not a map: {:?}", other),
    }
    assert!(w.diag.is_empty());
}
