use la_arena::{Idx, RawIdx};
use ogham::diagnostics::Diagnostics;
use ogham::hir::{Arenas, Interner, SymbolTable, TypeDef, TypeTrace};
use ogham::index::collect_checked;
use ogham::pipeline::{parse_source, SourceFile};
use ogham::resolve::{expand_pick_omit, expand_shapes, expand_type_aliases, populate_and_resolve};

fn run(source: &str) -> (Interner, Arenas, SymbolTable, Diagnostics) {
    let mut interner = Interner::default();
    let mut arenas = Arenas::default();
    let mut symbols = SymbolTable::default();
    let mut diag = Diagnostics::new();
    let src = SourceFile { name: "po.ogham".to_string(), content: source.to_string() };
    let f = parse_source(&src, &mut diag);
    assert!(!diag.has_errors(), "parse errors: {:?}", diag.all());
    assert!(collect_checked(&f, &mut interner, &mut arenas, &mut symbols, &mut diag));
    let files = vec![f];
    populate_and_resolve(&files, &mut interner, &mut arenas, &symbols, &mut diag);
    expand_type_aliases(&files, &mut interner, &mut arenas, &mut symbols, &mut diag);
    expand_shapes(&files, &mut interner, &mut arenas, &symbols, &mut diag);
    expand_pick_omit(&files, &mut interner, &mut arenas, &mut symbols, &mut diag);
    (interner, arenas, symbols, diag)
}

fn type_of<'a>(int: &Interner, arenas: &'a Arenas, symbols: &SymbolTable, full: &str) -> &'a TypeDef {
    let key = int.intern_lookup(full).unwrap();
    let id = symbols.types[&key];
    &arenas.types[Idx::from_raw(RawIdx::from(id))]
}

fn field_names(int: &Interner, t: &TypeDef) -> Vec<String> {
    t.fields.iter().map(|f| int.resolve(f.name).to_string()).collect()
}

#[test]
fn pick_keeps_named_fields() {
    let (int, arenas, symbols, diag) = run(
        "package example;\ntype User { string email = 1; string name = 2; string password = 3; }\ntype PublicUser = Pick<User, email, name>;",
    );
    assert!(!diag.has_errors(), "errors: {:?}", diag.all());
    let t = type_of(&int, &arenas, &symbols, "example.PublicUser");
    assert_eq!(field_names(&int, t), vec!["email", "name"]);
    assert_eq!(t.fields[1].number, 2);
    match &t.trace {
        Some(TypeTrace::PickOmit { kind, source_type, field_names }) => {
            assert_eq!(int.resolve(*kind), "Pick");
            assert_eq!(*source_type, symbols.types[&int.intern_lookup("example.User").unwrap()]);
            let names: Vec<&str> = field_names.iter().map(|s| int.resolve(*s)).collect();
            assert_eq!(names, vec!["email", "name"]);
        },
        _ => panic!("no Pick trace"),
    }
    let user = type_of(&int, &arenas, &symbols, "example.User");
    assert_eq!(field_names(&int, user), vec!["email", "name", "password"]);
}

#[test]
fn pick_keeps_source_order() {
    let (int, arenas, symbols, _diag) = run(
        "package example;\ntype User { string email = 1; string name = 2; }\ntype P = Pick<User, name, email>;",
    );
    let t = type_of(&int, &arenas, &symbols, "example.P");
    assert_eq!(field_names(&int, t), vec!["email", "name"]);
}

#[test]
fn omit_drops_named_fields() {
    let (int, arenas, symbols, diag) = run(
        "package example;\ntype User { string email = 1; string name = 2; string password = 3; }\ntype SafeUser = Omit<User, password>;",
    );
    assert!(!diag.has_errors(), "errors: {:?}", diag.all());
    let t = type_of(&int, &arenas, &symbols, "example.SafeUser");
    assert_eq!(field_names(&int, t), vec!["email", "name"]);
    match &t.trace {
        Some(TypeTrace::PickOmit { kind, .. }) => assert_eq!(int.resolve(*kind), "Omit"),
        _ => panic!("no Omit trace"),
    }
}

#[test]
fn omit_of_a_shape_drops_its_fields() {
    let (int, arenas, symbols, diag) = run(
        "package example;\nshape Timestamps { uint64 created_at; uint64 updated_at; }\ntype User { Timestamps(1..2) string email = 3; }\ntype Plain = Omit<User, Timestamps>;",
    );
    assert!(!diag.has_errors(), "errors: {:?}", diag.all());
    let t = type_of(&int, &arenas, &symbols, "example.Plain");
    assert_eq!(field_names(&int, t), vec!["email"]);
}

#[test]
fn pick_of_an_unknown_source_changes_nothing() {
    let (int, arenas, symbols, _diag) = run("package example;\ntype P = Pick<Nowhere, a>;");
    let t = type_of(&int, &arenas, &symbols, "example.P");
    assert!(t.fields.is_empty());
    assert!(t.trace.is_none());
}
