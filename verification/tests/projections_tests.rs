use la_arena::{Idx, RawIdx};
use ogham::diagnostics::Diagnostics;
use ogham::hir::{Arenas, Interner, SymbolTable, TypeDef};
use ogham::index::collect_checked;
use ogham::pipeline::{parse_source, SourceFile};
use ogham::resolve::{populate_and_resolve, resolve_projections};

fn project(source: &str) -> (Interner, Arenas, SymbolTable, Diagnostics) {
    let mut interner = Interner::default();
    let mut arenas = Arenas::default();
    let mut symbols = SymbolTable::default();
    let mut diag = Diagnostics::new();
    let src = SourceFile { name: "proj.ogham".to_string(), content: source.to_string() };
    let f = parse_source(&src, &mut diag);
    assert!(!diag.has_errors(), "parse errors: {:?}", diag.all());
    assert!(collect_checked(&f, &mut interner, &mut arenas, &mut symbols, &mut diag));
    let files = vec![f];
    populate_and_resolve(&files, &mut interner, &mut arenas, &symbols, &mut diag);
    resolve_projections(&mut interner, &mut arenas, &symbols, &mut diag);
    (interner, arenas, symbols, diag)
}

fn type_of<'a>(int: &Interner, arenas: &'a Arenas, symbols: &SymbolTable, full: &str) -> &'a TypeDef {
    let key = int.intern_lookup(full).unwrap();
    let id = symbols.types[&key];
    &arenas.types[Idx::from_raw(RawIdx::from(id))]
}

fn messages(diag: &Diagnostics) -> Vec<String> {
    diag.all().iter().map(|d| d.message.clone()).collect()
}

#[test]
fn mapping_resolves_to_its_source_type() {
    let (int, arenas, symbols, diag) = project(
        "package example;\ntype User { string name = 1; string email = 2; }\ntype UserMini { string name = 1 <- User.name; string email = 2 <- User.email; }",
    );
    assert!(!diag.has_errors(), "errors: {:?}", diag.all());
    let user = symbols.types[&int.intern_lookup("example.User").unwrap()];
    let mini = type_of(&int, &arenas, &symbols, "example.UserMini");
    for field in &mini.fields {
        let chain = &field.mapping.as_ref().unwrap().chain;
        assert_eq!(chain.len(), 1);
        assert_eq!(chain[0].source_type, user);
        assert_eq!(chain[0].source_field_name, field.name);
    }
}

#[test]
fn mapping_chains_follow_source_mappings() {
    let (int, arenas, symbols, diag) = project(
        "package example;\ntype A { string x = 1; }\ntype B { string x = 1 <- A.x; }\ntype C { string x = 1 <- B.x; }",
    );
    assert!(!diag.has_errors(), "errors: {:?}", diag.all());
    let a = symbols.types[&int.intern_lookup("example.A").unwrap()];
    let b = symbols.types[&int.intern_lookup("example.B").unwrap()];
    let c = type_of(&int, &arenas, &symbols, "example.C");
    let chain = &c.fields[0].mapping.as_ref().unwrap().chain;
    let sources: Vec<u32> = chain.iter().map(|l| l.source_type).collect();
    assert_eq!(sources, vec![b, a]);
}

#[test]
fn unresolved_projection_type_is_reported() {
    let (int, arenas, symbols, diag) = project("package example;\ntype M { string x = 1 <- Nowhere.x; }");
    assert_eq!(messages(&diag), vec!["projection: unresolved type Nowhere".to_string()]);
    let m = type_of(&int, &arenas, &symbols, "example.M");
    let chain = &m.fields[0].mapping.as_ref().unwrap().chain;
    assert_eq!(chain.len(), 1);
    assert_eq!(chain[0].source_type, 0);
}

#[test]
fn projection_cycles_are_reported() {
    let (int, arenas, symbols, diag) = project("package example;\ntype P { string x = 1 <- Q.x; }\ntype Q { string x = 1 <- P.x; }");
    assert_eq!(
        messages(&diag),
        vec!["projection cycle detected at Q.x".to_string(), "projection cycle detected at P.x".to_string()]
    );
    let p = type_of(&int, &arenas, &symbols, "example.P");
    assert_eq!(p.fields[0].mapping.as_ref().unwrap().chain.len(), 2);
}
