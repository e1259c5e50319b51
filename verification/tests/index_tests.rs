use la_arena::{Idx, RawIdx};
use ogham::ast::{AstNode, Root};
use ogham::diagnostics::Diagnostics;
use ogham::hir::{Arenas, Interner, SymbolTable};
use ogham::index::{collect, ParsedFile};
use ogham::parser;

fn index_source(source: &str) -> (Interner, Arenas, SymbolTable, Diagnostics) {
    let parse = parser::parse(source);
    assert!(parse.errors.is_empty(), "parse errors: {:?}", parse.errors);

    let root = parse.syntax();
    let pkg = {
        let r = Root::cast(root.clone()).unwrap();
        r.package_decl()
            .and_then(|p| p.name().map(|t| t.text().to_string()))
            .unwrap_or_else(|| "default".to_string())
    };

    let file = ParsedFile { file_name: "test.ogham".to_string(), root, package: pkg };

    let mut interner = Interner::default();
    let mut arenas = Arenas::default();
    let mut symbols = SymbolTable::default();
    let mut diag = Diagnostics::new();

    collect(&file, &mut interner, &mut arenas, &mut symbols, &mut diag);

    (interner, arenas, symbols, diag)
}

#[test]
fn index_type() {
    let (int, arenas, symbols, diag) = index_source("package example;\ntype User { string email = 1; }");
    assert!(!diag.has_errors());
    let key = int.intern_lookup("example.User").unwrap();
    assert!(symbols.types.contains_key(&key));
    assert_eq!(arenas.types.len(), 1);
}

#[test]
fn index_enum() {
    let (int, arenas, symbols, diag) = index_source("package example;\nenum Status { Active = 1; }");
    assert!(!diag.has_errors());
    let key = int.intern_lookup("example.Status").unwrap();
    assert!(symbols.enums.contains_key(&key));
    // Implicit Unspecified=0 + Active=1
    let id = symbols.enums[&key];
    assert_eq!(arenas.enums[Idx::from_raw(RawIdx::from(id))].values.len(), 2);
}

#[test]
fn index_shape() {
    let (int, _arenas, symbols, diag) = index_source("package example;\nshape Timestamps { uint64 created_at; }");
    assert!(!diag.has_errors());
    let key = int.intern_lookup("example.Timestamps").unwrap();
    assert!(symbols.shapes.contains_key(&key));
}

#[test]
fn index_service() {
    let (int, _arenas, symbols, diag) =
        index_source("package example;\nservice UserAPI { rpc Get(void) -> void; }");
    assert!(!diag.has_errors());
    let key = int.intern_lookup("example.UserAPI").unwrap();
    assert!(symbols.services.contains_key(&key));
}

#[test]
fn index_annotation_def() {
    let (int, _arenas, symbols, diag) =
        index_source("package example;\nannotation Table for type { string table_name; }");
    assert!(!diag.has_errors());
    let lib = int.intern_lookup("example").unwrap();
    let name = int.intern_lookup("Table").unwrap();
    assert!(symbols.annotations.contains_key(&(lib, name)));
}

#[test]
fn duplicate_type_error() {
    let (_, _, _, diag) =
        index_source("package example;\ntype User { string a = 1; }\ntype User { string b = 1; }");
    assert!(diag.has_errors());
}

#[test]
fn multiple_declarations() {
    let (_, arenas, _, diag) = index_source(
        r#"package example;
type User { string email = 1; }
type Order { string id = 1; }
enum Status { Active = 1; }
shape Timestamps { uint64 created_at; }
service UserAPI { rpc Get(void) -> void; }
annotation Table for type { string name; }
"#,
    );
    assert!(!diag.has_errors());
    assert_eq!(arenas.types.len(), 2);
    assert_eq!(arenas.enums.len(), 1);
    assert_eq!(arenas.shapes.len(), 1);
    assert_eq!(arenas.services.len(), 1);
    assert_eq!(arenas.annotation_defs.len(), 1);
}

#[test]
fn index_details_and_duplicate_report() {
    let src = "package ex;\ntype A {}\ntype A {}\nenum E { X = 3; }\nshape S<T> { Base; Other, Third; }\n";
    let (int, arenas, symbols, diag) = index_source(src);
    // one duplicate, reported at the second declaration with its full name
    let errors = diag.errors();
    assert_eq!(errors.len(), 1);
    assert_eq!(errors[0].message, "duplicate type: ex.A");
    let second = src.find("type A {}\nenum").unwrap();
    assert_eq!(errors[0].span(), second..second + "type A {}".len());
    assert_eq!(errors[0].file(), "test.ogham");
    // the table keeps the last definition
    let key = int.intern_lookup("ex.A").unwrap();
    assert_eq!(symbols.types[&key], 1);
    assert_eq!(arenas.types.len(), 2);
    // symbols resolve to the names
    let t0 = &arenas.types[Idx::from_raw(RawIdx::from(0u32))];
    assert_eq!(int.resolve(t0.name), "A");
    assert_eq!(int.resolve(t0.full_name), "ex.A");
    assert_eq!(t0.loc.span, 12..21);
    // enum values: Unspecified = 0, then X = 3
    let e = &arenas.enums[Idx::from_raw(RawIdx::from(0u32))];
    assert_eq!(int.resolve(e.values[0].name), "Unspecified");
    assert_eq!(e.values[0].number, 0);
    assert_eq!(int.resolve(e.values[1].name), "X");
    assert_eq!(e.values[1].number, 3);
    // shape type parameters and includes
    let s = &arenas.shapes[Idx::from_raw(RawIdx::from(0u32))];
    let params: Vec<&str> = s.type_params.iter().map(|p| int.resolve(*p)).collect();
    assert_eq!(params, vec!["T"]);
    let includes: Vec<&str> = s.includes.iter().map(|p| int.resolve(*p)).collect();
    assert_eq!(includes, vec!["Base", "Other", "Third"]);
}

#[test]
fn index_skips_a_non_root_node() {
    let parse = parser::parse("package ex;\ntype A {}");
    let root = Root::cast(parse.syntax()).unwrap();
    let decl = root.type_decls().remove(0);
    let file = ParsedFile {
        file_name: "f.ogham".to_string(),
        root: decl.syntax().clone(),
        package: "ex".to_string(),
    };
    let mut interner = Interner::default();
    let mut arenas = Arenas::default();
    let mut symbols = SymbolTable::default();
    let mut diag = Diagnostics::new();
    collect(&file, &mut interner, &mut arenas, &mut symbols, &mut diag);
    assert!(interner.intern_lookup("f.ogham").is_none());
    assert_eq!(arenas.types.len(), 0);
    assert!(diag.is_empty());
}
