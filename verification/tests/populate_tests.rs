use la_arena::{Idx, RawIdx};
use ogham::diagnostics::Diagnostics;
use ogham::hir::{Arenas, Interner, LiteralValue, Loc, ResolvedType, ScalarKind, ServiceDef, ShapeDef, SymbolTable, TypeDef};
use ogham::index::collect_checked;
use ogham::pipeline::{parse_source, SourceFile};
use ogham::resolve::{compute_back_references, populate_and_resolve, resolve_rpcs};

fn build_files(sources: &[&str]) -> (Interner, Arenas, SymbolTable, Diagnostics) {
    let mut interner = Interner::default();
    let mut arenas = Arenas::default();
    let mut symbols = SymbolTable::default();
    let mut diag = Diagnostics::new();
    let mut files = Vec::new();
    for (i, s) in sources.iter().enumerate() {
        let src = SourceFile { name: format!("test{}.ogham", i), content: s.to_string() };
        let f = parse_source(&src, &mut diag);
        assert!(!diag.has_errors(), "parse errors: {:?}", diag.all());
        assert!(collect_checked(&f, &mut interner, &mut arenas, &mut symbols, &mut diag));
        files.push(f);
    }
    populate_and_resolve(&files, &mut interner, &mut arenas, &symbols, &mut diag);
    resolve_rpcs(&files, &mut interner, &mut arenas, &symbols, &mut diag);
    (interner, arenas, symbols, diag)
}

fn build(source: &str) -> (Interner, Arenas, SymbolTable, Diagnostics) {
    build_files(&[source])
}

fn type_of<'a>(int: &Interner, arenas: &'a Arenas, symbols: &SymbolTable, full: &str) -> &'a TypeDef {
    let key = int.intern_lookup(full).unwrap();
    let id = symbols.types[&key];
    &arenas.types[Idx::from_raw(RawIdx::from(id))]
}

fn shape_of<'a>(int: &Interner, arenas: &'a Arenas, symbols: &SymbolTable, full: &str) -> &'a ShapeDef {
    let key = int.intern_lookup(full).unwrap();
    let id = symbols.shapes[&key];
    &arenas.shapes[Idx::from_raw(RawIdx::from(id))]
}

#[test]
fn resolve_scalar_fields() {
    let (int, arenas, symbols, _diag) =
        build("package example;\ntype User { string email = 1; int64 age = 2; bool active = 3; }");
    let fields = &type_of(&int, &arenas, &symbols, "example.User").fields;
    assert_eq!(fields.len(), 3);
    assert!(matches!(fields[0].ty, ResolvedType::Scalar(ScalarKind::String)));
    assert!(matches!(fields[1].ty, ResolvedType::Scalar(ScalarKind::Int64)));
    assert!(matches!(fields[2].ty, ResolvedType::Scalar(ScalarKind::Bool)));
}

#[test]
fn resolve_same_package_type() {
    let (int, arenas, symbols, _diag) =
        build("package example;\ntype Address { string city = 1; }\ntype User { Address addr = 1; }");
    let fields = &type_of(&int, &arenas, &symbols, "example.User").fields;
    assert!(matches!(fields[0].ty, ResolvedType::Message(_)));
}

#[test]
fn resolve_enum_type() {
    let (int, arenas, symbols, _diag) =
        build("package example;\nenum Status { Active = 1; }\ntype User { Status status = 1; }");
    let fields = &type_of(&int, &arenas, &symbols, "example.User").fields;
    assert!(matches!(fields[0].ty, ResolvedType::Enum(_)));
}

#[test]
fn resolve_array_type() {
    let (int, arenas, symbols, _diag) =
        build("package example;\ntype Order { string id = 1; }\ntype User { []Order orders = 1; }");
    let fields = &type_of(&int, &arenas, &symbols, "example.User").fields;
    assert!(matches!(fields[0].ty, ResolvedType::Array(_)));
    if let ResolvedType::Array(inner) = &fields[0].ty {
        assert!(matches!(**inner, ResolvedType::Message(_)));
    }
    assert!(fields[0].is_repeated);
}

#[test]
fn resolve_map_type() {
    let (int, arenas, symbols, _diag) = build("package example;\ntype User { map<string, string> meta = 1; }");
    let fields = &type_of(&int, &arenas, &symbols, "example.User").fields;
    assert!(matches!(fields[0].ty, ResolvedType::MapOf { .. }));
}

#[test]
fn resolve_optional_type() {
    let (int, arenas, symbols, _diag) = build("package example;\ntype User { string? nick = 1; }");
    assert!(type_of(&int, &arenas, &symbols, "example.User").fields[0].is_optional);
}

#[test]
fn resolve_oneof_fields() {
    let (int, arenas, symbols, _diag) = build(
        "package example;\ntype Addr { string city = 1; }\ntype User { oneof location { Addr home = 1; Addr work = 2; } }",
    );
    let user = type_of(&int, &arenas, &symbols, "example.User");
    assert_eq!(user.oneofs.len(), 1);
    assert_eq!(user.oneofs[0].fields.len(), 2);
    assert!(matches!(user.oneofs[0].fields[0].ty, ResolvedType::Message(_)));
}

#[test]
fn resolve_shape_fields() {
    let (int, arenas, symbols, _diag) =
        build("package example;\nshape Timestamps { uint64 created_at; uint64 updated_at; }");
    let shape = shape_of(&int, &arenas, &symbols, "example.Timestamps");
    assert_eq!(shape.fields.len(), 2);
    assert!(matches!(shape.fields[0].ty, ResolvedType::Scalar(ScalarKind::Uint64)));
}

#[test]
fn back_references() {
    let (int, mut arenas, symbols, _diag) = build(
        "package example;\ntype Address { string city = 1; }\ntype User { Address addr = 1; }\ntype Order { Address billing = 1; }",
    );
    compute_back_references(&mut arenas);
    assert_eq!(type_of(&int, &arenas, &symbols, "example.Address").back_references.len(), 2);
}

#[test]
fn field_mapping_collected() {
    let (int, arenas, symbols, _diag) =
        build("package example;\ntype User { string name = 1; }\ntype Mini { string name = 1 <- User.name; }");
    assert!(type_of(&int, &arenas, &symbols, "example.Mini").fields[0].mapping.is_some());
}

#[test]
fn populated_field_details() {
    let (int, arenas, symbols, diag) = build(
        "package example;\ntype User { string name = 1; }\n@db::table(name=\"users\", limit=10, on)\ntype Mini { string? nick = 7 <- User.profile.name; []string tags = 2; }",
    );
    assert!(diag.is_empty());
    let mini = type_of(&int, &arenas, &symbols, "example.Mini");
    assert_eq!(mini.fields.len(), 2);
    let nick = &mini.fields[0];
    assert_eq!(int.resolve(nick.name), "nick");
    assert_eq!(nick.number, 7);
    assert!(nick.is_optional);
    assert!(!nick.is_repeated);
    let link = &nick.mapping.as_ref().unwrap().chain[0];
    assert_eq!(link.source_type, 0);
    assert_eq!(int.resolve(link.source_field_name), "name");
    let path: Vec<&str> = link.path.iter().map(|s| int.resolve(*s)).collect();
    assert_eq!(path, vec!["User", "profile", "name"]);
    assert!(mini.fields[1].is_repeated);
    assert!(mini.fields[1].mapping.is_none());
    assert_eq!(mini.annotations.len(), 1);
    let call = &mini.annotations[0];
    assert_eq!(int.resolve(call.library), "db");
    assert_eq!(int.resolve(call.name), "table");
    assert_eq!(call.arguments.len(), 3);
    assert_eq!(int.resolve(call.arguments[0].name), "name");
    match &call.arguments[0].value {
        LiteralValue::String(s) => assert_eq!(int.resolve(*s), "users"),
        other => panic!("not a string: {:?}", other),
    }
    assert!(matches!(call.arguments[1].value, LiteralValue::Int(10)));
    assert_eq!(int.resolve(call.arguments[2].name), "");
    match &call.arguments[2].value {
        LiteralValue::Ident(s) => assert_eq!(int.resolve(*s), "on"),
        other => panic!("not an identifier: {:?}", other),
    }
}

#[test]
fn library_annotation_values() {
    let (int, arenas, symbols, _diag) = build(
        "package example;\n@validate::range(min=-5, max=2.5, strict=true, name=\"x\")\ntype T { string s = 1; }",
    );
    let t = type_of(&int, &arenas, &symbols, "example.T");
    assert_eq!(t.annotations.len(), 1);
    let call = &t.annotations[0];
    assert_eq!(int.resolve(call.library), "validate");
    assert_eq!(int.resolve(call.name), "range");
    assert!(call.definition.is_none());
    assert!(matches!(call.arguments[0].value, LiteralValue::Int(-5)));
    match &call.arguments[1].value {
        LiteralValue::Float(s) => assert_eq!(int.resolve(*s), "2.5"),
        other => panic!("not a float: {:?}", other),
    }
    assert!(matches!(call.arguments[2].value, LiteralValue::Bool(true)));
}

#[test]
fn nested_type_fields_populated() {
    let src = "package example;\ntype Outer { type Inner { int32 x = 1; } string name = 1; }";
    let mut interner = Interner::default();
    let mut arenas = Arenas::default();
    let mut symbols = SymbolTable::default();
    let mut diag = Diagnostics::new();
    let f = parse_source(&SourceFile { name: "n.ogham".to_string(), content: src.to_string() }, &mut diag);
    assert!(collect_checked(&f, &mut interner, &mut arenas, &mut symbols, &mut diag));
    // The index pass registers top-level types only; register the nested one by hand.
    let name = interner.intern("Inner");
    let full = interner.intern("example.Outer.Inner");
    let id = arenas.types.alloc(TypeDef {
        name,
        full_name: full,
        fields: Vec::new(),
        oneofs: Vec::new(),
        nested_types: Vec::new(),
        nested_enums: Vec::new(),
        annotations: Vec::new(),
        back_references: Vec::new(),
        trace: None,
        loc: Loc::default(),
    });
    symbols.types.insert(full, id.into_raw().into_u32());
    populate_and_resolve(&[f], &mut interner, &mut arenas, &symbols, &mut diag);
    let inner = type_of(&interner, &arenas, &symbols, "example.Outer.Inner");
    assert_eq!(inner.fields.len(), 1);
    assert_eq!(interner.resolve(inner.fields[0].name), "x");
    assert!(matches!(inner.fields[0].ty, ResolvedType::Scalar(ScalarKind::Int32)));
    let outer = type_of(&interner, &arenas, &symbols, "example.Outer");
    assert_eq!(outer.fields.len(), 1);
    assert_eq!(interner.resolve(outer.fields[0].name), "name");
}

#[test]
fn unresolved_field_type_reported_by_file() {
    let (int, arenas, symbols, diag) =
        build_files(&["package a;\ntype T { string s = 1; }", "package b;\ntype U { money.Amount m = 1; }"]);
    let all = diag.all();
    assert_eq!(all.len(), 1);
    assert_eq!(all[0].message, "unresolved type: money.Amount");
    assert_eq!(all[0].file(), "test1.ogham");
    assert!(matches!(type_of(&int, &arenas, &symbols, "b.U").fields[0].ty, ResolvedType::Error));
}

fn service_of<'a>(int: &Interner, arenas: &'a Arenas, symbols: &SymbolTable, full: &str) -> &'a ServiceDef {
    let key = int.intern_lookup(full).unwrap();
    let id = symbols.services[&key];
    &arenas.services[Idx::from_raw(RawIdx::from(id))]
}

#[test]
fn resolve_service_rpcs() {
    let (int, arenas, symbols, _diag) =
        build("package example;\ntype User { string name = 1; }\nservice UserAPI { rpc Get(void) -> User; }");
    let rpcs = &service_of(&int, &arenas, &symbols, "example.UserAPI").rpcs;
    assert_eq!(rpcs.len(), 1);
    assert!(rpcs[0].input.is_void);
    assert!(!rpcs[0].output.is_void);
    assert!(matches!(rpcs[0].output.ty, ResolvedType::Message(_)));
}

#[test]
fn full_example() {
    let (_, arenas, _, diag) = build(
        r#"package example;

type User {
    string email = 1;
    string name = 2;
    int64 age = 3;
    bool active = 4;
    float score = 5;
    []string tags = 6;
    map<string, string> meta = 7;
    string? nickname = 8;
}

enum Status {
    Active = 1;
    Inactive = 2;
}

type Order {
    string id = 1;
    User owner = 2;
    Status status = 3;
}

shape Timestamps {
    uint64 created_at;
    uint64 updated_at;
}

service OrderAPI {
    rpc Get(void) -> Order;
    rpc List(void) -> stream Order;
}
"#,
    );
    assert!(!diag.has_errors(), "errors: {:?}", diag.all());
    assert_eq!(arenas.types.len(), 2);
    assert_eq!(arenas.enums.len(), 1);
    assert_eq!(arenas.shapes.len(), 1);
    assert_eq!(arenas.services.len(), 1);
}

#[test]
fn inline_rpc_types_become_messages() {
    let (int, arenas, symbols, diag) = build(
        "package example;\ntype User { string name = 1; }\nservice UserAPI { rpc Create({ string name = 1; []int32 codes = 2; }) -> stream { User user = 1; }; }",
    );
    assert!(diag.is_empty(), "{:?}", diag.all());
    assert_eq!(arenas.types.len(), 3);
    let rpcs = &service_of(&int, &arenas, &symbols, "example.UserAPI").rpcs;
    assert_eq!(rpcs.len(), 1);
    assert_eq!(int.resolve(rpcs[0].name), "Create");
    assert!(!rpcs[0].input.is_void);
    assert!(!rpcs[0].input.is_stream);
    assert!(matches!(rpcs[0].input.ty, ResolvedType::Message(1)));
    assert!(rpcs[0].output.is_stream);
    assert!(matches!(rpcs[0].output.ty, ResolvedType::Message(2)));
    let req = &arenas.types[Idx::from_raw(RawIdx::from(1u32))];
    assert_eq!(int.resolve(req.name), "UserAPI_CreateRequest");
    assert_eq!(int.resolve(req.full_name), "example.UserAPI_CreateRequest");
    assert_eq!(req.fields.len(), 2);
    assert!(req.fields[1].is_repeated);
    assert!(req.fields[1].mapping.is_none());
    let resp = &arenas.types[Idx::from_raw(RawIdx::from(2u32))];
    assert_eq!(int.resolve(resp.name), "UserAPI_CreateResponse");
    assert!(matches!(resp.fields[0].ty, ResolvedType::Message(0)));
}

#[test]
fn rpc_unresolved_output_reported() {
    let (int, arenas, symbols, diag) =
        build("package example;\n@api::Public\nservice S { rpc Go(void) -> billing.Invoice; }");
    let all = diag.all();
    assert_eq!(all.len(), 1);
    assert_eq!(all[0].message, "unresolved type: billing.Invoice");
    let svc = service_of(&int, &arenas, &symbols, "example.S");
    assert!(matches!(svc.rpcs[0].output.ty, ResolvedType::Error));
    assert_eq!(svc.annotations.len(), 1);
    assert_eq!(int.resolve(svc.annotations[0].name), "Public");
}
