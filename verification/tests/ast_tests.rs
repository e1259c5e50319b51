use ogham::ast::{AstNode, Root};
use ogham::parser;

fn parse_root(source: &str) -> Root {
    let result = parser::parse(source);
    assert!(result.errors.is_empty(), "errors: {:?}", result.errors);
    Root::cast(result.syntax()).unwrap()
}

#[test]
fn package_name() {
    let root = parse_root("package example;");
    let pkg = root.package_decl().unwrap();
    assert_eq!(pkg.name().unwrap().text(), "example");
}

#[test]
fn imports() {
    let root = parse_root("package p;\nimport uuid;\nimport github.com/org/db as mydb;");
    let imports = root.imports();
    assert_eq!(imports.len(), 2);

    assert_eq!(imports[0].path().unwrap().text(), "uuid");
    assert!(imports[0].alias().is_none());

    assert_eq!(imports[1].path().unwrap().text(), "github.com/org/db");
    assert_eq!(imports[1].alias().unwrap().text(), "mydb");
}

#[test]
fn type_with_fields() {
    let root = parse_root("type User { string email = 1; int64 age = 2; }");
    let types = root.type_decls();
    assert_eq!(types.len(), 1);
    assert_eq!(types[0].name().unwrap().text(), "User");

    let body = types[0].body().unwrap();
    let fields = body.fields();
    assert_eq!(fields.len(), 2);

    assert_eq!(fields[0].name().unwrap().text(), "email");
    assert_eq!(fields[0].field_number(), Some(1));
    assert_eq!(fields[1].name().unwrap().text(), "age");
    assert_eq!(fields[1].field_number(), Some(2));
}

#[test]
fn ast_type_alias() {
    let root = parse_root("type Id = uuid.UUID;");
    let types = root.type_decls();
    let alias = types[0].alias().unwrap();
    let tr = alias.type_ref().unwrap();
    let qn = tr.qualified_name().unwrap();
    assert_eq!(qn.segments(), vec!["uuid", "UUID"]);
}

#[test]
fn type_generic_params() {
    let root = parse_root("type Paginated<T> { []T data = 1; }");
    let types = root.type_decls();
    let params = types[0].type_params().unwrap();
    let names: Vec<_> = params.params().iter().map(|t| t.text().to_string()).collect();
    assert_eq!(names, vec!["T"]);
}

#[test]
fn pick_type() {
    let root = parse_root("type Sub = Pick<User, id, email>;");
    let types = root.type_decls();
    let alias = types[0].alias().unwrap();
    let pick = alias.pick_type().unwrap();
    let fields = pick.fields().unwrap();
    let names: Vec<_> = fields.names().iter().map(|t| t.text().to_string()).collect();
    assert_eq!(names, vec!["id", "email"]);
}

#[test]
fn shape_with_fields_and_includes() {
    let root = parse_root("shape Combined { ShapeA; ShapeB, ShapeC; string name; }");
    let shapes = root.shape_decls();
    assert_eq!(shapes[0].name().unwrap().text(), "Combined");

    let includes = shapes[0].includes();
    assert_eq!(includes.len(), 2); // ShapeA; and ShapeB, ShapeC;
    assert_eq!(includes[0].names().len(), 1);
    assert_eq!(includes[1].names().len(), 2);

    let fields = shapes[0].fields();
    assert_eq!(fields.len(), 1);
    assert_eq!(fields[0].name().unwrap().text(), "name");
}

#[test]
fn shape_injection_range() {
    let root = parse_root("type User { MyShape(1..4) string email = 5; }");
    let body = root.type_decls()[0].body().unwrap();
    let injections = body.shape_injections();
    assert_eq!(injections.len(), 1);
    assert_eq!(injections[0].full_name(), "MyShape");
    assert_eq!(injections[0].range_start(), Some(1));
    assert_eq!(injections[0].range_end(), Some(4));
}

#[test]
fn enum_values() {
    let root = parse_root("enum Status { Pending = 1; Active = 2; }");
    let enums = root.enum_decls();
    assert_eq!(enums[0].name().unwrap().text(), "Status");

    let values = enums[0].values();
    assert_eq!(values.len(), 2);
    assert_eq!(values[0].name().unwrap().text(), "Pending");
    assert_eq!(values[0].value(), Some(1));
    assert_eq!(values[1].name().unwrap().text(), "Active");
    assert_eq!(values[1].value(), Some(2));
}

#[test]
fn oneof_fields() {
    let root = parse_root(
        "type T { oneof addr { Address home = 1; Address work = 2; } }",
    );
    let body = root.type_decls()[0].body().unwrap();
    let oneofs = body.oneofs();
    assert_eq!(oneofs[0].name().unwrap().text(), "addr");
    let fields = oneofs[0].fields();
    assert_eq!(fields.len(), 2);
    assert_eq!(fields[0].name().unwrap().text(), "home");
    assert_eq!(fields[0].field_number(), Some(1));
}

#[test]
fn service_rpcs() {
    let root = parse_root(
        "service S { rpc Get(void) -> User; rpc List(void) -> stream User; }",
    );
    let services = root.service_decls();
    assert_eq!(services[0].name().unwrap().text(), "S");

    let rpcs = services[0].rpcs();
    assert_eq!(rpcs.len(), 2);
    assert_eq!(rpcs[0].name().unwrap().text(), "Get");

    let input = rpcs[0].input().unwrap();
    assert!(input.is_void());

    let output = rpcs[1].output().unwrap();
    assert!(output.is_stream());
}

#[test]
fn field_type_optional() {
    let root = parse_root("type T { string? nick = 1; }");
    let fields = root.type_decls()[0].body().unwrap().fields();
    assert!(fields[0].type_ref().unwrap().is_optional());
}

#[test]
fn field_type_array() {
    let root = parse_root("type T { []string tags = 1; }");
    let fields = root.type_decls()[0].body().unwrap().fields();
    let tr = fields[0].type_ref().unwrap();
    assert!(tr.array_type().is_some());
}

#[test]
fn field_type_map() {
    let root = parse_root("type T { map<string, int> meta = 1; }");
    let fields = root.type_decls()[0].body().unwrap().fields();
    let tr = fields[0].type_ref().unwrap();
    let map = tr.map_type().unwrap();
    assert!(map.key_type().is_some());
    assert!(map.value_type().is_some());
}

#[test]
fn field_mapping() {
    let root = parse_root("type M { string id = 1 <- User.id; }");
    let fields = root.type_decls()[0].body().unwrap().fields();
    let mapping = fields[0].mapping().unwrap();
    assert_eq!(mapping.segments(), vec!["User", "id"]);
}

#[test]
fn field_mapping_wildcard() {
    let root = parse_root("type M { string tx = 1 <- Payment.method.*.tx_id; }");
    let fields = root.type_decls()[0].body().unwrap().fields();
    let mapping = fields[0].mapping().unwrap();
    assert_eq!(mapping.segments(), vec!["Payment", "method", "*", "tx_id"]);
}

#[test]
fn annotation_decl() {
    let root = parse_root("annotation Table for type|field { string table_name; }");
    let decls = root.annotation_decls();
    assert_eq!(decls[0].name().unwrap().text(), "Table");
    let targets = decls[0].targets().unwrap().targets();
    assert_eq!(targets, vec!["type", "field"]);
    assert_eq!(decls[0].fields().len(), 1);
}

#[test]
fn annotation_call_library() {
    let root = parse_root(r#"@database::Table(table_name="users") type T { string id = 1; }"#);
    // Annotations are emitted as preceding siblings to the type node
    // For this test, we verify they parse without errors
    assert_eq!(root.type_decls().len(), 1);
}

#[test]
fn annotation_call_builtin() {
    let root = parse_root("type T { string id = 1; @reserved(2) }");
    let body = root.type_decls()[0].body().unwrap();
    let reserved = body.reserved_decls();
    assert_eq!(reserved.len(), 1);
    assert_eq!(reserved[0].field_number(), Some(2));
}

#[test]
fn qualified_name_text() {
    let root = parse_root("type T { uuid.UUID id = 1; }");
    let field = &root.type_decls()[0].body().unwrap().fields()[0];
    let qn = field.type_ref().unwrap().qualified_name().unwrap();
    assert_eq!(qn.text(), "uuid.UUID");
    assert_eq!(qn.segments(), vec!["uuid", "UUID"]);
}

#[test]
fn nested_type_decl() {
    let root = parse_root("type Order { type Address { string city = 1; } }");
    let body = root.type_decls()[0].body().unwrap();
    let nested = body.nested_types();
    assert_eq!(nested.len(), 1);
    let inner = nested[0].type_decl().unwrap();
    assert_eq!(inner.name().unwrap().text(), "Address");
}
