use ogham::parser::parse;
use ogham::syntax_kind::SyntaxKind;
use ogham::tree::{Child, SyntaxNode};

/// Parse and assert no errors.
fn parse_ok(source: &str) -> SyntaxNode {
    let result = parse(source);
    assert!(
        result.errors.is_empty(),
        "unexpected parse errors: {:?}",
        result.errors
    );
    result.syntax()
}

/// Collect all node kinds in pre-order (no tokens).
fn node_kinds(node: &SyntaxNode) -> Vec<SyntaxKind> {
    let mut kinds = vec![node.kind()];
    for slot in 0..node.num_elements() {
        if let Child::Node(_) = node.element(slot) {
            kinds.extend(node_kinds(&node.child_node(slot)));
        }
    }
    kinds
}

/// Assert that the source text round-trips through the CST.
fn assert_lossless(source: &str) {
    let result = parse(source);
    assert_eq!(result.syntax().text().to_string(), source);
}

// ── Lossless round-trip ────────────────────────────────────────────

#[test]
fn roundtrip_empty() {
    assert_lossless("");
}

#[test]
fn roundtrip_package() {
    assert_lossless("package example;\n");
}

#[test]
fn roundtrip_full_file() {
    let source = r#"package example;

import uuid;
import github.com/org/database;

type User {
uuid.UUID id = 1;
string email = 2;
[]Order orders = 3;
map<string, string> metadata = 4;
string? nickname = 5;
@reserved(6)
}
"#;
    assert_lossless(source);
}

// ── Package ────────────────────────────────────────────────────────

#[test]
fn parse_package_decl() {
    let root = parse_ok("package example;");
    let kinds = node_kinds(&root);
    assert!(kinds.contains(&SyntaxKind::Root));
    assert!(kinds.contains(&SyntaxKind::PackageDecl));
}

// ── Import ─────────────────────────────────────────────────────────

#[test]
fn parse_import_simple() {
    let root = parse_ok("package p;\nimport uuid;");
    let kinds = node_kinds(&root);
    assert!(kinds.contains(&SyntaxKind::ImportDecl));
    assert!(kinds.contains(&SyntaxKind::ImportPath));
}

#[test]
fn parse_import_qualified() {
    let root = parse_ok("package p;\nimport github.com/org/database;");
    let kinds = node_kinds(&root);
    assert!(kinds.contains(&SyntaxKind::ImportDecl));
}

#[test]
fn parse_import_with_alias() {
    let root = parse_ok("package p;\nimport github.com/org/database as mydb;");
    let kinds = node_kinds(&root);
    assert!(kinds.contains(&SyntaxKind::ImportDecl));
}

// ── Type ───────────────────────────────────────────────────────────

#[test]
fn parse_type_simple() {
    let root = parse_ok("type User { string email = 1; }");
    let kinds = node_kinds(&root);
    assert!(kinds.contains(&SyntaxKind::TypeDecl));
    assert!(kinds.contains(&SyntaxKind::TypeBody));
    assert!(kinds.contains(&SyntaxKind::FieldDecl));
}

#[test]
fn parse_type_alias() {
    let root = parse_ok("type Id = uuid.UUID;");
    let kinds = node_kinds(&root);
    assert!(kinds.contains(&SyntaxKind::TypeDecl));
    assert!(kinds.contains(&SyntaxKind::TypeAlias));
}

#[test]
fn parse_type_alias_bool() {
    let root = parse_ok("type IsAdmin = bool;");
    let kinds = node_kinds(&root);
    assert!(kinds.contains(&SyntaxKind::TypeAlias));
}

#[test]
fn parse_type_generic() {
    let root = parse_ok("type Paginated<T> { []T data = 1; int total = 2; }");
    let kinds = node_kinds(&root);
    assert!(kinds.contains(&SyntaxKind::TypeParams));
    assert!(kinds.contains(&SyntaxKind::ArrayType));
}

#[test]
fn parse_pick() {
    let root = parse_ok("type Sub = Pick<User, id, email>;");
    let kinds = node_kinds(&root);
    assert!(kinds.contains(&SyntaxKind::PickType));
    assert!(kinds.contains(&SyntaxKind::IdentList));
}

#[test]
fn parse_omit() {
    let root = parse_ok("type Without = Omit<User, name>;");
    let kinds = node_kinds(&root);
    assert!(kinds.contains(&SyntaxKind::OmitType));
}

#[test]
fn parse_nested_type() {
    let root = parse_ok("type Order { type Address { string street = 1; } }");
    let kinds = node_kinds(&root);
    assert!(kinds.contains(&SyntaxKind::NestedTypeDecl));
}

#[test]
fn parse_nested_enum() {
    let root = parse_ok("type Order { enum Status { Active = 1; } }");
    let kinds = node_kinds(&root);
    assert!(kinds.contains(&SyntaxKind::NestedEnumDecl));
}

// ── Fields ─────────────────────────────────────────────────────────

#[test]
fn parse_optional_field() {
    let root = parse_ok("type T { string? nickname = 1; }");
    let kinds = node_kinds(&root);
    assert!(kinds.contains(&SyntaxKind::OptionalMarker));
}

#[test]
fn parse_array_field() {
    let root = parse_ok("type T { []string tags = 1; }");
    let kinds = node_kinds(&root);
    assert!(kinds.contains(&SyntaxKind::ArrayType));
}

#[test]
fn parse_map_field() {
    let root = parse_ok("type T { map<string, string> meta = 1; }");
    let kinds = node_kinds(&root);
    assert!(kinds.contains(&SyntaxKind::MapType));
}

#[test]
fn parse_qualified_type_field() {
    let root = parse_ok("type T { uuid.UUID id = 1; }");
    let kinds = node_kinds(&root);
    assert!(kinds.contains(&SyntaxKind::QualifiedName));
}

// ── Shape ──────────────────────────────────────────────────────────

#[test]
fn parse_shape_simple() {
    let root = parse_ok("shape Timestamps { uint64 created_at; }");
    let kinds = node_kinds(&root);
    assert!(kinds.contains(&SyntaxKind::ShapeDecl));
    assert!(kinds.contains(&SyntaxKind::ShapeField));
}

#[test]
fn parse_shape_generic() {
    let root = parse_ok("shape Wrapper<T> { T value; }");
    let kinds = node_kinds(&root);
    assert!(kinds.contains(&SyntaxKind::ShapeDecl));
    assert!(kinds.contains(&SyntaxKind::TypeParams));
}

#[test]
fn parse_shape_include() {
    let root = parse_ok("shape Combined { ShapeA; ShapeB, ShapeC; }");
    let kinds = node_kinds(&root);
    assert!(kinds.contains(&SyntaxKind::ShapeInclude));
}

#[test]
fn parse_shape_injection() {
    let root = parse_ok("type User { MyShape(1..4) string email = 5; }");
    let kinds = node_kinds(&root);
    assert!(kinds.contains(&SyntaxKind::ShapeInjection));
    assert!(kinds.contains(&SyntaxKind::FieldDecl));
}

// ── Enum ───────────────────────────────────────────────────────────

#[test]
fn parse_enum() {
    let root = parse_ok("enum Status { Pending = 1; Active = 2; }");
    let kinds = node_kinds(&root);
    assert!(kinds.contains(&SyntaxKind::EnumDecl));
    assert!(kinds.contains(&SyntaxKind::EnumValueDecl));
}

#[test]
fn parse_enum_with_removed() {
    let root = parse_ok(
        "enum Status { Active = 1; @removed(fallback=Active) Deleted = 2; }",
    );
    let kinds = node_kinds(&root);
    assert!(kinds.contains(&SyntaxKind::AnnotationCall));
    assert!(kinds.contains(&SyntaxKind::EnumValueDecl));
}

// ── Oneof ──────────────────────────────────────────────────────────

#[test]
fn parse_oneof() {
    let root = parse_ok(
        "type T { oneof address { Address home = 1; Address work = 2; } }",
    );
    let kinds = node_kinds(&root);
    assert!(kinds.contains(&SyntaxKind::OneofDecl));
    assert!(kinds.contains(&SyntaxKind::OneofField));
}

// ── Service & RPC ──────────────────────────────────────────────────

#[test]
fn parse_service() {
    let root = parse_ok(
        "service UserAPI { rpc GetUser(void) -> User; }",
    );
    let kinds = node_kinds(&root);
    assert!(kinds.contains(&SyntaxKind::ServiceDecl));
    assert!(kinds.contains(&SyntaxKind::RpcDecl));
    assert!(kinds.contains(&SyntaxKind::RpcParam));
}

#[test]
fn parse_rpc_streaming() {
    let root = parse_ok(
        "service S { rpc Sync(stream User) -> stream User; }",
    );
    let kinds = node_kinds(&root);
    assert!(kinds.contains(&SyntaxKind::RpcDecl));
}

#[test]
fn parse_rpc_inline_type() {
    let root = parse_ok(
        "service S { rpc Create({ string name = 1; }) -> void; }",
    );
    let kinds = node_kinds(&root);
    assert!(kinds.contains(&SyntaxKind::InlineType));
}

// ── Projections ────────────────────────────────────────────────────

#[test]
fn parse_projection() {
    let root = parse_ok(
        "type UserMini { uuid.UUID id = 1 <- User.id; string email = 2 <- User.email; }",
    );
    let kinds = node_kinds(&root);
    assert!(kinds.contains(&SyntaxKind::MappingSource));
}

#[test]
fn parse_projection_nested() {
    let root = parse_ok(
        "type Flat { string city = 1 <- Order.billing.city; }",
    );
    let kinds = node_kinds(&root);
    assert!(kinds.contains(&SyntaxKind::MappingSource));
}

#[test]
fn parse_projection_wildcard() {
    let root = parse_ok(
        "type Flat { string tx = 1 <- Payment.method.*.transaction_id; }",
    );
    let kinds = node_kinds(&root);
    assert!(kinds.contains(&SyntaxKind::MappingSource));
}

#[test]
fn parse_projection_in_oneof() {
    let root = parse_ok(
        "type T { oneof email { string personal = 1 <- User.personal_email; string work = 2 <- User.work_email; } }",
    );
    let kinds = node_kinds(&root);
    assert!(kinds.contains(&SyntaxKind::OneofDecl));
    assert!(kinds.contains(&SyntaxKind::MappingSource));
}

// ── Annotations ────────────────────────────────────────────────────

#[test]
fn parse_annotation_call_simple() {
    let root = parse_ok(r#"@database::Table(table_name="users") type User { string id = 1; }"#);
    let kinds = node_kinds(&root);
    assert!(kinds.contains(&SyntaxKind::AnnotationCall));
}

#[test]
fn parse_annotation_no_args() {
    let root = parse_ok("@validate::Required type User { string id = 1; }");
    let kinds = node_kinds(&root);
    assert!(kinds.contains(&SyntaxKind::AnnotationCall));
}

#[test]
fn parse_builtin_default() {
    let root = parse_ok("shape S { uint64 created_at @default(now); }");
    let kinds = node_kinds(&root);
    assert!(kinds.contains(&SyntaxKind::AnnotationCall));
}

#[test]
fn parse_builtin_reserved() {
    let root = parse_ok("type T { string a = 1; @reserved(2) }");
    let kinds = node_kinds(&root);
    assert!(kinds.contains(&SyntaxKind::ReservedDecl));
}

#[test]
fn parse_annotation_decl() {
    let root = parse_ok(
        "annotation Table for type { string table_name; }",
    );
    let kinds = node_kinds(&root);
    assert!(kinds.contains(&SyntaxKind::AnnotationDecl));
    assert!(kinds.contains(&SyntaxKind::AnnotationTargets));
    assert!(kinds.contains(&SyntaxKind::AnnotationField));
}

#[test]
fn parse_annotation_multi_target() {
    let root = parse_ok(
        "annotation A for type|field|enum { bool flag; }",
    );
    let kinds = node_kinds(&root);
    assert!(kinds.contains(&SyntaxKind::AnnotationTargets));
}

#[test]
fn parse_annotation_composition() {
    let root = parse_ok(
        r#"annotation Email for field { validate::Pattern("^[a-z]+$"); validate::Length(min=3, max=255); }"#,
    );
    let kinds = node_kinds(&root);
    assert!(kinds.contains(&SyntaxKind::AnnotationComposition));
}

#[test]
fn parse_annotation_with_optional_field() {
    let root = parse_ok(
        r#"annotation Col for field { string? column_name = ""; bool primary_key = false; }"#,
    );
    let kinds = node_kinds(&root);
    assert!(kinds.contains(&SyntaxKind::AnnotationField));
}

// ── Annotation with nested values ──────────────────────────────────

#[test]
fn parse_annotation_nested_value() {
    let root = parse_ok(
        r#"@lib::A(metadata={key1:"value1", key2:"value2"}) type T { string id = 1; }"#,
    );
    let kinds = node_kinds(&root);
    assert!(kinds.contains(&SyntaxKind::AnnotationCall));
    assert!(kinds.contains(&SyntaxKind::AnnotationArgs));
}

// ── Error recovery ─────────────────────────────────────────────────

#[test]
fn error_missing_semicolon() {
    let result = parse("package example");
    assert!(!result.errors.is_empty());
    // Still produces a tree
    let root = result.syntax();
    assert_eq!(root.kind(), SyntaxKind::Root);
}

#[test]
fn error_still_lossless() {
    // Even with errors the full source is in the tree
    let source = "package example";
    let result = parse(source);
    assert_eq!(result.syntax().text().to_string(), source);
}

// ── Full files from syntax examples ────────────────────────────────

#[test]
fn parse_models_ogham() {
    let source = r#"package example;

import uuid;

type Id = uuid.UUID;

shape Timestamps {
uint64 created_at;
uint64 updated_at;
}

shape SafeDelete {
uint64? deleted_at;
}

type User {
MyShape(1..4)
string email = 5;
string name = 6;
[]Order orders = 7;
oneof address {
    Address home = 8;
    Address work = 9;
    string string_address = 10;
}
float score = 11;
map<string, string> metadata = 12;
@reserved(13)
}

type PublicUser = Pick<User, id, email, name>;

type WithoutPassword = Omit<User, password_hash>;

enum OrderStatus {
Pending = 1;
Processing = 2;
Completed = 3;
@removed(fallback=Completed)
Delivered = 4;
Cancelled = 5;
}

type Order {
uuid.UUID id = 1;
User owner = 2;
[]Item items = 3;
OrderStatus status = 4;
}
"#;
    let result = parse(source);
    assert!(
        result.errors.is_empty(),
        "parse errors: {:?}",
        result.errors
    );
    assert_eq!(result.syntax().text().to_string(), source);
}

#[test]
fn parse_service_ogham() {
    let source = r#"package example;

type Paginated<T> {
[]T data = 1;
int total = 2;
string next_page_token = 3;
}

service UserAPI {
rpc GetUser(uuid.UUID) -> User;
rpc CreateUser({ string name = 1; string email = 2; }) -> User;
rpc ListUsers(void) -> stream User;
rpc SyncUsers(stream User) -> stream User;
}
"#;
    let result = parse(source);
    assert!(
        result.errors.is_empty(),
        "parse errors: {:?}",
        result.errors
    );
    assert_eq!(result.syntax().text().to_string(), source);
}

#[test]
fn parse_projections_ogham() {
    let source = r#"package example;

import uuid;

type User {
uuid.UUID id = 1;
string first_name = 2;
string email = 3;
}

type UserMini {
uuid.UUID id = 1 <- User.id;
string email = 2 <- User.email;
}

type UserDashboard {
uuid.UUID id = 1 <- User.id;
string name = 2 <- User.first_name;
}
"#;
    let result = parse(source);
    assert!(
        result.errors.is_empty(),
        "parse errors: {:?}",
        result.errors
    );
    assert_eq!(result.syntax().text().to_string(), source);
}

#[test]
fn parse_annotation_def_ogham() {
    let source = r#"annotation Table for type {
string table_name;
}
annotation Column for field {
string column_name;
bool primary_key = false;
}
"#;
    let result = parse(source);
    assert!(
        result.errors.is_empty(),
        "parse errors: {:?}",
        result.errors
    );
}

// ── Hang prevention ────────────────────────────────────────────────

#[test]
fn no_hang_on_invalid_annotation_syntax() {
    // This pseudo-syntax previously caused an infinite loop
    let result = parse("@<library>::<name>() type T { string id = 1; }");
    // Should produce errors but NOT hang
    assert!(!result.errors.is_empty());
    // Tree is still produced
    assert_eq!(result.syntax().kind(), SyntaxKind::Root);
}

#[test]
fn no_hang_on_garbage_in_type_body() {
    let result = parse("type T { ??? }");
    assert!(!result.errors.is_empty());
    assert_eq!(result.syntax().kind(), SyntaxKind::Root);
}

#[test]
fn no_hang_on_garbage_in_enum() {
    let result = parse("enum E { ??? }");
    assert!(!result.errors.is_empty());
}

#[test]
fn no_hang_on_garbage_in_service() {
    let result = parse("service S { ??? }");
    assert!(!result.errors.is_empty());
}

#[test]
fn no_hang_on_garbage_in_shape() {
    let result = parse("shape S { ??? }");
    assert!(!result.errors.is_empty());
}

#[test]
fn no_hang_on_garbage_in_annotation_def() {
    let result = parse("annotation A for type { ??? }");
    assert!(!result.errors.is_empty());
}

#[test]
fn no_hang_on_deeply_broken_file() {
    let result = parse("@@ {{ }} << >> !! type { enum { oneof { @@ }}");
    assert!(!result.errors.is_empty());
}

#[test]
fn no_hang_on_empty_braces_everywhere() {
    let result = parse("type T {} enum E {} service S {} shape Sh {}");
    // No hang, and these are actually valid (empty bodies)
    assert_eq!(result.syntax().kind(), SyntaxKind::Root);
}

#[test]
fn missing_semicolon_is_the_only_error() {
    let result = ogham::parser::parse("package example");
    assert_eq!(
        result.errors,
        vec![ogham::parser::ParseError { message: "expected Semicolon".to_string(), range: 15..15 }]
    );
}

#[test]
fn unclosed_type_body_is_the_only_error() {
    let result = ogham::parser::parse("type User {");
    assert_eq!(
        result.errors,
        vec![ogham::parser::ParseError { message: "expected RBrace".to_string(), range: 11..11 }]
    );
}
