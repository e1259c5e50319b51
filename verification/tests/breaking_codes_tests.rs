use ogham::breaking::{compare, Level, Violation};
use ogham::ir;

fn scalar(kind: i32) -> Option<ir::TypeReference> {
    Some(ir::TypeReference { kind: Some(ir::TypeRefKind::Scalar(ir::ScalarType { scalar_kind: kind })) })
}

fn message(full: &str) -> Option<ir::TypeReference> {
    Some(ir::TypeReference {
        kind: Some(ir::TypeRefKind::MessageType(ir::MessageType {
            name: full.rsplit('.').next().unwrap().to_string(),
            full_name: full.to_string(),
        })),
    })
}

fn field(name: &str, number: u32, ty: Option<ir::TypeReference>) -> ir::Field {
    ir::Field { name: name.to_string(), number, type_ref: ty, is_optional: false, is_repeated: false }
}

fn ty(name: &str, fields: Vec<ir::Field>, oneofs: Vec<ir::OneofGroup>) -> ir::Type {
    ir::Type {
        name: name.to_string(),
        full_name: format!("p.{}", name),
        fields,
        oneofs,
        nested_types: vec![],
        nested_enums: vec![],
    }
}

fn module(types: Vec<ir::Type>, enums: Vec<ir::Enum>, services: Vec<ir::Service>) -> ir::Module {
    ir::Module { package: "p".to_string(), types, enums, services }
}

fn param(is_void: bool, is_stream: bool, ty: Option<ir::TypeReference>) -> Option<ir::RpcParam> {
    Some(ir::RpcParam { is_void, is_stream, type_ref: ty })
}

fn service(rpcs: Vec<ir::Rpc>) -> ir::Service {
    ir::Service { name: "S".to_string(), full_name: "p.S".to_string(), rpcs }
}

fn rpc(name: &str, input: Option<ir::RpcParam>, output: Option<ir::RpcParam>) -> ir::Rpc {
    ir::Rpc { name: name.to_string(), input, output }
}

fn find<'a>(vs: &'a [Violation], code: &str) -> &'a Violation {
    vs.iter().find(|v| v.code == code).unwrap_or_else(|| panic!("no {}", code))
}

#[test]
fn self_comparison_is_clean_for_a_rich_module() {
    let m = module(
        vec![ty(
            "User",
            vec![field("id", 1, scalar(2)), field("friend", 2, message("p.User"))],
            vec![ir::OneofGroup {
                name: "contact".to_string(),
                fields: vec![ir::OneofField { name: "email".to_string(), number: 3, type_ref: scalar(2) }],
            }],
        )],
        vec![ir::Enum {
            name: "E".to_string(),
            full_name: "p.E".to_string(),
            values: vec![ir::EnumValue { name: "A".to_string(), number: 1, is_removed: false, fallback: String::new() }],
        }],
        vec![service(vec![rpc("Get", param(true, false, None), param(false, true, message("p.User")))])],
    );
    assert!(compare(&m, &m).is_empty());
}

#[test]
fn field_messages_and_contexts() {
    let old = module(vec![ty("User", vec![field("name", 1, scalar(2)), field("age", 2, scalar(6))], vec![])], vec![], vec![]);
    let new = module(vec![ty("User", vec![field("full_name", 1, scalar(2)), field("age", 3, scalar(6))], vec![])], vec![], vec![]);
    let vs = compare(&old, &new);
    let renamed = find(&vs, "B012");
    assert_eq!(renamed.level, Level::Warning);
    assert_eq!(renamed.message, "field renamed: p.User.name → full_name (= 1)");
    assert_eq!(renamed.context, "p.User.full_name");
    let removed = find(&vs, "B010");
    assert_eq!(removed.message, "field removed: p.User.age (= 2)");
    let added = find(&vs, "B011");
    assert_eq!(added.level, Level::Info);
    assert_eq!(added.message, "field added: p.User.age (= 3)");
    let renumbered = find(&vs, "B016");
    assert_eq!(renumbered.message, "field number changed: p.User.age: 2 → 3");
    assert_eq!(vs.len(), 4);
    assert_eq!(vs[0].code, "B010");
    assert_eq!(vs[1].code, "B011");
    assert_eq!(vs[2].code, "B012");
    assert_eq!(vs[3].code, "B016");
}

#[test]
fn field_type_repeated_and_optional_changes() {
    let mut f_old = field("tags", 1, scalar(2));
    f_old.is_repeated = false;
    let mut f_new = field("tags", 1, message("p.Tag"));
    f_new.is_repeated = true;
    f_new.is_optional = true;
    let old = module(vec![ty("T", vec![f_old], vec![])], vec![], vec![]);
    let new = module(vec![ty("T", vec![f_new], vec![])], vec![], vec![]);
    let vs = compare(&old, &new);
    assert_eq!(find(&vs, "B013").message, "field type changed: p.T.tags (= 1): scalar(2) → message(p.Tag)");
    assert_eq!(find(&vs, "B014").message, "field repeated changed: p.T.tags (= 1): false → true");
    let opt = find(&vs, "B015");
    assert_eq!(opt.level, Level::Warning);
    assert_eq!(opt.message, "field optionality changed: p.T.tags (= 1): optional=false → optional=true");
}

#[test]
fn map_wire_types_compare_structurally() {
    let map = |k: i32, v: i32| {
        Some(ir::TypeReference {
            kind: Some(ir::TypeRefKind::MapType(ir::MapType {
                key: scalar(k).map(Box::new),
                value: scalar(v).map(Box::new),
            })),
        })
    };
    let old = module(vec![ty("T", vec![field("m", 1, map(2, 6))], vec![])], vec![], vec![]);
    let same = module(vec![ty("T", vec![field("m", 1, map(2, 6))], vec![])], vec![], vec![]);
    assert!(compare(&old, &same).is_empty());
    let new = module(vec![ty("T", vec![field("m", 1, map(2, 7))], vec![])], vec![], vec![]);
    let vs = compare(&old, &new);
    assert_eq!(vs.len(), 1);
    assert_eq!(vs[0].message, "field type changed: p.T.m (= 1): map(scalar(2),scalar(6)) → map(scalar(2),scalar(7))");
}

#[test]
fn oneof_changes() {
    let group = |fields: Vec<ir::OneofField>| ir::OneofGroup { name: "addr".to_string(), fields };
    let of = |name: &str, n: u32| ir::OneofField { name: name.to_string(), number: n, type_ref: scalar(2) };
    let old = module(vec![ty("T", vec![], vec![group(vec![of("home", 1), of("work", 2)])])], vec![], vec![]);
    let new = module(vec![ty("T", vec![], vec![group(vec![of("home", 1)])])], vec![], vec![]);
    let vs = compare(&old, &new);
    assert_eq!(vs.len(), 1);
    assert_eq!(vs[0].code, "B021");
    assert_eq!(vs[0].message, "oneof field removed: p.T.addr.work (= 2)");
    assert_eq!(vs[0].context, "p.T.addr.work");
    let gone = module(vec![ty("T", vec![], vec![])], vec![], vec![]);
    let vs = compare(&old, &gone);
    assert_eq!(vs.len(), 1);
    assert_eq!(vs[0].code, "B020");
    assert_eq!(vs[0].message, "oneof removed: p.T.addr");
}

#[test]
fn enum_changes() {
    let value = |name: &str, n: i32| ir::EnumValue { name: name.to_string(), number: n, is_removed: false, fallback: String::new() };
    let e = |values: Vec<ir::EnumValue>| ir::Enum { name: "E".to_string(), full_name: "p.E".to_string(), values };
    let old = module(vec![], vec![e(vec![value("A", 1), value("B", -2)])], vec![]);
    let new = module(vec![], vec![e(vec![value("A2", 1), value("C", 3)])], vec![]);
    let vs = compare(&old, &new);
    assert_eq!(find(&vs, "B032").message, "enum value removed: p.E.B (= -2)");
    assert_eq!(find(&vs, "B033").message, "enum value added: p.E.C (= 3)");
    let renamed = find(&vs, "B034");
    assert_eq!(renamed.message, "enum value renamed: p.E: A → A2 (= 1)");
    assert_eq!(renamed.context, "p.E.A2");
    let vs = compare(&old, &module(vec![], vec![], vec![]));
    assert_eq!(vs.len(), 1);
    assert_eq!(vs[0].code, "B030");
    assert_eq!(vs[0].message, "enum removed: p.E");
    let vs = compare(&module(vec![], vec![], vec![]), &old);
    assert_eq!(vs[0].code, "B031");
    assert_eq!(vs[0].level, Level::Info);
}

#[test]
fn service_changes() {
    let user = message("p.User");
    let old = module(vec![], vec![], vec![service(vec![
        rpc("Get", param(false, false, message("p.Req")), param(false, false, user.clone())),
        rpc("Old", param(true, false, None), param(true, false, None)),
    ])]);
    let new = module(vec![], vec![], vec![service(vec![
        rpc("Get", param(true, false, None), param(false, true, user.clone())),
        rpc("New", param(true, false, None), param(true, false, None)),
    ])]);
    let vs = compare(&old, &new);
    let removed = find(&vs, "B041");
    assert_eq!(removed.level, Level::Warning);
    assert_eq!(removed.message, "rpc removed: p.S.Old");
    assert_eq!(find(&vs, "B042").message, "rpc added: p.S.New");
    assert_eq!(find(&vs, "B043").message, "rpc input changed: p.S.Get: message(p.Req) → void");
    assert_eq!(find(&vs, "B044").message, "rpc output changed: p.S.Get: message(p.User) → stream message(p.User)");
    assert_eq!(find(&vs, "B045").message, "rpc streaming changed: p.S.Get");
    let vs = compare(&old, &module(vec![], vec![], vec![]));
    assert_eq!(vs.len(), 1);
    assert_eq!(vs[0].code, "B040");
    assert_eq!(vs[0].message, "service removed: p.S");
}

#[test]
fn last_declaration_with_a_key_counts() {
    let old = module(vec![ty("T", vec![field("a", 1, scalar(2)), field("b", 1, scalar(6))], vec![])], vec![], vec![]);
    let new = module(vec![ty("T", vec![field("b", 1, scalar(6))], vec![])], vec![], vec![]);
    let vs = compare(&old, &new);
    assert!(vs.iter().all(|v| v.code != "B012" && v.code != "B013"));
}

#[test]
fn type_messages() {
    let old = module(vec![ty("Gone", vec![], vec![])], vec![], vec![]);
    let new = module(vec![ty("Fresh", vec![], vec![])], vec![], vec![]);
    let vs = compare(&old, &new);
    assert_eq!(vs.len(), 2);
    assert_eq!(vs[0].code, "B001");
    assert_eq!(vs[0].message, "type removed: p.Gone");
    assert_eq!(vs[0].context, "p.Gone");
    assert_eq!(vs[1].code, "B002");
    assert_eq!(vs[1].message, "type added: p.Fresh");
}
