use ogham::breaking::{compare, Level};
use ogham::ir;

fn make_module(types: Vec<ir::Type>, enums: Vec<ir::Enum>, services: Vec<ir::Service>) -> ir::Module {
    ir::Module {
        package: "test".to_string(),
        types,
        enums,
        services,
    }
}

fn make_field(name: &str, number: u32, scalar_kind: i32) -> ir::Field {
    ir::Field {
        name: name.to_string(),
        number,
        type_ref: Some(ir::TypeReference {
            kind: Some(ir::TypeRefKind::Scalar(ir::ScalarType { scalar_kind })),
        }),
        is_optional: false,
        is_repeated: false,
    }
}

fn make_type(name: &str, fields: Vec<ir::Field>) -> ir::Type {
    ir::Type {
        name: name.to_string(),
        full_name: format!("test.{}", name),
        fields,
        oneofs: Vec::new(),
        nested_types: Vec::new(),
        nested_enums: Vec::new(),
    }
}

fn make_enum_val(name: &str, number: i32) -> ir::EnumValue {
    ir::EnumValue {
        name: name.to_string(),
        number,
        is_removed: false,
        fallback: String::new(),
    }
}

#[test]
fn no_changes() {
    let old = make_module(
        vec![make_type("User", vec![make_field("email", 1, 2)])],
        Vec::new(),
        Vec::new(),
    );
    let new = old.clone();
    let violations = compare(&old, &new);
    assert!(violations.is_empty());
}

#[test]
fn added_field_is_info() {
    let old = make_module(
        vec![make_type("User", vec![make_field("email", 1, 2)])],
        Vec::new(),
        Vec::new(),
    );
    let new = make_module(
        vec![make_type("User", vec![
            make_field("email", 1, 2),
            make_field("name", 2, 2),
        ])],
        Vec::new(),
        Vec::new(),
    );
    let violations = compare(&old, &new);
    assert_eq!(violations.len(), 1);
    assert_eq!(violations[0].level, Level::Info);
    assert_eq!(violations[0].code, "B011");
}

#[test]
fn removed_field_is_error() {
    let old = make_module(
        vec![make_type("User", vec![
            make_field("email", 1, 2),
            make_field("name", 2, 2),
        ])],
        Vec::new(),
        Vec::new(),
    );
    let new = make_module(
        vec![make_type("User", vec![make_field("email", 1, 2)])],
        Vec::new(),
        Vec::new(),
    );
    let violations = compare(&old, &new);
    assert!(violations.iter().any(|v| v.level == Level::Error && v.code == "B010"));
}

#[test]
fn field_number_changed_is_error() {
    let old = make_module(
        vec![make_type("User", vec![make_field("email", 1, 2)])],
        Vec::new(),
        Vec::new(),
    );
    let new = make_module(
        vec![make_type("User", vec![make_field("email", 5, 2)])],
        Vec::new(),
        Vec::new(),
    );
    let violations = compare(&old, &new);
    assert!(violations.iter().any(|v| v.level == Level::Error && v.code == "B016"));
}

#[test]
fn field_type_changed_is_error() {
    let old = make_module(
        vec![make_type("User", vec![make_field("age", 1, 2)])], // string
        Vec::new(),
        Vec::new(),
    );
    let new = make_module(
        vec![make_type("User", vec![make_field("age", 1, 6)])], // int32
        Vec::new(),
        Vec::new(),
    );
    let violations = compare(&old, &new);
    assert!(violations.iter().any(|v| v.level == Level::Error && v.code == "B013"));
}

#[test]
fn field_renamed_is_warning() {
    let old = make_module(
        vec![make_type("User", vec![make_field("name", 1, 2)])],
        Vec::new(),
        Vec::new(),
    );
    let new = make_module(
        vec![make_type("User", vec![make_field("full_name", 1, 2)])],
        Vec::new(),
        Vec::new(),
    );
    let violations = compare(&old, &new);
    assert!(violations.iter().any(|v| v.level == Level::Warning && v.code == "B012"));
}

#[test]
fn type_removed_is_error() {
    let old = make_module(
        vec![make_type("User", vec![make_field("email", 1, 2)])],
        Vec::new(),
        Vec::new(),
    );
    let new = make_module(Vec::new(), Vec::new(), Vec::new());
    let violations = compare(&old, &new);
    assert!(violations.iter().any(|v| v.level == Level::Error && v.code == "B001"));
}

#[test]
fn type_added_is_info() {
    let old = make_module(Vec::new(), Vec::new(), Vec::new());
    let new = make_module(
        vec![make_type("User", vec![make_field("email", 1, 2)])],
        Vec::new(),
        Vec::new(),
    );
    let violations = compare(&old, &new);
    assert!(violations.iter().any(|v| v.level == Level::Info && v.code == "B002"));
}

#[test]
fn enum_value_removed_is_error() {
    let old = make_module(
        Vec::new(),
        vec![ir::Enum {
            name: "Status".to_string(),
            full_name: "test.Status".to_string(),
            values: vec![make_enum_val("Unspecified", 0), make_enum_val("Active", 1), make_enum_val("Deleted", 2)],
        }],
        Vec::new(),
    );
    let new = make_module(
        Vec::new(),
        vec![ir::Enum {
            name: "Status".to_string(),
            full_name: "test.Status".to_string(),
            values: vec![make_enum_val("Unspecified", 0), make_enum_val("Active", 1)],
        }],
        Vec::new(),
    );
    let violations = compare(&old, &new);
    assert!(violations.iter().any(|v| v.level == Level::Error && v.code == "B032"));
}

#[test]
fn enum_value_renamed_is_warning() {
    let old = make_module(
        Vec::new(),
        vec![ir::Enum {
            name: "Status".to_string(),
            full_name: "test.Status".to_string(),
            values: vec![make_enum_val("Unspecified", 0), make_enum_val("Active", 1)],
        }],
        Vec::new(),
    );
    let new = make_module(
        Vec::new(),
        vec![ir::Enum {
            name: "Status".to_string(),
            full_name: "test.Status".to_string(),
            values: vec![make_enum_val("Unspecified", 0), make_enum_val("Enabled", 1)],
        }],
        Vec::new(),
    );
    let violations = compare(&old, &new);
    assert!(violations.iter().any(|v| v.level == Level::Warning && v.code == "B034"));
}

#[test]
fn compare_with_clone_reports_nothing() {
    let m = make_module(
        vec![make_type("User", vec![make_field("id", 1, 9), make_field("email", 2, 9)])],
        vec![],
        vec![],
    );
    let c = m.clone();
    assert!(compare(&m, &c).is_empty());
}
