use ogham::hir::ScalarKind;
use ogham::ir;
use ogham::lower::{build_request, scalar_to_proto};
use ogham::resolve::try_scalar;
use std::collections::HashMap;

#[test]
fn scalar_names() {
    assert_eq!(try_scalar("bool"), Some(ScalarKind::Bool));
    assert_eq!(try_scalar("string"), Some(ScalarKind::String));
    assert_eq!(try_scalar("bytes"), Some(ScalarKind::Bytes));
    assert_eq!(try_scalar("i8"), Some(ScalarKind::Int8));
    assert_eq!(try_scalar("int8"), None);
    assert_eq!(try_scalar("int16"), Some(ScalarKind::Int16));
    assert_eq!(try_scalar("int32"), Some(ScalarKind::Int32));
    assert_eq!(try_scalar("int64"), Some(ScalarKind::Int64));
    assert_eq!(try_scalar("int"), Some(ScalarKind::Int64));
    assert_eq!(try_scalar("uint8"), Some(ScalarKind::Uint8));
    assert_eq!(try_scalar("byte"), Some(ScalarKind::Uint8));
    assert_eq!(try_scalar("uint16"), Some(ScalarKind::Uint16));
    assert_eq!(try_scalar("uint32"), Some(ScalarKind::Uint32));
    assert_eq!(try_scalar("uint64"), Some(ScalarKind::Uint64));
    assert_eq!(try_scalar("uint"), Some(ScalarKind::Uint64));
    assert_eq!(try_scalar("float"), Some(ScalarKind::Float));
    assert_eq!(try_scalar("double"), Some(ScalarKind::Double));
    assert_eq!(try_scalar("User"), None);
    assert_eq!(try_scalar(""), None);
}

#[test]
fn scalar_kinds_map_to_ir() {
    assert_eq!(scalar_to_proto(ScalarKind::Bool), ir::ScalarKind::Bool);
    assert_eq!(scalar_to_proto(ScalarKind::Uint64), ir::ScalarKind::Uint64);
    assert_eq!(scalar_to_proto(ScalarKind::Double), ir::ScalarKind::Double);
    assert_eq!(ir::ScalarKind::Unspecified.number(), 0);
    assert_eq!(ir::ScalarKind::String.number(), 2);
    assert_eq!(ir::ScalarKind::Double.number(), 13);
}

#[test]
fn request_carries_module_and_settings() {
    let module = ir::Module { package: "p".to_string(), types: vec![], enums: vec![], services: vec![] };
    let mut opts = HashMap::new();
    opts.insert("k".to_string(), "v".to_string());
    let req = build_request(module.clone(), "0.1.0", opts.clone(), "out/go");
    assert_eq!(req.compiler_version, "0.1.0");
    assert_eq!(req.module, Some(module));
    assert_eq!(req.options, opts);
    assert_eq!(req.output_dir, "out/go");
}

/// The module that `package example;\ntype User { string name = 1; }` lowers to.
fn example_user_module() -> ir::Module {
    let name = ir::Field {
        name: "name".to_string(),
        number: 1,
        type_ref: Some(ir::TypeReference {
            kind: Some(ir::TypeRefKind::Scalar(ir::ScalarType { scalar_kind: ir::ScalarKind::String.number() })),
        }),
        is_optional: false,
        is_repeated: false,
    };
    let user = ir::Type {
        name: "User".to_string(),
        full_name: "example.User".to_string(),
        fields: vec![name],
        oneofs: vec![],
        nested_types: vec![],
        nested_enums: vec![],
    };
    ir::Module { package: "example".to_string(), types: vec![user], enums: vec![], services: vec![] }
}

/// A request built from a module written out by hand keeps the module and
/// the settings.
#[test]
fn request_of_a_hand_built_module() {
    let module = example_user_module();
    let req = build_request(module, "0.1.0", Default::default(), "gen/");
    assert_eq!(req.compiler_version, "0.1.0");
    assert_eq!(req.output_dir, "gen/");
    assert!(req.module.is_some());
}

#[test]
fn module_clone_is_a_deep_copy() {
    let module = example_user_module();
    let copy = module.clone();
    assert_eq!(copy, module);
    assert_eq!(copy.types[0].fields[0].name, "name");
}
