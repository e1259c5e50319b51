use la_arena::{Idx, RawIdx};
use ogham::diagnostics::Diagnostics;
use ogham::hir::{
    Arenas, FieldDef, Interner, Loc, OneofDef, OneofFieldDef, ResolvedType, ScalarKind, TypeDef,
};
use ogham::resolve::{compute_back_references, detect_cycles, validate_container_nesting};

fn field(interner: &mut Interner, name: &str, ty: ResolvedType) -> FieldDef {
    FieldDef {
        name: interner.intern(name),
        number: 1,
        ty,
        is_optional: false,
        is_repeated: false,
        annotations: Vec::new(),
        mapping: None,
        trace: None,
        loc: Loc::default(),
    }
}

fn type_def(interner: &mut Interner, full: &str, fields: Vec<FieldDef>, oneofs: Vec<OneofDef>) -> TypeDef {
    let short = full.rsplit('.').next().unwrap().to_string();
    TypeDef {
        name: interner.intern(&short),
        full_name: interner.intern(full),
        fields,
        oneofs,
        nested_types: Vec::new(),
        nested_enums: Vec::new(),
        annotations: Vec::new(),
        back_references: Vec::new(),
        trace: None,
        loc: Loc::default(),
    }
}

fn id(n: u32) -> Idx<TypeDef> {
    Idx::from_raw(RawIdx::from(n))
}

#[test]
fn back_references_by_hand() {
    // Address (0) is referenced by User.addr and Order.billing.
    let mut int = Interner::default();
    let mut arenas = Arenas::default();
    let addr = type_def(&mut int, "example.Address", vec![], vec![]);
    let f_addr = field(&mut int, "addr", ResolvedType::Message(0));
    let user = type_def(&mut int, "example.User", vec![f_addr], vec![]);
    let f_bill = field(&mut int, "billing", ResolvedType::Message(0));
    let order = type_def(&mut int, "example.Order", vec![f_bill], vec![]);
    arenas.types.alloc(addr);
    arenas.types.alloc(user);
    arenas.types.alloc(order);
    compute_back_references(&mut arenas);
    let brs = &arenas.types[id(0)].back_references;
    assert_eq!(brs.len(), 2);
    assert_eq!(brs[0].referencing_type, 1);
    assert_eq!(int.resolve(brs[0].field_name), "addr");
    assert_eq!(brs[1].referencing_type, 2);
    assert_eq!(int.resolve(brs[1].field_name), "billing");
    assert!(arenas.types[id(1)].back_references.is_empty());
}

#[test]
fn back_references_through_oneofs_and_out_of_range() {
    let mut int = Interner::default();
    let mut arenas = Arenas::default();
    let target = type_def(&mut int, "p.T", vec![], vec![]);
    let of = OneofFieldDef {
        name: int.intern("home"),
        number: 1,
        ty: ResolvedType::Message(0),
        annotations: Vec::new(),
        mapping: None,
        loc: Loc::default(),
    };
    let oneof = OneofDef { name: int.intern("loc"), fields: vec![of], annotations: Vec::new(), loc: Loc::default() };
    let dangling = field(&mut int, "ghost", ResolvedType::Message(7));
    let holder = type_def(&mut int, "p.H", vec![dangling], vec![oneof]);
    arenas.types.alloc(target);
    arenas.types.alloc(holder);
    compute_back_references(&mut arenas);
    let brs = &arenas.types[id(0)].back_references;
    assert_eq!(brs.len(), 1);
    assert_eq!(brs[0].referencing_type, 1);
    assert_eq!(int.resolve(brs[0].field_name), "home");
}

#[test]
fn nested_container_error() {
    let mut int = Interner::default();
    let mut arenas = Arenas::default();
    let inner = ResolvedType::Array(Box::new(ResolvedType::Scalar(ScalarKind::String)));
    let f = field(&mut int, "matrix", ResolvedType::Array(Box::new(inner)));
    let t = type_def(&mut int, "p.Grid", vec![f], vec![]);
    arenas.types.alloc(t);
    let mut diag = Diagnostics::new();
    validate_container_nesting(&arenas, &int, &mut diag);
    assert!(diag.has_errors());
    assert_eq!(
        diag.all()[0].message,
        "nested container types are not supported in field `matrix` of type `p.Grid` — define a wrapper type for the inner container"
    );
}

#[test]
fn nested_map_key_and_value_errors() {
    let mut int = Interner::default();
    let mut arenas = Arenas::default();
    let arr = || ResolvedType::Array(Box::new(ResolvedType::Scalar(ScalarKind::Int32)));
    let f = field(&mut int, "m", ResolvedType::MapOf { key: Box::new(arr()), value: Box::new(arr()) });
    let t = type_def(&mut int, "p.M", vec![f], vec![]);
    arenas.types.alloc(t);
    let mut diag = Diagnostics::new();
    validate_container_nesting(&arenas, &int, &mut diag);
    let all = diag.all();
    assert_eq!(all.len(), 2);
    assert!(all[0].message.contains("in map key of field `m` of type `p.M`"));
    assert!(all[1].message.contains("in map value of field `m` of type `p.M`"));
}

#[test]
fn flat_container_ok() {
    let mut int = Interner::default();
    let mut arenas = Arenas::default();
    let f = field(&mut int, "tags", ResolvedType::Array(Box::new(ResolvedType::Scalar(ScalarKind::String))));
    let g = field(
        &mut int,
        "meta",
        ResolvedType::MapOf {
            key: Box::new(ResolvedType::Scalar(ScalarKind::String)),
            value: Box::new(ResolvedType::Message(0)),
        },
    );
    let t = type_def(&mut int, "p.Flat", vec![f, g], vec![]);
    arenas.types.alloc(t);
    let mut diag = Diagnostics::new();
    validate_container_nesting(&arenas, &int, &mut diag);
    assert!(!diag.has_errors());
}

#[test]
fn mandatory_self_reference_warns() {
    let mut int = Interner::default();
    let mut arenas = Arenas::default();
    let next = field(&mut int, "next", ResolvedType::Message(0));
    let mut opt = field(&mut int, "prev", ResolvedType::Message(0));
    opt.is_optional = true;
    let node = type_def(&mut int, "p.Node", vec![next, opt], vec![]);
    arenas.types.alloc(node);
    let mut diag = Diagnostics::new();
    detect_cycles(&arenas, &int, &mut diag);
    let all = diag.all();
    assert_eq!(all.len(), 1);
    assert_eq!(
        all[0].message,
        "recursive type reference: p.Node.next → p.Node (consider making it optional or repeated)"
    );
    assert!(!diag.has_errors());
}

#[test]
fn two_type_cycle_warns_once_at_the_back_edge() {
    let mut int = Interner::default();
    let mut arenas = Arenas::default();
    let to_b = field(&mut int, "b", ResolvedType::Message(1));
    let a = type_def(&mut int, "p.A", vec![to_b], vec![]);
    let to_a = field(&mut int, "a", ResolvedType::Message(0));
    let b = type_def(&mut int, "p.B", vec![to_a], vec![]);
    arenas.types.alloc(a);
    arenas.types.alloc(b);
    let mut diag = Diagnostics::new();
    detect_cycles(&arenas, &int, &mut diag);
    let all = diag.all();
    assert_eq!(all.len(), 1);
    assert!(all[0].message.starts_with("recursive type reference: p.B.a → p.A"));
}

#[test]
fn repeated_reference_is_no_cycle() {
    let mut int = Interner::default();
    let mut arenas = Arenas::default();
    let mut kids = field(&mut int, "children", ResolvedType::Message(0));
    kids.is_repeated = true;
    let tree = type_def(&mut int, "p.Tree", vec![kids], vec![]);
    arenas.types.alloc(tree);
    let mut diag = Diagnostics::new();
    detect_cycles(&arenas, &int, &mut diag);
    assert!(diag.is_empty());
}
