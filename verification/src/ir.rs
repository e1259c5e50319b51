//! The compiled intermediate representation of a module, as far as
//! breaking-change detection reads it.

use vstd::prelude::*;

verus! {

/// A compiled module: its package and its top-level declarations.
#[derive(Debug, PartialEq)]
pub struct Module {
    pub package: String,
    pub types: Vec<Type>,
    pub enums: Vec<Enum>,
    pub services: Vec<Service>,
}

/// A message type.
#[derive(Debug, PartialEq)]
pub struct Type {
    pub name: String,
    pub full_name: String,
    pub fields: Vec<Field>,
    pub oneofs: Vec<OneofGroup>,
    pub nested_types: Vec<Type>,
    pub nested_enums: Vec<Enum>,
}

/// A field of a message type.
#[derive(Debug, Clone, PartialEq)]
pub struct Field {
    pub name: String,
    pub number: u32,
    pub type_ref: Option<TypeReference>,
    pub is_optional: bool,
    pub is_repeated: bool,
}

/// What a field or parameter refers to.
#[derive(Debug, PartialEq)]
pub struct TypeReference {
    pub kind: Option<TypeRefKind>,
}

/// The kinds of type reference.
#[derive(Debug, PartialEq)]
pub enum TypeRefKind {
    Scalar(ScalarType),
    MessageType(MessageType),
    EnumType(EnumType),
    MapType(MapType),
}

/// A scalar, by the number of its scalar kind.
#[derive(Debug, Clone, PartialEq)]
pub struct ScalarType {
    pub scalar_kind: i32,
}

/// A reference to a message type.
#[derive(Debug, Clone, PartialEq)]
pub struct MessageType {
    pub name: String,
    pub full_name: String,
}

/// A reference to an enum type.
#[derive(Debug, Clone, PartialEq)]
pub struct EnumType {
    pub name: String,
    pub full_name: String,
}

/// A map from key type to value type.
#[derive(Debug, PartialEq)]
pub struct MapType {
    pub key: Option<Box<TypeReference>>,
    pub value: Option<Box<TypeReference>>,
}

/// A `oneof` group of a message type.
#[derive(Debug, Clone, PartialEq)]
pub struct OneofGroup {
    pub name: String,
    pub fields: Vec<OneofField>,
}

/// A field of a `oneof` group.
#[derive(Debug, Clone, PartialEq)]
pub struct OneofField {
    pub name: String,
    pub number: u32,
    pub type_ref: Option<TypeReference>,
}

/// An enum type.
#[derive(Debug, Clone, PartialEq)]
pub struct Enum {
    pub name: String,
    pub full_name: String,
    pub values: Vec<EnumValue>,
}

/// A value of an enum type.
#[derive(Debug, Clone, PartialEq)]
pub struct EnumValue {
    pub name: String,
    pub number: i32,
    pub is_removed: bool,
    pub fallback: String,
}

/// A service.
#[derive(Debug, Clone, PartialEq)]
pub struct Service {
    pub name: String,
    pub full_name: String,
    pub rpcs: Vec<Rpc>,
}

/// A method of a service.
#[derive(Debug, Clone, PartialEq)]
pub struct Rpc {
    pub name: String,
    pub input: Option<RpcParam>,
    pub output: Option<RpcParam>,
}

/// The input or output of a method.
#[derive(Debug, Clone, PartialEq)]
pub struct RpcParam {
    pub is_void: bool,
    pub is_stream: bool,
    pub type_ref: Option<TypeReference>,
}

/// The scalar kinds of the IR.
#[derive(Debug, Clone, Copy, PartialEq, Eq, Structural)]
pub enum ScalarKind {
    Unspecified,
    Bool,
    String,
    Bytes,
    Int8,
    Int16,
    Int32,
    Int64,
    Uint8,
    Uint16,
    Uint32,
    Uint64,
    Float,
    Double,
}

impl ScalarKind {
    /// The number that a scalar type's `scalar_kind` holds for this kind.
    pub open spec fn spec_number(self) -> i32 {
        match self {
            ScalarKind::Unspecified => 0,
            ScalarKind::Bool => 1,
            ScalarKind::String => 2,
            ScalarKind::Bytes => 3,
            ScalarKind::Int8 => 4,
            ScalarKind::Int16 => 5,
            ScalarKind::Int32 => 6,
            ScalarKind::Int64 => 7,
            ScalarKind::Uint8 => 8,
            ScalarKind::Uint16 => 9,
            ScalarKind::Uint32 => 10,
            ScalarKind::Uint64 => 11,
            ScalarKind::Float => 12,
            ScalarKind::Double => 13,
        }
    }

    /// The number that a scalar type's `scalar_kind` holds for this kind.
    #[verifier::when_used_as_spec(spec_number)]
    pub fn number(self) -> (n: i32)
        ensures
            n == self.spec_number(),
    {
        match self {
            ScalarKind::Unspecified => 0,
            ScalarKind::Bool => 1,
            ScalarKind::String => 2,
            ScalarKind::Bytes => 3,
            ScalarKind::Int8 => 4,
            ScalarKind::Int16 => 5,
            ScalarKind::Int32 => 6,
            ScalarKind::Int64 => 7,
            ScalarKind::Uint8 => 8,
            ScalarKind::Uint16 => 9,
            ScalarKind::Uint32 => 10,
            ScalarKind::Uint64 => 11,
            ScalarKind::Float => 12,
            ScalarKind::Double => 13,
        }
    }
}

/// What a code-generation plugin is handed.
#[derive(Debug, Clone)]
pub struct OghamCompileRequest {
    pub compiler_version: String,
    pub module: Option<Module>,
    pub options: std::collections::HashMap<String, String>,
    pub output_dir: String,
}

// ── Copies ─────────────────────────────────────────────────────────────

/// `b` is a copy of the type reference `a`: the same kind, with the same
/// scalar number or names, and copies of a map's key and value types.
pub open spec fn ref_same(a: TypeReference, b: TypeReference) -> bool
    decreases a,
{
    match a.kind {
        None => b.kind is None,
        Some(TypeRefKind::Scalar(x)) => match b.kind {
            Some(TypeRefKind::Scalar(y)) => y.scalar_kind == x.scalar_kind,
            _ => false,
        },
        Some(TypeRefKind::MessageType(x)) => match b.kind {
            Some(TypeRefKind::MessageType(y)) => y.name@ == x.name@ && y.full_name@ == x.full_name@,
            _ => false,
        },
        Some(TypeRefKind::EnumType(x)) => match b.kind {
            Some(TypeRefKind::EnumType(y)) => y.name@ == x.name@ && y.full_name@ == x.full_name@,
            _ => false,
        },
        Some(TypeRefKind::MapType(x)) => match b.kind {
            Some(TypeRefKind::MapType(y)) => {
                &&& match x.key {
                    None => y.key is None,
                    Some(k) => match y.key {
                        Some(k2) => ref_same(*k, *k2),
                        None => false,
                    },
                }
                &&& match x.value {
                    None => y.value is None,
                    Some(v) => match y.value {
                        Some(v2) => ref_same(*v, *v2),
                        None => false,
                    },
                }
            },
            _ => false,
        },
    }
}

/// `b` is a copy of the optional type reference `a`.
pub open spec fn opt_ref_same(a: Option<TypeReference>, b: Option<TypeReference>) -> bool {
    match a {
        None => b is None,
        Some(x) => match b {
            Some(y) => ref_same(x, y),
            None => false,
        },
    }
}

/// `b` is a copy of the map type `a`.
pub open spec fn map_same(a: MapType, b: MapType) -> bool {
    ref_same(
        TypeReference { kind: Some(TypeRefKind::MapType(a)) },
        TypeReference { kind: Some(TypeRefKind::MapType(b)) },
    )
}

/// `b` is a copy of the field `a`.
pub open spec fn field_same(a: Field, b: Field) -> bool {
    &&& b.name@ == a.name@
    &&& b.number == a.number
    &&& opt_ref_same(a.type_ref, b.type_ref)
    &&& b.is_optional == a.is_optional
    &&& b.is_repeated == a.is_repeated
}

/// `b` is a copy of the oneof group `a`.
pub open spec fn oneof_same(a: OneofGroup, b: OneofGroup) -> bool {
    &&& b.name@ == a.name@
    &&& b.fields@.len() == a.fields@.len()
    &&& forall|i: int|
        0 <= i < a.fields@.len() ==> {
            &&& (#[trigger] b.fields@[i]).name@ == a.fields@[i].name@
            &&& b.fields@[i].number == a.fields@[i].number
            &&& opt_ref_same(a.fields@[i].type_ref, b.fields@[i].type_ref)
        }
}

/// `b` is a copy of the enum `a`.
pub open spec fn enum_same(a: Enum, b: Enum) -> bool {
    &&& b.name@ == a.name@
    &&& b.full_name@ == a.full_name@
    &&& b.values@.len() == a.values@.len()
    &&& forall|i: int|
        0 <= i < a.values@.len() ==> {
            &&& (#[trigger] b.values@[i]).name@ == a.values@[i].name@
            &&& b.values@[i].number == a.values@[i].number
            &&& b.values@[i].is_removed == a.values@[i].is_removed
            &&& b.values@[i].fallback@ == a.values@[i].fallback@
        }
}

/// `b` is a copy of the message type `a`, its nested types copied in turn.
pub open spec fn type_same(a: Type, b: Type) -> bool
    decreases a,
{
    &&& b.name@ == a.name@
    &&& b.full_name@ == a.full_name@
    &&& b.fields@.len() == a.fields@.len()
    &&& forall|i: int| 0 <= i < a.fields@.len() ==> field_same(a.fields@[i], #[trigger] b.fields@[i])
    &&& b.oneofs@.len() == a.oneofs@.len()
    &&& forall|i: int| 0 <= i < a.oneofs@.len() ==> oneof_same(a.oneofs@[i], #[trigger] b.oneofs@[i])
    &&& b.nested_enums@.len() == a.nested_enums@.len()
    &&& forall|i: int| 0 <= i < a.nested_enums@.len() ==> enum_same(a.nested_enums@[i], #[trigger] b.nested_enums@[i])
    &&& b.nested_types@.len() == a.nested_types@.len()
    &&& forall|i: int|
        0 <= i < a.nested_types@.len() ==> {
            proof {
                vstd::std_specs::vec::axiom_vec_index_decreases(a.nested_types, i);
            }
            type_same(a.nested_types@[i], #[trigger] b.nested_types@[i])
        }
}

fn copy_type_ref(t: &TypeReference) -> (r: TypeReference)
    ensures
        ref_same(*t, r),
    decreases t,
{
    let kind = match &t.kind {
        None => None,
        Some(TypeRefKind::Scalar(s)) => Some(TypeRefKind::Scalar(ScalarType { scalar_kind: s.scalar_kind })),
        Some(TypeRefKind::MessageType(m)) => Some(
            TypeRefKind::MessageType(MessageType { name: m.name.clone(), full_name: m.full_name.clone() }),
        ),
        Some(TypeRefKind::EnumType(e)) => Some(
            TypeRefKind::EnumType(EnumType { name: e.name.clone(), full_name: e.full_name.clone() }),
        ),
        Some(TypeRefKind::MapType(m)) => {
            let key = match &m.key {
                Some(k) => Some(Box::new(copy_type_ref(k))),
                None => None,
            };
            let value = match &m.value {
                Some(v) => Some(Box::new(copy_type_ref(v))),
                None => None,
            };
            Some(TypeRefKind::MapType(MapType { key, value }))
        },
    };
    TypeReference { kind }
}

fn copy_opt_ref(t: &Option<TypeReference>) -> (r: Option<TypeReference>)
    ensures
        opt_ref_same(*t, r),
{
    match t {
        Some(x) => Some(copy_type_ref(x)),
        None => None,
    }
}

fn copy_map_type(m: &MapType) -> (r: MapType)
    ensures
        map_same(*m, r),
{
    let key = match &m.key {
        Some(k) => Some(Box::new(copy_type_ref(k))),
        None => None,
    };
    let value = match &m.value {
        Some(v) => Some(Box::new(copy_type_ref(v))),
        None => None,
    };
    MapType { key, value }
}

fn copy_fields(fs: &Vec<Field>) -> (r: Vec<Field>)
    ensures
        r@.len() == fs@.len(),
        forall|i: int| 0 <= i < fs@.len() ==> field_same(fs@[i], #[trigger] r@[i]),
{
    let mut out: Vec<Field> = Vec::new();
    let mut i: usize = 0;
    while i < fs.len()
        invariant
            i <= fs@.len(),
            out@.len() == i,
            forall|k: int| 0 <= k < i ==> field_same(fs@[k], #[trigger] out@[k]),
        decreases fs.len() - i,
    {
        let f = &fs[i];
        out.push(
            Field {
                name: f.name.clone(),
                number: f.number,
                type_ref: copy_opt_ref(&f.type_ref),
                is_optional: f.is_optional,
                is_repeated: f.is_repeated,
            },
        );
        i += 1;
    }
    out
}

fn copy_oneof(g: &OneofGroup) -> (r: OneofGroup)
    ensures
        oneof_same(*g, r),
{
    let mut out: Vec<OneofField> = Vec::new();
    let mut i: usize = 0;
    while i < g.fields.len()
        invariant
            i <= g.fields@.len(),
            out@.len() == i,
            forall|k: int|
                0 <= k < i ==> {
                    &&& (#[trigger] out@[k]).name@ == g.fields@[k].name@
                    &&& out@[k].number == g.fields@[k].number
                    &&& opt_ref_same(g.fields@[k].type_ref, out@[k].type_ref)
                },
        decreases g.fields.len() - i,
    {
        let f = &g.fields[i];
        out.push(OneofField { name: f.name.clone(), number: f.number, type_ref: copy_opt_ref(&f.type_ref) });
        i += 1;
    }
    OneofGroup { name: g.name.clone(), fields: out }
}

fn copy_enum(e: &Enum) -> (r: Enum)
    ensures
        enum_same(*e, r),
{
    let mut out: Vec<EnumValue> = Vec::new();
    let mut i: usize = 0;
    while i < e.values.len()
        invariant
            i <= e.values@.len(),
            out@.len() == i,
            forall|k: int|
                0 <= k < i ==> {
                    &&& (#[trigger] out@[k]).name@ == e.values@[k].name@
                    &&& out@[k].number == e.values@[k].number
                    &&& out@[k].is_removed == e.values@[k].is_removed
                    &&& out@[k].fallback@ == e.values@[k].fallback@
                },
        decreases e.values.len() - i,
    {
        let v = &e.values[i];
        out.push(
            EnumValue {
                name: v.name.clone(),
                number: v.number,
                is_removed: v.is_removed,
                fallback: v.fallback.clone(),
            },
        );
        i += 1;
    }
    Enum { name: e.name.clone(), full_name: e.full_name.clone(), values: out }
}

fn copy_type(t: &Type) -> (r: Type)
    ensures
        type_same(*t, r),
    decreases t,
{
    let mut nested: Vec<Type> = Vec::new();
    let mut i: usize = 0;
    while i < t.nested_types.len()
        invariant
            i <= t.nested_types@.len(),
            nested@.len() == i,
            forall|k: int| 0 <= k < i ==> type_same(t.nested_types@[k], #[trigger] nested@[k]),
        decreases t.nested_types.len() - i,
    {
        proof {
            assert(decreases_to!(t => t.nested_types));
            assert(decreases_to!(t.nested_types => t.nested_types@));
            assert(decreases_to!(t.nested_types@ => t.nested_types@[i as int]));
        }
        nested.push(copy_type(&t.nested_types[i]));
        i += 1;
    }
    let mut oneofs: Vec<OneofGroup> = Vec::new();
    let mut j: usize = 0;
    while j < t.oneofs.len()
        invariant
            j <= t.oneofs@.len(),
            oneofs@.len() == j,
            forall|k: int| 0 <= k < j ==> oneof_same(t.oneofs@[k], #[trigger] oneofs@[k]),
        decreases t.oneofs.len() - j,
    {
        oneofs.push(copy_oneof(&t.oneofs[j]));
        j += 1;
    }
    let mut enums: Vec<Enum> = Vec::new();
    let mut m: usize = 0;
    while m < t.nested_enums.len()
        invariant
            m <= t.nested_enums@.len(),
            enums@.len() == m,
            forall|k: int| 0 <= k < m ==> enum_same(t.nested_enums@[k], #[trigger] enums@[k]),
        decreases t.nested_enums.len() - m,
    {
        enums.push(copy_enum(&t.nested_enums[m]));
        m += 1;
    }
    Type {
        name: t.name.clone(),
        full_name: t.full_name.clone(),
        fields: copy_fields(&t.fields),
        oneofs,
        nested_types: nested,
        nested_enums: enums,
    }
}

/// `b` is a copy of the method parameter `a`.
pub open spec fn param_same(a: RpcParam, b: RpcParam) -> bool {
    &&& b.is_void == a.is_void
    &&& b.is_stream == a.is_stream
    &&& opt_ref_same(a.type_ref, b.type_ref)
}

/// `b` is a copy of the optional method parameter `a`.
pub open spec fn opt_param_same(a: Option<RpcParam>, b: Option<RpcParam>) -> bool {
    match a {
        None => b is None,
        Some(x) => match b {
            Some(y) => param_same(x, y),
            None => false,
        },
    }
}

/// `b` is a copy of the service `a`.
pub open spec fn service_same(a: Service, b: Service) -> bool {
    &&& b.name@ == a.name@
    &&& b.full_name@ == a.full_name@
    &&& b.rpcs@.len() == a.rpcs@.len()
    &&& forall|i: int|
        0 <= i < a.rpcs@.len() ==> {
            &&& (#[trigger] b.rpcs@[i]).name@ == a.rpcs@[i].name@
            &&& opt_param_same(a.rpcs@[i].input, b.rpcs@[i].input)
            &&& opt_param_same(a.rpcs@[i].output, b.rpcs@[i].output)
        }
}

/// `b` is a copy of the module `a`: the same package, and copies of its
/// types, enums and services, in order.
pub open spec fn module_same(a: Module, b: Module) -> bool {
    &&& b.package@ == a.package@
    &&& b.types@.len() == a.types@.len()
    &&& forall|i: int| 0 <= i < a.types@.len() ==> type_same(a.types@[i], #[trigger] b.types@[i])
    &&& b.enums@.len() == a.enums@.len()
    &&& forall|i: int| 0 <= i < a.enums@.len() ==> enum_same(a.enums@[i], #[trigger] b.enums@[i])
    &&& b.services@.len() == a.services@.len()
    &&& forall|i: int| 0 <= i < a.services@.len() ==> service_same(a.services@[i], #[trigger] b.services@[i])
}

fn copy_opt_param(p: &Option<RpcParam>) -> (r: Option<RpcParam>)
    ensures
        opt_param_same(*p, r),
{
    match p {
        Some(x) => Some(
            RpcParam { is_void: x.is_void, is_stream: x.is_stream, type_ref: copy_opt_ref(&x.type_ref) },
        ),
        None => None,
    }
}

fn copy_service(sv: &Service) -> (r: Service)
    ensures
        service_same(*sv, r),
{
    let mut rpcs: Vec<Rpc> = Vec::new();
    let mut i: usize = 0;
    while i < sv.rpcs.len()
        invariant
            i <= sv.rpcs@.len(),
            rpcs@.len() == i,
            forall|k: int|
                0 <= k < i ==> {
                    &&& (#[trigger] rpcs@[k]).name@ == sv.rpcs@[k].name@
                    &&& opt_param_same(sv.rpcs@[k].input, rpcs@[k].input)
                    &&& opt_param_same(sv.rpcs@[k].output, rpcs@[k].output)
                },
        decreases sv.rpcs.len() - i,
    {
        let r = &sv.rpcs[i];
        rpcs.push(
            Rpc { name: r.name.clone(), input: copy_opt_param(&r.input), output: copy_opt_param(&r.output) },
        );
        i += 1;
    }
    Service { name: sv.name.clone(), full_name: sv.full_name.clone(), rpcs }
}

impl Clone for Module {
    fn clone(&self) -> (r: Self)
        ensures
            module_same(*self, r),
    {
        let mut types: Vec<Type> = Vec::new();
        let mut i: usize = 0;
        while i < self.types.len()
            invariant
                i <= self.types@.len(),
                types@.len() == i,
                forall|k: int| 0 <= k < i ==> type_same(self.types@[k], #[trigger] types@[k]),
            decreases self.types.len() - i,
        {
            types.push(copy_type(&self.types[i]));
            i += 1;
        }
        let mut enums: Vec<Enum> = Vec::new();
        let mut j: usize = 0;
        while j < self.enums.len()
            invariant
                j <= self.enums@.len(),
                enums@.len() == j,
                forall|k: int| 0 <= k < j ==> enum_same(self.enums@[k], #[trigger] enums@[k]),
            decreases self.enums.len() - j,
        {
            enums.push(copy_enum(&self.enums[j]));
            j += 1;
        }
        let mut services: Vec<Service> = Vec::new();
        let mut m: usize = 0;
        while m < self.services.len()
            invariant
                m <= self.services@.len(),
                services@.len() == m,
                forall|k: int| 0 <= k < m ==> service_same(self.services@[k], #[trigger] services@[k]),
            decreases self.services.len() - m,
        {
            services.push(copy_service(&self.services[m]));
            m += 1;
        }
        Module { package: self.package.clone(), types, enums, services }
    }
}

impl Clone for TypeReference {
    fn clone(&self) -> (r: Self)
        ensures
            ref_same(*self, r),
    {
        copy_type_ref(self)
    }
}

impl Clone for MapType {
    fn clone(&self) -> (r: Self)
        ensures
            map_same(*self, r),
    {
        copy_map_type(self)
    }
}

impl Clone for TypeRefKind {
    fn clone(&self) -> (r: Self)
        ensures
            ref_same(TypeReference { kind: Some(*self) }, TypeReference { kind: Some(r) }),
    {
        match self {
            TypeRefKind::Scalar(s) => TypeRefKind::Scalar(ScalarType { scalar_kind: s.scalar_kind }),
            TypeRefKind::MessageType(m) => TypeRefKind::MessageType(
                MessageType { name: m.name.clone(), full_name: m.full_name.clone() },
            ),
            TypeRefKind::EnumType(e) => TypeRefKind::EnumType(
                EnumType { name: e.name.clone(), full_name: e.full_name.clone() },
            ),
            TypeRefKind::MapType(m) => TypeRefKind::MapType(copy_map_type(m)),
        }
    }
}

impl Clone for Type {
    fn clone(&self) -> (r: Self)
        ensures
            type_same(*self, r),
    {
        copy_type(self)
    }
}

} // verus!
