//! High-level representation: arena-allocated and index-based.
//!
//! The resolution passes work with arena indices (`TypeId`, `EnumId`, ...)
//! rather than copies; names are interned symbols.

use vstd::prelude::*;
use la_arena::{Arena, Idx, RawIdx};
use string_interner::StringInterner;
use string_interner::Symbol;
use string_interner::backend::StringBackend;
use string_interner::symbol::SymbolU32;
use std::collections::HashMap;

verus! {

// ── Outside types ──────────────────────────────────────────────────────

#[verifier::external_type_specification]
#[verifier::external_body]
#[verifier::reject_recursive_types(T)]
pub struct ExArena<T>(Arena<T>);

/// An interned string symbol: the position of the string among those
/// interned, in the order in which they were first interned.
pub type Sym = u32;

// ── String interning ───────────────────────────────────────────────────

/// The shared string interner for all names in the compiler.
#[verifier::external_body]
#[derive(Debug)]
pub struct Interner {
    inner: StringInterner<StringBackend>,
}

/// The strings interned so far, in the order of their symbols.
pub uninterp spec fn interned(i: Interner) -> Seq<Seq<char>>;

/// No string occurs twice.
pub open spec fn distinct(s: Seq<Seq<char>>) -> bool {
    forall|i: int, j: int| 0 <= i < j < s.len() ==> s[i] != s[j]
}

/// `s` is the symbol of `text` among the interned strings `strs`.
pub open spec fn names(strs: Seq<Seq<char>>, s: Sym, text: Seq<char>) -> bool {
    s < strs.len() && strs[s as int] == text
}

impl Default for Interner {
    /// `StringInterner::new`: an interner with no strings.
    #[verifier::external_body]
    fn default() -> (r: Self)
        ensures
            interned(r).len() == 0,
    {
        Interner { inner: StringInterner::new() }
    }
}

impl Interner {
    /// `StringInterner::get_or_intern`: the symbol of `s`, interning it if
    /// it is new. A new string gets the next symbol (the string backend
    /// numbers its strings in order), and no string is stored twice.
    #[verifier::external_body]
    pub fn intern(&mut self, s: &str) -> (r: Sym)
        requires
            interned(*old(self)).len() < u32::MAX,
        ensures
            interned(*old(self)).contains(s@) ==> interned(*final(self)) == interned(*old(self)),
            !interned(*old(self)).contains(s@) ==> interned(*final(self)) == interned(*old(self)).push(s@),
            names(interned(*final(self)), r, s@),
            distinct(interned(*old(self))) ==> distinct(interned(*final(self))),
    {
        self.inner.get_or_intern(s).to_usize() as u32
    }

    /// `StringInterner::resolve`: the string of a symbol.
    #[verifier::external_body]
    pub fn resolve(&self, sym: Sym) -> (r: &str)
        requires
            sym < interned(*self).len(),
        ensures
            r@ == interned(*self)[sym as int],
    {
        self.inner.resolve(SymbolU32::try_from_usize(sym as usize).unwrap()).unwrap()
    }

    /// `StringInterner::get`: the symbol of `s`, if it is interned.
    #[verifier::external_body]
    pub fn intern_lookup(&self, s: &str) -> (r: Option<Sym>)
        ensures
            r is Some <==> interned(*self).contains(s@),
            r matches Some(x) ==> names(interned(*self), x, s@),
    {
        match self.inner.get(s) {
            Some(x) => Some(x.to_usize() as u32),
            None => None,
        }
    }

    /// `StringInterner::clone`: a second interner with the same strings
    /// under the same symbols.
    #[verifier::external_body]
    pub(crate) fn snapshot(&self) -> (r: Interner)
        ensures
            interned(r) == interned(*self),
    {
        Interner { inner: self.inner.clone() }
    }

    /// `StringInterner::len`: the number of interned strings.
    #[verifier::external_body]
    pub(crate) fn len(&self) -> (r: usize)
        ensures
            r == interned(*self).len(),
    {
        self.inner.len()
    }
}

// ── Arena indices ──────────────────────────────────────────────────────

/// Arena positions, in allocation order.
pub type TypeId = u32;
pub type EnumId = u32;
pub type ServiceId = u32;
pub type ShapeId = u32;
pub type AnnotationDefId = u32;

/// The definitions in an arena of types, in allocation order.
pub uninterp spec fn type_defs(a: Arena<TypeDef>) -> Seq<TypeDef>;

pub uninterp spec fn enum_defs(a: Arena<EnumDef>) -> Seq<EnumDef>;

pub uninterp spec fn service_defs(a: Arena<ServiceDef>) -> Seq<ServiceDef>;

pub uninterp spec fn shape_defs(a: Arena<ShapeDef>) -> Seq<ShapeDef>;

pub uninterp spec fn annotation_defs(a: Arena<AnnotationDef>) -> Seq<AnnotationDef>;

/// `Arena::alloc`: append a type definition; its position is the old length.
#[verifier::external_body]
pub(crate) fn alloc_type(a: &mut Arena<TypeDef>, v: TypeDef) -> (r: TypeId)
    requires
        type_defs(*old(a)).len() < u32::MAX,
    ensures
        type_defs(*final(a)) == type_defs(*old(a)).push(v),
        r == type_defs(*old(a)).len(),
{
    u32::from(a.alloc(v).into_raw())
}

/// `Arena::alloc`: append an enum definition; its position is the old length.
#[verifier::external_body]
pub(crate) fn alloc_enum(a: &mut Arena<EnumDef>, v: EnumDef) -> (r: EnumId)
    requires
        enum_defs(*old(a)).len() < u32::MAX,
    ensures
        enum_defs(*final(a)) == enum_defs(*old(a)).push(v),
        r == enum_defs(*old(a)).len(),
{
    u32::from(a.alloc(v).into_raw())
}

/// `Arena::alloc`: append a service definition; its position is the old length.
#[verifier::external_body]
pub(crate) fn alloc_service(a: &mut Arena<ServiceDef>, v: ServiceDef) -> (r: ServiceId)
    requires
        service_defs(*old(a)).len() < u32::MAX,
    ensures
        service_defs(*final(a)) == service_defs(*old(a)).push(v),
        r == service_defs(*old(a)).len(),
{
    u32::from(a.alloc(v).into_raw())
}

/// `Arena::alloc`: append a shape definition; its position is the old length.
#[verifier::external_body]
pub(crate) fn alloc_shape(a: &mut Arena<ShapeDef>, v: ShapeDef) -> (r: ShapeId)
    requires
        shape_defs(*old(a)).len() < u32::MAX,
    ensures
        shape_defs(*final(a)) == shape_defs(*old(a)).push(v),
        r == shape_defs(*old(a)).len(),
{
    u32::from(a.alloc(v).into_raw())
}

/// `Arena::alloc`: append an annotation definition; its position is the old length.
#[verifier::external_body]
pub(crate) fn alloc_annotation_def(a: &mut Arena<AnnotationDef>, v: AnnotationDef) -> (r: AnnotationDefId)
    requires
        annotation_defs(*old(a)).len() < u32::MAX,
    ensures
        annotation_defs(*final(a)) == annotation_defs(*old(a)).push(v),
        r == annotation_defs(*old(a)).len(),
{
    u32::from(a.alloc(v).into_raw())
}

/// `Index` of an arena of types: the definition at position `id`.
#[verifier::external_body]
pub(crate) fn type_def_at(a: &Arena<TypeDef>, id: TypeId) -> (r: &TypeDef)
    requires
        id < type_defs(*a).len(),
    ensures
        *r == type_defs(*a)[id as int],
{
    &a[Idx::from_raw(RawIdx::from(id))]
}

/// `Index` of an arena of shapes: the definition at position `id`.
#[verifier::external_body]
pub(crate) fn shape_def_at(a: &Arena<ShapeDef>, id: ShapeId) -> (r: &ShapeDef)
    requires
        id < shape_defs(*a).len(),
    ensures
        *r == shape_defs(*a)[id as int],
{
    &a[Idx::from_raw(RawIdx::from(id))]
}

/// `IndexMut` of an arena of types: the definition at position `id`, to
/// change in place.
#[verifier::external_body]
pub(crate) fn type_def_mut(a: &mut Arena<TypeDef>, id: TypeId) -> (r: &mut TypeDef)
    requires
        id < type_defs(*old(a)).len(),
    ensures
        *r == type_defs(*old(a))[id as int],
        type_defs(*final(a)) == type_defs(*old(a)).update(id as int, *final(r)),
{
    &mut a[Idx::from_raw(RawIdx::from(id))]
}

/// `IndexMut` of an arena of services: the definition at position `id`, to
/// change in place.
#[verifier::external_body]
pub(crate) fn service_def_mut(a: &mut Arena<ServiceDef>, id: ServiceId) -> (r: &mut ServiceDef)
    requires
        id < service_defs(*old(a)).len(),
    ensures
        *r == service_defs(*old(a))[id as int],
        service_defs(*final(a)) == service_defs(*old(a)).update(id as int, *final(r)),
{
    &mut a[Idx::from_raw(RawIdx::from(id))]
}

/// `IndexMut` of an arena of shapes: the definition at position `id`, to
/// change in place.
#[verifier::external_body]
pub(crate) fn shape_def_mut(a: &mut Arena<ShapeDef>, id: ShapeId) -> (r: &mut ShapeDef)
    requires
        id < shape_defs(*old(a)).len(),
    ensures
        *r == shape_defs(*old(a))[id as int],
        shape_defs(*final(a)) == shape_defs(*old(a)).update(id as int, *final(r)),
{
    &mut a[Idx::from_raw(RawIdx::from(id))]
}

/// `Arena::len` of each arena.
#[verifier::external_body]
pub(crate) fn arena_lens(a: &Arenas) -> (r: (usize, usize, usize, usize, usize))
    ensures
        r.0 == type_defs(a.types).len(),
        r.1 == enum_defs(a.enums).len(),
        r.2 == service_defs(a.services).len(),
        r.3 == shape_defs(a.shapes).len(),
        r.4 == annotation_defs(a.annotation_defs).len(),
{
    (a.types.len(), a.enums.len(), a.services.len(), a.shapes.len(), a.annotation_defs.len())
}

// ── Arenas ─────────────────────────────────────────────────────────────

/// Central storage for all declarations.
#[derive(Debug)]
pub struct Arenas {
    pub types: Arena<TypeDef>,
    pub enums: Arena<EnumDef>,
    pub services: Arena<ServiceDef>,
    pub shapes: Arena<ShapeDef>,
    pub annotation_defs: Arena<AnnotationDef>,
}

impl Default for Arenas {
    /// `Arena::new` for each arena.
    #[verifier::external_body]
    fn default() -> (r: Self)
        ensures
            type_defs(r.types).len() == 0,
            enum_defs(r.enums).len() == 0,
            service_defs(r.services).len() == 0,
            shape_defs(r.shapes).len() == 0,
            annotation_defs(r.annotation_defs).len() == 0,
    {
        Arenas {
            types: Arena::new(),
            enums: Arena::new(),
            services: Arena::new(),
            shapes: Arena::new(),
            annotation_defs: Arena::new(),
        }
    }
}

// ── Symbol table ───────────────────────────────────────────────────────

/// Maps fully qualified names to declaration positions.
#[derive(Debug)]
pub struct SymbolTable {
    pub types: HashMap<Sym, TypeId>,
    pub enums: HashMap<Sym, EnumId>,
    pub services: HashMap<Sym, ServiceId>,
    pub shapes: HashMap<Sym, ShapeId>,
    /// Keyed by `(library, name)`.
    pub annotations: HashMap<(Sym, Sym), AnnotationDefId>,
    /// Per file, the imports: short name to full name.
    pub imports: HashMap<Sym, HashMap<Sym, Sym>>,
}

impl Default for SymbolTable {
    fn default() -> (r: Self)
        ensures
            r.types@ == Map::<Sym, TypeId>::empty(),
            r.enums@ == Map::<Sym, EnumId>::empty(),
            r.services@ == Map::<Sym, ServiceId>::empty(),
            r.shapes@ == Map::<Sym, ShapeId>::empty(),
            r.annotations@ == Map::<(Sym, Sym), AnnotationDefId>::empty(),
            r.imports@ == Map::<Sym, HashMap<Sym, Sym>>::empty(),
    {
        SymbolTable {
            types: HashMap::new(),
            enums: HashMap::new(),
            services: HashMap::new(),
            shapes: HashMap::new(),
            annotations: HashMap::new(),
            imports: HashMap::new(),
        }
    }
}

/// `HashMap::insert` into the annotation table, keyed by `(library, name)`:
/// the key now maps to `v`, and the result says whether it was present.
#[verifier::external_body]
pub(crate) fn insert_annotation(
    m: &mut HashMap<(Sym, Sym), AnnotationDefId>,
    lib: Sym,
    name: Sym,
    v: AnnotationDefId,
) -> (r: bool)
    ensures
        final(m)@ == old(m)@.insert((lib, name), v),
        r == old(m)@.contains_key((lib, name)),
{
    m.insert((lib, name), v).is_some()
}

// ── Source location ────────────────────────────────────────────────────

#[derive(Debug)]
pub struct Loc {
    pub file: Option<Sym>,
    pub span: std::ops::Range<usize>,
}

impl Default for Loc {
    fn default() -> (r: Self)
        ensures
            r.file is None,
            r.span == (0usize..0usize),
    {
        Loc { file: None, span: 0..0 }
    }
}

impl Clone for Loc {
    fn clone(&self) -> (r: Self)
        ensures
            r == *self,
    {
        Loc { file: self.file, span: self.span.start..self.span.end }
    }
}

// ── Definitions ────────────────────────────────────────────────────────

#[derive(Debug)]
pub struct TypeDef {
    pub name: Sym,
    pub full_name: Sym,
    pub fields: Vec<FieldDef>,
    pub oneofs: Vec<OneofDef>,
    pub nested_types: Vec<TypeId>,
    pub nested_enums: Vec<EnumId>,
    pub annotations: Vec<AnnotationCall>,
    pub back_references: Vec<BackRef>,
    pub trace: Option<TypeTrace>,
    pub loc: Loc,
}

#[derive(Debug)]
pub struct FieldDef {
    pub name: Sym,
    pub number: u32,
    pub ty: ResolvedType,
    pub is_optional: bool,
    pub is_repeated: bool,
    pub annotations: Vec<AnnotationCall>,
    pub mapping: Option<FieldMapping>,
    pub trace: Option<FieldTrace>,
    pub loc: Loc,
}

#[derive(Debug)]
pub struct OneofDef {
    pub name: Sym,
    pub fields: Vec<OneofFieldDef>,
    pub annotations: Vec<AnnotationCall>,
    pub loc: Loc,
}

#[derive(Debug)]
pub struct OneofFieldDef {
    pub name: Sym,
    pub number: u32,
    pub ty: ResolvedType,
    pub annotations: Vec<AnnotationCall>,
    pub mapping: Option<FieldMapping>,
    pub loc: Loc,
}

#[derive(Debug)]
pub struct EnumDef {
    pub name: Sym,
    pub full_name: Sym,
    pub values: Vec<EnumValueDef>,
    pub annotations: Vec<AnnotationCall>,
    pub loc: Loc,
}

#[derive(Debug)]
pub struct EnumValueDef {
    pub name: Sym,
    pub number: i32,
    pub is_removed: bool,
    pub fallback: Option<Sym>,
    pub annotations: Vec<AnnotationCall>,
    pub loc: Loc,
}

#[derive(Debug)]
pub struct ServiceDef {
    pub name: Sym,
    pub full_name: Sym,
    pub rpcs: Vec<RpcDef>,
    pub annotations: Vec<AnnotationCall>,
    pub loc: Loc,
}

#[derive(Debug)]
pub struct RpcDef {
    pub name: Sym,
    pub input: RpcParamDef,
    pub output: RpcParamDef,
    pub annotations: Vec<AnnotationCall>,
    pub loc: Loc,
}

#[derive(Debug)]
pub struct RpcParamDef {
    pub is_void: bool,
    pub is_stream: bool,
    pub ty: ResolvedType,
}

#[derive(Debug)]
pub struct ShapeDef {
    pub name: Sym,
    pub full_name: Sym,
    pub fields: Vec<ShapeFieldDef>,
    /// Names of the shapes to include.
    pub includes: Vec<Sym>,
    pub type_params: Vec<Sym>,
    pub annotations: Vec<AnnotationCall>,
    pub loc: Loc,
}

#[derive(Debug)]
pub struct ShapeFieldDef {
    pub name: Sym,
    pub ty: ResolvedType,
    pub annotations: Vec<AnnotationCall>,
    pub loc: Loc,
}

#[derive(Debug)]
pub struct AnnotationDef {
    pub library: Sym,
    pub name: Sym,
    pub full_name: Sym,
    pub targets: Vec<Sym>,
    pub params: Vec<AnnotationParamDef>,
    pub compositions: Vec<AnnotationCompositionRef>,
    pub loc: Loc,
}

#[derive(Debug)]
pub struct AnnotationParamDef {
    pub name: Sym,
    pub ty: ResolvedType,
    pub is_optional: bool,
    pub default_value: Option<LiteralValue>,
}

#[derive(Debug)]
pub struct AnnotationCompositionRef {
    pub library: Sym,
    pub name: Sym,
    pub arguments: Vec<AnnotationArgDef>,
}

#[derive(Debug)]
pub struct AnnotationCall {
    pub library: Sym,
    pub name: Sym,
    pub arguments: Vec<AnnotationArgDef>,
    pub definition: Option<AnnotationDefId>,
    pub loc: Loc,
}

#[derive(Debug)]
pub struct AnnotationArgDef {
    pub name: Sym,
    pub value: LiteralValue,
}

/// A type reference during resolution, by arena index.
#[derive(Debug)]
pub enum ResolvedType {
    /// Not resolved yet.
    Unresolved(Sym),
    /// Resolution failed; the error is already reported.
    Error,
    Scalar(ScalarKind),
    Message(TypeId),
    Enum(EnumId),
    MapOf { key: Box<ResolvedType>, value: Box<ResolvedType> },
    /// Repeated.
    Array(Box<ResolvedType>),
}

impl Clone for ResolvedType {
    fn clone(&self) -> (r: Self)
        ensures
            r == *self,
        decreases self,
    {
        match self {
            ResolvedType::Unresolved(s) => ResolvedType::Unresolved(*s),
            ResolvedType::Error => ResolvedType::Error,
            ResolvedType::Scalar(k) => ResolvedType::Scalar(*k),
            ResolvedType::Message(i) => ResolvedType::Message(*i),
            ResolvedType::Enum(i) => ResolvedType::Enum(*i),
            ResolvedType::MapOf { key, value } => ResolvedType::MapOf {
                key: Box::new((**key).clone()),
                value: Box::new((**value).clone()),
            },
            ResolvedType::Array(inner) => ResolvedType::Array(Box::new((**inner).clone())),
        }
    }
}

/// The primitive scalar types.
#[derive(Debug, Clone, Copy, PartialEq, Eq, Structural)]
pub enum ScalarKind {
    Bool,
    String,
    Bytes,
    Int8,
    Int16,
    Int32,
    Int64,
    Uint8,
    Uint16,
    Uint32,
    Uint64,
    Float,
    Double,
}

/// A literal value of an annotation argument.
#[derive(Debug)]
pub enum LiteralValue {
    String(Sym),
    Int(i64),
    /// A floating-point value, by the text of its literal.
    Float(Sym),
    Bool(bool),
    Ident(Sym),
    Struct(Vec<(Sym, LiteralValue)>),
    List(Vec<LiteralValue>),
}

#[derive(Debug)]
pub struct FieldMapping {
    pub chain: Vec<MappingLink>,
}

#[derive(Debug)]
pub struct MappingLink {
    pub source_type: TypeId,
    pub source_field_name: Sym,
    /// The path for nested fields, such as `["billing", "street"]`.
    pub path: Vec<Sym>,
}

#[derive(Debug)]
pub enum TypeTrace {
    Generic { source_name: Sym, type_arguments: Vec<Sym> },
    PickOmit {
        /// `Pick` or `Omit`.
        kind: Sym,
        source_type: TypeId,
        field_names: Vec<Sym>,
    },
}

#[derive(Debug)]
pub struct FieldTrace {
    pub shape: Option<ShapeOrigin>,
}

#[derive(Debug)]
pub struct ShapeOrigin {
    pub shape_name: Sym,
    pub shape_id: ShapeId,
    pub range_start: u32,
    pub range_end: u32,
}

#[derive(Debug)]
pub struct BackRef {
    pub referencing_type: TypeId,
    pub field_name: Sym,
}

} // verus!
