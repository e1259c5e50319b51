//! Index collection.
//!
//! Walks the typed syntax tree of a parsed file and registers its top-level
//! declarations (types, enums, shapes, services, annotation definitions) in
//! the arenas and the symbol table. No reference is resolved here.

use vstd::prelude::*;
use la_arena::Arena;
use std::collections::HashMap;
use crate::ast::{
    AnnotationDecl, AstNode, EnumDecl, Root, ShapeDecl, children_are, first_child_is, int_literal_value, nth_token_is,
    selected_bytes, tokens_are,
};
use crate::diagnostics::{Diagnostic, Diagnostics, Severity, simple};
use crate::hir::{
    AnnotationDef, AnnotationDefId, Arenas, EnumDef, EnumId, EnumValueDef, Interner, Loc, ServiceDef, ServiceId, ShapeDef,
    ShapeId, Sym, TypeDef, TypeId, alloc_annotation_def, alloc_enum, alloc_service, alloc_shape, alloc_type, arena_lens,
    annotation_defs, distinct, enum_defs, insert_annotation, interned, names, service_defs, shape_defs, SymbolTable, type_defs,
};
use crate::syntax_kind::SyntaxKind;
use crate::tree::{SyntaxNode, SyntaxToken, TokenSelect, node_slots, offset_at, text_of};

verus! {

broadcast use vstd::std_specs::hash::group_hash_axioms;

/// A parsed file ready for indexing.
pub struct ParsedFile {
    pub file_name: String,
    pub root: SyntaxNode,
    pub package: String,
}

// ── What a declaration is ──────────────────────────────────────────────

/// The child nodes of `n` of kind `k`, in order.
pub open spec fn child_nodes(n: SyntaxNode, k: SyntaxKind) -> Seq<SyntaxNode> {
    node_slots(n.tree(), n.elements(), k).map_values(|s: int| n.child_node_at(s))
}

/// The bytes of the name of declaration `d`: its first identifier-like
/// token, if it has one.
pub open spec fn name_bytes(d: SyntaxNode) -> Option<Seq<u8>> {
    let b = selected_bytes(d, TokenSelect::IdentLike);
    if b.len() > 0 {
        Some(b[0])
    } else {
        None
    }
}

/// The name of declaration `d` (empty where it has none).
pub open spec fn name_text(d: SyntaxNode) -> Seq<char> {
    match name_bytes(d) {
        Some(b) => text_of(b),
        None => Seq::empty(),
    }
}

/// The declarations among `ds` that have a name, in order.
pub open spec fn named(ds: Seq<SyntaxNode>) -> Seq<SyntaxNode>
    decreases ds.len(),
{
    if ds.len() == 0 {
        Seq::empty()
    } else if name_bytes(ds.last()) is Some {
        named(ds.drop_last()).push(ds.last())
    } else {
        named(ds.drop_last())
    }
}

/// `pkg.name`: the full name of a declaration of package `pkg`.
pub open spec fn qualified(pkg: Seq<char>, name: Seq<char>) -> Seq<char> {
    pkg + seq!['.'] + name
}

/// The full names of the declarations `ds` of package `pkg`.
pub open spec fn full_names(ds: Seq<SyntaxNode>, pkg: Seq<char>) -> Seq<Seq<char>> {
    ds.map_values(|d: SyntaxNode| qualified(pkg, name_text(d)))
}

/// The byte range that node `d` spans in the source.
pub open spec fn node_range(d: SyntaxNode) -> std::ops::Range<usize> {
    let nd = d.tree().nodes_view()[d.id() as int];
    std::ops::Range {
        start: offset_at(d.tree().tokens_view(), nd.first as int) as usize,
        end: offset_at(d.tree().tokens_view(), nd.end as int) as usize,
    }
}

/// `loc` is the place of node `d` in the file named `file`.
pub open spec fn loc_of(strs: Seq<Seq<char>>, loc: Loc, file: Seq<char>, d: SyntaxNode) -> bool {
    &&& loc.file matches Some(f) && names(strs, f, file)
    &&& loc.span == node_range(d)
}

/// Every key of `t` is a symbol below `n`.
pub open spec fn keys_below(t: Map<Sym, u32>, n: nat) -> bool {
    forall|k: Sym| t.contains_key(k) ==> k < n
}

/// `a` is a prefix of `b`.
pub open spec fn grows<A>(a: Seq<A>, b: Seq<A>) -> bool {
    &&& a.len() <= b.len()
    &&& forall|k: int| 0 <= k < a.len() ==> #[trigger] b[k] == a[k]
}

// ── Tables and reports ─────────────────────────────────────────────────

/// `m` after inserting `ks[i] ↦ base + i` for each `i`, in order.
pub open spec fn inserted<K>(m: Map<K, u32>, ks: Seq<K>, base: int) -> Map<K, u32>
    decreases ks.len(),
{
    if ks.len() == 0 {
        m
    } else {
        inserted(m, ks.drop_last(), base).insert(ks.last(), (base + ks.len() - 1) as u32)
    }
}

/// The positions `i` at which `ks[i]` was a key already: of `m`, or earlier in `ks`.
pub open spec fn repeats<K>(m: Map<K, u32>, ks: Seq<K>) -> Seq<int>
    decreases ks.len(),
{
    if ks.len() == 0 {
        Seq::empty()
    } else if m.contains_key(ks.last()) || ks.drop_last().contains(ks.last()) {
        repeats(m, ks.drop_last()).push(ks.len() - 1)
    } else {
        repeats(m, ks.drop_last())
    }
}

/// `ds` report, in order, the declarations `nodes[p]` for `p` in `pos` as
/// errors of file `file`, with the message `what` and the full name.
pub open spec fn reported(
    ds: Seq<Diagnostic>,
    pos: Seq<int>,
    nodes: Seq<SyntaxNode>,
    file: Seq<char>,
    what: Seq<char>,
    fulls: Seq<Seq<char>>,
) -> bool {
    &&& ds.len() == pos.len()
    &&& forall|j: int|
        0 <= j < ds.len() ==> simple(
            Severity::Error,
            file,
            node_range(nodes[pos[j]]),
            what + fulls[pos[j]],
            #[trigger] ds[j],
        )
}

// ── Definitions ────────────────────────────────────────────────────────

/// `def` is the type definition that declaration `d` of package `pkg` in
/// file `file` gives: named, with nothing resolved yet.
pub open spec fn type_def_of(strs: Seq<Seq<char>>, def: TypeDef, d: SyntaxNode, pkg: Seq<char>, file: Seq<char>) -> bool {
    &&& names(strs, def.name, name_text(d))
    &&& names(strs, def.full_name, qualified(pkg, name_text(d)))
    &&& def.fields@.len() == 0
    &&& def.oneofs@.len() == 0
    &&& def.nested_types@.len() == 0
    &&& def.nested_enums@.len() == 0
    &&& def.annotations@.len() == 0
    &&& def.back_references@.len() == 0
    &&& def.trace is None
    &&& loc_of(strs, def.loc, file, d)
}

pub open spec fn type_defs_of(
    strs: Seq<Seq<char>>,
    defs: Seq<TypeDef>,
    ds: Seq<SyntaxNode>,
    pkg: Seq<char>,
    file: Seq<char>,
) -> bool {
    &&& defs.len() == ds.len()
    &&& forall|i: int| 0 <= i < defs.len() ==> type_def_of(strs, #[trigger] defs[i], ds[i], pkg, file)
}

/// The full-name symbols of type definitions.
pub open spec fn type_keys(defs: Seq<TypeDef>) -> Seq<Sym> {
    defs.map_values(|d: TypeDef| d.full_name)
}

/// What indexing the type declarations of `root` does: the arena grows by
/// one definition per named declaration, in order; the table maps each full
/// name to its last definition; and each full name that was a key already
/// is reported as a duplicate.
pub open spec fn types_collected(
    strs: Seq<Seq<char>>,
    a0: Seq<TypeDef>,
    a1: Seq<TypeDef>,
    m0: Map<Sym, TypeId>,
    m1: Map<Sym, TypeId>,
    d0: Seq<Diagnostic>,
    d1: Seq<Diagnostic>,
    root: SyntaxNode,
    pkg: Seq<char>,
    file: Seq<char>,
) -> bool {
    let ds = named(child_nodes(root, SyntaxKind::TypeDecl));
    let new = a1.skip(a0.len() as int);
    &&& grows(a0, a1)
    &&& type_defs_of(strs, new, ds, pkg, file)
    &&& m1 == inserted(m0, type_keys(new), a0.len() as int)
    &&& grows(d0, d1)
    &&& reported(d1.skip(d0.len() as int), repeats(m0, type_keys(new)), ds, file, "duplicate type: "@, full_names(ds, pkg))
}


// ── Enums ──────────────────────────────────────────────────────────────

/// The number of an enum value declaration: its integer literal, or 0,
/// taken as an `i32`.
pub open spec fn value_number(v: SyntaxNode) -> i32 {
    (match int_literal_value(v, 0) {
        Some(n) => n,
        None => 0u32,
    }) as i32
}

/// `vd` is the value that declaration `v` gives.
pub open spec fn value_def_of(strs: Seq<Seq<char>>, vd: EnumValueDef, v: SyntaxNode, file: Seq<char>) -> bool {
    &&& names(strs, vd.name, name_text(v))
    &&& vd.number == value_number(v)
    &&& !vd.is_removed
    &&& vd.fallback is None
    &&& vd.annotations@.len() == 0
    &&& loc_of(strs, vd.loc, file, v)
}

/// `vd` is the implicit `Unspecified = 0` value of an enum at `loc`.
pub open spec fn unspecified_of(strs: Seq<Seq<char>>, vd: EnumValueDef, loc: Loc) -> bool {
    &&& names(strs, vd.name, "Unspecified"@)
    &&& vd.number == 0
    &&& !vd.is_removed
    &&& vd.fallback is None
    &&& vd.annotations@.len() == 0
    &&& vd.loc == loc
}

/// `vs` are the values of an enum at `loc` whose named value declarations
/// are `vds`: `Unspecified` first, then one per declaration, in order.
pub open spec fn values_of(
    strs: Seq<Seq<char>>,
    vs: Seq<EnumValueDef>,
    loc: Loc,
    vds: Seq<SyntaxNode>,
    file: Seq<char>,
) -> bool {
    &&& vs.len() == vds.len() + 1
    &&& unspecified_of(strs, vs[0], loc)
    &&& forall|i: int| 1 <= i < vs.len() ==> value_def_of(strs, #[trigger] vs[i], vds[i - 1], file)
}

/// `def` is the enum definition that declaration `d` gives.
pub open spec fn enum_def_of(strs: Seq<Seq<char>>, def: EnumDef, d: SyntaxNode, pkg: Seq<char>, file: Seq<char>) -> bool {
    &&& names(strs, def.name, name_text(d))
    &&& names(strs, def.full_name, qualified(pkg, name_text(d)))
    &&& def.annotations@.len() == 0
    &&& loc_of(strs, def.loc, file, d)
    &&& values_of(strs, def.values@, def.loc, named(child_nodes(d, SyntaxKind::EnumValueDecl)), file)
}

pub open spec fn enum_defs_of(
    strs: Seq<Seq<char>>,
    defs: Seq<EnumDef>,
    ds: Seq<SyntaxNode>,
    pkg: Seq<char>,
    file: Seq<char>,
) -> bool {
    &&& defs.len() == ds.len()
    &&& forall|i: int| 0 <= i < defs.len() ==> enum_def_of(strs, #[trigger] defs[i], ds[i], pkg, file)
}

pub open spec fn enum_keys(defs: Seq<EnumDef>) -> Seq<Sym> {
    defs.map_values(|d: EnumDef| d.full_name)
}

/// How many strings indexing the enum declarations `ds` may intern.
pub open spec fn enum_room(ds: Seq<SyntaxNode>) -> nat
    decreases ds.len(),
{
    if ds.len() == 0 {
        0
    } else {
        enum_room(ds.drop_last()) + 3 + child_nodes(ds.last(), SyntaxKind::EnumValueDecl).len()
    }
}

/// What indexing the enum declarations of `root` does.
pub open spec fn enums_collected(
    strs: Seq<Seq<char>>,
    a0: Seq<EnumDef>,
    a1: Seq<EnumDef>,
    m0: Map<Sym, EnumId>,
    m1: Map<Sym, EnumId>,
    d0: Seq<Diagnostic>,
    d1: Seq<Diagnostic>,
    root: SyntaxNode,
    pkg: Seq<char>,
    file: Seq<char>,
) -> bool {
    let ds = named(child_nodes(root, SyntaxKind::EnumDecl));
    let new = a1.skip(a0.len() as int);
    &&& grows(a0, a1)
    &&& enum_defs_of(strs, new, ds, pkg, file)
    &&& m1 == inserted(m0, enum_keys(new), a0.len() as int)
    &&& grows(d0, d1)
    &&& reported(d1.skip(d0.len() as int), repeats(m0, enum_keys(new)), ds, file, "duplicate enum: "@, full_names(ds, pkg))
}


// ── Services ───────────────────────────────────────────────────────────

/// `def` is the service definition that declaration `d` gives.
pub open spec fn service_def_of(strs: Seq<Seq<char>>, def: ServiceDef, d: SyntaxNode, pkg: Seq<char>, file: Seq<char>) -> bool {
    &&& names(strs, def.name, name_text(d))
    &&& names(strs, def.full_name, qualified(pkg, name_text(d)))
    &&& def.rpcs@.len() == 0
    &&& def.annotations@.len() == 0
    &&& loc_of(strs, def.loc, file, d)
}

pub open spec fn service_defs_of(
    strs: Seq<Seq<char>>,
    defs: Seq<ServiceDef>,
    ds: Seq<SyntaxNode>,
    pkg: Seq<char>,
    file: Seq<char>,
) -> bool {
    &&& defs.len() == ds.len()
    &&& forall|i: int| 0 <= i < defs.len() ==> service_def_of(strs, #[trigger] defs[i], ds[i], pkg, file)
}

pub open spec fn service_keys(defs: Seq<ServiceDef>) -> Seq<Sym> {
    defs.map_values(|d: ServiceDef| d.full_name)
}

/// What indexing the service declarations of `root` does.
pub open spec fn services_collected(
    strs: Seq<Seq<char>>,
    a0: Seq<ServiceDef>,
    a1: Seq<ServiceDef>,
    m0: Map<Sym, ServiceId>,
    m1: Map<Sym, ServiceId>,
    d0: Seq<Diagnostic>,
    d1: Seq<Diagnostic>,
    root: SyntaxNode,
    pkg: Seq<char>,
    file: Seq<char>,
) -> bool {
    let ds = named(child_nodes(root, SyntaxKind::ServiceDecl));
    let new = a1.skip(a0.len() as int);
    &&& grows(a0, a1)
    &&& service_defs_of(strs, new, ds, pkg, file)
    &&& m1 == inserted(m0, service_keys(new), a0.len() as int)
    &&& grows(d0, d1)
    &&& reported(d1.skip(d0.len() as int), repeats(m0, service_keys(new)), ds, file, "duplicate service: "@, full_names(ds, pkg))
}


// ── Shapes and annotation definitions ──────────────────────────────────

/// The first child node of `n` of kind `k`, if any.
pub open spec fn first_child(n: SyntaxNode, k: SyntaxKind) -> Option<SyntaxNode> {
    let c = child_nodes(n, k);
    if c.len() > 0 {
        Some(c[0])
    } else {
        None
    }
}

/// The texts of the tokens of `n` that `sel` selects, in order.
pub open spec fn selected_texts(n: SyntaxNode, sel: TokenSelect) -> Seq<Seq<char>> {
    selected_bytes(n, sel).map_values(|b: Seq<u8>| text_of(b))
}

/// The type parameter names of shape declaration `d`.
pub open spec fn shape_params(d: SyntaxNode) -> Seq<Seq<char>> {
    match first_child(d, SyntaxKind::TypeParams) {
        Some(tp) => selected_texts(tp, TokenSelect::Kind(SyntaxKind::Ident)),
        None => Seq::empty(),
    }
}

/// The names of the shapes that the include clauses `incs` name, in order.
pub open spec fn include_names(incs: Seq<SyntaxNode>) -> Seq<Seq<char>>
    decreases incs.len(),
{
    if incs.len() == 0 {
        Seq::empty()
    } else {
        include_names(incs.drop_last()) + selected_texts(incs.last(), TokenSelect::Kind(SyntaxKind::Ident))
    }
}

/// The names of the shapes that shape declaration `d` includes.
pub open spec fn shape_includes(d: SyntaxNode) -> Seq<Seq<char>> {
    include_names(child_nodes(d, SyntaxKind::ShapeInclude))
}

/// `syms` are the symbols of `texts`, in order.
pub open spec fn syms_of(strs: Seq<Seq<char>>, syms: Seq<Sym>, texts: Seq<Seq<char>>) -> bool {
    &&& syms.len() == texts.len()
    &&& forall|i: int| 0 <= i < syms.len() ==> names(strs, #[trigger] syms[i], texts[i])
}

/// `def` is the shape definition that declaration `d` gives.
pub open spec fn shape_def_of(strs: Seq<Seq<char>>, def: ShapeDef, d: SyntaxNode, pkg: Seq<char>, file: Seq<char>) -> bool {
    &&& names(strs, def.name, name_text(d))
    &&& names(strs, def.full_name, qualified(pkg, name_text(d)))
    &&& def.fields@.len() == 0
    &&& syms_of(strs, def.includes@, shape_includes(d))
    &&& syms_of(strs, def.type_params@, shape_params(d))
    &&& def.annotations@.len() == 0
    &&& loc_of(strs, def.loc, file, d)
}

pub open spec fn shape_defs_of(
    strs: Seq<Seq<char>>,
    defs: Seq<ShapeDef>,
    ds: Seq<SyntaxNode>,
    pkg: Seq<char>,
    file: Seq<char>,
) -> bool {
    &&& defs.len() == ds.len()
    &&& forall|i: int| 0 <= i < defs.len() ==> shape_def_of(strs, #[trigger] defs[i], ds[i], pkg, file)
}

pub open spec fn shape_keys(defs: Seq<ShapeDef>) -> Seq<Sym> {
    defs.map_values(|d: ShapeDef| d.full_name)
}

/// How many strings indexing the shape declarations `ds` may intern.
pub open spec fn shape_room(ds: Seq<SyntaxNode>) -> nat
    decreases ds.len(),
{
    if ds.len() == 0 {
        0
    } else {
        shape_room(ds.drop_last()) + 2 + shape_params(ds.last()).len() + shape_includes(ds.last()).len()
    }
}

/// What indexing the shape declarations of `root` does.
pub open spec fn shapes_collected(
    strs: Seq<Seq<char>>,
    a0: Seq<ShapeDef>,
    a1: Seq<ShapeDef>,
    m0: Map<Sym, ShapeId>,
    m1: Map<Sym, ShapeId>,
    d0: Seq<Diagnostic>,
    d1: Seq<Diagnostic>,
    root: SyntaxNode,
    pkg: Seq<char>,
    file: Seq<char>,
) -> bool {
    let ds = named(child_nodes(root, SyntaxKind::ShapeDecl));
    let new = a1.skip(a0.len() as int);
    &&& grows(a0, a1)
    &&& shape_defs_of(strs, new, ds, pkg, file)
    &&& m1 == inserted(m0, shape_keys(new), a0.len() as int)
    &&& grows(d0, d1)
    &&& reported(d1.skip(d0.len() as int), repeats(m0, shape_keys(new)), ds, file, "duplicate shape: "@, full_names(ds, pkg))
}

/// `pkg::name`: the full name of an annotation of library `pkg`.
pub open spec fn annotation_path(pkg: Seq<char>, name: Seq<char>) -> Seq<char> {
    pkg + seq![':', ':'] + name
}

/// The full names of the annotation declarations `ds` of library `pkg`.
pub open spec fn annotation_paths(ds: Seq<SyntaxNode>, pkg: Seq<char>) -> Seq<Seq<char>> {
    ds.map_values(|d: SyntaxNode| annotation_path(pkg, name_text(d)))
}

/// The targets that annotation declaration `d` names, such as `type`.
pub open spec fn annotation_targets(d: SyntaxNode) -> Seq<Seq<char>> {
    match first_child(d, SyntaxKind::AnnotationTargets) {
        Some(t) => selected_texts(t, TokenSelect::Target),
        None => Seq::empty(),
    }
}

/// `def` is the annotation definition that declaration `d` of library
/// `pkg` gives.
pub open spec fn annotation_def_of(
    strs: Seq<Seq<char>>,
    def: AnnotationDef,
    d: SyntaxNode,
    pkg: Seq<char>,
    file: Seq<char>,
) -> bool {
    &&& names(strs, def.library, pkg)
    &&& names(strs, def.name, name_text(d))
    &&& names(strs, def.full_name, annotation_path(pkg, name_text(d)))
    &&& syms_of(strs, def.targets@, annotation_targets(d))
    &&& def.params@.len() == 0
    &&& def.compositions@.len() == 0
    &&& loc_of(strs, def.loc, file, d)
}

pub open spec fn annotation_defs_of(
    strs: Seq<Seq<char>>,
    defs: Seq<AnnotationDef>,
    ds: Seq<SyntaxNode>,
    pkg: Seq<char>,
    file: Seq<char>,
) -> bool {
    &&& defs.len() == ds.len()
    &&& forall|i: int| 0 <= i < defs.len() ==> annotation_def_of(strs, #[trigger] defs[i], ds[i], pkg, file)
}

/// The `(library, name)` keys of annotation definitions.
pub open spec fn annotation_keys(defs: Seq<AnnotationDef>) -> Seq<(Sym, Sym)> {
    defs.map_values(|d: AnnotationDef| (d.library, d.name))
}

/// How many strings indexing the annotation declarations `ds` may intern.
pub open spec fn annotation_room(ds: Seq<SyntaxNode>) -> nat
    decreases ds.len(),
{
    if ds.len() == 0 {
        0
    } else {
        annotation_room(ds.drop_last()) + 3 + annotation_targets(ds.last()).len()
    }
}

/// What indexing the annotation declarations of `root` does.
pub open spec fn annotations_collected(
    strs: Seq<Seq<char>>,
    a0: Seq<AnnotationDef>,
    a1: Seq<AnnotationDef>,
    m0: Map<(Sym, Sym), AnnotationDefId>,
    m1: Map<(Sym, Sym), AnnotationDefId>,
    d0: Seq<Diagnostic>,
    d1: Seq<Diagnostic>,
    root: SyntaxNode,
    pkg: Seq<char>,
    file: Seq<char>,
) -> bool {
    let ds = named(child_nodes(root, SyntaxKind::AnnotationDecl));
    let new = a1.skip(a0.len() as int);
    &&& grows(a0, a1)
    &&& annotation_defs_of(strs, new, ds, pkg, file)
    &&& m1 == inserted(m0, annotation_keys(new), a0.len() as int)
    &&& grows(d0, d1)
    &&& reported(
        d1.skip(d0.len() as int),
        repeats(m0, annotation_keys(new)),
        ds,
        file,
        "duplicate annotation: "@,
        annotation_paths(ds, pkg),
    )
}


// ── A whole file ───────────────────────────────────────────────────────

/// How many strings indexing file `root` may intern.
pub open spec fn collect_room(root: SyntaxNode) -> nat {
    1 + 2 * child_nodes(root, SyntaxKind::TypeDecl).len() + enum_room(child_nodes(root, SyntaxKind::EnumDecl))
        + shape_room(child_nodes(root, SyntaxKind::ShapeDecl)) + 2 * child_nodes(
        root,
        SyntaxKind::ServiceDecl,
    ).len() + annotation_room(child_nodes(root, SyntaxKind::AnnotationDecl))
}

/// What indexing `file` does, from the interned strings, arenas, symbol
/// table and diagnostics before (`s0`, `a0`, `t0`, `d0`) to those after:
/// the strings only grow and include the file name; types, enums, shapes,
/// services and annotation definitions are collected in this order, and
/// their duplicates are reported in the same order.
pub open spec fn collected(
    s0: Seq<Seq<char>>,
    s1: Seq<Seq<char>>,
    a0: Arenas,
    a1: Arenas,
    t0: SymbolTable,
    t1: SymbolTable,
    d0: Seq<Diagnostic>,
    d1: Seq<Diagnostic>,
    file: ParsedFile,
) -> bool {
    let root = file.root;
    let pkg = file.package@;
    let fname = file.file_name@;
    let n1 = d0.len() + repeats(t0.types@, type_keys(type_defs(a1.types).skip(type_defs(a0.types).len() as int))).len();
    let n2 = n1 + repeats(t0.enums@, enum_keys(enum_defs(a1.enums).skip(enum_defs(a0.enums).len() as int))).len();
    let n3 = n2 + repeats(t0.shapes@, shape_keys(shape_defs(a1.shapes).skip(shape_defs(a0.shapes).len() as int))).len();
    let n4 = n3 + repeats(
        t0.services@,
        service_keys(service_defs(a1.services).skip(service_defs(a0.services).len() as int)),
    ).len();
    let n5 = n4 + repeats(
        t0.annotations@,
        annotation_keys(annotation_defs(a1.annotation_defs).skip(annotation_defs(a0.annotation_defs).len() as int)),
    ).len();
    &&& grows(s0, s1)
    &&& s1.contains(fname)
    &&& types_collected(s1, type_defs(a0.types), type_defs(a1.types), t0.types@, t1.types@, d0, d1.take(n1 as int), root, pkg, fname)
    &&& enums_collected(s1, enum_defs(a0.enums), enum_defs(a1.enums), t0.enums@, t1.enums@, d1.take(n1 as int), d1.take(n2 as int), root, pkg, fname)
    &&& shapes_collected(s1, shape_defs(a0.shapes), shape_defs(a1.shapes), t0.shapes@, t1.shapes@, d1.take(n2 as int), d1.take(n3 as int), root, pkg, fname)
    &&& services_collected(s1, service_defs(a0.services), service_defs(a1.services), t0.services@, t1.services@, d1.take(n3 as int), d1.take(n4 as int), root, pkg, fname)
    &&& annotations_collected(s1, annotation_defs(a0.annotation_defs), annotation_defs(a1.annotation_defs), t0.annotations@, t1.annotations@, d1.take(n4 as int), d1, root, pkg, fname)
    &&& d1.len() == n5
    &&& t1.imports@ == t0.imports@
}

// ── Lemmas ─────────────────────────────────────────────────────────────

/// The typed children that an accessor returns are the child nodes.
pub proof fn lemma_children_nodes<T: AstNode>(n: SyntaxNode, r: Seq<T>, k: SyntaxKind)
    requires
        children_are(n, r, k),
    ensures
        r.len() == child_nodes(n, k).len(),
        forall|i: int| 0 <= i < r.len() ==> (#[trigger] r[i]).node() == child_nodes(n, k)[i],
{
    let slots = node_slots(n.tree(), n.elements(), k);
    assert forall|i: int| 0 <= i < r.len() implies (#[trigger] r[i]).node() == child_nodes(n, k)[i] by {
        n.lemma_child_node_at(r[i].node(), slots[i]);
    }
}

/// The name token of a declaration has the declaration's name bytes.
pub proof fn lemma_name_token(d: SyntaxNode, r: Option<SyntaxToken>)
    requires
        nth_token_is(d, r, TokenSelect::IdentLike, 0),
    ensures
        r is Some <==> name_bytes(d) is Some,
        r matches Some(t) ==> text_of(t.bytes()) == name_text(d),
{
}

pub proof fn lemma_named_step(ds: Seq<SyntaxNode>, i: int)
    requires
        0 <= i < ds.len(),
    ensures
        name_bytes(ds[i]) is Some ==> named(ds.take(i + 1)) == named(ds.take(i)).push(ds[i]),
        name_bytes(ds[i]) is None ==> named(ds.take(i + 1)) == named(ds.take(i)),
{
    assert(ds.take(i + 1).drop_last() =~= ds.take(i));
}

proof fn lemma_inserted_dom<K>(m: Map<K, u32>, ks: Seq<K>, base: int, k: K)
    ensures
        inserted(m, ks, base).contains_key(k) <==> (m.contains_key(k) || ks.contains(k)),
    decreases ks.len(),
{
    if ks.len() > 0 {
        lemma_inserted_dom(m, ks.drop_last(), base, k);
        if ks.drop_last().contains(k) {
            let j = choose|j: int| 0 <= j < ks.drop_last().len() && ks.drop_last()[j] == k;
            assert(ks[j] == k);
        }
        if ks.contains(k) && k != ks.last() {
            let j = choose|j: int| 0 <= j < ks.len() && ks[j] == k;
            assert(ks.drop_last()[j] == k);
        }
    }
}

proof fn lemma_repeats_bounded<K>(m: Map<K, u32>, ks: Seq<K>)
    ensures
        forall|j: int| 0 <= j < repeats(m, ks).len() ==> 0 <= #[trigger] repeats(m, ks)[j] < ks.len(),
    decreases ks.len(),
{
    if ks.len() > 0 {
        lemma_repeats_bounded(m, ks.drop_last());
        let p = repeats(m, ks.drop_last());
        assert forall|j: int| 0 <= j < repeats(m, ks).len() implies 0 <= #[trigger] repeats(m, ks)[j] < ks.len() by {
            if j < p.len() {
                assert(p[j] < ks.drop_last().len());
            }
        }
    }
}

/// The full names of the declarations, extended by one.
proof fn lemma_full_names_push(ds: Seq<SyntaxNode>, d: SyntaxNode, pkg: Seq<char>)
    ensures
        full_names(ds.push(d), pkg) == full_names(ds, pkg).push(qualified(pkg, name_text(d))),
{
    assert(full_names(ds.push(d), pkg) =~= full_names(ds, pkg).push(qualified(pkg, name_text(d))));
}

/// A new report keeps the earlier ones.
proof fn lemma_reported_push(
    ds: Seq<Diagnostic>,
    pos: Seq<int>,
    nodes: Seq<SyntaxNode>,
    file: Seq<char>,
    what: Seq<char>,
    fulls: Seq<Seq<char>>,
    d: Diagnostic,
    p: int,
    node: SyntaxNode,
    full: Seq<char>,
)
    requires
        reported(ds, pos, nodes, file, what, fulls),
        forall|j: int| 0 <= j < pos.len() ==> 0 <= #[trigger] pos[j] < nodes.len(),
        nodes.len() == fulls.len(),
        p == nodes.len(),
        simple(Severity::Error, file, node_range(node), what + full, d),
    ensures
        reported(ds.push(d), pos.push(p), nodes.push(node), file, what, fulls.push(full)),
{
    let ds2 = ds.push(d);
    let pos2 = pos.push(p);
    assert forall|j: int| 0 <= j < ds2.len() implies simple(
        Severity::Error,
        file,
        node_range(nodes.push(node)[pos2[j]]),
        what + fulls.push(full)[pos2[j]],
        #[trigger] ds2[j],
    ) by {
        if j < ds.len() {
            assert(pos2[j] == pos[j]);
            assert(ds2[j] == ds[j]);
        }
    }
}

/// Reports stay when the list of declarations grows.
proof fn lemma_reported_grow(
    ds: Seq<Diagnostic>,
    pos: Seq<int>,
    nodes: Seq<SyntaxNode>,
    file: Seq<char>,
    what: Seq<char>,
    fulls: Seq<Seq<char>>,
    node: SyntaxNode,
    full: Seq<char>,
)
    requires
        reported(ds, pos, nodes, file, what, fulls),
        forall|j: int| 0 <= j < pos.len() ==> 0 <= #[trigger] pos[j] < nodes.len(),
        nodes.len() == fulls.len(),
    ensures
        reported(ds, pos, nodes.push(node), file, what, fulls.push(full)),
{
    assert forall|j: int| 0 <= j < ds.len() implies simple(
        Severity::Error,
        file,
        node_range(nodes.push(node)[pos[j]]),
        what + fulls.push(full)[pos[j]],
        #[trigger] ds[j],
    ) by {
        assert(nodes.push(node)[pos[j]] == nodes[pos[j]]);
        assert(fulls.push(full)[pos[j]] == fulls[pos[j]]);
    }
}

/// Symbols keep their strings while the interner grows.
proof fn lemma_type_defs_grow(
    s1: Seq<Seq<char>>,
    s2: Seq<Seq<char>>,
    defs: Seq<TypeDef>,
    ds: Seq<SyntaxNode>,
    pkg: Seq<char>,
    file: Seq<char>,
)
    requires
        type_defs_of(s1, defs, ds, pkg, file),
        grows(s1, s2),
    ensures
        type_defs_of(s2, defs, ds, pkg, file),
{
    assert forall|i: int| 0 <= i < defs.len() implies type_def_of(s2, #[trigger] defs[i], ds[i], pkg, file) by {
        let d = defs[i];
        assert(s2[d.name as int] == s1[d.name as int]);
        assert(s2[d.full_name as int] == s1[d.full_name as int]);
        match d.loc.file {
            Some(f) => {
                assert(s2[f as int] == s1[f as int]);
            },
            None => {},
        }
    }
}


proof fn lemma_loc_grow(s1: Seq<Seq<char>>, s2: Seq<Seq<char>>, loc: Loc, file: Seq<char>, d: SyntaxNode)
    requires
        loc_of(s1, loc, file, d),
        grows(s1, s2),
    ensures
        loc_of(s2, loc, file, d),
{
    match loc.file {
        Some(f) => {
            assert(s2[f as int] == s1[f as int]);
        },
        None => {},
    }
}

proof fn lemma_values_grow(
    s1: Seq<Seq<char>>,
    s2: Seq<Seq<char>>,
    vs: Seq<EnumValueDef>,
    loc: Loc,
    vds: Seq<SyntaxNode>,
    file: Seq<char>,
)
    requires
        values_of(s1, vs, loc, vds, file),
        grows(s1, s2),
    ensures
        values_of(s2, vs, loc, vds, file),
{
    assert(s2[vs[0].name as int] == s1[vs[0].name as int]);
    assert forall|i: int| 1 <= i < vs.len() implies value_def_of(s2, #[trigger] vs[i], vds[i - 1], file) by {
        assert(s2[vs[i].name as int] == s1[vs[i].name as int]);
        lemma_loc_grow(s1, s2, vs[i].loc, file, vds[i - 1]);
    }
}

proof fn lemma_enum_defs_grow(
    s1: Seq<Seq<char>>,
    s2: Seq<Seq<char>>,
    defs: Seq<EnumDef>,
    ds: Seq<SyntaxNode>,
    pkg: Seq<char>,
    file: Seq<char>,
)
    requires
        enum_defs_of(s1, defs, ds, pkg, file),
        grows(s1, s2),
    ensures
        enum_defs_of(s2, defs, ds, pkg, file),
{
    assert forall|i: int| 0 <= i < defs.len() implies enum_def_of(s2, #[trigger] defs[i], ds[i], pkg, file) by {
        let d = defs[i];
        assert(s2[d.name as int] == s1[d.name as int]);
        assert(s2[d.full_name as int] == s1[d.full_name as int]);
        lemma_loc_grow(s1, s2, d.loc, file, ds[i]);
        lemma_values_grow(s1, s2, d.values@, d.loc, named(child_nodes(ds[i], SyntaxKind::EnumValueDecl)), file);
    }
}

proof fn lemma_enum_room_step(ds: Seq<SyntaxNode>, i: int)
    requires
        0 <= i < ds.len(),
    ensures
        enum_room(ds.take(i + 1)) == enum_room(ds.take(i)) + 3 + child_nodes(ds[i], SyntaxKind::EnumValueDecl).len(),
{
    assert(ds.take(i + 1).drop_last() =~= ds.take(i));
}


proof fn lemma_service_defs_grow(
    s1: Seq<Seq<char>>,
    s2: Seq<Seq<char>>,
    defs: Seq<ServiceDef>,
    ds: Seq<SyntaxNode>,
    pkg: Seq<char>,
    file: Seq<char>,
)
    requires
        service_defs_of(s1, defs, ds, pkg, file),
        grows(s1, s2),
    ensures
        service_defs_of(s2, defs, ds, pkg, file),
{
    assert forall|i: int| 0 <= i < defs.len() implies service_def_of(s2, #[trigger] defs[i], ds[i], pkg, file) by {
        let d = defs[i];
        assert(s2[d.name as int] == s1[d.name as int]);
        assert(s2[d.full_name as int] == s1[d.full_name as int]);
        lemma_loc_grow(s1, s2, d.loc, file, ds[i]);
    }
}


proof fn lemma_syms_grow(s1: Seq<Seq<char>>, s2: Seq<Seq<char>>, syms: Seq<Sym>, texts: Seq<Seq<char>>)
    requires
        syms_of(s1, syms, texts),
        grows(s1, s2),
    ensures
        syms_of(s2, syms, texts),
{
    assert forall|i: int| 0 <= i < syms.len() implies names(s2, #[trigger] syms[i], texts[i]) by {
        assert(s2[syms[i] as int] == s1[syms[i] as int]);
    }
}

proof fn lemma_shape_defs_grow(
    s1: Seq<Seq<char>>,
    s2: Seq<Seq<char>>,
    defs: Seq<ShapeDef>,
    ds: Seq<SyntaxNode>,
    pkg: Seq<char>,
    file: Seq<char>,
)
    requires
        shape_defs_of(s1, defs, ds, pkg, file),
        grows(s1, s2),
    ensures
        shape_defs_of(s2, defs, ds, pkg, file),
{
    assert forall|i: int| 0 <= i < defs.len() implies shape_def_of(s2, #[trigger] defs[i], ds[i], pkg, file) by {
        let d = defs[i];
        assert(s2[d.name as int] == s1[d.name as int]);
        assert(s2[d.full_name as int] == s1[d.full_name as int]);
        lemma_loc_grow(s1, s2, d.loc, file, ds[i]);
        lemma_syms_grow(s1, s2, d.includes@, shape_includes(ds[i]));
        lemma_syms_grow(s1, s2, d.type_params@, shape_params(ds[i]));
    }
}

proof fn lemma_annotation_defs_grow(
    s1: Seq<Seq<char>>,
    s2: Seq<Seq<char>>,
    defs: Seq<AnnotationDef>,
    ds: Seq<SyntaxNode>,
    pkg: Seq<char>,
    file: Seq<char>,
)
    requires
        annotation_defs_of(s1, defs, ds, pkg, file),
        grows(s1, s2),
    ensures
        annotation_defs_of(s2, defs, ds, pkg, file),
{
    assert forall|i: int| 0 <= i < defs.len() implies annotation_def_of(s2, #[trigger] defs[i], ds[i], pkg, file) by {
        let d = defs[i];
        assert(s2[d.library as int] == s1[d.library as int]);
        assert(s2[d.name as int] == s1[d.name as int]);
        assert(s2[d.full_name as int] == s1[d.full_name as int]);
        lemma_loc_grow(s1, s2, d.loc, file, ds[i]);
        lemma_syms_grow(s1, s2, d.targets@, annotation_targets(ds[i]));
    }
}

/// Selected tokens have the selected texts.
pub(crate) proof fn lemma_token_texts(n: SyntaxNode, r: Seq<SyntaxToken>, sel: TokenSelect)
    requires
        tokens_are(n, r, sel),
    ensures
        r.len() == selected_texts(n, sel).len(),
        forall|i: int| 0 <= i < r.len() ==> text_of((#[trigger] r[i]).bytes()) == selected_texts(n, sel)[i],
{
}

/// The first typed child is the first child node.
pub proof fn lemma_first_child<T: AstNode>(n: SyntaxNode, r: Option<T>, k: SyntaxKind)
    requires
        first_child_is(n, r, k),
    ensures
        r is Some <==> first_child(n, k) is Some,
        r matches Some(x) ==> first_child(n, k) == Some(x.node()),
{
    let slots = node_slots(n.tree(), n.elements(), k);
    if let Some(x) = r {
        n.lemma_child_node_at(x.node(), slots[0]);
    }
}

proof fn lemma_include_names_step(incs: Seq<SyntaxNode>, k: int)
    requires
        0 <= k < incs.len(),
    ensures
        include_names(incs.take(k + 1)) == include_names(incs.take(k)) + selected_texts(
            incs[k],
            TokenSelect::Kind(SyntaxKind::Ident),
        ),
{
    assert(incs.take(k + 1).drop_last() =~= incs.take(k));
}

proof fn lemma_include_names_prefix(incs: Seq<SyntaxNode>, k: int)
    requires
        0 <= k <= incs.len(),
    ensures
        include_names(incs.take(k)).len() <= include_names(incs).len(),
    decreases incs.len() - k,
{
    if k < incs.len() {
        lemma_include_names_prefix(incs, k + 1);
        lemma_include_names_step(incs, k);
    } else {
        assert(incs.take(k) =~= incs);
    }
}

proof fn lemma_shape_room_step(ds: Seq<SyntaxNode>, i: int)
    requires
        0 <= i < ds.len(),
    ensures
        shape_room(ds.take(i + 1)) == shape_room(ds.take(i)) + 2 + shape_params(ds[i]).len() + shape_includes(
            ds[i],
        ).len(),
{
    assert(ds.take(i + 1).drop_last() =~= ds.take(i));
}

proof fn lemma_shape_room_prefix(ds: Seq<SyntaxNode>, i: int)
    requires
        0 <= i <= ds.len(),
    ensures
        shape_room(ds.take(i)) <= shape_room(ds),
    decreases ds.len() - i,
{
    if i < ds.len() {
        lemma_shape_room_prefix(ds, i + 1);
        lemma_shape_room_step(ds, i);
    } else {
        assert(ds.take(i) =~= ds);
    }
}

proof fn lemma_annotation_room_step(ds: Seq<SyntaxNode>, i: int)
    requires
        0 <= i < ds.len(),
    ensures
        annotation_room(ds.take(i + 1)) == annotation_room(ds.take(i)) + 3 + annotation_targets(ds[i]).len(),
{
    assert(ds.take(i + 1).drop_last() =~= ds.take(i));
}

proof fn lemma_annotation_room_prefix(ds: Seq<SyntaxNode>, i: int)
    requires
        0 <= i <= ds.len(),
    ensures
        annotation_room(ds.take(i)) <= annotation_room(ds),
    decreases ds.len() - i,
{
    if i < ds.len() {
        lemma_annotation_room_prefix(ds, i + 1);
        lemma_annotation_room_step(ds, i);
    } else {
        assert(ds.take(i) =~= ds);
    }
}

proof fn lemma_annotation_paths_push(ds: Seq<SyntaxNode>, d: SyntaxNode, pkg: Seq<char>)
    ensures
        annotation_paths(ds.push(d), pkg) == annotation_paths(ds, pkg).push(annotation_path(pkg, name_text(d))),
{
    assert(annotation_paths(ds.push(d), pkg) =~= annotation_paths(ds, pkg).push(annotation_path(pkg, name_text(d))));
}

// ── Collection ─────────────────────────────────────────────────────────

/// The place of `node` in file `file`.
fn make_loc(file: Sym, node: &SyntaxNode) -> (r: Loc)
    ensures
        r.file == Some(file),
        r.span == node_range(*node),
{
    let range = node.text_range();
    Loc { file: Some(file), span: range }
}

/// `pkg.name`, built.
pub(crate) fn qualify(pkg: &str, name: &str) -> (r: String)
    ensures
        r@ == qualified(pkg@, name@),
{
    let mut s = String::from_str(pkg);
    s.append(".");
    s.append(name);
    proof {
        reveal_strlit(".");
    }
    s
}

/// `pkg::name`, built.
fn annotation_full(pkg: &str, name: &str) -> (r: String)
    ensures
        r@ == annotation_path(pkg@, name@),
{
    let mut s = String::from_str(pkg);
    s.append("::");
    s.append(name);
    proof {
        reveal_strlit("::");
    }
    s
}

/// A message followed by a name.
pub(crate) fn message(what: &str, name: &str) -> (r: String)
    ensures
        r@ == what@ + name@,
{
    let mut s = String::from_str(what);
    s.append(name);
    s
}

fn collect_types(
    file: &ParsedFile,
    root: &Root,
    file_sym: Sym,
    interner: &mut Interner,
    arena: &mut Arena<TypeDef>,
    table: &mut HashMap<Sym, TypeId>,
    diag: &mut Diagnostics,
)
    requires
        root.node() == file.root,
        distinct(interned(*old(interner))),
        keys_below(old(table)@, interned(*old(interner)).len()),
        names(interned(*old(interner)), file_sym, file.file_name@),
        interned(*old(interner)).len() + 2 * child_nodes(file.root, SyntaxKind::TypeDecl).len() < u32::MAX,
        type_defs(*old(arena)).len() + child_nodes(file.root, SyntaxKind::TypeDecl).len() < u32::MAX,
    ensures
        keys_below(final(table)@, interned(*final(interner)).len()),
        grows(interned(*old(interner)), interned(*final(interner))),
        distinct(interned(*final(interner))),
        interned(*final(interner)).len() <= interned(*old(interner)).len() + 2 * child_nodes(
            file.root,
            SyntaxKind::TypeDecl,
        ).len(),
        types_collected(
            interned(*final(interner)),
            type_defs(*old(arena)),
            type_defs(*final(arena)),
            old(table)@,
            final(table)@,
            old(diag)@,
            final(diag)@,
            file.root,
            file.package@,
            file.file_name@,
        ),
{
    let decls = root.type_decls();
    let ghost nodes = child_nodes(file.root, SyntaxKind::TypeDecl);
    let ghost pkg = file.package@;
    let ghost fname = file.file_name@;
    let ghost s0 = interned(*interner);
    let ghost a0 = type_defs(*arena);
    let ghost m0 = table@;
    let ghost d0 = diag@;
    proof {
        lemma_children_nodes(file.root, decls@, SyntaxKind::TypeDecl);
        assert(nodes.take(0) =~= Seq::<SyntaxNode>::empty());
        assert(a0.skip(a0.len() as int) =~= Seq::<TypeDef>::empty());
        assert(type_keys(a0.skip(a0.len() as int)) =~= Seq::<Sym>::empty());
        assert(d0.skip(d0.len() as int) =~= Seq::<Diagnostic>::empty());
    }
    let mut i: usize = 0;
    while i < decls.len()
        invariant
            keys_below(table@, interned(*interner).len()),
            i <= decls@.len() == nodes.len(),
            forall|j: int| 0 <= j < decls@.len() ==> (#[trigger] decls@[j]).node() == nodes[j],
            nodes == child_nodes(file.root, SyntaxKind::TypeDecl),
            pkg == file.package@,
            fname == file.file_name@,
            grows(s0, interned(*interner)),
            distinct(interned(*interner)),
            interned(*interner).len() <= s0.len() + 2 * i,
            s0.len() + 2 * nodes.len() < u32::MAX,
            names(interned(*interner), file_sym, fname),
            grows(a0, type_defs(*arena)),
            a0.len() + nodes.len() < u32::MAX,
            type_defs_of(
                interned(*interner),
                type_defs(*arena).skip(a0.len() as int),
                named(nodes.take(i as int)),
                pkg,
                fname,
            ),
            table@ == inserted(m0, type_keys(type_defs(*arena).skip(a0.len() as int)), a0.len() as int),
            grows(d0, diag@),
            reported(
                diag@.skip(d0.len() as int),
                repeats(m0, type_keys(type_defs(*arena).skip(a0.len() as int))),
                named(nodes.take(i as int)),
                fname,
                "duplicate type: "@,
                full_names(named(nodes.take(i as int)), pkg),
            ),
        decreases decls.len() - i,
    {
        let decl = &decls[i];
        let ghost node = nodes[i as int];
        proof {
            lemma_named_step(nodes, i as int);
        }
        let name_tok = decl.name();
        proof {
            lemma_name_token(node, name_tok);
        }
        match name_tok {
            None => {
                i += 1;
            },
            Some(tok) => {
                let ghost strs_before = interned(*interner);
                let ghost new_before = type_defs(*arena).skip(a0.len() as int);
                let ghost named_before = named(nodes.take(i as int));
                let ghost keys_before = type_keys(new_before);
                let ghost diags_before = diag@.skip(d0.len() as int);
                proof {
                    assert(named_before.len() <= i) by {
                        lemma_named_len(nodes.take(i as int));
                    }
                }
                let name_text_s = tok.text();
                let full = qualify(file.package.as_str(), name_text_s.as_str());
                let name_sym = interner.intern(name_text_s.as_str());
                let full_sym = interner.intern(full.as_str());
                let loc = make_loc(file_sym, decl.syntax());
                let type_def = TypeDef {
                    name: name_sym,
                    full_name: full_sym,
                    fields: Vec::new(),
                    oneofs: Vec::new(),
                    nested_types: Vec::new(),
                    nested_enums: Vec::new(),
                    annotations: Vec::new(),
                    back_references: Vec::new(),
                    trace: None,
                    loc,
                };
                let ghost def = type_def;
                let id = alloc_type(arena, type_def);
                let was = table.insert(full_sym, id).is_some();
                proof {
                    let strs = interned(*interner);
                    lemma_type_defs_grow(strs_before, strs, new_before, named_before, pkg, fname);
                    let new_after = type_defs(*arena).skip(a0.len() as int);
                    assert(new_after =~= new_before.push(def));
                    assert(type_keys(new_after) =~= keys_before.push(full_sym));
                    assert(type_keys(new_after).drop_last() =~= keys_before);
                    lemma_inserted_dom(m0, keys_before, a0.len() as int, full_sym);
                    lemma_repeats_bounded(m0, keys_before);
                    lemma_full_names_push(named_before, node, pkg);
                    assert(type_defs_of(strs, new_after, named_before.push(node), pkg, fname));
                }
                if was {
                    let ghost dold = diag@;
                    let range = decl.syntax().text_range();
                    let msg = message("duplicate type: ", full.as_str());
                    diag.error(file.file_name.as_str(), range, msg.as_str());
                    proof {
                        assert forall|k: int| 0 <= k < d0.len() implies #[trigger] diag@[k] == d0[k] by {
                            assert(diag@.take(dold.len() as int)[k] == diag@[k]);
                        }
                        assert(diag@.skip(d0.len() as int) =~= diags_before.push(diag@.last()));
                        lemma_reported_push(
                            diags_before,
                            repeats(m0, keys_before),
                            named_before,
                            fname,
                            "duplicate type: "@,
                            full_names(named_before, pkg),
                            diag@.last(),
                            named_before.len() as int,
                            node,
                            qualified(pkg, name_text(node)),
                        );
                    }
                } else {
                    proof {
                        lemma_reported_grow(
                            diags_before,
                            repeats(m0, keys_before),
                            named_before,
                            fname,
                            "duplicate type: "@,
                            full_names(named_before, pkg),
                            node,
                            qualified(pkg, name_text(node)),
                        );
                    }
                }
                i += 1;
            },
        }
    }
    proof {
        assert(nodes.take(nodes.len() as int) =~= nodes);
    }
}

fn collect_services(
    file: &ParsedFile,
    root: &Root,
    file_sym: Sym,
    interner: &mut Interner,
    arena: &mut Arena<ServiceDef>,
    table: &mut HashMap<Sym, ServiceId>,
    diag: &mut Diagnostics,
)
    requires
        root.node() == file.root,
        distinct(interned(*old(interner))),
        names(interned(*old(interner)), file_sym, file.file_name@),
        interned(*old(interner)).len() + 2 * child_nodes(file.root, SyntaxKind::ServiceDecl).len() < u32::MAX,
        service_defs(*old(arena)).len() + child_nodes(file.root, SyntaxKind::ServiceDecl).len() < u32::MAX,
    ensures
        grows(interned(*old(interner)), interned(*final(interner))),
        distinct(interned(*final(interner))),
        interned(*final(interner)).len() <= interned(*old(interner)).len() + 2 * child_nodes(
            file.root,
            SyntaxKind::ServiceDecl,
        ).len(),
        services_collected(
            interned(*final(interner)),
            service_defs(*old(arena)),
            service_defs(*final(arena)),
            old(table)@,
            final(table)@,
            old(diag)@,
            final(diag)@,
            file.root,
            file.package@,
            file.file_name@,
        ),
{
    let decls = root.service_decls();
    let ghost nodes = child_nodes(file.root, SyntaxKind::ServiceDecl);
    let ghost pkg = file.package@;
    let ghost fname = file.file_name@;
    let ghost s0 = interned(*interner);
    let ghost a0 = service_defs(*arena);
    let ghost m0 = table@;
    let ghost d0 = diag@;
    proof {
        lemma_children_nodes(file.root, decls@, SyntaxKind::ServiceDecl);
        assert(nodes.take(0) =~= Seq::<SyntaxNode>::empty());
        assert(a0.skip(a0.len() as int) =~= Seq::<ServiceDef>::empty());
        assert(service_keys(a0.skip(a0.len() as int)) =~= Seq::<Sym>::empty());
        assert(d0.skip(d0.len() as int) =~= Seq::<Diagnostic>::empty());
    }
    let mut i: usize = 0;
    while i < decls.len()
        invariant
            i <= decls@.len() == nodes.len(),
            forall|j: int| 0 <= j < decls@.len() ==> (#[trigger] decls@[j]).node() == nodes[j],
            nodes == child_nodes(file.root, SyntaxKind::ServiceDecl),
            pkg == file.package@,
            fname == file.file_name@,
            grows(s0, interned(*interner)),
            distinct(interned(*interner)),
            interned(*interner).len() <= s0.len() + 2 * i,
            s0.len() + 2 * nodes.len() < u32::MAX,
            names(interned(*interner), file_sym, fname),
            grows(a0, service_defs(*arena)),
            a0.len() + nodes.len() < u32::MAX,
            service_defs_of(
                interned(*interner),
                service_defs(*arena).skip(a0.len() as int),
                named(nodes.take(i as int)),
                pkg,
                fname,
            ),
            table@ == inserted(m0, service_keys(service_defs(*arena).skip(a0.len() as int)), a0.len() as int),
            grows(d0, diag@),
            reported(
                diag@.skip(d0.len() as int),
                repeats(m0, service_keys(service_defs(*arena).skip(a0.len() as int))),
                named(nodes.take(i as int)),
                fname,
                "duplicate service: "@,
                full_names(named(nodes.take(i as int)), pkg),
            ),
        decreases decls.len() - i,
    {
        let decl = &decls[i];
        let ghost node = nodes[i as int];
        proof {
            lemma_named_step(nodes, i as int);
        }
        let name_tok = decl.name();
        proof {
            lemma_name_token(node, name_tok);
        }
        match name_tok {
            None => {
                i += 1;
            },
            Some(tok) => {
                let ghost strs_before = interned(*interner);
                let ghost new_before = service_defs(*arena).skip(a0.len() as int);
                let ghost named_before = named(nodes.take(i as int));
                let ghost keys_before = service_keys(new_before);
                let ghost diags_before = diag@.skip(d0.len() as int);
                proof {
                    assert(named_before.len() <= i) by {
                        lemma_named_len(nodes.take(i as int));
                    }
                }
                let name_text_s = tok.text();
                let full = qualify(file.package.as_str(), name_text_s.as_str());
                let name_sym = interner.intern(name_text_s.as_str());
                let full_sym = interner.intern(full.as_str());
                let loc = make_loc(file_sym, decl.syntax());
                let type_def = ServiceDef {
                    name: name_sym,
                    full_name: full_sym,
                    rpcs: Vec::new(),
                    annotations: Vec::new(),
                    loc,
                };
                let ghost def = type_def;
                let id = alloc_service(arena, type_def);
                let was = table.insert(full_sym, id).is_some();
                proof {
                    let strs = interned(*interner);
                    lemma_service_defs_grow(strs_before, strs, new_before, named_before, pkg, fname);
                    let new_after = service_defs(*arena).skip(a0.len() as int);
                    assert(new_after =~= new_before.push(def));
                    assert(service_keys(new_after) =~= keys_before.push(full_sym));
                    assert(service_keys(new_after).drop_last() =~= keys_before);
                    lemma_inserted_dom(m0, keys_before, a0.len() as int, full_sym);
                    lemma_repeats_bounded(m0, keys_before);
                    lemma_full_names_push(named_before, node, pkg);
                    assert(service_defs_of(strs, new_after, named_before.push(node), pkg, fname));
                }
                if was {
                    let ghost dold = diag@;
                    let range = decl.syntax().text_range();
                    let msg = message("duplicate service: ", full.as_str());
                    diag.error(file.file_name.as_str(), range, msg.as_str());
                    proof {
                        assert forall|k: int| 0 <= k < d0.len() implies #[trigger] diag@[k] == d0[k] by {
                            assert(diag@.take(dold.len() as int)[k] == diag@[k]);
                        }
                        assert(diag@.skip(d0.len() as int) =~= diags_before.push(diag@.last()));
                        lemma_reported_push(
                            diags_before,
                            repeats(m0, keys_before),
                            named_before,
                            fname,
                            "duplicate service: "@,
                            full_names(named_before, pkg),
                            diag@.last(),
                            named_before.len() as int,
                            node,
                            qualified(pkg, name_text(node)),
                        );
                    }
                } else {
                    proof {
                        lemma_reported_grow(
                            diags_before,
                            repeats(m0, keys_before),
                            named_before,
                            fname,
                            "duplicate service: "@,
                            full_names(named_before, pkg),
                            node,
                            qualified(pkg, name_text(node)),
                        );
                    }
                }
                i += 1;
            },
        }
    }
    proof {
        assert(nodes.take(nodes.len() as int) =~= nodes);
    }
}

/// The values of an enum declaration: the implicit `Unspecified = 0`, then
/// one per named value declaration, in order.
fn enum_values(
    decl: &EnumDecl,
    file: &ParsedFile,
    file_sym: Sym,
    loc: &Loc,
    interner: &mut Interner,
) -> (r: Vec<EnumValueDef>)
    requires
        distinct(interned(*old(interner))),
        names(interned(*old(interner)), file_sym, file.file_name@),
        interned(*old(interner)).len() + 1 + child_nodes(decl.node(), SyntaxKind::EnumValueDecl).len() < u32::MAX,
    ensures
        grows(interned(*old(interner)), interned(*final(interner))),
        distinct(interned(*final(interner))),
        interned(*final(interner)).len() <= interned(*old(interner)).len() + 1 + child_nodes(
            decl.node(),
            SyntaxKind::EnumValueDecl,
        ).len(),
        values_of(
            interned(*final(interner)),
            r@,
            *loc,
            named(child_nodes(decl.node(), SyntaxKind::EnumValueDecl)),
            file.file_name@,
        ),
{
    let ghost vnodes = child_nodes(decl.node(), SyntaxKind::EnumValueDecl);
    let ghost fname = file.file_name@;
    let ghost s0 = interned(*interner);
    let unspecified = interner.intern("Unspecified");
    let mut values: Vec<EnumValueDef> = Vec::new();
    values.push(
        EnumValueDef {
            name: unspecified,
            number: 0,
            is_removed: false,
            fallback: None,
            annotations: Vec::new(),
            loc: loc.clone(),
        },
    );
    let vals = decl.values();
    proof {
        lemma_children_nodes(decl.node(), vals@, SyntaxKind::EnumValueDecl);
        assert(vnodes.take(0) =~= Seq::<SyntaxNode>::empty());
    }
    let mut k: usize = 0;
    while k < vals.len()
        invariant
            k <= vals@.len() == vnodes.len(),
            forall|j: int| 0 <= j < vals@.len() ==> (#[trigger] vals@[j]).node() == vnodes[j],
            vnodes == child_nodes(decl.node(), SyntaxKind::EnumValueDecl),
            fname == file.file_name@,
            grows(s0, interned(*interner)),
            distinct(interned(*interner)),
            interned(*interner).len() <= s0.len() + 1 + k,
            s0.len() + 1 + vnodes.len() < u32::MAX,
            names(interned(*interner), file_sym, fname),
            values_of(interned(*interner), values@, *loc, named(vnodes.take(k as int)), fname),
        decreases vals.len() - k,
    {
        let val = &vals[k];
        let ghost node = vnodes[k as int];
        proof {
            lemma_named_step(vnodes, k as int);
        }
        let name_tok = val.name();
        proof {
            lemma_name_token(node, name_tok);
        }
        match name_tok {
            None => {},
            Some(tok) => {
                let ghost strs_before = interned(*interner);
                let ghost values_before = values@;
                let ghost named_before = named(vnodes.take(k as int));
                let val_name = tok.text();
                let number: i32 = match val.value() {
                    Some(n) => n,
                    None => 0,
                } as i32;
                let name_sym = interner.intern(val_name.as_str());
                let vloc = make_loc(file_sym, val.syntax());
                values.push(
                    EnumValueDef {
                        name: name_sym,
                        number,
                        is_removed: false,
                        fallback: None,
                        annotations: Vec::new(),
                        loc: vloc,
                    },
                );
                proof {
                    let strs = interned(*interner);
                    lemma_values_grow(strs_before, strs, values_before, *loc, named_before, fname);
                    assert(values@ =~= values_before.push(values@.last()));
                    assert(named(vnodes.take(k + 1)) =~= named_before.push(node));
                    assert forall|i: int| 1 <= i < values@.len() implies value_def_of(
                        strs,
                        #[trigger] values@[i],
                        named_before.push(node)[i - 1],
                        fname,
                    ) by {
                        if i < values_before.len() {
                            assert(values@[i] == values_before[i]);
                        }
                    }
                }
            },
        }
        k += 1;
    }
    proof {
        assert(vnodes.take(vnodes.len() as int) =~= vnodes);
    }
    values
}

fn collect_enums(
    file: &ParsedFile,
    root: &Root,
    file_sym: Sym,
    interner: &mut Interner,
    arena: &mut Arena<EnumDef>,
    table: &mut HashMap<Sym, EnumId>,
    diag: &mut Diagnostics,
)
    requires
        root.node() == file.root,
        distinct(interned(*old(interner))),
        keys_below(old(table)@, interned(*old(interner)).len()),
        names(interned(*old(interner)), file_sym, file.file_name@),
        interned(*old(interner)).len() + enum_room(child_nodes(file.root, SyntaxKind::EnumDecl)) < u32::MAX,
        enum_defs(*old(arena)).len() + child_nodes(file.root, SyntaxKind::EnumDecl).len() < u32::MAX,
    ensures
        keys_below(final(table)@, interned(*final(interner)).len()),
        grows(interned(*old(interner)), interned(*final(interner))),
        distinct(interned(*final(interner))),
        interned(*final(interner)).len() <= interned(*old(interner)).len() + enum_room(
            child_nodes(file.root, SyntaxKind::EnumDecl),
        ),
        enums_collected(
            interned(*final(interner)),
            enum_defs(*old(arena)),
            enum_defs(*final(arena)),
            old(table)@,
            final(table)@,
            old(diag)@,
            final(diag)@,
            file.root,
            file.package@,
            file.file_name@,
        ),
{
    let decls = root.enum_decls();
    let ghost nodes = child_nodes(file.root, SyntaxKind::EnumDecl);
    let ghost pkg = file.package@;
    let ghost fname = file.file_name@;
    let ghost s0 = interned(*interner);
    let ghost a0 = enum_defs(*arena);
    let ghost m0 = table@;
    let ghost d0 = diag@;
    proof {
        lemma_children_nodes(file.root, decls@, SyntaxKind::EnumDecl);
        assert(nodes.take(0) =~= Seq::<SyntaxNode>::empty());
        assert(a0.skip(a0.len() as int) =~= Seq::<EnumDef>::empty());
        assert(enum_keys(a0.skip(a0.len() as int)) =~= Seq::<Sym>::empty());
        assert(d0.skip(d0.len() as int) =~= Seq::<Diagnostic>::empty());
        lemma_enum_room_prefix(nodes, 0);
    }
    let mut i: usize = 0;
    while i < decls.len()
        invariant
            keys_below(table@, interned(*interner).len()),
            i <= decls@.len() == nodes.len(),
            forall|j: int| 0 <= j < decls@.len() ==> (#[trigger] decls@[j]).node() == nodes[j],
            nodes == child_nodes(file.root, SyntaxKind::EnumDecl),
            pkg == file.package@,
            fname == file.file_name@,
            grows(s0, interned(*interner)),
            distinct(interned(*interner)),
            interned(*interner).len() <= s0.len() + enum_room(nodes.take(i as int)),
            enum_room(nodes.take(i as int)) <= enum_room(nodes),
            s0.len() + enum_room(nodes) < u32::MAX,
            names(interned(*interner), file_sym, fname),
            grows(a0, enum_defs(*arena)),
            a0.len() + nodes.len() < u32::MAX,
            enum_defs_of(
                interned(*interner),
                enum_defs(*arena).skip(a0.len() as int),
                named(nodes.take(i as int)),
                pkg,
                fname,
            ),
            table@ == inserted(m0, enum_keys(enum_defs(*arena).skip(a0.len() as int)), a0.len() as int),
            grows(d0, diag@),
            reported(
                diag@.skip(d0.len() as int),
                repeats(m0, enum_keys(enum_defs(*arena).skip(a0.len() as int))),
                named(nodes.take(i as int)),
                fname,
                "duplicate enum: "@,
                full_names(named(nodes.take(i as int)), pkg),
            ),
        decreases decls.len() - i,
    {
        let decl = &decls[i];
        let ghost node = nodes[i as int];
        proof {
            lemma_named_step(nodes, i as int);
            lemma_enum_room_step(nodes, i as int);
            lemma_enum_room_prefix(nodes, i + 1);
        }
        let name_tok = decl.name();
        proof {
            lemma_name_token(node, name_tok);
        }
        match name_tok {
            None => {},
            Some(tok) => {
                let ghost strs_before = interned(*interner);
                let ghost new_before = enum_defs(*arena).skip(a0.len() as int);
                let ghost named_before = named(nodes.take(i as int));
                let ghost keys_before = enum_keys(new_before);
                let ghost diags_before = diag@.skip(d0.len() as int);
                proof {
                    lemma_named_len(nodes.take(i as int));
                }
                let name_text_s = tok.text();
                let full = qualify(file.package.as_str(), name_text_s.as_str());
                let name_sym = interner.intern(name_text_s.as_str());
                let full_sym = interner.intern(full.as_str());
                let loc = make_loc(file_sym, decl.syntax());
                let values = enum_values(decl, file, file_sym, &loc, interner);
                let enum_def = EnumDef {
                    name: name_sym,
                    full_name: full_sym,
                    values,
                    annotations: Vec::new(),
                    loc,
                };
                let ghost def = enum_def;
                let id = alloc_enum(arena, enum_def);
                let was = table.insert(full_sym, id).is_some();
                proof {
                    let strs = interned(*interner);
                    lemma_enum_defs_grow(strs_before, strs, new_before, named_before, pkg, fname);
                    let new_after = enum_defs(*arena).skip(a0.len() as int);
                    assert(new_after =~= new_before.push(def));
                    assert(enum_keys(new_after) =~= keys_before.push(full_sym));
                    assert(enum_keys(new_after).drop_last() =~= keys_before);
                    lemma_inserted_dom(m0, keys_before, a0.len() as int, full_sym);
                    lemma_repeats_bounded(m0, keys_before);
                    lemma_full_names_push(named_before, node, pkg);
                    assert(enum_defs_of(strs, new_after, named_before.push(node), pkg, fname));
                }
                if was {
                    let ghost dold = diag@;
                    let range = decl.syntax().text_range();
                    let msg = message("duplicate enum: ", full.as_str());
                    diag.error(file.file_name.as_str(), range, msg.as_str());
                    proof {
                        assert forall|k: int| 0 <= k < d0.len() implies #[trigger] diag@[k] == d0[k] by {
                            assert(diag@.take(dold.len() as int)[k] == diag@[k]);
                        }
                        assert(diag@.skip(d0.len() as int) =~= diags_before.push(diag@.last()));
                        lemma_reported_push(
                            diags_before,
                            repeats(m0, keys_before),
                            named_before,
                            fname,
                            "duplicate enum: "@,
                            full_names(named_before, pkg),
                            diag@.last(),
                            named_before.len() as int,
                            node,
                            qualified(pkg, name_text(node)),
                        );
                    }
                } else {
                    proof {
                        lemma_reported_grow(
                            diags_before,
                            repeats(m0, keys_before),
                            named_before,
                            fname,
                            "duplicate enum: "@,
                            full_names(named_before, pkg),
                            node,
                            qualified(pkg, name_text(node)),
                        );
                    }
                }
            },
        }
        i += 1;
    }
    proof {
        assert(nodes.take(nodes.len() as int) =~= nodes);
    }
}

fn collect_shapes(
    file: &ParsedFile,
    root: &Root,
    file_sym: Sym,
    interner: &mut Interner,
    arena: &mut Arena<ShapeDef>,
    table: &mut HashMap<Sym, ShapeId>,
    diag: &mut Diagnostics,
)
    requires
        root.node() == file.root,
        distinct(interned(*old(interner))),
        names(interned(*old(interner)), file_sym, file.file_name@),
        interned(*old(interner)).len() + shape_room(child_nodes(file.root, SyntaxKind::ShapeDecl)) < u32::MAX,
        shape_defs(*old(arena)).len() + child_nodes(file.root, SyntaxKind::ShapeDecl).len() < u32::MAX,
    ensures
        grows(interned(*old(interner)), interned(*final(interner))),
        distinct(interned(*final(interner))),
        interned(*final(interner)).len() <= interned(*old(interner)).len() + shape_room(
            child_nodes(file.root, SyntaxKind::ShapeDecl),
        ),
        shapes_collected(
            interned(*final(interner)),
            shape_defs(*old(arena)),
            shape_defs(*final(arena)),
            old(table)@,
            final(table)@,
            old(diag)@,
            final(diag)@,
            file.root,
            file.package@,
            file.file_name@,
        ),
{
    let decls = root.shape_decls();
    let ghost nodes = child_nodes(file.root, SyntaxKind::ShapeDecl);
    let ghost pkg = file.package@;
    let ghost fname = file.file_name@;
    let ghost s0 = interned(*interner);
    let ghost a0 = shape_defs(*arena);
    let ghost m0 = table@;
    let ghost d0 = diag@;
    proof {
        lemma_children_nodes(file.root, decls@, SyntaxKind::ShapeDecl);
        assert(nodes.take(0) =~= Seq::<SyntaxNode>::empty());
        assert(a0.skip(a0.len() as int) =~= Seq::<ShapeDef>::empty());
        assert(shape_keys(a0.skip(a0.len() as int)) =~= Seq::<Sym>::empty());
        assert(d0.skip(d0.len() as int) =~= Seq::<Diagnostic>::empty());
        lemma_shape_room_prefix(nodes, 0);
    }
    let mut i: usize = 0;
    while i < decls.len()
        invariant
            i <= decls@.len() == nodes.len(),
            forall|j: int| 0 <= j < decls@.len() ==> (#[trigger] decls@[j]).node() == nodes[j],
            nodes == child_nodes(file.root, SyntaxKind::ShapeDecl),
            pkg == file.package@,
            fname == file.file_name@,
            grows(s0, interned(*interner)),
            distinct(interned(*interner)),
            interned(*interner).len() <= s0.len() + shape_room(nodes.take(i as int)),
            shape_room(nodes.take(i as int)) <= shape_room(nodes),
            s0.len() + shape_room(nodes) < u32::MAX,
            names(interned(*interner), file_sym, fname),
            grows(a0, shape_defs(*arena)),
            a0.len() + nodes.len() < u32::MAX,
            shape_defs_of(
                interned(*interner),
                shape_defs(*arena).skip(a0.len() as int),
                named(nodes.take(i as int)),
                pkg,
                fname,
            ),
            table@ == inserted(m0, shape_keys(shape_defs(*arena).skip(a0.len() as int)), a0.len() as int),
            grows(d0, diag@),
            reported(
                diag@.skip(d0.len() as int),
                repeats(m0, shape_keys(shape_defs(*arena).skip(a0.len() as int))),
                named(nodes.take(i as int)),
                fname,
                "duplicate shape: "@,
                full_names(named(nodes.take(i as int)), pkg),
            ),
        decreases decls.len() - i,
    {
        let decl = &decls[i];
        let ghost node = nodes[i as int];
        proof {
            lemma_named_step(nodes, i as int);
            lemma_shape_room_step(nodes, i as int);
            lemma_shape_room_prefix(nodes, i + 1);
        }
        let name_tok = decl.name();
        proof {
            lemma_name_token(node, name_tok);
        }
        match name_tok {
            None => {},
            Some(tok) => {
                let ghost strs_before = interned(*interner);
                let ghost new_before = shape_defs(*arena).skip(a0.len() as int);
                let ghost named_before = named(nodes.take(i as int));
                let ghost keys_before = shape_keys(new_before);
                let ghost diags_before = diag@.skip(d0.len() as int);
                proof {
                    lemma_named_len(nodes.take(i as int));
                }
                let name_text_s = tok.text();
                let full = qualify(file.package.as_str(), name_text_s.as_str());
                let name_sym = interner.intern(name_text_s.as_str());
                let full_sym = interner.intern(full.as_str());
                let type_params = shape_param_syms(decl, interner);
                let includes = shape_include_syms(decl, interner);
                let loc = make_loc(file_sym, decl.syntax());
                let enum_def = ShapeDef {
                    name: name_sym,
                    full_name: full_sym,
                    fields: Vec::new(),
                    includes,
                    type_params,
                    annotations: Vec::new(),
                    loc,
                };
                let ghost def = enum_def;
                let id = alloc_shape(arena, enum_def);
                let was = table.insert(full_sym, id).is_some();
                proof {
                    let strs = interned(*interner);
                    lemma_shape_defs_grow(strs_before, strs, new_before, named_before, pkg, fname);
                    let new_after = shape_defs(*arena).skip(a0.len() as int);
                    assert(new_after =~= new_before.push(def));
                    assert(shape_keys(new_after) =~= keys_before.push(full_sym));
                    assert(shape_keys(new_after).drop_last() =~= keys_before);
                    lemma_inserted_dom(m0, keys_before, a0.len() as int, full_sym);
                    lemma_repeats_bounded(m0, keys_before);
                    lemma_full_names_push(named_before, node, pkg);
                    assert(shape_defs_of(strs, new_after, named_before.push(node), pkg, fname));
                }
                if was {
                    let ghost dold = diag@;
                    let range = decl.syntax().text_range();
                    let msg = message("duplicate shape: ", full.as_str());
                    diag.error(file.file_name.as_str(), range, msg.as_str());
                    proof {
                        assert forall|k: int| 0 <= k < d0.len() implies #[trigger] diag@[k] == d0[k] by {
                            assert(diag@.take(dold.len() as int)[k] == diag@[k]);
                        }
                        assert(diag@.skip(d0.len() as int) =~= diags_before.push(diag@.last()));
                        lemma_reported_push(
                            diags_before,
                            repeats(m0, keys_before),
                            named_before,
                            fname,
                            "duplicate shape: "@,
                            full_names(named_before, pkg),
                            diag@.last(),
                            named_before.len() as int,
                            node,
                            qualified(pkg, name_text(node)),
                        );
                    }
                } else {
                    proof {
                        lemma_reported_grow(
                            diags_before,
                            repeats(m0, keys_before),
                            named_before,
                            fname,
                            "duplicate shape: "@,
                            full_names(named_before, pkg),
                            node,
                            qualified(pkg, name_text(node)),
                        );
                    }
                }
            },
        }
        i += 1;
    }
    proof {
        assert(nodes.take(nodes.len() as int) =~= nodes);
    }
}

fn collect_annotations(
    file: &ParsedFile,
    root: &Root,
    file_sym: Sym,
    interner: &mut Interner,
    arena: &mut Arena<AnnotationDef>,
    table: &mut HashMap<(Sym, Sym), AnnotationDefId>,
    diag: &mut Diagnostics,
)
    requires
        root.node() == file.root,
        distinct(interned(*old(interner))),
        names(interned(*old(interner)), file_sym, file.file_name@),
        interned(*old(interner)).len() + annotation_room(child_nodes(file.root, SyntaxKind::AnnotationDecl)) < u32::MAX,
        annotation_defs(*old(arena)).len() + child_nodes(file.root, SyntaxKind::AnnotationDecl).len() < u32::MAX,
    ensures
        grows(interned(*old(interner)), interned(*final(interner))),
        distinct(interned(*final(interner))),
        interned(*final(interner)).len() <= interned(*old(interner)).len() + annotation_room(
            child_nodes(file.root, SyntaxKind::AnnotationDecl),
        ),
        annotations_collected(
            interned(*final(interner)),
            annotation_defs(*old(arena)),
            annotation_defs(*final(arena)),
            old(table)@,
            final(table)@,
            old(diag)@,
            final(diag)@,
            file.root,
            file.package@,
            file.file_name@,
        ),
{
    let decls = root.annotation_decls();
    let ghost nodes = child_nodes(file.root, SyntaxKind::AnnotationDecl);
    let ghost pkg = file.package@;
    let ghost fname = file.file_name@;
    let ghost s0 = interned(*interner);
    let ghost a0 = annotation_defs(*arena);
    let ghost m0 = table@;
    let ghost d0 = diag@;
    proof {
        lemma_children_nodes(file.root, decls@, SyntaxKind::AnnotationDecl);
        assert(nodes.take(0) =~= Seq::<SyntaxNode>::empty());
        assert(a0.skip(a0.len() as int) =~= Seq::<AnnotationDef>::empty());
        assert(annotation_keys(a0.skip(a0.len() as int)) =~= Seq::<(Sym, Sym)>::empty());
        assert(d0.skip(d0.len() as int) =~= Seq::<Diagnostic>::empty());
        lemma_annotation_room_prefix(nodes, 0);
    }
    let mut i: usize = 0;
    while i < decls.len()
        invariant
            i <= decls@.len() == nodes.len(),
            forall|j: int| 0 <= j < decls@.len() ==> (#[trigger] decls@[j]).node() == nodes[j],
            nodes == child_nodes(file.root, SyntaxKind::AnnotationDecl),
            pkg == file.package@,
            fname == file.file_name@,
            grows(s0, interned(*interner)),
            distinct(interned(*interner)),
            interned(*interner).len() <= s0.len() + annotation_room(nodes.take(i as int)),
            annotation_room(nodes.take(i as int)) <= annotation_room(nodes),
            s0.len() + annotation_room(nodes) < u32::MAX,
            names(interned(*interner), file_sym, fname),
            grows(a0, annotation_defs(*arena)),
            a0.len() + nodes.len() < u32::MAX,
            annotation_defs_of(
                interned(*interner),
                annotation_defs(*arena).skip(a0.len() as int),
                named(nodes.take(i as int)),
                pkg,
                fname,
            ),
            table@ == inserted(m0, annotation_keys(annotation_defs(*arena).skip(a0.len() as int)), a0.len() as int),
            grows(d0, diag@),
            reported(
                diag@.skip(d0.len() as int),
                repeats(m0, annotation_keys(annotation_defs(*arena).skip(a0.len() as int))),
                named(nodes.take(i as int)),
                fname,
                "duplicate annotation: "@,
                annotation_paths(named(nodes.take(i as int)), pkg),
            ),
        decreases decls.len() - i,
    {
        let decl = &decls[i];
        let ghost node = nodes[i as int];
        proof {
            lemma_named_step(nodes, i as int);
            lemma_annotation_room_step(nodes, i as int);
            lemma_annotation_room_prefix(nodes, i + 1);
        }
        let name_tok = decl.name();
        proof {
            lemma_name_token(node, name_tok);
        }
        match name_tok {
            None => {},
            Some(tok) => {
                let ghost strs_before = interned(*interner);
                let ghost new_before = annotation_defs(*arena).skip(a0.len() as int);
                let ghost named_before = named(nodes.take(i as int));
                let ghost keys_before = annotation_keys(new_before);
                let ghost diags_before = diag@.skip(d0.len() as int);
                proof {
                    lemma_named_len(nodes.take(i as int));
                }
                let name_text_s = tok.text();
                let lib_sym = interner.intern(file.package.as_str());
                let name_sym = interner.intern(name_text_s.as_str());
                let full = annotation_full(file.package.as_str(), name_text_s.as_str());
                let full_sym = interner.intern(full.as_str());
                let targets = annotation_target_syms(decl, interner);
                let loc = make_loc(file_sym, decl.syntax());
                let enum_def = AnnotationDef {
                    library: lib_sym,
                    name: name_sym,
                    full_name: full_sym,
                    targets,
                    params: Vec::new(),
                    compositions: Vec::new(),
                    loc,
                };
                let ghost def = enum_def;
                let id = alloc_annotation_def(arena, enum_def);
                let was = insert_annotation(table, lib_sym, name_sym, id);
                proof {
                    let strs = interned(*interner);
                    lemma_annotation_defs_grow(strs_before, strs, new_before, named_before, pkg, fname);
                    let new_after = annotation_defs(*arena).skip(a0.len() as int);
                    assert(new_after =~= new_before.push(def));
                    assert(annotation_keys(new_after) =~= keys_before.push((lib_sym, name_sym)));
                    assert(annotation_keys(new_after).drop_last() =~= keys_before);
                    lemma_inserted_dom(m0, keys_before, a0.len() as int, (lib_sym, name_sym));
                    lemma_repeats_bounded(m0, keys_before);
                    lemma_annotation_paths_push(named_before, node, pkg);
                    assert(annotation_defs_of(strs, new_after, named_before.push(node), pkg, fname));
                }
                if was {
                    let ghost dold = diag@;
                    let range = decl.syntax().text_range();
                    let msg = message("duplicate annotation: ", full.as_str());
                    diag.error(file.file_name.as_str(), range, msg.as_str());
                    proof {
                        assert forall|k: int| 0 <= k < d0.len() implies #[trigger] diag@[k] == d0[k] by {
                            assert(diag@.take(dold.len() as int)[k] == diag@[k]);
                        }
                        assert(diag@.skip(d0.len() as int) =~= diags_before.push(diag@.last()));
                        lemma_reported_push(
                            diags_before,
                            repeats(m0, keys_before),
                            named_before,
                            fname,
                            "duplicate annotation: "@,
                            annotation_paths(named_before, pkg),
                            diag@.last(),
                            named_before.len() as int,
                            node,
                            annotation_path(pkg, name_text(node)),
                        );
                    }
                } else {
                    proof {
                        lemma_reported_grow(
                            diags_before,
                            repeats(m0, keys_before),
                            named_before,
                            fname,
                            "duplicate annotation: "@,
                            annotation_paths(named_before, pkg),
                            node,
                            annotation_path(pkg, name_text(node)),
                        );
                    }
                }
            },
        }
        i += 1;
    }
    proof {
        assert(nodes.take(nodes.len() as int) =~= nodes);
    }
}

proof fn lemma_enum_room_prefix(ds: Seq<SyntaxNode>, i: int)
    requires
        0 <= i <= ds.len(),
    ensures
        enum_room(ds.take(i)) <= enum_room(ds),
    decreases ds.len() - i,
{
    if i < ds.len() {
        lemma_enum_room_prefix(ds, i + 1);
        lemma_enum_room_step(ds, i);
    } else {
        assert(ds.take(i) =~= ds);
    }
}

/// Intern the texts of the tokens `toks`, appending their symbols to `out`.
fn intern_tokens(
    toks: &Vec<SyntaxToken>,
    Ghost(texts): Ghost<Seq<Seq<char>>>,
    interner: &mut Interner,
    out: &mut Vec<Sym>,
)
    requires
        toks@.len() == texts.len(),
        forall|i: int| 0 <= i < toks@.len() ==> text_of((#[trigger] toks@[i]).bytes()) == texts[i],
        distinct(interned(*old(interner))),
        interned(*old(interner)).len() + toks@.len() < u32::MAX,
    ensures
        grows(interned(*old(interner)), interned(*final(interner))),
        distinct(interned(*final(interner))),
        interned(*final(interner)).len() <= interned(*old(interner)).len() + toks@.len(),
        grows(old(out)@, final(out)@),
        syms_of(interned(*final(interner)), final(out)@.skip(old(out)@.len() as int), texts),
{
    let ghost s0 = interned(*interner);
    let ghost o0 = out@;
    proof {
        assert(o0.skip(o0.len() as int) =~= Seq::<Sym>::empty());
    }
    let mut k: usize = 0;
    while k < toks.len()
        invariant
            k <= toks@.len() == texts.len(),
            forall|i: int| 0 <= i < toks@.len() ==> text_of((#[trigger] toks@[i]).bytes()) == texts[i],
            grows(s0, interned(*interner)),
            distinct(interned(*interner)),
            interned(*interner).len() <= s0.len() + k,
            s0.len() + toks@.len() < u32::MAX,
            grows(o0, out@),
            syms_of(interned(*interner), out@.skip(o0.len() as int), texts.take(k as int)),
        decreases toks.len() - k,
    {
        let ghost before = interned(*interner);
        let ghost ob = out@;
        let t = toks[k].text();
        let sym = interner.intern(t.as_str());
        out.push(sym);
        proof {
            lemma_syms_grow(before, interned(*interner), ob.skip(o0.len() as int), texts.take(k as int));
            assert(out@.skip(o0.len() as int) =~= ob.skip(o0.len() as int).push(sym));
            assert(texts.take(k + 1) =~= texts.take(k as int).push(texts[k as int]));
        }
        k += 1;
    }
    proof {
        assert(texts.take(k as int) =~= texts);
    }
}

/// Intern the strings `strs`, appending their symbols to `out`.
fn intern_strings(
    strs: &Vec<String>,
    Ghost(texts): Ghost<Seq<Seq<char>>>,
    interner: &mut Interner,
    out: &mut Vec<Sym>,
)
    requires
        strs@.len() == texts.len(),
        forall|i: int| 0 <= i < strs@.len() ==> (#[trigger] strs@[i])@ == texts[i],
        distinct(interned(*old(interner))),
        interned(*old(interner)).len() + strs@.len() < u32::MAX,
    ensures
        grows(interned(*old(interner)), interned(*final(interner))),
        distinct(interned(*final(interner))),
        interned(*final(interner)).len() <= interned(*old(interner)).len() + strs@.len(),
        grows(old(out)@, final(out)@),
        syms_of(interned(*final(interner)), final(out)@.skip(old(out)@.len() as int), texts),
{
    let ghost s0 = interned(*interner);
    let ghost o0 = out@;
    proof {
        assert(o0.skip(o0.len() as int) =~= Seq::<Sym>::empty());
    }
    let mut k: usize = 0;
    while k < strs.len()
        invariant
            k <= strs@.len() == texts.len(),
            forall|i: int| 0 <= i < strs@.len() ==> (#[trigger] strs@[i])@ == texts[i],
            grows(s0, interned(*interner)),
            distinct(interned(*interner)),
            interned(*interner).len() <= s0.len() + k,
            s0.len() + strs@.len() < u32::MAX,
            grows(o0, out@),
            syms_of(interned(*interner), out@.skip(o0.len() as int), texts.take(k as int)),
        decreases strs.len() - k,
    {
        let ghost before = interned(*interner);
        let ghost ob = out@;
        let sym = interner.intern(strs[k].as_str());
        out.push(sym);
        proof {
            lemma_syms_grow(before, interned(*interner), ob.skip(o0.len() as int), texts.take(k as int));
            assert(out@.skip(o0.len() as int) =~= ob.skip(o0.len() as int).push(sym));
            assert(texts.take(k + 1) =~= texts.take(k as int).push(texts[k as int]));
        }
        k += 1;
    }
    proof {
        assert(texts.take(k as int) =~= texts);
    }
}

/// The symbols of the type parameters of a shape declaration.
fn shape_param_syms(decl: &ShapeDecl, interner: &mut Interner) -> (r: Vec<Sym>)
    requires
        distinct(interned(*old(interner))),
        interned(*old(interner)).len() + shape_params(decl.node()).len() < u32::MAX,
    ensures
        grows(interned(*old(interner)), interned(*final(interner))),
        distinct(interned(*final(interner))),
        interned(*final(interner)).len() <= interned(*old(interner)).len() + shape_params(decl.node()).len(),
        syms_of(interned(*final(interner)), r@, shape_params(decl.node())),
{
    let mut out: Vec<Sym> = Vec::new();
    let tps = decl.type_params();
    proof {
        lemma_first_child(decl.node(), tps, SyntaxKind::TypeParams);
    }
    match tps {
        Some(tp) => {
            let ps = tp.params();
            proof {
                lemma_token_texts(tp.node(), ps@, TokenSelect::Kind(SyntaxKind::Ident));
            }
            intern_tokens(&ps, Ghost(selected_texts(tp.node(), TokenSelect::Kind(SyntaxKind::Ident))), interner, &mut out);
            proof {
                assert(out@.skip(0) =~= out@);
            }
        },
        None => {},
    }
    out
}

/// The symbols of the names of the shapes that a shape declaration includes.
fn shape_include_syms(decl: &ShapeDecl, interner: &mut Interner) -> (r: Vec<Sym>)
    requires
        distinct(interned(*old(interner))),
        interned(*old(interner)).len() + shape_includes(decl.node()).len() < u32::MAX,
    ensures
        grows(interned(*old(interner)), interned(*final(interner))),
        distinct(interned(*final(interner))),
        interned(*final(interner)).len() <= interned(*old(interner)).len() + shape_includes(decl.node()).len(),
        syms_of(interned(*final(interner)), r@, shape_includes(decl.node())),
{
    let ghost inodes = child_nodes(decl.node(), SyntaxKind::ShapeInclude);
    let ghost s0 = interned(*interner);
    let mut out: Vec<Sym> = Vec::new();
    let incs = decl.includes();
    proof {
        lemma_children_nodes(decl.node(), incs@, SyntaxKind::ShapeInclude);
        assert(inodes.take(0) =~= Seq::<SyntaxNode>::empty());
        lemma_include_names_prefix(inodes, 0);
    }
    let mut k: usize = 0;
    while k < incs.len()
        invariant
            k <= incs@.len() == inodes.len(),
            forall|j: int| 0 <= j < incs@.len() ==> (#[trigger] incs@[j]).node() == inodes[j],
            inodes == child_nodes(decl.node(), SyntaxKind::ShapeInclude),
            grows(s0, interned(*interner)),
            distinct(interned(*interner)),
            interned(*interner).len() <= s0.len() + include_names(inodes.take(k as int)).len(),
            include_names(inodes.take(k as int)).len() <= include_names(inodes).len(),
            s0.len() + include_names(inodes).len() < u32::MAX,
            syms_of(interned(*interner), out@, include_names(inodes.take(k as int))),
        decreases incs.len() - k,
    {
        let ghost before = interned(*interner);
        let ghost ob = out@;
        let ghost sel = TokenSelect::Kind(SyntaxKind::Ident);
        proof {
            lemma_include_names_step(inodes, k as int);
            lemma_include_names_prefix(inodes, k + 1);
        }
        let ns = incs[k].names();
        proof {
            lemma_token_texts(inodes[k as int], ns@, sel);
        }
        intern_tokens(&ns, Ghost(selected_texts(inodes[k as int], sel)), interner, &mut out);
        proof {
            let s1 = interned(*interner);
            let texts0 = include_names(inodes.take(k as int));
            let texts1 = selected_texts(inodes[k as int], sel);
            lemma_syms_grow(before, s1, ob, texts0);
            assert forall|i: int| 0 <= i < out@.len() implies names(s1, #[trigger] out@[i], (texts0 + texts1)[i]) by {
                if i < ob.len() {
                    assert(out@[i] == ob[i]);
                } else {
                    assert(out@[i] == out@.skip(ob.len() as int)[i - ob.len()]);
                }
            }
        }
        k += 1;
    }
    proof {
        assert(inodes.take(k as int) =~= inodes);
    }
    out
}

/// The symbols of the targets of an annotation declaration.
fn annotation_target_syms(decl: &AnnotationDecl, interner: &mut Interner) -> (r: Vec<Sym>)
    requires
        distinct(interned(*old(interner))),
        interned(*old(interner)).len() + annotation_targets(decl.node()).len() < u32::MAX,
    ensures
        grows(interned(*old(interner)), interned(*final(interner))),
        distinct(interned(*final(interner))),
        interned(*final(interner)).len() <= interned(*old(interner)).len() + annotation_targets(decl.node()).len(),
        syms_of(interned(*final(interner)), r@, annotation_targets(decl.node())),
{
    let mut out: Vec<Sym> = Vec::new();
    let ts = decl.targets();
    proof {
        lemma_first_child(decl.node(), ts, SyntaxKind::AnnotationTargets);
    }
    match ts {
        Some(t) => {
            let names_v = t.targets();
            intern_strings(&names_v, Ghost(selected_texts(t.node(), TokenSelect::Target)), interner, &mut out);
            proof {
                assert(out@.skip(0) =~= out@);
            }
        },
        None => {},
    }
    out
}

/// `b` begins with `a`.
proof fn lemma_grows_take<A>(a: Seq<A>, b: Seq<A>)
    requires
        grows(a, b),
    ensures
        b.take(a.len() as int) == a,
{
    assert(b.take(a.len() as int) =~= a);
}

/// Growth along five steps: each state grows into every later one.
proof fn lemma_grows_steps<A>(a: Seq<A>, b: Seq<A>, c: Seq<A>, d: Seq<A>, e: Seq<A>, f: Seq<A>)
    requires
        grows(a, b),
        grows(b, c),
        grows(c, d),
        grows(d, e),
        grows(e, f),
    ensures
        grows(a, c) && grows(a, d) && grows(a, e) && grows(a, f),
        grows(b, d) && grows(b, e) && grows(b, f),
        grows(c, e) && grows(c, f),
        grows(d, f),
{
    lemma_grows_trans(a, b, c);
    lemma_grows_trans(a, c, d);
    lemma_grows_trans(a, d, e);
    lemma_grows_trans(a, e, f);
    lemma_grows_trans(b, c, d);
    lemma_grows_trans(b, d, e);
    lemma_grows_trans(b, e, f);
    lemma_grows_trans(c, d, e);
    lemma_grows_trans(c, e, f);
    lemma_grows_trans(d, e, f);
}

proof fn lemma_grows_trans<A>(a: Seq<A>, b: Seq<A>, c: Seq<A>)
    requires
        grows(a, b),
        grows(b, c),
    ensures
        grows(a, c),
{
    assert forall|k: int| 0 <= k < a.len() implies #[trigger] c[k] == a[k] by {
        assert(c[k] == b[k]);
    }
}

/// Collect all declarations of a parsed file into the arenas and the symbol
/// table. A file whose root is not a file root is left alone.
pub fn collect(
    file: &ParsedFile,
    interner: &mut Interner,
    arenas: &mut Arenas,
    symbols: &mut SymbolTable,
    diag: &mut Diagnostics,
)
    requires
        keys_below(old(symbols).types@, interned(*old(interner)).len()),
        keys_below(old(symbols).enums@, interned(*old(interner)).len()),
        distinct(interned(*old(interner))),
        interned(*old(interner)).len() + collect_room(file.root) < u32::MAX,
        type_defs(old(arenas).types).len() + child_nodes(file.root, SyntaxKind::TypeDecl).len() < u32::MAX,
        enum_defs(old(arenas).enums).len() + child_nodes(file.root, SyntaxKind::EnumDecl).len() < u32::MAX,
        shape_defs(old(arenas).shapes).len() + child_nodes(file.root, SyntaxKind::ShapeDecl).len() < u32::MAX,
        service_defs(old(arenas).services).len() + child_nodes(file.root, SyntaxKind::ServiceDecl).len()
            < u32::MAX,
        annotation_defs(old(arenas).annotation_defs).len() + child_nodes(
            file.root,
            SyntaxKind::AnnotationDecl,
        ).len() < u32::MAX,
    ensures
        keys_below(final(symbols).types@, interned(*final(interner)).len()),
        keys_below(final(symbols).enums@, interned(*final(interner)).len()),
        file.root.spec_kind() != SyntaxKind::Root ==> {
            &&& *final(interner) == *old(interner)
            &&& *final(arenas) == *old(arenas)
            &&& *final(symbols) == *old(symbols)
            &&& final(diag)@ == old(diag)@
        },
        file.root.spec_kind() == SyntaxKind::Root ==> collected(
            interned(*old(interner)),
            interned(*final(interner)),
            *old(arenas),
            *final(arenas),
            *old(symbols),
            *final(symbols),
            old(diag)@,
            final(diag)@,
            *file,
        ),
        distinct(interned(*final(interner))),
{
    let root = match Root::cast(file.root.clone()) {
        Some(r) => r,
        None => {
            return;
        },
    };
    let ghost pkg = file.package@;
    let ghost fname = file.file_name@;
    let ghost s0 = interned(*interner);
    let ghost t0 = *symbols;
    let ghost a0 = *arenas;
    let ghost d0 = diag@;
    let file_sym = interner.intern(file.file_name.as_str());
    collect_types(file, &root, file_sym, interner, &mut arenas.types, &mut symbols.types, diag);
    let ghost s1 = interned(*interner);
    let ghost d1 = diag@;
    collect_enums(file, &root, file_sym, interner, &mut arenas.enums, &mut symbols.enums, diag);
    let ghost s2 = interned(*interner);
    let ghost d2 = diag@;
    collect_shapes(file, &root, file_sym, interner, &mut arenas.shapes, &mut symbols.shapes, diag);
    let ghost s3 = interned(*interner);
    let ghost d3 = diag@;
    collect_services(file, &root, file_sym, interner, &mut arenas.services, &mut symbols.services, diag);
    let ghost s4 = interned(*interner);
    let ghost d4 = diag@;
    collect_annotations(
        file,
        &root,
        file_sym,
        interner,
        &mut arenas.annotation_defs,
        &mut symbols.annotations,
        diag,
    );
    proof {
        let s5 = interned(*interner);
        let d5 = diag@;
        lemma_grows_steps(s0, s1, s2, s3, s4, s5);
        lemma_grows_steps(d1, d1, d2, d3, d4, d5);
        lemma_grows_take(d1, d5);
        lemma_grows_take(d2, d5);
        lemma_grows_take(d3, d5);
        lemma_grows_take(d4, d5);
        assert(d5.take(d5.len() as int) =~= d5);
        let nodes_t = named(child_nodes(file.root, SyntaxKind::TypeDecl));
        lemma_type_defs_grow(
            s1,
            s5,
            type_defs(arenas.types).skip(type_defs(a0.types).len() as int),
            nodes_t,
            pkg,
            fname,
        );
        lemma_enum_defs_grow(
            s2,
            s5,
            enum_defs(arenas.enums).skip(enum_defs(a0.enums).len() as int),
            named(child_nodes(file.root, SyntaxKind::EnumDecl)),
            pkg,
            fname,
        );
        lemma_shape_defs_grow(
            s3,
            s5,
            shape_defs(arenas.shapes).skip(shape_defs(a0.shapes).len() as int),
            named(child_nodes(file.root, SyntaxKind::ShapeDecl)),
            pkg,
            fname,
        );
        lemma_service_defs_grow(
            s4,
            s5,
            service_defs(arenas.services).skip(service_defs(a0.services).len() as int),
            named(child_nodes(file.root, SyntaxKind::ServiceDecl)),
            pkg,
            fname,
        );
        assert(s5[file_sym as int] == fname);
    }
}

// ── Checked collection ─────────────────────────────────────────────────

/// `2 * n`, or `None` where it reaches `u32::MAX`.
fn double_count(n: usize) -> (r: Option<u64>)
    ensures
        r matches Some(v) ==> v == 2 * n && v < u32::MAX,
        r is None ==> 2 * n >= u32::MAX,
{
    if n >= 2147483648 {
        None
    } else {
        Some(2 * (n as u64))
    }
}

/// `enum_room` of the enum declarations of `root`, where it is below `u32::MAX`.
fn enum_room_of(root: &Root) -> (r: Option<u64>)
    ensures
        r matches Some(v) ==> v == enum_room(child_nodes(root.node(), SyntaxKind::EnumDecl)) && v < u32::MAX,
        r is None ==> enum_room(child_nodes(root.node(), SyntaxKind::EnumDecl)) >= u32::MAX,
{
    let decls = root.enum_decls();
    let ghost nodes = child_nodes(root.node(), SyntaxKind::EnumDecl);
    proof {
        lemma_children_nodes(root.node(), decls@, SyntaxKind::EnumDecl);
        assert(nodes.take(0) =~= Seq::<SyntaxNode>::empty());
    }
    let mut acc: u64 = 0;
    let mut i: usize = 0;
    while i < decls.len()
        invariant
            i <= decls@.len() == nodes.len(),
            forall|j: int| 0 <= j < decls@.len() ==> (#[trigger] decls@[j]).node() == nodes[j],
            nodes == child_nodes(root.node(), SyntaxKind::EnumDecl),
            acc == enum_room(nodes.take(i as int)),
            acc < u32::MAX,
        decreases decls.len() - i,
    {
        proof {
            lemma_enum_room_step(nodes, i as int);
        }
        let vals = decls[i].values();
        proof {
            lemma_children_nodes(nodes[i as int], vals@, SyntaxKind::EnumValueDecl);
        }
        if vals.len() >= 4294967295 {
            proof {
                lemma_enum_room_prefix(nodes, i + 1);
            }
            return None;
        }
        acc = acc + 3 + vals.len() as u64;
        if acc >= 4294967295 {
            proof {
                lemma_enum_room_prefix(nodes, i + 1);
            }
            return None;
        }
        i += 1;
    }
    proof {
        assert(nodes.take(nodes.len() as int) =~= nodes);
    }
    Some(acc)
}

/// The number of names that the include clauses of a shape declaration name.
fn include_count(decl: &ShapeDecl) -> (r: Option<u64>)
    ensures
        r matches Some(v) ==> v == shape_includes(decl.node()).len() && v < u32::MAX,
        r is None ==> shape_includes(decl.node()).len() >= u32::MAX,
{
    let incs = decl.includes();
    let ghost inodes = child_nodes(decl.node(), SyntaxKind::ShapeInclude);
    proof {
        lemma_children_nodes(decl.node(), incs@, SyntaxKind::ShapeInclude);
        assert(inodes.take(0) =~= Seq::<SyntaxNode>::empty());
    }
    let mut acc: u64 = 0;
    let mut k: usize = 0;
    while k < incs.len()
        invariant
            k <= incs@.len() == inodes.len(),
            forall|j: int| 0 <= j < incs@.len() ==> (#[trigger] incs@[j]).node() == inodes[j],
            inodes == child_nodes(decl.node(), SyntaxKind::ShapeInclude),
            acc == include_names(inodes.take(k as int)).len(),
            acc < u32::MAX,
        decreases incs.len() - k,
    {
        proof {
            lemma_include_names_step(inodes, k as int);
        }
        let ns = incs[k].names();
        proof {
            lemma_token_texts(inodes[k as int], ns@, TokenSelect::Kind(SyntaxKind::Ident));
        }
        if ns.len() >= 4294967295 {
            proof {
                lemma_include_names_prefix(inodes, k + 1);
            }
            return None;
        }
        acc = acc + ns.len() as u64;
        if acc >= 4294967295 {
            proof {
                lemma_include_names_prefix(inodes, k + 1);
            }
            return None;
        }
        k += 1;
    }
    proof {
        assert(inodes.take(inodes.len() as int) =~= inodes);
    }
    Some(acc)
}

/// The number of type parameters of a shape declaration.
fn param_count(decl: &ShapeDecl) -> (r: usize)
    ensures
        r == shape_params(decl.node()).len(),
{
    let tps = decl.type_params();
    proof {
        lemma_first_child(decl.node(), tps, SyntaxKind::TypeParams);
    }
    match tps {
        Some(tp) => {
            let ps = tp.params();
            proof {
                lemma_token_texts(tp.node(), ps@, TokenSelect::Kind(SyntaxKind::Ident));
            }
            ps.len()
        },
        None => 0,
    }
}

/// `shape_room` of the shape declarations of `root`, where it is below `u32::MAX`.
fn shape_room_of(root: &Root) -> (r: Option<u64>)
    ensures
        r matches Some(v) ==> v == shape_room(child_nodes(root.node(), SyntaxKind::ShapeDecl)) && v < u32::MAX,
        r is None ==> shape_room(child_nodes(root.node(), SyntaxKind::ShapeDecl)) >= u32::MAX,
{
    let decls = root.shape_decls();
    let ghost nodes = child_nodes(root.node(), SyntaxKind::ShapeDecl);
    proof {
        lemma_children_nodes(root.node(), decls@, SyntaxKind::ShapeDecl);
        assert(nodes.take(0) =~= Seq::<SyntaxNode>::empty());
    }
    let mut acc: u64 = 0;
    let mut i: usize = 0;
    while i < decls.len()
        invariant
            i <= decls@.len() == nodes.len(),
            forall|j: int| 0 <= j < decls@.len() ==> (#[trigger] decls@[j]).node() == nodes[j],
            nodes == child_nodes(root.node(), SyntaxKind::ShapeDecl),
            acc == shape_room(nodes.take(i as int)),
            acc < u32::MAX,
        decreases decls.len() - i,
    {
        proof {
            lemma_shape_room_step(nodes, i as int);
        }
        let p = param_count(&decls[i]);
        let inc = include_count(&decls[i]);
        match inc {
            None => {
                proof {
                    lemma_shape_room_prefix(nodes, i + 1);
                }
                return None;
            },
            Some(n) => {
                if p >= 4294967295 {
                    proof {
                        lemma_shape_room_prefix(nodes, i + 1);
                    }
                    return None;
                }
                acc = acc + 2 + p as u64 + n;
                if acc >= 4294967295 {
                    proof {
                        lemma_shape_room_prefix(nodes, i + 1);
                    }
                    return None;
                }
            },
        }
        i += 1;
    }
    proof {
        assert(nodes.take(nodes.len() as int) =~= nodes);
    }
    Some(acc)
}

/// The number of targets of an annotation declaration.
fn target_count(decl: &AnnotationDecl) -> (r: usize)
    ensures
        r == annotation_targets(decl.node()).len(),
{
    let ts = decl.targets();
    proof {
        lemma_first_child(decl.node(), ts, SyntaxKind::AnnotationTargets);
    }
    match ts {
        Some(t) => t.targets().len(),
        None => 0,
    }
}

/// `annotation_room` of the annotation declarations of `root`, where it is below `u32::MAX`.
fn annotation_room_of(root: &Root) -> (r: Option<u64>)
    ensures
        r matches Some(v) ==> v == annotation_room(child_nodes(root.node(), SyntaxKind::AnnotationDecl)) && v
            < u32::MAX,
        r is None ==> annotation_room(child_nodes(root.node(), SyntaxKind::AnnotationDecl)) >= u32::MAX,
{
    let decls = root.annotation_decls();
    let ghost nodes = child_nodes(root.node(), SyntaxKind::AnnotationDecl);
    proof {
        lemma_children_nodes(root.node(), decls@, SyntaxKind::AnnotationDecl);
        assert(nodes.take(0) =~= Seq::<SyntaxNode>::empty());
    }
    let mut acc: u64 = 0;
    let mut i: usize = 0;
    while i < decls.len()
        invariant
            i <= decls@.len() == nodes.len(),
            forall|j: int| 0 <= j < decls@.len() ==> (#[trigger] decls@[j]).node() == nodes[j],
            nodes == child_nodes(root.node(), SyntaxKind::AnnotationDecl),
            acc == annotation_room(nodes.take(i as int)),
            acc < u32::MAX,
        decreases decls.len() - i,
    {
        proof {
            lemma_annotation_room_step(nodes, i as int);
        }
        let t = target_count(&decls[i]);
        if t >= 4294967295 {
            proof {
                lemma_annotation_room_prefix(nodes, i + 1);
            }
            return None;
        }
        acc = acc + 3 + t as u64;
        if acc >= 4294967295 {
            proof {
                lemma_annotation_room_prefix(nodes, i + 1);
            }
            return None;
        }
        i += 1;
    }
    proof {
        assert(nodes.take(nodes.len() as int) =~= nodes);
    }
    Some(acc)
}

/// Collect the declarations of `file` as [`collect`] does, where the
/// interner and the arenas have room for them; otherwise change nothing.
/// The result says whether the declarations were collected.
pub fn collect_checked(
    file: &ParsedFile,
    interner: &mut Interner,
    arenas: &mut Arenas,
    symbols: &mut SymbolTable,
    diag: &mut Diagnostics,
) -> (r: bool)
    requires
        keys_below(old(symbols).types@, interned(*old(interner)).len()),
        keys_below(old(symbols).enums@, interned(*old(interner)).len()),
        distinct(interned(*old(interner))),
    ensures
        keys_below(final(symbols).types@, interned(*final(interner)).len()),
        keys_below(final(symbols).enums@, interned(*final(interner)).len()),
        r <== {
            &&& interned(*old(interner)).len() + collect_room(file.root) < u32::MAX
            &&& type_defs(old(arenas).types).len() + child_nodes(file.root, SyntaxKind::TypeDecl).len() < u32::MAX
            &&& enum_defs(old(arenas).enums).len() + child_nodes(file.root, SyntaxKind::EnumDecl).len() < u32::MAX
            &&& shape_defs(old(arenas).shapes).len() + child_nodes(file.root, SyntaxKind::ShapeDecl).len()
                < u32::MAX
            &&& service_defs(old(arenas).services).len() + child_nodes(file.root, SyntaxKind::ServiceDecl).len()
                < u32::MAX
            &&& annotation_defs(old(arenas).annotation_defs).len() + child_nodes(
                file.root,
                SyntaxKind::AnnotationDecl,
            ).len() < u32::MAX
        },
        !r ==> {
            &&& *final(interner) == *old(interner)
            &&& *final(arenas) == *old(arenas)
            &&& *final(symbols) == *old(symbols)
            &&& final(diag)@ == old(diag)@
        },
        r && file.root.spec_kind() != SyntaxKind::Root ==> {
            &&& *final(interner) == *old(interner)
            &&& *final(arenas) == *old(arenas)
            &&& *final(symbols) == *old(symbols)
            &&& final(diag)@ == old(diag)@
        },
        r && file.root.spec_kind() == SyntaxKind::Root ==> collected(
            interned(*old(interner)),
            interned(*final(interner)),
            *old(arenas),
            *final(arenas),
            *old(symbols),
            *final(symbols),
            old(diag)@,
            final(diag)@,
            *file,
        ),
        distinct(interned(*final(interner))),
{
    let root = match Root::cast(file.root.clone()) {
        Some(r) => r,
        None => {
            return true;
        },
    };
    let types = root.type_decls();
    let enums = root.enum_decls();
    let shapes = root.shape_decls();
    let services = root.service_decls();
    let annots = root.annotation_decls();
    proof {
        lemma_children_nodes(file.root, types@, SyntaxKind::TypeDecl);
        lemma_children_nodes(file.root, enums@, SyntaxKind::EnumDecl);
        lemma_children_nodes(file.root, shapes@, SyntaxKind::ShapeDecl);
        lemma_children_nodes(file.root, services@, SyntaxKind::ServiceDecl);
        lemma_children_nodes(file.root, annots@, SyntaxKind::AnnotationDecl);
    }
    let room = match (
        double_count(types.len()),
        enum_room_of(&root),
        shape_room_of(&root),
        double_count(services.len()),
        annotation_room_of(&root),
    ) {
        (Some(t), Some(e), Some(s), Some(v), Some(a)) => 1 + t + e + s + v + a,
        _ => {
            return false;
        },
    };
    let used = interner.len();
    let lens = arena_lens(arenas);
    let fits = |used: usize, n: usize| -> (b: bool)
        ensures
            b == (used + n < u32::MAX),
        { n < 4294967295 && used < 4294967295 - n };
    if room < 4294967295 && (used as u64) < 4294967295 - room && fits(lens.0, types.len()) && fits(
        lens.1,
        enums.len(),
    ) && fits(lens.2, services.len()) && fits(lens.3, shapes.len()) && fits(lens.4, annots.len()) {
        collect(file, interner, arenas, symbols, diag);
        true
    } else {
        false
    }
}

proof fn lemma_named_len(ds: Seq<SyntaxNode>)
    ensures
        named(ds).len() <= ds.len(),
    decreases ds.len(),
{
    if ds.len() > 0 {
        lemma_named_len(ds.drop_last());
    }
}

} // verus!
