//! Name resolution helpers.

use vstd::prelude::*;
use crate::diagnostics::{Diagnostic, Diagnostics, Severity, simple};
use crate::hir::{
    Arenas, BackRef, FieldDef, Interner, LiteralValue, RpcDef, RpcParamDef, ServiceDef, ServiceId, service_def_mut, SymbolTable, distinct, names, OneofDef, OneofFieldDef, ResolvedType, ScalarKind, Sym, TypeDef, TypeId,
    annotation_defs, arena_lens, enum_defs, interned, service_defs, shape_defs, type_def_at, type_def_mut,
    type_defs,
};
use crate::ast::{AnnotationValue, AstNode, Root, TypeRef, alias_slot, nth_child_is, slot_bytes};
use crate::literal::{chars_of, float_text, i64_of, is_float_text, parse_i64, trim_bounds, trim_chars, trimmed};
use crate::index::{
    ParsedFile, child_nodes, first_child, grows, keys_below, lemma_children_nodes, lemma_name_token, lemma_named_step,
    name_bytes, name_text, named, lemma_first_child, message, qualified, qualify,
    selected_texts,
};
use crate::pipeline::import_path;
use crate::syntax_kind::SyntaxKind;
use crate::tree::{SyntaxNode, TokenSelect, lemma_node_slots, node_ok, node_slots, text_of};
use crate::tree::same_text;
use std::collections::HashSet;
pub use crate::populate::populate_and_resolve;
pub use crate::rpcs::resolve_rpcs;
pub use crate::shapes::{expand_shapes, expand_shapes_checked};
pub use crate::projections::resolve_projections;
pub use crate::pick_omit::expand_pick_omit;
pub use crate::imports::validate_imports;

verus! {

broadcast use vstd::std_specs::hash::group_hash_axioms;

/// The scalar type that a type name denotes, if it denotes one.
pub open spec fn scalar_named(n: Seq<char>) -> Option<ScalarKind> {
    if n == "bool"@ {
        Some(ScalarKind::Bool)
    } else if n == "string"@ {
        Some(ScalarKind::String)
    } else if n == "bytes"@ {
        Some(ScalarKind::Bytes)
    } else if n == "i8"@ {
        Some(ScalarKind::Int8)
    } else if n == "int16"@ {
        Some(ScalarKind::Int16)
    } else if n == "int32"@ {
        Some(ScalarKind::Int32)
    } else if n == "int64"@ || n == "int"@ {
        Some(ScalarKind::Int64)
    } else if n == "uint8"@ || n == "byte"@ {
        Some(ScalarKind::Uint8)
    } else if n == "uint16"@ {
        Some(ScalarKind::Uint16)
    } else if n == "uint32"@ {
        Some(ScalarKind::Uint32)
    } else if n == "uint64"@ || n == "uint"@ {
        Some(ScalarKind::Uint64)
    } else if n == "float"@ {
        Some(ScalarKind::Float)
    } else if n == "double"@ {
        Some(ScalarKind::Double)
    } else {
        None
    }
}

/// The scalar type that a type name denotes, if it denotes one.
pub fn try_scalar(name: &str) -> (r: Option<ScalarKind>)
    ensures
        r == scalar_named(name@),
{
    if same_text(name, "bool") {
        Some(ScalarKind::Bool)
    } else if same_text(name, "string") {
        Some(ScalarKind::String)
    } else if same_text(name, "bytes") {
        Some(ScalarKind::Bytes)
    } else if same_text(name, "i8") {
        Some(ScalarKind::Int8)
    } else if same_text(name, "int16") {
        Some(ScalarKind::Int16)
    } else if same_text(name, "int32") {
        Some(ScalarKind::Int32)
    } else if same_text(name, "int64") || same_text(name, "int") {
        Some(ScalarKind::Int64)
    } else if same_text(name, "uint8") || same_text(name, "byte") {
        Some(ScalarKind::Uint8)
    } else if same_text(name, "uint16") {
        Some(ScalarKind::Uint16)
    } else if same_text(name, "uint32") {
        Some(ScalarKind::Uint32)
    } else if same_text(name, "uint64") || same_text(name, "uint") {
        Some(ScalarKind::Uint64)
    } else if same_text(name, "float") {
        Some(ScalarKind::Float)
    } else if same_text(name, "double") {
        Some(ScalarKind::Double)
    } else {
        None
    }
}

// ── Back-references ────────────────────────────────────────────────────

/// A reference from a type to a type through a field: the target, the
/// referencing type and the field's name.
pub type FieldRef = (TypeId, TypeId, Sym);

/// The message references of the fields `fs` of type `id`, in order.
pub open spec fn field_refs(fs: Seq<FieldDef>, id: TypeId) -> Seq<FieldRef>
    decreases fs.len(),
{
    if fs.len() == 0 {
        Seq::empty()
    } else {
        let rest = field_refs(fs.drop_last(), id);
        match fs.last().ty {
            ResolvedType::Message(t) => rest.push((t, id, fs.last().name)),
            _ => rest,
        }
    }
}

/// The message references of the oneof fields `fs` of type `id`, in order.
pub open spec fn oneof_field_refs(fs: Seq<OneofFieldDef>, id: TypeId) -> Seq<FieldRef>
    decreases fs.len(),
{
    if fs.len() == 0 {
        Seq::empty()
    } else {
        let rest = oneof_field_refs(fs.drop_last(), id);
        match fs.last().ty {
            ResolvedType::Message(t) => rest.push((t, id, fs.last().name)),
            _ => rest,
        }
    }
}

/// The message references of the oneofs `os` of type `id`, in order.
pub open spec fn oneofs_refs(os: Seq<OneofDef>, id: TypeId) -> Seq<FieldRef>
    decreases os.len(),
{
    if os.len() == 0 {
        Seq::empty()
    } else {
        oneofs_refs(os.drop_last(), id) + oneof_field_refs(os.last().fields@, id)
    }
}

/// The message references of all type definitions `defs`: per type in
/// order, its fields, then the fields of its oneofs.
pub open spec fn type_refs(defs: Seq<TypeDef>) -> Seq<FieldRef>
    decreases defs.len(),
{
    if defs.len() == 0 {
        Seq::empty()
    } else {
        let id = (defs.len() - 1) as TypeId;
        type_refs(defs.drop_last()) + field_refs(defs.last().fields@, id) + oneofs_refs(defs.last().oneofs@, id)
    }
}

/// The back-references that `refs` give type `t`, in order.
pub open spec fn back_refs_to(refs: Seq<FieldRef>, t: TypeId) -> Seq<BackRef>
    decreases refs.len(),
{
    if refs.len() == 0 {
        Seq::empty()
    } else {
        let rest = back_refs_to(refs.drop_last(), t);
        if refs.last().0 == t {
            rest.push(BackRef { referencing_type: refs.last().1, field_name: refs.last().2 })
        } else {
            rest
        }
    }
}

/// `b` is `a` with back-references `extra` appended.
pub open spec fn with_back_refs(a: TypeDef, b: TypeDef, extra: Seq<BackRef>) -> bool {
    &&& b.name == a.name
    &&& b.full_name == a.full_name
    &&& b.fields == a.fields
    &&& b.oneofs == a.oneofs
    &&& b.nested_types == a.nested_types
    &&& b.nested_enums == a.nested_enums
    &&& b.annotations == a.annotations
    &&& b.trace == a.trace
    &&& b.loc == a.loc
    &&& b.back_references@ == a.back_references@ + extra
}

proof fn lemma_field_refs_has(fs: Seq<FieldDef>, id: TypeId, k: int, t: TypeId)
    requires
        0 <= k < fs.len(),
        fs[k].ty == ResolvedType::Message(t),
    ensures
        field_refs(fs, id).contains((t, id, fs[k].name)),
    decreases fs.len(),
{
    let prev = field_refs(fs.drop_last(), id);
    let all = field_refs(fs, id);
    if k == fs.len() - 1 {
        assert(all[prev.len() as int] == (t, id, fs[k].name));
    } else {
        assert(fs.drop_last()[k] == fs[k]);
        lemma_field_refs_has(fs.drop_last(), id, k, t);
        let j = choose|j: int| 0 <= j < prev.len() && prev[j] == (t, id, fs[k].name);
        match fs.last().ty {
            ResolvedType::Message(u) => assert(all[j] == prev[j]),
            _ => assert(all[j] == prev[j]),
        }
    }
}

proof fn lemma_type_refs_has(defs: Seq<TypeDef>, id: TypeId, r: FieldRef)
    requires
        id < defs.len(),
        field_refs(defs[id as int].fields@, id).contains(r),
    ensures
        type_refs(defs).contains(r),
    decreases defs.len(),
{
    let last = (defs.len() - 1) as TypeId;
    let prev = type_refs(defs.drop_last());
    let all = type_refs(defs);
    if id as int == defs.len() - 1 {
        let fr = field_refs(defs.last().fields@, last);
        let j = choose|j: int| 0 <= j < fr.len() && fr[j] == r;
        assert(all[prev.len() + j] == fr[j]);
    } else {
        assert(defs.drop_last()[id as int] == defs[id as int]);
        lemma_type_refs_has(defs.drop_last(), id, r);
        let j = choose|j: int| 0 <= j < prev.len() && prev[j] == r;
        assert(all[j] == prev[j]);
    }
}

proof fn lemma_back_refs_has(refs: Seq<FieldRef>, r: FieldRef)
    requires
        refs.contains(r),
    ensures
        back_refs_to(refs, r.0).contains(BackRef { referencing_type: r.1, field_name: r.2 }),
    decreases refs.len(),
{
    let b = BackRef { referencing_type: r.1, field_name: r.2 };
    let prev = back_refs_to(refs.drop_last(), r.0);
    let all = back_refs_to(refs, r.0);
    let j = choose|j: int| 0 <= j < refs.len() && refs[j] == r;
    if j == refs.len() - 1 {
        assert(all[prev.len() as int] == b);
    } else {
        assert(refs.drop_last()[j] == r);
        lemma_back_refs_has(refs.drop_last(), r);
        let m = choose|m: int| 0 <= m < prev.len() && prev[m] == b;
        assert(all[m] == prev[m]);
    }
}

/// Every field whose type is a message gives that message a back-reference
/// naming the field's type and the field, whichever type the field points
/// to, the field's own type included.
pub proof fn lemma_field_gives_back_ref(defs: Seq<TypeDef>, id: TypeId, k: int, t: TypeId)
    requires
        id < defs.len(),
        0 <= k < defs[id as int].fields@.len(),
        defs[id as int].fields@[k].ty == ResolvedType::Message(t),
    ensures
        back_refs_to(type_refs(defs), t).contains(
            BackRef { referencing_type: id, field_name: defs[id as int].fields@[k].name },
        ),
{
    let f = defs[id as int].fields@[k];
    lemma_field_refs_has(defs[id as int].fields@, id, k, t);
    lemma_type_refs_has(defs, id, (t, id, f.name));
    lemma_back_refs_has(type_refs(defs), (t, id, f.name));
}

/// Collect the message references of the fields `fs` of type `id` into `out`.
fn push_field_refs(fs: &Vec<FieldDef>, id: TypeId, out: &mut Vec<FieldRef>)
    ensures
        final(out)@ == old(out)@ + field_refs(fs@, id),
{
    let ghost o0 = out@;
    let mut k: usize = 0;
    while k < fs.len()
        invariant
            k <= fs@.len(),
            out@ == o0 + field_refs(fs@.take(k as int), id),
        decreases fs.len() - k,
    {
        proof {
            assert(fs@.take(k + 1).drop_last() =~= fs@.take(k as int));
        }
        match &fs[k].ty {
            ResolvedType::Message(t) => {
                out.push((*t, id, fs[k].name));
                proof {
                    assert(out@ =~= o0 + field_refs(fs@.take(k + 1), id));
                }
            },
            _ => {},
        }
        k += 1;
    }
    proof {
        assert(fs@.take(fs@.len() as int) =~= fs@);
    }
}

/// Collect the message references of the oneof fields `fs` of type `id` into `out`.
fn push_oneof_field_refs(fs: &Vec<OneofFieldDef>, id: TypeId, out: &mut Vec<FieldRef>)
    ensures
        final(out)@ == old(out)@ + oneof_field_refs(fs@, id),
{
    let ghost o0 = out@;
    let mut k: usize = 0;
    while k < fs.len()
        invariant
            k <= fs@.len(),
            out@ == o0 + oneof_field_refs(fs@.take(k as int), id),
        decreases fs.len() - k,
    {
        proof {
            assert(fs@.take(k + 1).drop_last() =~= fs@.take(k as int));
        }
        match &fs[k].ty {
            ResolvedType::Message(t) => {
                out.push((*t, id, fs[k].name));
                proof {
                    assert(out@ =~= o0 + oneof_field_refs(fs@.take(k + 1), id));
                }
            },
            _ => {},
        }
        k += 1;
    }
    proof {
        assert(fs@.take(fs@.len() as int) =~= fs@);
    }
}

/// Record on each type the fields of other types that refer to it: for
/// each message reference through a field or oneof field (in the order of
/// types, then fields, then oneofs), the target type gets a back-reference
/// to the referencing type and field. References to positions past the
/// arena are skipped. Nothing else changes.
pub fn compute_back_references(arenas: &mut Arenas)
    requires
        type_defs(old(arenas).types).len() <= u32::MAX,
    ensures
        type_defs(final(arenas).types).len() == type_defs(old(arenas).types).len(),
        forall|t: int|
            0 <= t < type_defs(old(arenas).types).len() ==> with_back_refs(
                type_defs(old(arenas).types)[t],
                #[trigger] type_defs(final(arenas).types)[t],
                back_refs_to(type_refs(type_defs(old(arenas).types)), t as TypeId),
            ),
        final(arenas).enums == old(arenas).enums,
        final(arenas).services == old(arenas).services,
        final(arenas).shapes == old(arenas).shapes,
        final(arenas).annotation_defs == old(arenas).annotation_defs,
{
    let ghost defs0 = type_defs(arenas.types);
    let n = arena_lens(arenas).0;
    let mut refs: Vec<FieldRef> = Vec::new();
    let mut i: usize = 0;
    while i < n
        invariant
            i <= n == defs0.len(),
            n <= u32::MAX,
            defs0 == type_defs(arenas.types),
            refs@ == type_refs(defs0.take(i as int)),
        decreases n - i,
    {
        proof {
            assert(defs0.take(i + 1).drop_last() =~= defs0.take(i as int));
        }
        let id = i as TypeId;
        let ty = type_def_at(&arenas.types, id);
        push_field_refs(&ty.fields, id, &mut refs);
        let mut k: usize = 0;
        let ghost r0 = refs@;
        while k < ty.oneofs.len()
            invariant
                k <= ty.oneofs@.len(),
                refs@ == r0 + oneofs_refs(ty.oneofs@.take(k as int), id),
            decreases ty.oneofs.len() - k,
        {
            proof {
                assert(ty.oneofs@.take(k + 1).drop_last() =~= ty.oneofs@.take(k as int));
            }
            push_oneof_field_refs(&ty.oneofs[k].fields, id, &mut refs);
            proof {
                assert(refs@ =~= r0 + oneofs_refs(ty.oneofs@.take(k + 1), id));
            }
            k += 1;
        }
        proof {
            assert(ty.oneofs@.take(ty.oneofs@.len() as int) =~= ty.oneofs@);
            let pre = defs0.take(i + 1);
            assert(pre.last() == defs0[i as int]);
            assert(pre.drop_last() =~= defs0.take(i as int));
            assert(((pre.len() - 1) as TypeId) == id);
            assert(type_refs(pre) == type_refs(defs0.take(i as int)) + field_refs(defs0[i as int].fields@, id) + oneofs_refs(defs0[i as int].oneofs@, id));
            assert(refs@ =~= type_refs(defs0.take(i + 1)));
        }
        i += 1;
    }
    proof {
        assert(defs0.take(n as int) =~= defs0);
    }
    let ghost all = refs@;
    let mut k: usize = 0;
    while k < refs.len()
        invariant
            k <= refs@.len(),
            refs@ == all,
            all == type_refs(defs0),
            n == defs0.len(),
            n <= u32::MAX,
            type_defs(arenas.types).len() == n,
            forall|t: int|
                0 <= t < n ==> with_back_refs(
                    defs0[t],
                    #[trigger] type_defs(arenas.types)[t],
                    back_refs_to(all.take(k as int), t as TypeId),
                ),
            arenas.enums == old(arenas).enums,
            arenas.services == old(arenas).services,
            arenas.shapes == old(arenas).shapes,
            arenas.annotation_defs == old(arenas).annotation_defs,
        decreases refs.len() - k,
    {
        proof {
            assert(all.take(k + 1).drop_last() =~= all.take(k as int));
        }
        let (target, referencing, field_name) = refs[k];
        if (target as usize) < n {
            let ghost before = type_defs(arenas.types);
            let def = type_def_mut(&mut arenas.types, target);
            def.back_references.push(BackRef { referencing_type: referencing, field_name });
            proof {
                assert forall|t: int| 0 <= t < n implies with_back_refs(
                    defs0[t],
                    #[trigger] type_defs(arenas.types)[t],
                    back_refs_to(all.take(k + 1), t as TypeId),
                ) by {
                    if t == target as int {
                        let pre = all.take(k + 1);
                        assert(pre.last() == all[k as int]);
                        assert(pre.drop_last() =~= all.take(k as int));
                        assert(back_refs_to(pre, t as TypeId) == back_refs_to(all.take(k as int), t as TypeId).push(
                            BackRef { referencing_type: referencing, field_name },
                        ));
                        assert(type_defs(arenas.types)[t].back_references@ =~= defs0[t].back_references@
                            + back_refs_to(all.take(k + 1), t as TypeId));
                    } else {
                        let pre = all.take(k + 1);
                        assert(pre.drop_last() =~= all.take(k as int));
                        assert(type_defs(arenas.types)[t] == before[t]);
                    }
                }
            }
        } else {
            proof {
                assert forall|t: int| 0 <= t < n implies with_back_refs(
                    defs0[t],
                    #[trigger] type_defs(arenas.types)[t],
                    back_refs_to(all.take(k + 1), t as TypeId),
                ) by {
                    let pre = all.take(k + 1);
                    assert(pre.drop_last() =~= all.take(k as int));
                    assert(pre.last() == all[k as int]);
                    assert(t as TypeId != target);
                }
            }
        }
        k += 1;
    }
    proof {
        assert(all.take(all.len() as int) =~= all);
    }
}

// ── Container nesting ──────────────────────────────────────────────────

/// A container type: an array or a map.
pub open spec fn is_container_type(t: ResolvedType) -> bool {
    t is Array || t is MapOf
}

/// Whether the type is a container (an array or a map).
fn is_container(ty: &ResolvedType) -> (r: bool)
    ensures
        r == is_container_type(*ty),
{
    match ty {
        ResolvedType::Array(_) => true,
        ResolvedType::MapOf { .. } => true,
        _ => false,
    }
}

/// The error about a nested container in `place` (such as `map key of `)
/// of field `field` of type `parent`.
pub open spec fn nested_message(place: Seq<char>, field: Seq<char>, parent: Seq<char>) -> Seq<char> {
    "nested container types are not supported in "@ + place + "field `"@ + field + "` of type `"@ + parent
        + "` — define a wrapper type for the inner container"@
}

/// The errors about nested containers in a field of type `ty`: an array
/// of containers; a map with a container key, a container value, or both.
pub open spec fn nesting_messages(ty: ResolvedType, field: Seq<char>, parent: Seq<char>) -> Seq<Seq<char>> {
    match ty {
        ResolvedType::Array(inner) => if is_container_type(*inner) {
            seq![nested_message(Seq::empty(), field, parent)]
        } else {
            Seq::empty()
        },
        ResolvedType::MapOf { key, value } => (if is_container_type(*key) {
            seq![nested_message("map key of "@, field, parent)]
        } else {
            Seq::empty()
        }) + (if is_container_type(*value) {
            seq![nested_message("map value of "@, field, parent)]
        } else {
            Seq::empty()
        }),
        _ => Seq::empty(),
    }
}

/// `ds` are errors without a file, at `0..0`, with the messages `msgs`.
pub open spec fn errors_reported(ds: Seq<Diagnostic>, msgs: Seq<Seq<char>>) -> bool {
    &&& ds.len() == msgs.len()
    &&& forall|k: int| 0 <= k < ds.len() ==> simple(Severity::Error, Seq::empty(), 0..0, msgs[k], #[trigger] ds[k])
}

pub open spec fn field_nesting(strs: Seq<Seq<char>>, fs: Seq<FieldDef>, parent: Seq<char>) -> Seq<Seq<char>>
    decreases fs.len(),
{
    if fs.len() == 0 {
        Seq::empty()
    } else {
        field_nesting(strs, fs.drop_last(), parent) + nesting_messages(fs.last().ty, strs[fs.last().name as int], parent)
    }
}

pub open spec fn oneof_field_nesting(strs: Seq<Seq<char>>, fs: Seq<OneofFieldDef>, parent: Seq<char>) -> Seq<Seq<char>>
    decreases fs.len(),
{
    if fs.len() == 0 {
        Seq::empty()
    } else {
        oneof_field_nesting(strs, fs.drop_last(), parent) + nesting_messages(
            fs.last().ty,
            strs[fs.last().name as int],
            parent,
        )
    }
}

pub open spec fn oneofs_nesting(strs: Seq<Seq<char>>, os: Seq<OneofDef>, parent: Seq<char>) -> Seq<Seq<char>>
    decreases os.len(),
{
    if os.len() == 0 {
        Seq::empty()
    } else {
        oneofs_nesting(strs, os.drop_last(), parent) + oneof_field_nesting(strs, os.last().fields@, parent)
    }
}

/// The nested-container errors of type definitions `defs`: per type in
/// order, its fields, then the fields of its oneofs.
pub open spec fn types_nesting(strs: Seq<Seq<char>>, defs: Seq<TypeDef>) -> Seq<Seq<char>>
    decreases defs.len(),
{
    if defs.len() == 0 {
        Seq::empty()
    } else {
        let d = defs.last();
        let parent = strs[d.full_name as int];
        types_nesting(strs, defs.drop_last()) + field_nesting(strs, d.fields@, parent) + oneofs_nesting(
            strs,
            d.oneofs@,
            parent,
        )
    }
}

/// A field whose type is an array gets exactly one nested-container error
/// when the element type is an array or a map, and none otherwise.
pub proof fn lemma_array_nesting(inner: ResolvedType, field: Seq<char>, parent: Seq<char>)
    ensures
        (inner is Array || inner is MapOf) ==> nesting_messages(ResolvedType::Array(Box::new(inner)), field, parent)
            == seq![nested_message(Seq::empty(), field, parent)],
        !(inner is Array || inner is MapOf) ==> nesting_messages(ResolvedType::Array(Box::new(inner)), field, parent)
            == Seq::<Seq<char>>::empty(),
{
}

proof fn lemma_field_nesting_has(strs: Seq<Seq<char>>, fs: Seq<FieldDef>, parent: Seq<char>, k: int, m: Seq<char>)
    requires
        0 <= k < fs.len(),
        nesting_messages(fs[k].ty, strs[fs[k].name as int], parent).contains(m),
    ensures
        field_nesting(strs, fs, parent).contains(m),
    decreases fs.len(),
{
    let prev = field_nesting(strs, fs.drop_last(), parent);
    let all = field_nesting(strs, fs, parent);
    if k == fs.len() - 1 {
        let ms = nesting_messages(fs[k].ty, strs[fs[k].name as int], parent);
        let j = choose|j: int| 0 <= j < ms.len() && ms[j] == m;
        assert(all[prev.len() + j] == ms[j]);
    } else {
        assert(fs.drop_last()[k] == fs[k]);
        lemma_field_nesting_has(strs, fs.drop_last(), parent, k, m);
        let j = choose|j: int| 0 <= j < prev.len() && prev[j] == m;
        assert(all[j] == prev[j]);
    }
}

proof fn lemma_types_nesting_has(strs: Seq<Seq<char>>, defs: Seq<TypeDef>, t: int, m: Seq<char>)
    requires
        0 <= t < defs.len(),
        field_nesting(strs, defs[t].fields@, strs[defs[t].full_name as int]).contains(m),
    ensures
        types_nesting(strs, defs).contains(m),
    decreases defs.len(),
{
    let prev = types_nesting(strs, defs.drop_last());
    let all = types_nesting(strs, defs);
    if t == defs.len() - 1 {
        let d = defs.last();
        let fnest = field_nesting(strs, d.fields@, strs[d.full_name as int]);
        let j = choose|j: int| 0 <= j < fnest.len() && fnest[j] == m;
        assert(all[prev.len() + j] == fnest[j]);
    } else {
        assert(defs.drop_last()[t] == defs[t]);
        lemma_types_nesting_has(strs, defs.drop_last(), t, m);
        let j = choose|j: int| 0 <= j < prev.len() && prev[j] == m;
        assert(all[j] == prev[j]);
    }
}

/// A field of a type whose type is an array of arrays or of maps is
/// reported among the nested-container errors of the types, naming the
/// field and its type.
pub proof fn lemma_array_of_container_reported(strs: Seq<Seq<char>>, defs: Seq<TypeDef>, t: int, k: int)
    requires
        0 <= t < defs.len(),
        0 <= k < defs[t].fields@.len(),
        defs[t].fields@[k].ty matches ResolvedType::Array(inner) && (*inner is Array || *inner is MapOf),
    ensures
        types_nesting(strs, defs).contains(
            nested_message(
                Seq::empty(),
                strs[defs[t].fields@[k].name as int],
                strs[defs[t].full_name as int],
            ),
        ),
{
    let f = defs[t].fields@[k];
    let m = nested_message(Seq::empty(), strs[f.name as int], strs[defs[t].full_name as int]);
    let ms = nesting_messages(f.ty, strs[f.name as int], strs[defs[t].full_name as int]);
    assert(ms[0] == m);
    lemma_field_nesting_has(strs, defs[t].fields@, strs[defs[t].full_name as int], k, m);
    lemma_types_nesting_has(strs, defs, t, m);
}

/// The names of type definitions `defs` and of their fields and oneof
/// fields are symbols of `strs`.
pub open spec fn field_names_interned(strs: Seq<Seq<char>>, defs: Seq<TypeDef>) -> bool {
    forall|i: int|
        0 <= i < defs.len() ==> {
            &&& (#[trigger] defs[i]).full_name < strs.len()
            &&& forall|j: int| 0 <= j < defs[i].fields@.len() ==> (#[trigger] defs[i].fields@[j]).name < strs.len()
            &&& forall|o: int, j: int|
                0 <= o < defs[i].oneofs@.len() && 0 <= j < defs[i].oneofs@[o].fields@.len() ==> (
                #[trigger] defs[i].oneofs@[o].fields@[j]).name < strs.len()
        }
}

proof fn lemma_errors_append(
    d0: Seq<Diagnostic>,
    d1: Seq<Diagnostic>,
    d2: Seq<Diagnostic>,
    m1: Seq<Seq<char>>,
    m2: Seq<Seq<char>>,
)
    requires
        grows(d0, d1),
        grows(d1, d2),
        errors_reported(d1.skip(d0.len() as int), m1),
        errors_reported(d2.skip(d1.len() as int), m2),
    ensures
        grows(d0, d2),
        errors_reported(d2.skip(d0.len() as int), m1 + m2),
{
    assert forall|k: int| 0 <= k < d0.len() implies #[trigger] d2[k] == d0[k] by {
        assert(d2[k] == d1[k]);
    }
    let a = d1.skip(d0.len() as int);
    let b = d2.skip(d1.len() as int);
    assert(d2.skip(d0.len() as int) =~= a + b) by {
        assert forall|k: int| 0 <= k < a.len() implies #[trigger] d2[d0.len() + k] == a[k] by {
            assert(d2[d0.len() + k] == d1[d0.len() + k]);
        }
    }
}

/// Report one error without a file.
fn report(diag: &mut Diagnostics, msg: &str)
    ensures
        grows(old(diag)@, final(diag)@),
        errors_reported(final(diag)@.skip(old(diag)@.len() as int), seq![msg@]),
{
    let ghost d0 = diag@;
    diag.error("", 0..0, msg);
    proof {
        reveal_strlit("");
        assert forall|k: int| 0 <= k < d0.len() implies #[trigger] diag@[k] == d0[k] by {
            assert(diag@.take(d0.len() as int)[k] == diag@[k]);
        }
        assert(diag@.skip(d0.len() as int) =~= seq![diag@.last()]);
        assert(""@ =~= Seq::<char>::empty());
        assert(seq![msg@][0] == msg@);
    }
}

/// The message about a nested container, built.
fn nested_text(place: &str, field: &str, parent: &str) -> (r: String)
    ensures
        r@ == nested_message(place@, field@, parent@),
{
    let mut m = String::from_str("nested container types are not supported in ");
    m.append(place);
    m.append("field `");
    m.append(field);
    m.append("` of type `");
    m.append(parent);
    m.append("` — define a wrapper type for the inner container");
    m
}

/// Report nested containers in a field of type `ty`.
fn check_nesting_depth(ty: &ResolvedType, interner: &Interner, parent_name: Sym, field_name: Sym, diag: &mut Diagnostics)
    requires
        parent_name < interned(*interner).len(),
        field_name < interned(*interner).len(),
    ensures
        grows(old(diag)@, final(diag)@),
        errors_reported(
            final(diag)@.skip(old(diag)@.len() as int),
            nesting_messages(
                *ty,
                interned(*interner)[field_name as int],
                interned(*interner)[parent_name as int],
            ),
        ),
{
    let ghost d0 = diag@;
    proof {
        assert(d0.skip(d0.len() as int) =~= Seq::<Diagnostic>::empty());
    }
    match ty {
        ResolvedType::Array(inner) => {
            if is_container(inner) {
                let m = nested_text("", interner.resolve(field_name), interner.resolve(parent_name));
                report(diag, m.as_str());
                proof {
                    reveal_strlit("");
                }
            }
        },
        ResolvedType::MapOf { key, value } => {
            if is_container(key) {
                let m = nested_text("map key of ", interner.resolve(field_name), interner.resolve(parent_name));
                report(diag, m.as_str());
            }
            let ghost d1 = diag@;
            let ghost m1 = if is_container_type(**key) {
                seq![nested_message("map key of "@, interned(*interner)[field_name as int], interned(*interner)[parent_name as int])]
            } else {
                Seq::<Seq<char>>::empty()
            };
            proof {
                if !is_container_type(**key) {
                    assert(d1.skip(d0.len() as int) =~= Seq::<Diagnostic>::empty());
                    assert forall|k: int| 0 <= k < d0.len() implies #[trigger] d1[k] == d0[k] by {}
                }
            }
            if is_container(value) {
                let m = nested_text("map value of ", interner.resolve(field_name), interner.resolve(parent_name));
                report(diag, m.as_str());
                proof {
                    lemma_errors_append(
                        d0,
                        d1,
                        diag@,
                        m1,
                        seq![nested_message("map value of "@, interned(*interner)[field_name as int], interned(*interner)[parent_name as int])],
                    );
                }
            } else {
                proof {
                    assert(m1 + Seq::<Seq<char>>::empty() =~= m1);
                }
            }
        },
        _ => {},
    }
}

proof fn lemma_errors_none(d: Seq<Diagnostic>)
    ensures
        grows(d, d),
        errors_reported(d.skip(d.len() as int), Seq::empty()),
{
    assert(d.skip(d.len() as int) =~= Seq::<Diagnostic>::empty());
}

/// Report nested containers in the fields `fs` of type `parent`.
fn check_fields(fs: &Vec<FieldDef>, parent: Sym, interner: &Interner, diag: &mut Diagnostics)
    requires
        parent < interned(*interner).len(),
        forall|j: int| 0 <= j < fs@.len() ==> (#[trigger] fs@[j]).name < interned(*interner).len(),
    ensures
        grows(old(diag)@, final(diag)@),
        errors_reported(
            final(diag)@.skip(old(diag)@.len() as int),
            field_nesting(interned(*interner), fs@, interned(*interner)[parent as int]),
        ),
{
    let ghost d0 = diag@;
    let ghost strs = interned(*interner);
    proof {
        lemma_errors_none(d0);
        assert(fs@.take(0) =~= Seq::<FieldDef>::empty());
    }
    let mut k: usize = 0;
    while k < fs.len()
        invariant
            k <= fs@.len(),
            strs == interned(*interner),
            parent < strs.len(),
            forall|j: int| 0 <= j < fs@.len() ==> (#[trigger] fs@[j]).name < strs.len(),
            grows(d0, diag@),
            errors_reported(diag@.skip(d0.len() as int), field_nesting(strs, fs@.take(k as int), strs[parent as int])),
        decreases fs.len() - k,
    {
        let ghost d1 = diag@;
        check_nesting_depth(&fs[k].ty, interner, parent, fs[k].name, diag);
        proof {
            lemma_errors_append(
                d0,
                d1,
                diag@,
                field_nesting(strs, fs@.take(k as int), strs[parent as int]),
                nesting_messages(fs@[k as int].ty, strs[fs@[k as int].name as int], strs[parent as int]),
            );
            assert(fs@.take(k + 1).drop_last() =~= fs@.take(k as int));
        }
        k += 1;
    }
    proof {
        assert(fs@.take(fs@.len() as int) =~= fs@);
    }
}

/// Report nested containers in the oneof fields `fs` of type `parent`.
fn check_oneof_fields(fs: &Vec<OneofFieldDef>, parent: Sym, interner: &Interner, diag: &mut Diagnostics)
    requires
        parent < interned(*interner).len(),
        forall|j: int| 0 <= j < fs@.len() ==> (#[trigger] fs@[j]).name < interned(*interner).len(),
    ensures
        grows(old(diag)@, final(diag)@),
        errors_reported(
            final(diag)@.skip(old(diag)@.len() as int),
            oneof_field_nesting(interned(*interner), fs@, interned(*interner)[parent as int]),
        ),
{
    let ghost d0 = diag@;
    let ghost strs = interned(*interner);
    proof {
        lemma_errors_none(d0);
        assert(fs@.take(0) =~= Seq::<OneofFieldDef>::empty());
    }
    let mut k: usize = 0;
    while k < fs.len()
        invariant
            k <= fs@.len(),
            strs == interned(*interner),
            parent < strs.len(),
            forall|j: int| 0 <= j < fs@.len() ==> (#[trigger] fs@[j]).name < strs.len(),
            grows(d0, diag@),
            errors_reported(diag@.skip(d0.len() as int), oneof_field_nesting(strs, fs@.take(k as int), strs[parent as int])),
        decreases fs.len() - k,
    {
        let ghost d1 = diag@;
        check_nesting_depth(&fs[k].ty, interner, parent, fs[k].name, diag);
        proof {
            lemma_errors_append(
                d0,
                d1,
                diag@,
                oneof_field_nesting(strs, fs@.take(k as int), strs[parent as int]),
                nesting_messages(fs@[k as int].ty, strs[fs@[k as int].name as int], strs[parent as int]),
            );
            assert(fs@.take(k + 1).drop_last() =~= fs@.take(k as int));
        }
        k += 1;
    }
    proof {
        assert(fs@.take(fs@.len() as int) =~= fs@);
    }
}

/// Report nested containers in the oneofs `os` of type `parent`.
fn check_oneofs(os: &Vec<OneofDef>, parent: Sym, interner: &Interner, diag: &mut Diagnostics)
    requires
        parent < interned(*interner).len(),
        forall|o: int, j: int|
            0 <= o < os@.len() && 0 <= j < os@[o].fields@.len() ==> (#[trigger] os@[o].fields@[j]).name < interned(
                *interner,
            ).len(),
    ensures
        grows(old(diag)@, final(diag)@),
        errors_reported(
            final(diag)@.skip(old(diag)@.len() as int),
            oneofs_nesting(interned(*interner), os@, interned(*interner)[parent as int]),
        ),
{
    let ghost d0 = diag@;
    let ghost strs = interned(*interner);
    proof {
        lemma_errors_none(d0);
        assert(os@.take(0) =~= Seq::<OneofDef>::empty());
    }
    let mut k: usize = 0;
    while k < os.len()
        invariant
            k <= os@.len(),
            strs == interned(*interner),
            parent < strs.len(),
            forall|o: int, j: int|
                0 <= o < os@.len() && 0 <= j < os@[o].fields@.len() ==> (#[trigger] os@[o].fields@[j]).name
                    < strs.len(),
            grows(d0, diag@),
            errors_reported(diag@.skip(d0.len() as int), oneofs_nesting(strs, os@.take(k as int), strs[parent as int])),
        decreases os.len() - k,
    {
        let ghost d1 = diag@;
        proof {
            assert forall|j: int| 0 <= j < os@[k as int].fields@.len() implies (#[trigger] os@[k as int].fields@[j]).name
                < strs.len() by {}
        }
        check_oneof_fields(&os[k].fields, parent, interner, diag);
        proof {
            lemma_errors_append(
                d0,
                d1,
                diag@,
                oneofs_nesting(strs, os@.take(k as int), strs[parent as int]),
                oneof_field_nesting(strs, os@[k as int].fields@, strs[parent as int]),
            );
            assert(os@.take(k + 1).drop_last() =~= os@.take(k as int));
        }
        k += 1;
    }
    proof {
        assert(os@.take(os@.len() as int) =~= os@);
    }
}

/// Check that containers are not nested: no array of arrays or maps, and
/// no map whose key or value is a container. Each such field (and oneof
/// field) is reported as an error, in the order of types and fields.
pub fn validate_container_nesting(arenas: &Arenas, interner: &Interner, diag: &mut Diagnostics)
    requires
        field_names_interned(interned(*interner), type_defs(arenas.types)),
        type_defs(arenas.types).len() <= u32::MAX,
    ensures
        grows(old(diag)@, final(diag)@),
        errors_reported(
            final(diag)@.skip(old(diag)@.len() as int),
            types_nesting(interned(*interner), type_defs(arenas.types)),
        ),
{
    let ghost d0 = diag@;
    let ghost strs = interned(*interner);
    let ghost defs = type_defs(arenas.types);
    let n = arena_lens(arenas).0;
    proof {
        lemma_errors_none(d0);
        assert(defs.take(0) =~= Seq::<TypeDef>::empty());
    }
    let mut i: usize = 0;
    while i < n
        invariant
            i <= n == defs.len(),
            n <= u32::MAX,
            defs == type_defs(arenas.types),
            strs == interned(*interner),
            field_names_interned(strs, defs),
            grows(d0, diag@),
            errors_reported(diag@.skip(d0.len() as int), types_nesting(strs, defs.take(i as int))),
        decreases n - i,
    {
        let ty = type_def_at(&arenas.types, i as TypeId);
        let ghost d1 = diag@;
        proof {
            assert(defs[i as int] == *ty);
        }
        check_fields(&ty.fields, ty.full_name, interner, diag);
        let ghost d2 = diag@;
        check_oneofs(&ty.oneofs, ty.full_name, interner, diag);
        proof {
            let parent = strs[ty.full_name as int];
            lemma_errors_append(
                d0,
                d1,
                d2,
                types_nesting(strs, defs.take(i as int)),
                field_nesting(strs, ty.fields@, parent),
            );
            lemma_errors_append(
                d0,
                d2,
                diag@,
                types_nesting(strs, defs.take(i as int)) + field_nesting(strs, ty.fields@, parent),
                oneofs_nesting(strs, ty.oneofs@, parent),
            );
            let pre = defs.take(i + 1);
            assert(pre.drop_last() =~= defs.take(i as int));
            assert(pre.last() == *ty);
        }
        i += 1;
    }
    proof {
        assert(defs.take(n as int) =~= defs);
    }
}

// ── Cycles ─────────────────────────────────────────────────────────────

/// A warning about a mandatory self-reference: the source type, the field's
/// name, and the target type already on the path.
pub type CycleWarning = (TypeId, Sym, TypeId);

/// The target of a field that must be present: a message field that is
/// neither optional nor repeated.
pub open spec fn mandatory_target(f: FieldDef) -> Option<TypeId> {
    match f.ty {
        ResolvedType::Message(t) => if !f.is_optional && !f.is_repeated {
            Some(t)
        } else {
            None
        },
        _ => None,
    }
}

/// A set of positions of `defs`, finitely many.
pub open spec fn ids_of(defs: Seq<TypeDef>, s: Set<TypeId>) -> bool {
    &&& s.finite()
    &&& forall|x: TypeId| s.contains(x) ==> x < defs.len()
}

pub proof fn lemma_bounded_len(s: Set<TypeId>, n: nat)
    requires
        s.finite(),
        n <= u32::MAX,
        forall|x: TypeId| s.contains(x) ==> x < n,
    ensures
        s.len() <= n,
    decreases n,
{
    if n == 0 {
        assert(s =~= Set::empty());
    } else {
        let m = (n - 1) as TypeId;
        let s2 = s.remove(m);
        lemma_bounded_len(s2, (n - 1) as nat);
    }
}

/// Depth-first search from type `id`, with the types `visited` so far and
/// the types `stack` on the current path: the types visited after it, and
/// the warnings it gives, in order. Each mandatory field of a type is
/// followed in order: to a type on the path, it is a warning; to a type not
/// yet visited, the search goes on from there.
pub open spec fn dfs(defs: Seq<TypeDef>, id: TypeId, visited: Set<TypeId>, stack: Set<TypeId>) -> (Set<TypeId>, Seq<CycleWarning>)
    decreases defs.len() - stack.len(), 0int, 0int when ids_of(defs, stack) && id < defs.len() && !stack.contains(id) && defs.len() <= u32::MAX
{
    proof {
        lemma_bounded_len(stack.insert(id), defs.len());
    }
    dfs_fields(defs, id, defs[id as int].fields@.len() as int, visited.insert(id), stack.insert(id))
}

/// The search over the first `k` fields of type `id`.
pub open spec fn dfs_fields(
    defs: Seq<TypeDef>,
    id: TypeId,
    k: int,
    visited: Set<TypeId>,
    stack: Set<TypeId>,
) -> (Set<TypeId>, Seq<CycleWarning>)
    decreases defs.len() - stack.len(), 1int, k when ids_of(defs, stack) && id < defs.len() && 0 <= k
        <= defs[id as int].fields@.len() && defs.len() <= u32::MAX
{
    proof {
        lemma_bounded_len(stack, defs.len());
    }
    if k == 0 {
        (visited, Seq::empty())
    } else {
        let (v1, w1) = dfs_fields(defs, id, k - 1, visited, stack);
        let f = defs[id as int].fields@[k - 1];
        match mandatory_target(f) {
            Some(t) => if stack.contains(t) {
                (v1, w1.push((id, f.name, t)))
            } else if !v1.contains(t) {
                let (v2, w2) = dfs(defs, t, v1, stack);
                (v2, w1 + w2)
            } else {
                (v1, w1)
            },
            None => (v1, w1),
        }
    }
}

/// The search from each of the first `i` types not yet visited, in order.
pub open spec fn dfs_from(defs: Seq<TypeDef>, i: int) -> (Set<TypeId>, Seq<CycleWarning>)
    decreases i,
{
    if i <= 0 {
        (Set::empty(), Seq::empty())
    } else {
        let (v1, w1) = dfs_from(defs, i - 1);
        let id = (i - 1) as TypeId;
        if v1.contains(id) {
            (v1, w1)
        } else {
            let (v2, w2) = dfs(defs, id, v1, Set::empty());
            (v2, w1 + w2)
        }
    }
}

/// The text of a warning about a mandatory self-reference.
pub open spec fn cycle_message(strs: Seq<Seq<char>>, defs: Seq<TypeDef>, w: CycleWarning) -> Seq<char> {
    "recursive type reference: "@ + strs[defs[w.0 as int].full_name as int] + "."@ + strs[w.1 as int] + " → "@
        + strs[defs[w.2 as int].full_name as int] + " (consider making it optional or repeated)"@
}

/// The type graph is closed: every mandatory field targets a type of
/// `defs`; and the names of types and fields are interned.
pub open spec fn graph_ok(strs: Seq<Seq<char>>, defs: Seq<TypeDef>) -> bool {
    &&& defs.len() <= u32::MAX
    &&& forall|i: int| 0 <= i < defs.len() ==> (#[trigger] defs[i]).full_name < strs.len()
    &&& forall|i: int, j: int|
        0 <= i < defs.len() && 0 <= j < defs[i].fields@.len() ==> {
            &&& (#[trigger] defs[i].fields@[j]).name < strs.len()
            &&& mandatory_target(defs[i].fields@[j]) matches Some(t) ==> t < defs.len()
        }
}

/// `ds` are warnings without a file, at `0..0`, about the mandatory
/// self-references `ws`.
pub open spec fn cycles_reported(ds: Seq<Diagnostic>, strs: Seq<Seq<char>>, defs: Seq<TypeDef>, ws: Seq<CycleWarning>) -> bool {
    &&& ds.len() == ws.len()
    &&& forall|k: int|
        0 <= k < ds.len() ==> simple(Severity::Warning, Seq::empty(), 0..0, cycle_message(strs, defs, ws[k]), #[trigger] ds[k])
}

proof fn lemma_cycles_append(
    d0: Seq<Diagnostic>,
    d1: Seq<Diagnostic>,
    d2: Seq<Diagnostic>,
    strs: Seq<Seq<char>>,
    defs: Seq<TypeDef>,
    w1: Seq<CycleWarning>,
    w2: Seq<CycleWarning>,
)
    requires
        grows(d0, d1),
        grows(d1, d2),
        cycles_reported(d1.skip(d0.len() as int), strs, defs, w1),
        cycles_reported(d2.skip(d1.len() as int), strs, defs, w2),
    ensures
        grows(d0, d2),
        cycles_reported(d2.skip(d0.len() as int), strs, defs, w1 + w2),
{
    assert forall|k: int| 0 <= k < d0.len() implies #[trigger] d2[k] == d0[k] by {
        assert(d2[k] == d1[k]);
    }
    let a = d1.skip(d0.len() as int);
    let b = d2.skip(d1.len() as int);
    assert(d2.skip(d0.len() as int) =~= a + b) by {
        assert forall|k: int| 0 <= k < a.len() implies #[trigger] d2[d0.len() + k] == a[k] by {
            assert(d2[d0.len() + k] == d1[d0.len() + k]);
        }
    }
}

/// The text of a warning about a mandatory self-reference, built.
fn cycle_text(source: &str, field: &str, target: &str) -> (r: String)
    ensures
        r@ == "recursive type reference: "@ + source@ + "."@ + field@ + " → "@ + target@
            + " (consider making it optional or repeated)"@,
{
    let mut m = String::from_str("recursive type reference: ");
    m.append(source);
    m.append(".");
    m.append(field);
    m.append(" → ");
    m.append(target);
    m.append(" (consider making it optional or repeated)");
    m
}

fn detect_cycles_dfs(
    id: TypeId,
    arenas: &Arenas,
    interner: &Interner,
    diag: &mut Diagnostics,
    visited: &mut HashSet<TypeId>,
    in_stack: &mut HashSet<TypeId>,
    Ghost(depth): Ghost<int>,
)
    requires
        depth == type_defs(arenas.types).len() - old(in_stack)@.len(),
        graph_ok(interned(*interner), type_defs(arenas.types)),
        id < type_defs(arenas.types).len(),
        ids_of(type_defs(arenas.types), old(in_stack)@),
        !old(in_stack)@.contains(id),
    ensures
        final(in_stack)@ == old(in_stack)@,
        final(visited)@ == dfs(type_defs(arenas.types), id, old(visited)@, old(in_stack)@).0,
        grows(old(diag)@, final(diag)@),
        cycles_reported(
            final(diag)@.skip(old(diag)@.len() as int),
            interned(*interner),
            type_defs(arenas.types),
            dfs(type_defs(arenas.types), id, old(visited)@, old(in_stack)@).1,
        ),
    decreases depth,
{
    let ghost defs = type_defs(arenas.types);
    let ghost strs = interned(*interner);
    let ghost v0 = visited@;
    let ghost s0 = in_stack@;
    let ghost d0 = diag@;
    proof {
        lemma_bounded_len(s0.insert(id), defs.len());
        lemma_errors_none(d0);
    }
    visited.insert(id);
    in_stack.insert(id);
    let ty = type_def_at(&arenas.types, id);
    let ghost fs = ty.fields@;
    let mut k: usize = 0;
    while k < ty.fields.len()
        invariant
            k <= fs.len(),
            fs == defs[id as int].fields@,
            ty.fields@ == fs,
            *ty == defs[id as int],
            defs == type_defs(arenas.types),
            strs == interned(*interner),
            graph_ok(strs, defs),
            id < defs.len(),
            ids_of(defs, s0),
            !s0.contains(id),
            in_stack@ == s0.insert(id),
            depth == defs.len() - s0.len(),
            s0.insert(id).len() <= defs.len(),
            s0.insert(id).len() == s0.len() + 1,
            visited@ == dfs_fields(defs, id, k as int, v0.insert(id), s0.insert(id)).0,
            grows(d0, diag@),
            cycles_reported(
                diag@.skip(d0.len() as int),
                strs,
                defs,
                dfs_fields(defs, id, k as int, v0.insert(id), s0.insert(id)).1,
            ),
        decreases fs.len() - k,
    {
        let f = &ty.fields[k];
        let ghost prev = dfs_fields(defs, id, k as int, v0.insert(id), s0.insert(id));
        proof {
            assert(f == fs[k as int]);
            assert(fs[k as int] == defs[id as int].fields@[k as int]);
        }
        match &f.ty {
            ResolvedType::Message(t) => {
                if !f.is_optional && !f.is_repeated {
                    let t = *t;
                    proof {
                        assert(mandatory_target(defs[id as int].fields@[k as int]) == Some(t));
                    }
                    if in_stack.contains(&t) {
                        let ghost d1 = diag@;
                        proof {
                            assert(defs[id as int].full_name < strs.len());
                            assert(defs[id as int].fields@[k as int].name < strs.len());
                        }
                        let target = type_def_at(&arenas.types, t);
                        proof {
                            assert(defs[t as int].full_name < strs.len());
                        }
                        let m = cycle_text(
                            interner.resolve(ty.full_name),
                            interner.resolve(f.name),
                            interner.resolve(target.full_name),
                        );
                        diag.warning("", 0..0, m.as_str());
                        proof {
                            reveal_strlit("");
                            assert(""@ =~= Seq::<char>::empty());
                            assert forall|j: int| 0 <= j < d0.len() implies #[trigger] diag@[j] == d0[j] by {
                                assert(diag@.take(d1.len() as int)[j] == diag@[j]);
                                assert(d1[j] == d0[j]);
                            }
                            let w = (id, f.name, t);
                            assert(diag@.skip(d0.len() as int) =~= d1.skip(d0.len() as int).push(diag@.last()));
                            assert(dfs_fields(defs, id, k + 1, v0.insert(id), s0.insert(id)).1 == prev.1.push(w));
                            assert(m@ == cycle_message(strs, defs, w));
                            assert(diag@.skip(d0.len() as int)[prev.1.len() as int] == diag@.last());
                            assert forall|j: int| 0 <= j < diag@.skip(d0.len() as int).len() implies simple(
                                Severity::Warning,
                                Seq::empty(),
                                0..0,
                                cycle_message(strs, defs, prev.1.push(w)[j]),
                                #[trigger] diag@.skip(d0.len() as int)[j],
                            ) by {
                                if j < prev.1.len() {
                                    assert(diag@.skip(d0.len() as int)[j] == d1.skip(d0.len() as int)[j]);
                                }
                            }
                        }
                    } else if !visited.contains(&t) {
                        let ghost d1 = diag@;
                        proof {
                            assert(type_defs(arenas.types).len() - in_stack@.len() < type_defs(arenas.types).len() - s0.len());
                            assert(type_defs(arenas.types).len() - in_stack@.len() >= 0);
                        }
                        let ghost dep = type_defs(arenas.types).len() - in_stack@.len();
                        detect_cycles_dfs(t, arenas, interner, diag, visited, in_stack, Ghost(dep));
                        proof {
                            let r = dfs(defs, t, prev.0, s0.insert(id));
                            lemma_cycles_append(d0, d1, diag@, strs, defs, prev.1, r.1);
                        }
                    }
                }
            },
            _ => {},
        }
        k += 1;
    }
    in_stack.remove(&id);
    proof {
        assert(in_stack@ =~= s0);
    }
}

/// Warn about mandatory self-references: a depth-first search over the
/// types, in order, warns of each non-optional, non-repeated message field
/// that leads back to a type on the current path.
pub fn detect_cycles(arenas: &Arenas, interner: &Interner, diag: &mut Diagnostics)
    requires
        graph_ok(interned(*interner), type_defs(arenas.types)),
    ensures
        grows(old(diag)@, final(diag)@),
        cycles_reported(
            final(diag)@.skip(old(diag)@.len() as int),
            interned(*interner),
            type_defs(arenas.types),
            dfs_from(type_defs(arenas.types), type_defs(arenas.types).len() as int).1,
        ),
{
    let ghost defs = type_defs(arenas.types);
    let ghost strs = interned(*interner);
    let ghost d0 = diag@;
    let n = arena_lens(arenas).0;
    let mut visited: HashSet<TypeId> = HashSet::new();
    let mut in_stack: HashSet<TypeId> = HashSet::new();
    proof {
        lemma_errors_none(d0);
        assert(d0.skip(d0.len() as int) =~= Seq::<Diagnostic>::empty());
    }
    let mut i: usize = 0;
    while i < n
        invariant
            i <= n == defs.len(),
            defs == type_defs(arenas.types),
            strs == interned(*interner),
            graph_ok(strs, defs),
            in_stack@ == Set::<TypeId>::empty(),
            visited@ == dfs_from(defs, i as int).0,
            grows(d0, diag@),
            cycles_reported(diag@.skip(d0.len() as int), strs, defs, dfs_from(defs, i as int).1),
        decreases n - i,
    {
        let id = i as TypeId;
        proof {
            assert(ids_of(defs, Set::<TypeId>::empty()));
        }
        if !visited.contains(&id) {
            let ghost d1 = diag@;
            let ghost prev = dfs_from(defs, i as int);
            let ghost dep = type_defs(arenas.types).len() - in_stack@.len();
            detect_cycles_dfs(id, arenas, interner, diag, &mut visited, &mut in_stack, Ghost(dep));
            proof {
                lemma_cycles_append(d0, d1, diag@, strs, defs, prev.1, dfs(defs, id, prev.0, Set::empty()).1);
            }
        }
        i += 1;
    }
}

// ── Imports ────────────────────────────────────────────────────────────

/// The imports of a file: each short name maps to a full package path. A
/// later import of the same short name replaces an earlier one.
pub struct ImportMap {
    entries: Vec<(String, String)>,
}

/// The map that the entries `es` give, later entries winning.
pub open spec fn entries_map(es: Seq<(String, String)>) -> Map<Seq<char>, Seq<char>>
    decreases es.len(),
{
    if es.len() == 0 {
        Map::empty()
    } else {
        entries_map(es.drop_last()).insert(es.last().0@, es.last().1@)
    }
}

impl View for ImportMap {
    type V = Map<Seq<char>, Seq<char>>;

    closed spec fn view(&self) -> Map<Seq<char>, Seq<char>> {
        entries_map(self.entries@)
    }
}

proof fn lemma_entries_suffix(es: Seq<(String, String)>, k: Seq<char>, i: int)
    requires
        0 <= i <= es.len(),
        forall|j: int| i <= j < es.len() ==> (#[trigger] es[j]).0@ != k,
    ensures
        entries_map(es).contains_key(k) == entries_map(es.take(i)).contains_key(k),
        entries_map(es).contains_key(k) ==> entries_map(es)[k] == entries_map(es.take(i))[k],
    decreases es.len() - i,
{
    if i < es.len() {
        lemma_entries_suffix(es.drop_last(), k, i);
        assert(es.drop_last().take(i) =~= es.take(i));
    } else {
        assert(es.take(i) =~= es);
    }
}

impl ImportMap {
    pub fn new() -> (r: Self)
        ensures
            r@ == Map::<Seq<char>, Seq<char>>::empty(),
    {
        ImportMap { entries: Vec::new() }
    }

    /// Map `short` to `path`.
    pub fn insert(&mut self, short: String, path: String)
        ensures
            final(self)@ == old(self)@.insert(short@, path@),
    {
        let ghost es = self.entries@;
        self.entries.push((short, path));
        proof {
            assert(self.entries@.drop_last() =~= es);
        }
    }

    /// The path of `short`, if it is imported.
    pub fn get(&self, short: &str) -> (r: Option<&String>)
        ensures
            r is Some <==> self@.contains_key(short@),
            r matches Some(p) ==> p@ == self@[short@],
    {
        let ghost es = self.entries@;
        let mut i = self.entries.len();
        while i > 0
            invariant
                i <= es.len(),
                es == self.entries@,
                forall|j: int| i <= j < es.len() ==> (#[trigger] es[j]).0@ != short@,
            decreases i,
        {
            if same_text(self.entries[i - 1].0.as_str(), short) {
                proof {
                    lemma_entries_suffix(es, short@, i as int);
                    assert(es.take(i as int).drop_last() =~= es.take(i - 1));
                    assert(es.take(i as int).last() == es[i - 1]);
                }
                return Some(&self.entries[i - 1].1);
            }
            i -= 1;
        }
        proof {
            lemma_entries_suffix(es, short@, 0);
            assert(es.take(0) =~= Seq::<(String, String)>::empty());
        }
        None
    }
}

/// The last segment of a path: what follows its last `.` or `/`.
pub open spec fn last_segment(p: Seq<char>) -> Seq<char>
    decreases p.len(),
{
    if p.len() == 0 {
        p
    } else if p.last() == '.' || p.last() == '/' {
        Seq::empty()
    } else {
        last_segment(p.drop_last()).push(p.last())
    }
}

/// What follows the last `/` of a path.
pub open spec fn after_last_slash(p: Seq<char>) -> Seq<char>
    decreases p.len(),
{
    if p.len() == 0 {
        p
    } else if p.last() == '/' {
        Seq::empty()
    } else {
        after_last_slash(p.drop_last()).push(p.last())
    }
}

/// The suffix of `p` after the last character for which `sep` holds.
fn suffix_after(p: &str, slash_only: bool) -> (r: String)
    ensures
        slash_only ==> r@ == after_last_slash(p@),
        !slash_only ==> r@ == last_segment(p@),
{
    let n = p.unicode_len();
    let mut i = n;
    proof {
        assert(p@.take(n as int) =~= p@);
        assert(after_last_slash(p@) + p@.subrange(n as int, n as int) =~= after_last_slash(p@));
        assert(last_segment(p@) + p@.subrange(n as int, n as int) =~= last_segment(p@));
    }
    while i > 0
        invariant
            i <= n == p@.len(),
            slash_only ==> after_last_slash(p@) == after_last_slash(p@.take(i as int)) + p@.subrange(i as int, n as int),
            !slash_only ==> last_segment(p@) == last_segment(p@.take(i as int)) + p@.subrange(i as int, n as int),
        decreases i,
    {
        let c = p.get_char(i - 1);
        let is_sep = if slash_only {
            c == '/'
        } else {
            c == '.' || c == '/'
        };
        proof {
            let pre = p@.take(i as int);
            assert(pre.drop_last() =~= p@.take(i - 1));
            assert(pre.last() == c);
            assert(p@.subrange(i - 1, n as int) =~= seq![c] + p@.subrange(i as int, n as int));
        }
        if is_sep {
            proof {
                assert(Seq::<char>::empty() + p@.subrange(i as int, n as int) =~= p@.subrange(i as int, n as int));
            }
            return String::from_str(p.substring_char(i, n));
        }
        proof {
            let pre = p@.take(i as int);
            assert(last_segment(pre) == last_segment(p@.take(i - 1)).push(c) || slash_only);
            assert(last_segment(p@.take(i - 1)).push(c) + p@.subrange(i as int, n as int) =~= last_segment(p@.take(i
                - 1)) + p@.subrange(i - 1, n as int));
            assert(after_last_slash(p@.take(i - 1)).push(c) + p@.subrange(i as int, n as int) =~= after_last_slash(
                p@.take(i - 1),
            ) + p@.subrange(i - 1, n as int));
        }
        i -= 1;
    }
    proof {
        assert(p@.take(0) =~= Seq::<char>::empty());
        assert(Seq::<char>::empty() + p@.subrange(0, n as int) =~= p@);
    }
    String::from_str(p)
}

/// The short name of import `imp` of path `p`: its alias, or the last
/// segment of its path.
pub open spec fn import_short(imp: SyntaxNode, p: Seq<char>) -> Seq<char> {
    match alias_slot(imp) {
        Some(s) => text_of(slot_bytes(imp, s)),
        None => last_segment(p),
    }
}

/// The imports that the import declarations `imps` give, in order.
pub open spec fn import_entries(imps: Seq<SyntaxNode>) -> Map<Seq<char>, Seq<char>>
    decreases imps.len(),
{
    if imps.len() == 0 {
        Map::empty()
    } else {
        let m = import_entries(imps.drop_last());
        match import_path(imps.last()) {
            Some(p) => m.insert(import_short(imps.last(), p), p),
            None => m,
        }
    }
}

/// The imports of a file: each import with a path maps its alias, or the
/// last segment of its path, to the path.
pub fn collect_imports(root: &Root) -> (r: ImportMap)
    ensures
        r@ == import_entries(child_nodes(root.node(), SyntaxKind::ImportDecl)),
{
    let mut imports = ImportMap::new();
    let decls = root.imports();
    let ghost nodes = child_nodes(root.node(), SyntaxKind::ImportDecl);
    proof {
        lemma_children_nodes(root.node(), decls@, SyntaxKind::ImportDecl);
        assert(nodes.take(0) =~= Seq::<SyntaxNode>::empty());
    }
    let mut i: usize = 0;
    while i < decls.len()
        invariant
            i <= decls@.len() == nodes.len(),
            forall|j: int| 0 <= j < decls@.len() ==> (#[trigger] decls@[j]).node() == nodes[j],
            imports@ == import_entries(nodes.take(i as int)),
        decreases decls.len() - i,
    {
        let imp = &decls[i];
        let ghost node = nodes[i as int];
        proof {
            assert(nodes.take(i + 1).drop_last() =~= nodes.take(i as int));
            assert(nodes.take(i + 1).last() == node);
        }
        let path = imp.path();
        proof {
            lemma_first_child(node, path, SyntaxKind::ImportPath);
        }
        match path {
            Some(p) => {
                let path_text = p.text();
                let short = match imp.alias() {
                    Some(a) => a.text(),
                    None => suffix_after(path_text.as_str(), false),
                };
                imports.insert(short, path_text);
            },
            None => {},
        }
        i += 1;
    }
    proof {
        assert(nodes.take(nodes.len() as int) =~= nodes);
    }
    imports
}

// ── Type references ────────────────────────────────────────────────────

/// A table keyed by symbols, keyed by the strings that the symbols stand
/// for among the interned strings `strs`.
pub open spec fn text_table(strs: Seq<Seq<char>>, t: Map<Sym, u32>) -> Map<Seq<char>, u32> {
    Map::new(
        |x: Seq<char>| strs.contains(x) && t.contains_key(strs.index_of(x) as Sym),
        |x: Seq<char>| t[strs.index_of(x) as Sym],
    )
}


/// The symbol of the interned string `x`.
pub open spec fn sym_for(strs: Seq<Seq<char>>, x: Seq<char>) -> Sym {
    strs.index_of(x) as Sym
}

/// The `i`-th child node of `n` of kind `k`, if any.
pub open spec fn nth_child(n: SyntaxNode, k: SyntaxKind, i: int) -> Option<SyntaxNode> {
    let c = child_nodes(n, k);
    if 0 <= i < c.len() {
        Some(c[i])
    } else {
        None
    }
}

/// Name segments joined with dots.
pub open spec fn dotted(segs: Seq<Seq<char>>) -> Seq<char>
    decreases segs.len(),
{
    if segs.len() == 0 {
        Seq::empty()
    } else if segs.len() == 1 {
        segs[0]
    } else {
        dotted(segs.drop_last()) + seq!['.'] + segs.last()
    }
}

/// Look `x` up in a text-keyed table of types: a message.
pub open spec fn as_message(tt: Map<Seq<char>, u32>, x: Seq<char>) -> Option<ResolvedType> {
    if tt.contains_key(x) {
        Some(ResolvedType::Message(tt[x]))
    } else {
        None
    }
}

/// Look `x` up in a text-keyed table of enums: an enum.
pub open spec fn as_enum(et: Map<Seq<char>, u32>, x: Seq<char>) -> Option<ResolvedType> {
    if et.contains_key(x) {
        Some(ResolvedType::Enum(et[x]))
    } else {
        None
    }
}

/// The first of two alternatives that is there.
pub open spec fn or_else(a: Option<ResolvedType>, b: Option<ResolvedType>) -> Option<ResolvedType> {
    match a {
        Some(x) => Some(x),
        None => b,
    }
}

/// What the dotted name `segs` denotes in package `pkg`, with imports
/// `imps` and types and enums by full name `tt`, `et`:
/// - one segment: a scalar by that name; else the type, then the enum,
///   `pkg.name`; else a name left for later passes (such as a type
///   parameter);
/// - more segments, `first ... last`: where `first` is imported as `path`,
///   the type, then the enum, `path.last`, then the type, then the enum,
///   `p.last` where `p` follows the path's last `/`; else the type named by
///   the whole dotted name; else the type, then the enum, `first.last`;
///   else an error.
pub open spec fn named_type(
    sf: Seq<Seq<char>>,
    segs: Seq<Seq<char>>,
    pkg: Seq<char>,
    imps: Map<Seq<char>, Seq<char>>,
    tt: Map<Seq<char>, u32>,
    et: Map<Seq<char>, u32>,
) -> ResolvedType {
    if segs.len() == 0 {
        ResolvedType::Error
    } else if segs.len() == 1 {
        match scalar_named(segs[0]) {
            Some(k) => ResolvedType::Scalar(k),
            None => {
                let f = qualified(pkg, segs[0]);
                match or_else(as_message(tt, f), as_enum(et, f)) {
                    Some(r) => r,
                    None => ResolvedType::Unresolved(sym_for(sf, segs[0])),
                }
            },
        }
    } else {
        let first = segs[0];
        let last = segs.last();
        let imported = if imps.contains_key(first) {
            let f1 = qualified(imps[first], last);
            let f2 = qualified(after_last_slash(imps[first]), last);
            or_else(or_else(as_message(tt, f1), as_enum(et, f1)), or_else(as_message(tt, f2), as_enum(et, f2)))
        } else {
            None
        };
        let f4 = qualified(first, last);
        match or_else(imported, or_else(as_message(tt, dotted(segs)), or_else(as_message(tt, f4), as_enum(et, f4)))) {
            Some(r) => r,
            None => ResolvedType::Error,
        }
    }
}

/// A dotted name that no type or enum answers to: reported as unresolved.
pub open spec fn name_unresolved(
    segs: Seq<Seq<char>>,
    pkg: Seq<char>,
    imps: Map<Seq<char>, Seq<char>>,
    tt: Map<Seq<char>, u32>,
    et: Map<Seq<char>, u32>,
) -> bool {
    segs.len() >= 2 && named_type(Seq::empty(), segs, pkg, imps, tt, et) is Error
}

/// The type that type reference `n` denotes: an array of its element
/// type, a map of its key and value types, or what its dotted name
/// denotes; an error where a part is missing.
pub open spec fn resolved(
    sf: Seq<Seq<char>>,
    n: SyntaxNode,
    pkg: Seq<char>,
    imps: Map<Seq<char>, Seq<char>>,
    tt: Map<Seq<char>, u32>,
    et: Map<Seq<char>, u32>,
) -> ResolvedType
    decreases n.id(),
    when node_ok(n)
{
    match first_child(n, SyntaxKind::ArrayType) {
        Some(a) => {
            proof {
                lemma_child_nodes_below(n, SyntaxKind::ArrayType);
                lemma_child_nodes_below(a, SyntaxKind::TypeRef);
            }
            match first_child(a, SyntaxKind::TypeRef) {
                Some(e) => ResolvedType::Array(Box::new(resolved(sf, e, pkg, imps, tt, et))),
                None => ResolvedType::Error,
            }
        },
        None => match first_child(n, SyntaxKind::MapType) {
            Some(m) => {
                proof {
                    lemma_child_nodes_below(n, SyntaxKind::MapType);
                    lemma_child_nodes_below(m, SyntaxKind::TypeRef);
                }
                let key = match nth_child(m, SyntaxKind::TypeRef, 0) {
                    Some(k) => resolved(sf, k, pkg, imps, tt, et),
                    None => ResolvedType::Error,
                };
                let value = match nth_child(m, SyntaxKind::TypeRef, 1) {
                    Some(v) => resolved(sf, v, pkg, imps, tt, et),
                    None => ResolvedType::Error,
                };
                ResolvedType::MapOf { key: Box::new(key), value: Box::new(value) }
            },
            None => match first_child(n, SyntaxKind::QualifiedName) {
                Some(q) => named_type(sf, selected_texts(q, TokenSelect::Kind(SyntaxKind::Ident)), pkg, imps, tt, et),
                None => ResolvedType::Error,
            },
        },
    }
}

/// The dotted names in type reference `n` that are reported as unresolved,
/// in order.
pub open spec fn unresolved_in(
    n: SyntaxNode,
    pkg: Seq<char>,
    imps: Map<Seq<char>, Seq<char>>,
    tt: Map<Seq<char>, u32>,
    et: Map<Seq<char>, u32>,
) -> Seq<Seq<char>>
    decreases n.id(),
    when node_ok(n)
{
    match first_child(n, SyntaxKind::ArrayType) {
        Some(a) => {
            proof {
                lemma_child_nodes_below(n, SyntaxKind::ArrayType);
                lemma_child_nodes_below(a, SyntaxKind::TypeRef);
            }
            match first_child(a, SyntaxKind::TypeRef) {
                Some(e) => unresolved_in(e, pkg, imps, tt, et),
                None => Seq::empty(),
            }
        },
        None => match first_child(n, SyntaxKind::MapType) {
            Some(m) => {
                proof {
                    lemma_child_nodes_below(n, SyntaxKind::MapType);
                    lemma_child_nodes_below(m, SyntaxKind::TypeRef);
                }
                (match nth_child(m, SyntaxKind::TypeRef, 0) {
                    Some(k) => unresolved_in(k, pkg, imps, tt, et),
                    None => Seq::empty(),
                }) + (match nth_child(m, SyntaxKind::TypeRef, 1) {
                    Some(v) => unresolved_in(v, pkg, imps, tt, et),
                    None => Seq::empty(),
                })
            },
            None => match first_child(n, SyntaxKind::QualifiedName) {
                Some(q) => {
                    let segs = selected_texts(q, TokenSelect::Kind(SyntaxKind::Ident));
                    if name_unresolved(segs, pkg, imps, tt, et) {
                        seq![dotted(segs)]
                    } else {
                        Seq::empty()
                    }
                },
                None => Seq::empty(),
            },
        },
    }
}

/// The names that type reference `n` leaves for later passes are interned
/// in `sf`.
pub open spec fn leaves_in(
    sf: Seq<Seq<char>>,
    n: SyntaxNode,
    pkg: Seq<char>,
    imps: Map<Seq<char>, Seq<char>>,
    tt: Map<Seq<char>, u32>,
    et: Map<Seq<char>, u32>,
) -> bool
    decreases n.id(),
    when node_ok(n)
{
    match first_child(n, SyntaxKind::ArrayType) {
        Some(a) => {
            proof {
                lemma_child_nodes_below(n, SyntaxKind::ArrayType);
                lemma_child_nodes_below(a, SyntaxKind::TypeRef);
            }
            match first_child(a, SyntaxKind::TypeRef) {
                Some(e) => leaves_in(sf, e, pkg, imps, tt, et),
                None => true,
            }
        },
        None => match first_child(n, SyntaxKind::MapType) {
            Some(m) => {
                proof {
                    lemma_child_nodes_below(n, SyntaxKind::MapType);
                    lemma_child_nodes_below(m, SyntaxKind::TypeRef);
                }
                (match nth_child(m, SyntaxKind::TypeRef, 0) {
                    Some(k) => leaves_in(sf, k, pkg, imps, tt, et),
                    None => true,
                }) && (match nth_child(m, SyntaxKind::TypeRef, 1) {
                    Some(v) => leaves_in(sf, v, pkg, imps, tt, et),
                    None => true,
                })
            },
            None => match first_child(n, SyntaxKind::QualifiedName) {
                Some(q) => {
                    let segs = selected_texts(q, TokenSelect::Kind(SyntaxKind::Ident));
                    named_type(sf, segs, pkg, imps, tt, et) is Unresolved ==> sf.contains(segs[0])
                },
                None => true,
            },
        },
    }
}

/// How many strings resolving type reference `n` may intern.
pub open spec fn type_room(n: SyntaxNode) -> nat
    decreases n.id(),
    when node_ok(n)
{
    match first_child(n, SyntaxKind::ArrayType) {
        Some(a) => {
            proof {
                lemma_child_nodes_below(n, SyntaxKind::ArrayType);
                lemma_child_nodes_below(a, SyntaxKind::TypeRef);
            }
            match first_child(a, SyntaxKind::TypeRef) {
                Some(e) => type_room(e),
                None => 0,
            }
        },
        None => match first_child(n, SyntaxKind::MapType) {
            Some(m) => {
                proof {
                    lemma_child_nodes_below(n, SyntaxKind::MapType);
                    lemma_child_nodes_below(m, SyntaxKind::TypeRef);
                }
                (match nth_child(m, SyntaxKind::TypeRef, 0) {
                    Some(k) => type_room(k),
                    None => 0,
                }) + (match nth_child(m, SyntaxKind::TypeRef, 1) {
                    Some(v) => type_room(v),
                    None => 0,
                })
            },
            None => match first_child(n, SyntaxKind::QualifiedName) {
                Some(q) => 4,
                None => 0,
            },
        },
    }
}

/// The child nodes of a node of a well-formed tree come before it.
pub proof fn lemma_child_nodes_below(n: SyntaxNode, k: SyntaxKind)
    requires
        node_ok(n),
    ensures
        forall|i: int|
            0 <= i < child_nodes(n, k).len() ==> {
                &&& node_ok(#[trigger] child_nodes(n, k)[i])
                &&& child_nodes(n, k)[i].id() < n.id()
            },
{
    let slots = node_slots(n.tree(), n.elements(), k);
    lemma_node_slots(n.tree(), n.elements(), k);
    assert forall|i: int| 0 <= i < child_nodes(n, k).len() implies {
        &&& node_ok(#[trigger] child_nodes(n, k)[i])
        &&& child_nodes(n, k)[i].id() < n.id()
    } by {
        assert(0 <= slots[i] < n.elements().len());
        n.lemma_child_node_below(slots[i]);
    }
}

/// `ds` report, in order, the dotted names `xs` of file `file` as
/// unresolved types.
pub open spec fn unresolved_reported(ds: Seq<Diagnostic>, xs: Seq<Seq<char>>, file: Seq<char>) -> bool {
    &&& ds.len() == xs.len()
    &&& forall|k: int| 0 <= k < ds.len() ==> simple(Severity::Error, file, 0..0, "unresolved type: "@ + xs[k], #[trigger] ds[k])
}

pub(crate) proof fn lemma_index_of(s: Seq<Seq<char>>, i: int, x: Seq<char>)
    requires
        distinct(s),
        0 <= i < s.len(),
        s[i] == x,
    ensures
        s.contains(x),
        s.index_of(x) == i,
{
    assert(s.contains(x));
    let j = s.index_of(x);
    assert(0 <= j < s.len() && s[j] == x);
}

/// Looking up the symbol of `x` in `t` is looking up `x` in the text table.
pub(crate) proof fn lemma_lookup(s0: Seq<Seq<char>>, s: Seq<Seq<char>>, t: Map<Sym, u32>, sym: Sym, x: Seq<char>)
    requires
        grows(s0, s),
        distinct(s),
        names(s, sym, x),
        keys_below(t, s0.len()),
    ensures
        t.contains_key(sym) == text_table(s0, t).contains_key(x),
        t.contains_key(sym) ==> t[sym] == text_table(s0, t)[x],
{
    lemma_index_of(s, sym as int, x);
    if s0.contains(x) {
        let i = s0.index_of(x);
        assert(s[i] == s0[i]);
        lemma_index_of(s, i, x);
    } else if t.contains_key(sym) {
        assert(s0[sym as int] == s[sym as int]);
        assert(s0.contains(x));
    }
}

/// The text tables stay as the interner grows.
pub(crate) proof fn lemma_text_table_grow(s0: Seq<Seq<char>>, s1: Seq<Seq<char>>, t: Map<Sym, u32>)
    requires
        s1.len() <= u32::MAX,
        grows(s0, s1),
        distinct(s1),
        keys_below(t, s0.len()),
    ensures
        text_table(s1, t) == text_table(s0, t),
        keys_below(t, s1.len()),
{
    assert forall|x: Seq<char>| #[trigger] text_table(s1, t).contains_key(x) == text_table(s0, t).contains_key(x)
        && (text_table(s1, t).contains_key(x) ==> text_table(s1, t)[x] == text_table(s0, t)[x]) by {
        if s1.contains(x) {
            let i = s1.index_of(x);
            lemma_lookup(s0, s1, t, i as Sym, x);
        } else if s0.contains(x) {
            let i = s0.index_of(x);
            assert(s1[i] == s0[i]);
        }
    }
    assert(text_table(s1, t) =~= text_table(s0, t));
}

/// A resolved type reference stays the same as the interner grows.
pub(crate) proof fn lemma_resolved_grow(
    s1: Seq<Seq<char>>,
    s2: Seq<Seq<char>>,
    n: SyntaxNode,
    pkg: Seq<char>,
    imps: Map<Seq<char>, Seq<char>>,
    tt: Map<Seq<char>, u32>,
    et: Map<Seq<char>, u32>,
)
    requires
        node_ok(n),
        grows(s1, s2),
        distinct(s2),
        leaves_in(s1, n, pkg, imps, tt, et),
    ensures
        resolved(s2, n, pkg, imps, tt, et) == resolved(s1, n, pkg, imps, tt, et),
        leaves_in(s2, n, pkg, imps, tt, et),
    decreases n.id(),
{
    match first_child(n, SyntaxKind::ArrayType) {
        Some(a) => {
            lemma_child_nodes_below(n, SyntaxKind::ArrayType);
            lemma_child_nodes_below(a, SyntaxKind::TypeRef);
            match first_child(a, SyntaxKind::TypeRef) {
                Some(e) => {
                    lemma_resolved_grow(s1, s2, e, pkg, imps, tt, et);
                },
                None => {},
            }
        },
        None => match first_child(n, SyntaxKind::MapType) {
            Some(m) => {
                lemma_child_nodes_below(n, SyntaxKind::MapType);
                lemma_child_nodes_below(m, SyntaxKind::TypeRef);
                match nth_child(m, SyntaxKind::TypeRef, 0) {
                    Some(k) => {
                        lemma_resolved_grow(s1, s2, k, pkg, imps, tt, et);
                    },
                    None => {},
                }
                match nth_child(m, SyntaxKind::TypeRef, 1) {
                    Some(v) => {
                        lemma_resolved_grow(s1, s2, v, pkg, imps, tt, et);
                    },
                    None => {},
                }
            },
            None => match first_child(n, SyntaxKind::QualifiedName) {
                Some(q) => {
                    let segs = selected_texts(q, TokenSelect::Kind(SyntaxKind::Ident));
                    if named_type(s1, segs, pkg, imps, tt, et) is Unresolved {
                        let i = s1.index_of(segs[0]);
                        assert(s2[i] == s1[i]);
                        lemma_index_of(s2, i, segs[0]);
                    }
                },
                None => {},
            },
        },
    }
}

/// `segs` joined with dots, built.
fn join_dots(segs: &Vec<String>) -> (r: String)
    ensures
        r@ == dotted(segs@.map_values(|s: String| s@)),
{
    let ghost v = segs@.map_values(|s: String| s@);
    let mut out = String::new();
    let mut k: usize = 0;
    proof {
        reveal_strlit(".");
        assert(out@ =~= Seq::<char>::empty());
    }
    while k < segs.len()
        invariant
            k <= segs@.len(),
            v == segs@.map_values(|s: String| s@),
            out@ == dotted(v.take(k as int)),
        decreases segs.len() - k,
    {
        if k > 0 {
            out.append(".");
        }
        out.append(segs[k].as_str());
        proof {
            let pre = v.take(k + 1);
            assert(pre.drop_last() =~= v.take(k as int));
            assert(pre.last() == segs@[k as int]@);
            if k == 0 {
                assert(pre.len() == 1);
                assert(dotted(pre) == pre[0]);
                assert(pre[0] == segs@[0]@);
                assert(out@ =~= segs@[0]@);
            } else {
                reveal_strlit(".");
                assert(out@ =~= dotted(pre));
            }
        }
        k += 1;
    }
    proof {
        assert(v.take(segs@.len() as int) =~= v);
    }
    out
}

/// Intern `x` and look it up among the types, then among the enums
/// (only where `with_enums`).
fn find_named(
    x: &str,
    with_enums: bool,
    interner: &mut Interner,
    symbols: &SymbolTable,
    Ghost(s0): Ghost<Seq<Seq<char>>>,
) -> (r: Option<ResolvedType>)
    requires
        grows(s0, interned(*old(interner))),
        distinct(interned(*old(interner))),
        interned(*old(interner)).len() < u32::MAX,
        keys_below(symbols.types@, s0.len()),
        keys_below(symbols.enums@, s0.len()),
    ensures
        grows(interned(*old(interner)), interned(*final(interner))),
        distinct(interned(*final(interner))),
        interned(*final(interner)).len() <= interned(*old(interner)).len() + 1,
        with_enums ==> r == or_else(
            as_message(text_table(s0, symbols.types@), x@),
            as_enum(text_table(s0, symbols.enums@), x@),
        ),
        !with_enums ==> r == as_message(text_table(s0, symbols.types@), x@),
{
    let ghost before = interned(*interner);
    let sym = interner.intern(x);
    proof {
        assert forall|k: int| 0 <= k < before.len() implies #[trigger] interned(*interner)[k] == before[k] by {}
        assert forall|k: int| 0 <= k < s0.len() implies #[trigger] interned(*interner)[k] == s0[k] by {
            assert(before[k] == s0[k]);
        }
        lemma_lookup(s0, interned(*interner), symbols.types@, sym, x@);
        lemma_lookup(s0, interned(*interner), symbols.enums@, sym, x@);
    }
    match symbols.types.get(&sym) {
        Some(id) => {
            return Some(ResolvedType::Message(*id));
        },
        None => {},
    }
    if with_enums {
        match symbols.enums.get(&sym) {
            Some(id) => {
                return Some(ResolvedType::Enum(*id));
            },
            None => {},
        }
    }
    None
}

/// What a dotted name denotes; an unresolved multi-segment name is
/// reported.
fn resolve_name(
    segs: &Vec<String>,
    interner: &mut Interner,
    pkg: &str,
    imports: &ImportMap,
    symbols: &SymbolTable,
    diag: &mut Diagnostics,
    file_name: &str,
) -> (r: ResolvedType)
    requires
        distinct(interned(*old(interner))),
        interned(*old(interner)).len() + 4 < u32::MAX,
        keys_below(symbols.types@, interned(*old(interner)).len()),
        keys_below(symbols.enums@, interned(*old(interner)).len()),
    ensures
        grows(interned(*old(interner)), interned(*final(interner))),
        distinct(interned(*final(interner))),
        interned(*final(interner)).len() <= interned(*old(interner)).len() + 4,
        r == named_type(
            interned(*final(interner)),
            segs@.map_values(|s: String| s@),
            pkg@,
            imports@,
            text_table(interned(*old(interner)), symbols.types@),
            text_table(interned(*old(interner)), symbols.enums@),
        ),
        r is Unresolved ==> interned(*final(interner)).contains(segs@[0]@),
        grows(old(diag)@, final(diag)@),
        unresolved_reported(
            final(diag)@.skip(old(diag)@.len() as int),
            if name_unresolved(
                segs@.map_values(|s: String| s@),
                pkg@,
                imports@,
                text_table(interned(*old(interner)), symbols.types@),
                text_table(interned(*old(interner)), symbols.enums@),
            ) {
                seq![dotted(segs@.map_values(|s: String| s@))]
            } else {
                Seq::empty()
            },
            file_name@,
        ),
{
    let ghost s0 = interned(*interner);
    let ghost v = segs@.map_values(|s: String| s@);
    let ghost tt = text_table(s0, symbols.types@);
    let ghost et = text_table(s0, symbols.enums@);
    let ghost d0 = diag@;
    proof {
        assert(d0.skip(d0.len() as int) =~= Seq::<Diagnostic>::empty());
        assert forall|k: int| 0 <= k < s0.len() implies #[trigger] s0[k] == s0[k] by {}
    }
    if segs.len() == 0 {
        return ResolvedType::Error;
    }
    if segs.len() == 1 {
        let name = segs[0].as_str();
        proof {
            assert(v[0] == name@);
        }
        match try_scalar(name) {
            Some(k) => {
                return ResolvedType::Scalar(k);
            },
            None => {},
        }
        let full = qualify(pkg, name);
        let found = find_named(full.as_str(), true, interner, symbols, Ghost(s0));
        match found {
            Some(r) => {
                return r;
            },
            None => {},
        }
        let ghost s1 = interned(*interner);
        let sym = interner.intern(name);
        proof {
            assert forall|k: int| 0 <= k < s0.len() implies #[trigger] interned(*interner)[k] == s0[k] by {
                assert(s1[k] == s0[k]);
            }
            lemma_index_of(interned(*interner), sym as int, name@);
        }
        return ResolvedType::Unresolved(sym);
    }
    let first = segs[0].as_str();
    let last = segs[segs.len() - 1].as_str();
    proof {
        assert(v[0] == first@);
        assert(v.last() == last@);
    }
    let mut imported: Option<ResolvedType> = None;
    match imports.get(first) {
        Some(path) => {
            let f1 = qualify(path.as_str(), last);
            let r1 = find_named(f1.as_str(), true, interner, symbols, Ghost(s0));
            let pkg_name = suffix_after(path.as_str(), true);
            let f2 = qualify(pkg_name.as_str(), last);
            let ghost sa = interned(*interner);
            let r2 = find_named(f2.as_str(), true, interner, symbols, Ghost(s0));
            imported = match r1 {
                Some(x) => Some(x),
                None => r2,
            };
        },
        None => {},
    }
    match imported {
        Some(r) => {
            return r;
        },
        None => {},
    }
    let whole = join_dots(segs);
    let r3 = find_named(whole.as_str(), false, interner, symbols, Ghost(s0));
    match r3 {
        Some(r) => {
            return r;
        },
        None => {},
    }
    let f4 = qualify(first, last);
    let r4 = find_named(f4.as_str(), true, interner, symbols, Ghost(s0));
    match r4 {
        Some(r) => {
            return r;
        },
        None => {},
    }
    let msg = message("unresolved type: ", whole.as_str());
    diag.error(file_name, 0..0, msg.as_str());
    proof {
        reveal_strlit("");
        assert forall|k: int| 0 <= k < d0.len() implies #[trigger] diag@[k] == d0[k] by {
            assert(diag@.take(d0.len() as int)[k] == diag@[k]);
        }
        assert(diag@.skip(d0.len() as int) =~= seq![diag@.last()]);
    }
    ResolvedType::Error
}

/// Resolve a type reference: arrays and maps part by part, dotted names as
/// [`named_type`] says, reporting each unresolved dotted name.
pub fn resolve_type_ref(
    type_ref: &TypeRef,
    interner: &mut Interner,
    pkg: &str,
    imports: &ImportMap,
    symbols: &SymbolTable,
    diag: &mut Diagnostics,
    file_name: &str,
) -> (r: ResolvedType)
    requires
        node_ok(type_ref.node()),
        distinct(interned(*old(interner))),
        interned(*old(interner)).len() + type_room(type_ref.node()) < u32::MAX,
        keys_below(symbols.types@, interned(*old(interner)).len()),
        keys_below(symbols.enums@, interned(*old(interner)).len()),
    ensures
        grows(interned(*old(interner)), interned(*final(interner))),
        distinct(interned(*final(interner))),
        interned(*final(interner)).len() <= interned(*old(interner)).len() + type_room(type_ref.node()),
        r == resolved(
            interned(*final(interner)),
            type_ref.node(),
            pkg@,
            imports@,
            text_table(interned(*old(interner)), symbols.types@),
            text_table(interned(*old(interner)), symbols.enums@),
        ),
        leaves_in(
            interned(*final(interner)),
            type_ref.node(),
            pkg@,
            imports@,
            text_table(interned(*old(interner)), symbols.types@),
            text_table(interned(*old(interner)), symbols.enums@),
        ),
        grows(old(diag)@, final(diag)@),
        unresolved_reported(
            final(diag)@.skip(old(diag)@.len() as int),
            unresolved_in(
                type_ref.node(),
                pkg@,
                imports@,
                text_table(interned(*old(interner)), symbols.types@),
                text_table(interned(*old(interner)), symbols.enums@),
            ),
            file_name@,
        ),
    decreases type_ref.node().id(),
{
    let ghost n = type_ref.node();
    let ghost s0 = interned(*interner);
    let ghost tt = text_table(s0, symbols.types@);
    let ghost et = text_table(s0, symbols.enums@);
    let ghost d0 = diag@;
    proof {
        assert(d0.skip(d0.len() as int) =~= Seq::<Diagnostic>::empty());
        assert forall|k: int| 0 <= k < s0.len() implies #[trigger] s0[k] == s0[k] by {}
        assert forall|k: int| 0 <= k < d0.len() implies #[trigger] d0[k] == d0[k] by {}
    }
    let arr = type_ref.array_type();
    proof {
        lemma_first_child(n, arr, SyntaxKind::ArrayType);
        lemma_child_nodes_below(n, SyntaxKind::ArrayType);
    }
    match arr {
        Some(a) => {
            let elem = a.element_type();
            proof {
                lemma_first_child(a.node(), elem, SyntaxKind::TypeRef);
                lemma_child_nodes_below(a.node(), SyntaxKind::TypeRef);
            }
            match elem {
                Some(inner) => {
                    let t = resolve_type_ref(&inner, interner, pkg, imports, symbols, diag, file_name);
                    return ResolvedType::Array(Box::new(t));
                },
                None => {
                    return ResolvedType::Error;
                },
            }
        },
        None => {},
    }
    let map = type_ref.map_type();
    proof {
        lemma_first_child(n, map, SyntaxKind::MapType);
        lemma_child_nodes_below(n, SyntaxKind::MapType);
    }
    match map {
        Some(m) => {
            let ghost mn = m.node();
            proof {
                lemma_child_nodes_below(mn, SyntaxKind::TypeRef);
            }
            let kt = m.key_type();
            proof {
                lemma_nth_child(mn, kt, SyntaxKind::TypeRef, 0);
            }
            let key = match &kt {
                Some(k) => resolve_type_ref(k, interner, pkg, imports, symbols, diag, file_name),
                None => ResolvedType::Error,
            };
            let ghost s1 = interned(*interner);
            let ghost d1 = diag@;
            proof {
                if kt is None {
                    assert(d1.skip(d0.len() as int) =~= Seq::<Diagnostic>::empty());
                }
                assert(s1.len() <= u32::MAX);
                lemma_text_table_grow(s0, s1, symbols.types@);
                lemma_text_table_grow(s0, s1, symbols.enums@);
            }
            let vt = m.value_type();
            proof {
                lemma_nth_child(mn, vt, SyntaxKind::TypeRef, 1);
            }
            let value = match &vt {
                Some(v) => resolve_type_ref(v, interner, pkg, imports, symbols, diag, file_name),
                None => ResolvedType::Error,
            };
            proof {
                let s2 = interned(*interner);
                if vt is None {
                    assert(diag@.skip(d1.len() as int) =~= Seq::<Diagnostic>::empty());
                }
                match kt {
                    Some(k) => {
                        lemma_resolved_grow(s1, s2, k.node(), pkg@, imports@, tt, et);
                    },
                    None => {},
                }
                let ka = match nth_child(mn, SyntaxKind::TypeRef, 0) {
                    Some(k) => unresolved_in(k, pkg@, imports@, tt, et),
                    None => Seq::empty(),
                };
                let va = match nth_child(mn, SyntaxKind::TypeRef, 1) {
                    Some(v) => unresolved_in(v, pkg@, imports@, tt, et),
                    None => Seq::empty(),
                };
                lemma_unresolved_append(d0, d1, diag@, ka, va, file_name@);
            }
            return ResolvedType::MapOf { key: Box::new(key), value: Box::new(value) };
        },
        None => {},
    }
    let qn = type_ref.qualified_name();
    proof {
        lemma_first_child(n, qn, SyntaxKind::QualifiedName);
    }
    match qn {
        Some(q) => {
            let segs = q.segments();
            proof {
                assert(segs@.map_values(|s: String| s@) =~= selected_texts(q.node(), TokenSelect::Kind(SyntaxKind::Ident)));
            }
            resolve_name(&segs, interner, pkg, imports, symbols, diag, file_name)
        },
        None => ResolvedType::Error,
    }
}

/// The `i`-th typed child is the `i`-th child node.
pub(crate) proof fn lemma_nth_child<T: AstNode>(n: SyntaxNode, r: Option<T>, k: SyntaxKind, i: int)
    requires
        nth_child_is(n, r, k, i),
    ensures
        r is Some <==> nth_child(n, k, i) is Some,
        r matches Some(x) ==> nth_child(n, k, i) == Some(x.node()),
{
    let slots = node_slots(n.tree(), n.elements(), k);
    if let Some(x) = r {
        n.lemma_child_node_at(x.node(), slots[i]);
    }
}

pub(crate) proof fn lemma_unresolved_append(
    d0: Seq<Diagnostic>,
    d1: Seq<Diagnostic>,
    d2: Seq<Diagnostic>,
    m1: Seq<Seq<char>>,
    m2: Seq<Seq<char>>,
    file: Seq<char>,
)
    requires
        grows(d0, d1),
        grows(d1, d2),
        unresolved_reported(d1.skip(d0.len() as int), m1, file),
        unresolved_reported(d2.skip(d1.len() as int), m2, file),
    ensures
        grows(d0, d2),
        unresolved_reported(d2.skip(d0.len() as int), m1 + m2, file),
{
    assert forall|k: int| 0 <= k < d0.len() implies #[trigger] d2[k] == d0[k] by {
        assert(d2[k] == d1[k]);
    }
    let a = d1.skip(d0.len() as int);
    let b = d2.skip(d1.len() as int);
    assert(d2.skip(d0.len() as int) =~= a + b) by {
        assert forall|k: int| 0 <= k < a.len() implies #[trigger] d2[d0.len() + k] == a[k] by {
            assert(d2[d0.len() + k] == d1[d0.len() + k]);
        }
    }
}

// ── Type aliases ───────────────────────────────────────────────────────

/// `ty` with each reference to type `alias` replaced by `target`, inside
/// arrays and maps too.
pub open spec fn replaced(ty: ResolvedType, alias: TypeId, target: ResolvedType) -> ResolvedType
    decreases ty,
{
    match ty {
        ResolvedType::Message(id) => if id == alias {
            target
        } else {
            ty
        },
        ResolvedType::Array(inner) => ResolvedType::Array(Box::new(replaced(*inner, alias, target))),
        ResolvedType::MapOf { key, value } => ResolvedType::MapOf {
            key: Box::new(replaced(*key, alias, target)),
            value: Box::new(replaced(*value, alias, target)),
        },
        _ => ty,
    }
}

/// Field `f` with type `t`.
pub open spec fn field_with_ty(f: FieldDef, t: ResolvedType) -> FieldDef {
    FieldDef { ty: t, ..f }
}

/// Oneof field `f` with type `t`.
pub open spec fn oneof_field_with_ty(f: OneofFieldDef, t: ResolvedType) -> OneofFieldDef {
    OneofFieldDef { ty: t, ..f }
}

/// Call `r` with input type `i` and output type `o`.
pub open spec fn rpc_with_types(r: RpcDef, i: ResolvedType, o: ResolvedType) -> RpcDef {
    RpcDef { input: RpcParamDef { ty: i, ..r.input }, output: RpcParamDef { ty: o, ..r.output }, ..r }
}

/// `ty` after the substitutions `subs` of types for aliases, in order.
pub open spec fn substituted(ty: ResolvedType, subs: Seq<(TypeId, ResolvedType)>) -> ResolvedType
    decreases subs.len(),
{
    if subs.len() == 0 {
        ty
    } else {
        replaced(substituted(ty, subs.drop_last()), subs.last().0, subs.last().1)
    }
}

/// `b` is type definition `a` with the substitutions `subs` made in the
/// types of its fields and oneof fields.
pub open spec fn type_substituted(a: TypeDef, b: TypeDef, subs: Seq<(TypeId, ResolvedType)>) -> bool {
    &&& b.name == a.name
    &&& b.full_name == a.full_name
    &&& b.nested_types == a.nested_types
    &&& b.nested_enums == a.nested_enums
    &&& b.annotations == a.annotations
    &&& b.back_references == a.back_references
    &&& b.trace == a.trace
    &&& b.loc == a.loc
    &&& b.fields@.len() == a.fields@.len()
    &&& forall|j: int|
        0 <= j < a.fields@.len() ==> #[trigger] b.fields@[j] == field_with_ty(a.fields@[j], substituted(a.fields@[j].ty, subs))
    &&& b.oneofs@.len() == a.oneofs@.len()
    &&& forall|o: int|
        0 <= o < a.oneofs@.len() ==> {
            &&& (#[trigger] b.oneofs@[o]).name == a.oneofs@[o].name
            &&& b.oneofs@[o].annotations == a.oneofs@[o].annotations
            &&& b.oneofs@[o].loc == a.oneofs@[o].loc
            &&& b.oneofs@[o].fields@.len() == a.oneofs@[o].fields@.len()
            &&& forall|j: int|
                0 <= j < a.oneofs@[o].fields@.len() ==> #[trigger] b.oneofs@[o].fields@[j] == oneof_field_with_ty(a.oneofs@[o].fields@[j], substituted(a.oneofs@[o].fields@[j].ty, subs))
        }
}

/// `b` is service definition `a` with the substitutions `subs` made in the
/// types of its calls' input and output.
pub open spec fn service_substituted(a: ServiceDef, b: ServiceDef, subs: Seq<(TypeId, ResolvedType)>) -> bool {
    &&& b.name == a.name
    &&& b.full_name == a.full_name
    &&& b.annotations == a.annotations
    &&& b.loc == a.loc
    &&& b.rpcs@.len() == a.rpcs@.len()
    &&& forall|j: int|
        0 <= j < a.rpcs@.len() ==> #[trigger] b.rpcs@[j] == rpc_with_types(
            a.rpcs@[j],
            substituted(a.rpcs@[j].input.ty, subs),
            substituted(a.rpcs@[j].output.ty, subs),
        )
}

/// `ty` with references to `alias` replaced by `target`.
fn replaced_type(ty: &ResolvedType, alias: TypeId, target: &ResolvedType) -> (r: ResolvedType)
    ensures
        r == replaced(*ty, alias, *target),
    decreases ty,
{
    match ty {
        ResolvedType::Message(id) => {
            if *id == alias {
                target.clone()
            } else {
                ResolvedType::Message(*id)
            }
        },
        ResolvedType::Array(inner) => ResolvedType::Array(Box::new(replaced_type(inner, alias, target))),
        ResolvedType::MapOf { key, value } => ResolvedType::MapOf {
            key: Box::new(replaced_type(key, alias, target)),
            value: Box::new(replaced_type(value, alias, target)),
        },
        _ => ty.clone(),
    }
}

/// Replace references to `alias` by `target` in the fields and oneof
/// fields of a type definition.
fn replace_in_type(
    def: &mut TypeDef,
    alias: TypeId,
    target: &ResolvedType,
    Ghost(a): Ghost<TypeDef>,
    Ghost(subs): Ghost<Seq<(TypeId, ResolvedType)>>,
)
    requires
        type_substituted(a, *old(def), subs),
    ensures
        type_substituted(a, *final(def), subs.push((alias, *target))),
{
    let ghost subs2 = subs.push((alias, *target));
    proof {
        assert(subs2.drop_last() =~= subs);
    }
    let mut k: usize = 0;
    while k < def.fields.len()
        invariant
            k <= def.fields@.len() == a.fields@.len(),
            subs2 == subs.push((alias, *target)),
            subs2.drop_last() == subs,
            def.name == a.name,
            def.full_name == a.full_name,
            def.nested_types == a.nested_types,
            def.nested_enums == a.nested_enums,
            def.annotations == a.annotations,
            def.back_references == a.back_references,
            def.trace == a.trace,
            def.loc == a.loc,
            forall|j: int|
                0 <= j < k ==> #[trigger] def.fields@[j] == field_with_ty(a.fields@[j], substituted(a.fields@[j].ty, subs2)),
            forall|j: int|
                k <= j < a.fields@.len() ==> #[trigger] def.fields@[j] == field_with_ty(a.fields@[j], substituted(a.fields@[j].ty, subs)),
            def.oneofs@.len() == a.oneofs@.len(),
            forall|o: int|
                0 <= o < a.oneofs@.len() ==> {
                    &&& (#[trigger] def.oneofs@[o]).name == a.oneofs@[o].name
                    &&& def.oneofs@[o].annotations == a.oneofs@[o].annotations
                    &&& def.oneofs@[o].loc == a.oneofs@[o].loc
                    &&& def.oneofs@[o].fields@.len() == a.oneofs@[o].fields@.len()
                    &&& forall|j: int|
                        0 <= j < a.oneofs@[o].fields@.len() ==> #[trigger] def.oneofs@[o].fields@[j] == oneof_field_with_ty(a.oneofs@[o].fields@[j], substituted(a.oneofs@[o].fields@[j].ty, subs))
                },
        decreases a.fields@.len() - k,
    {
        let t = replaced_type(&def.fields[k].ty, alias, target);
        def.fields[k].ty = t;
        k += 1;
    }
    let mut o: usize = 0;
    while o < def.oneofs.len()
        invariant
            o <= def.oneofs@.len() == a.oneofs@.len(),
            subs2 == subs.push((alias, *target)),
            subs2.drop_last() == subs,
            def.name == a.name,
            def.full_name == a.full_name,
            def.nested_types == a.nested_types,
            def.nested_enums == a.nested_enums,
            def.annotations == a.annotations,
            def.back_references == a.back_references,
            def.trace == a.trace,
            def.loc == a.loc,
            def.fields@.len() == a.fields@.len(),
            forall|j: int|
                0 <= j < a.fields@.len() ==> #[trigger] def.fields@[j] == field_with_ty(a.fields@[j], substituted(a.fields@[j].ty, subs2)),
            forall|p: int|
                0 <= p < a.oneofs@.len() ==> {
                    &&& (#[trigger] def.oneofs@[p]).name == a.oneofs@[p].name
                    &&& def.oneofs@[p].annotations == a.oneofs@[p].annotations
                    &&& def.oneofs@[p].loc == a.oneofs@[p].loc
                    &&& def.oneofs@[p].fields@.len() == a.oneofs@[p].fields@.len()
                    &&& forall|j: int|
                        0 <= j < a.oneofs@[p].fields@.len() ==> #[trigger] def.oneofs@[p].fields@[j] == oneof_field_with_ty(a.oneofs@[p].fields@[j], substituted(a.oneofs@[p].fields@[j].ty, if p < o { subs2 } else { subs }))
                },
        decreases a.oneofs@.len() - o,
    {
        let ghost before = def.oneofs@;
        let mut j: usize = 0;
        while j < def.oneofs[o].fields.len()
            invariant
                o < def.oneofs@.len() == a.oneofs@.len() == before.len(),
                j <= def.oneofs@[o as int].fields@.len() == a.oneofs@[o as int].fields@.len(),
                subs2.drop_last() == subs,
                subs2.last() == (alias, *target),
                subs2.len() > 0,
                def.name == a.name,
                def.full_name == a.full_name,
                def.nested_types == a.nested_types,
                def.nested_enums == a.nested_enums,
                def.annotations == a.annotations,
                def.back_references == a.back_references,
                def.trace == a.trace,
                def.loc == a.loc,
                def.fields@.len() == a.fields@.len(),
                forall|q: int|
                    0 <= q < a.fields@.len() ==> #[trigger] def.fields@[q] == field_with_ty(a.fields@[q], substituted(a.fields@[q].ty, subs2)),
                forall|p: int| 0 <= p < before.len() && p != o ==> #[trigger] def.oneofs@[p] == before[p],
                def.oneofs@[o as int].name == before[o as int].name,
                def.oneofs@[o as int].annotations == before[o as int].annotations,
                def.oneofs@[o as int].loc == before[o as int].loc,
                forall|q: int|
                    0 <= q < j ==> #[trigger] def.oneofs@[o as int].fields@[q] == oneof_field_with_ty(a.oneofs@[o as int].fields@[q], substituted(a.oneofs@[o as int].fields@[q].ty, subs2)),
                forall|q: int|
                    j <= q < a.oneofs@[o as int].fields@.len() ==> #[trigger] def.oneofs@[o as int].fields@[q]
                        == before[o as int].fields@[q],
                forall|q: int|
                    0 <= q < a.oneofs@[o as int].fields@.len() ==> #[trigger] before[o as int].fields@[q]
                        == oneof_field_with_ty(a.oneofs@[o as int].fields@[q], substituted(a.oneofs@[o as int].fields@[q].ty, subs)),
            decreases a.oneofs@[o as int].fields@.len() - j,
        {
            let t = replaced_type(&def.oneofs[o].fields[j].ty, alias, target);
            def.oneofs[o].fields[j].ty = t;
            j += 1;
        }
        o += 1;
    }
}

/// Replace references to `alias` by `target` in the input and output
/// types of a service's calls.
fn replace_in_service(
    def: &mut ServiceDef,
    alias: TypeId,
    target: &ResolvedType,
    Ghost(a): Ghost<ServiceDef>,
    Ghost(subs): Ghost<Seq<(TypeId, ResolvedType)>>,
)
    requires
        service_substituted(a, *old(def), subs),
    ensures
        service_substituted(a, *final(def), subs.push((alias, *target))),
{
    let ghost subs2 = subs.push((alias, *target));
    proof {
        assert(subs2.drop_last() =~= subs);
    }
    let mut k: usize = 0;
    while k < def.rpcs.len()
        invariant
            k <= def.rpcs@.len() == a.rpcs@.len(),
            subs2 == subs.push((alias, *target)),
            subs2.drop_last() == subs,
            def.name == a.name,
            def.full_name == a.full_name,
            def.annotations == a.annotations,
            def.loc == a.loc,
            forall|j: int|
                0 <= j < k ==> #[trigger] def.rpcs@[j] == rpc_with_types(
                    a.rpcs@[j],
                    substituted(a.rpcs@[j].input.ty, subs2),
                    substituted(a.rpcs@[j].output.ty, subs2),
                ),
            forall|j: int|
                k <= j < a.rpcs@.len() ==> #[trigger] def.rpcs@[j] == rpc_with_types(
                    a.rpcs@[j],
                    substituted(a.rpcs@[j].input.ty, subs),
                    substituted(a.rpcs@[j].output.ty, subs),
                ),
        decreases a.rpcs@.len() - k,
    {
        let i = replaced_type(&def.rpcs[k].input.ty, alias, target);
        def.rpcs[k].input.ty = i;
        let o = replaced_type(&def.rpcs[k].output.ty, alias, target);
        def.rpcs[k].output.ty = o;
        k += 1;
    }
}

/// The declarations among `ds` that declare an alias, in order.
pub open spec fn aliased(ds: Seq<SyntaxNode>) -> Seq<SyntaxNode>
    decreases ds.len(),
{
    if ds.len() == 0 {
        Seq::empty()
    } else if first_child(ds.last(), SyntaxKind::TypeAlias) is Some {
        aliased(ds.drop_last()).push(ds.last())
    } else {
        aliased(ds.drop_last())
    }
}

/// The declarations `ds`, each with file `f`.
pub open spec fn in_file(f: ParsedFile, ds: Seq<SyntaxNode>) -> Seq<(ParsedFile, SyntaxNode)> {
    ds.map_values(|d: SyntaxNode| (f, d))
}

/// The named alias declarations of file `f`, in order, each with its file.
pub open spec fn file_entries(f: ParsedFile) -> Seq<(ParsedFile, SyntaxNode)> {
    if f.root.spec_kind() == SyntaxKind::Root {
        in_file(f, aliased(named(child_nodes(f.root, SyntaxKind::TypeDecl))))
    } else {
        Seq::empty()
    }
}

/// The alias declarations of the files `fs`, in order, each with its file.
pub open spec fn alias_entries(fs: Seq<ParsedFile>) -> Seq<(ParsedFile, SyntaxNode)>
    decreases fs.len(),
{
    if fs.len() == 0 {
        Seq::empty()
    } else {
        alias_entries(fs.drop_last()) + file_entries(fs.last())
    }
}

/// The type reference of an alias declaration, if any.
pub open spec fn alias_type_ref(d: SyntaxNode) -> Option<SyntaxNode> {
    match first_child(d, SyntaxKind::TypeAlias) {
        Some(a) => first_child(a, SyntaxKind::TypeRef),
        None => None,
    }
}

/// The full name that an alias entry declares.
pub open spec fn entry_full(e: (ParsedFile, SyntaxNode)) -> Seq<char> {
    qualified(e.0.package@, name_text(e.1))
}

/// The imports of a file.
pub open spec fn file_imports(f: ParsedFile) -> Map<Seq<char>, Seq<char>> {
    import_entries(child_nodes(f.root, SyntaxKind::ImportDecl))
}

/// The type that an alias entry stands for.
pub open spec fn entry_target(
    sf: Seq<Seq<char>>,
    e: (ParsedFile, SyntaxNode),
    tt: Map<Seq<char>, u32>,
    et: Map<Seq<char>, u32>,
) -> ResolvedType {
    match alias_type_ref(e.1) {
        Some(tr) => resolved(sf, tr, e.0.package@, file_imports(e.0), tt, et),
        None => ResolvedType::Error,
    }
}

pub open spec fn entry_leaves(
    sf: Seq<Seq<char>>,
    e: (ParsedFile, SyntaxNode),
    tt: Map<Seq<char>, u32>,
    et: Map<Seq<char>, u32>,
) -> bool {
    match alias_type_ref(e.1) {
        Some(tr) => leaves_in(sf, tr, e.0.package@, file_imports(e.0), tt, et),
        None => true,
    }
}

/// How many strings resolving alias entry `e` may intern.
pub open spec fn entry_room(e: (ParsedFile, SyntaxNode)) -> nat {
    1 + match alias_type_ref(e.1) {
        Some(tr) => type_room(tr),
        None => 0,
    }
}

pub open spec fn entries_room(es: Seq<(ParsedFile, SyntaxNode)>) -> nat
    decreases es.len(),
{
    if es.len() == 0 {
        0
    } else {
        entries_room(es.drop_last()) + entry_room(es.last())
    }
}

/// The unresolved names that resolving the alias entries `es` reports,
/// each with its file, in order.
pub open spec fn entries_unresolved(
    es: Seq<(ParsedFile, SyntaxNode)>,
    tt: Map<Seq<char>, u32>,
    et: Map<Seq<char>, u32>,
) -> Seq<(Seq<char>, Seq<char>)>
    decreases es.len(),
{
    if es.len() == 0 {
        Seq::empty()
    } else {
        let e = es.last();
        entries_unresolved(es.drop_last(), tt, et) + match alias_type_ref(e.1) {
            Some(tr) => unresolved_in(tr, e.0.package@, file_imports(e.0), tt, et).map_values(
                |x: Seq<char>| (e.0.file_name@, x),
            ),
            None => Seq::empty(),
        }
    }
}

/// The substitutions that the alias entries `es` make: of each alias whose
/// full name is a type, that type by the alias's target, in order.
pub open spec fn alias_substitutions(
    sf: Seq<Seq<char>>,
    es: Seq<(ParsedFile, SyntaxNode)>,
    tt: Map<Seq<char>, u32>,
    et: Map<Seq<char>, u32>,
) -> Seq<(TypeId, ResolvedType)>
    decreases es.len(),
{
    if es.len() == 0 {
        Seq::empty()
    } else {
        let rest = alias_substitutions(sf, es.drop_last(), tt, et);
        let e = es.last();
        if tt.contains_key(entry_full(e)) {
            rest.push((tt[entry_full(e)], entry_target(sf, e, tt, et)))
        } else {
            rest
        }
    }
}

/// `ds` report, in order, the unresolved names `xs`, each in its file.
pub open spec fn reported_in_files(ds: Seq<Diagnostic>, xs: Seq<(Seq<char>, Seq<char>)>) -> bool {
    &&& ds.len() == xs.len()
    &&& forall|k: int|
        0 <= k < ds.len() ==> simple(Severity::Error, xs[k].0, 0..0, "unresolved type: "@ + xs[k].1, #[trigger] ds[k])
}

/// The collected aliases `out` are the entries `es`: each the symbol of the
/// full name, and the target.
pub open spec fn entries_ok(
    strs: Seq<Seq<char>>,
    out: Seq<(Sym, ResolvedType)>,
    es: Seq<(ParsedFile, SyntaxNode)>,
    tt: Map<Seq<char>, u32>,
    et: Map<Seq<char>, u32>,
) -> bool {
    &&& out.len() == es.len()
    &&& forall|i: int|
        0 <= i < out.len() ==> {
            &&& names(strs, (#[trigger] out[i]).0, entry_full(es[i]))
            &&& out[i].1 == entry_target(strs, es[i], tt, et)
            &&& entry_leaves(strs, es[i], tt, et)
        }
}

/// The type reference of an alias entry, if any, is a node of a
/// well-formed tree.
pub open spec fn entry_nodes_ok(e: (ParsedFile, SyntaxNode)) -> bool {
    match alias_type_ref(e.1) {
        Some(tr) => node_ok(tr),
        None => true,
    }
}

proof fn lemma_entries_grow(
    s1: Seq<Seq<char>>,
    s2: Seq<Seq<char>>,
    out: Seq<(Sym, ResolvedType)>,
    es: Seq<(ParsedFile, SyntaxNode)>,
    tt: Map<Seq<char>, u32>,
    et: Map<Seq<char>, u32>,
)
    requires
        entries_ok(s1, out, es, tt, et),
        grows(s1, s2),
        distinct(s2),
        forall|i: int| 0 <= i < es.len() ==> entry_nodes_ok(#[trigger] es[i]),
    ensures
        entries_ok(s2, out, es, tt, et),
{
    assert forall|i: int| 0 <= i < out.len() implies {
        &&& names(s2, (#[trigger] out[i]).0, entry_full(es[i]))
        &&& out[i].1 == entry_target(s2, es[i], tt, et)
        &&& entry_leaves(s2, es[i], tt, et)
    } by {
        assert(s2[out[i].0 as int] == s1[out[i].0 as int]);
        match alias_type_ref(es[i].1) {
            Some(tr) => {
                lemma_resolved_grow(s1, s2, tr, es[i].0.package@, file_imports(es[i].0), tt, et);
            },
            None => {},
        }
    }
}

proof fn lemma_aliased_step(ds: Seq<SyntaxNode>, d: SyntaxNode)
    ensures
        first_child(d, SyntaxKind::TypeAlias) is Some ==> aliased(ds.push(d)) == aliased(ds).push(d),
        first_child(d, SyntaxKind::TypeAlias) is None ==> aliased(ds.push(d)) == aliased(ds),
{
    assert(ds.push(d).drop_last() =~= ds);
}

proof fn lemma_entries_room_push(es: Seq<(ParsedFile, SyntaxNode)>, e: (ParsedFile, SyntaxNode))
    ensures
        entries_room(es.push(e)) == entries_room(es) + entry_room(e),
{
    assert(es.push(e).drop_last() =~= es);
}

proof fn lemma_entries_room_concat(a: Seq<(ParsedFile, SyntaxNode)>, b: Seq<(ParsedFile, SyntaxNode)>)
    ensures
        entries_room(a + b) == entries_room(a) + entries_room(b),
    decreases b.len(),
{
    if b.len() == 0 {
        assert(a + b =~= a);
    } else {
        lemma_entries_room_concat(a, b.drop_last());
        assert((a + b).drop_last() =~= a + b.drop_last());
        assert((a + b).last() == b.last());
    }
}

proof fn lemma_entries_unresolved_concat(
    a: Seq<(ParsedFile, SyntaxNode)>,
    b: Seq<(ParsedFile, SyntaxNode)>,
    tt: Map<Seq<char>, u32>,
    et: Map<Seq<char>, u32>,
)
    ensures
        entries_unresolved(a + b, tt, et) == entries_unresolved(a, tt, et) + entries_unresolved(b, tt, et),
    decreases b.len(),
{
    if b.len() == 0 {
        assert(a + b =~= a);
        assert(entries_unresolved(a, tt, et) + entries_unresolved(b, tt, et) =~= entries_unresolved(a, tt, et));
    } else {
        lemma_entries_unresolved_concat(a, b.drop_last(), tt, et);
        assert((a + b).drop_last() =~= a + b.drop_last());
        assert((a + b).last() == b.last());
        let x = entries_unresolved(a, tt, et);
        let y = entries_unresolved(b.drop_last(), tt, et);
        let z = match alias_type_ref(b.last().1) {
            Some(tr) => unresolved_in(tr, b.last().0.package@, file_imports(b.last().0), tt, et).map_values(
                |v: Seq<char>| (b.last().0.file_name@, v),
            ),
            None => Seq::empty(),
        };
        assert(x + y + z =~= x + (y + z));
    }
}

pub(crate) proof fn lemma_files_append(
    d0: Seq<Diagnostic>,
    d1: Seq<Diagnostic>,
    d2: Seq<Diagnostic>,
    m1: Seq<(Seq<char>, Seq<char>)>,
    m2: Seq<(Seq<char>, Seq<char>)>,
)
    requires
        grows(d0, d1),
        grows(d1, d2),
        reported_in_files(d1.skip(d0.len() as int), m1),
        reported_in_files(d2.skip(d1.len() as int), m2),
    ensures
        grows(d0, d2),
        reported_in_files(d2.skip(d0.len() as int), m1 + m2),
{
    assert forall|k: int| 0 <= k < d0.len() implies #[trigger] d2[k] == d0[k] by {
        assert(d2[k] == d1[k]);
    }
    let a = d1.skip(d0.len() as int);
    let b = d2.skip(d1.len() as int);
    assert(d2.skip(d0.len() as int) =~= a + b) by {
        assert forall|k: int| 0 <= k < a.len() implies #[trigger] d2[d0.len() + k] == a[k] by {
            assert(d2[d0.len() + k] == d1[d0.len() + k]);
        }
    }
}

pub(crate) proof fn lemma_in_file_reports(ds: Seq<Diagnostic>, xs: Seq<Seq<char>>, file: Seq<char>)
    requires
        unresolved_reported(ds, xs, file),
    ensures
        reported_in_files(ds, xs.map_values(|x: Seq<char>| (file, x))),
{
}

/// Collect the aliases that the type declarations of `file` declare, with
/// their targets resolved, appending them to `out`.
fn collect_file_aliases(
    file: &ParsedFile,
    interner: &mut Interner,
    symbols: &SymbolTable,
    diag: &mut Diagnostics,
    out: &mut Vec<(Sym, ResolvedType)>,
    Ghost(s0): Ghost<Seq<Seq<char>>>,
    Ghost(es): Ghost<Seq<(ParsedFile, SyntaxNode)>>,
)
    requires
        grows(s0, interned(*old(interner))),
        distinct(interned(*old(interner))),
        keys_below(symbols.types@, s0.len()),
        keys_below(symbols.enums@, s0.len()),
        interned(*old(interner)).len() + entries_room(file_entries(*file)) < u32::MAX,
        entries_ok(
            interned(*old(interner)),
            old(out)@,
            es,
            text_table(s0, symbols.types@),
            text_table(s0, symbols.enums@),
        ),
        forall|i: int| 0 <= i < es.len() ==> entry_nodes_ok(#[trigger] es[i]),
    ensures
        grows(interned(*old(interner)), interned(*final(interner))),
        distinct(interned(*final(interner))),
        interned(*final(interner)).len() <= interned(*old(interner)).len() + entries_room(file_entries(*file)),
        entries_ok(
            interned(*final(interner)),
            final(out)@,
            es + file_entries(*file),
            text_table(s0, symbols.types@),
            text_table(s0, symbols.enums@),
        ),
        forall|i: int|
            0 <= i < (es + file_entries(*file)).len() ==> entry_nodes_ok(#[trigger] (es + file_entries(*file))[i]),
        grows(old(diag)@, final(diag)@),
        reported_in_files(
            final(diag)@.skip(old(diag)@.len() as int),
            entries_unresolved(file_entries(*file), text_table(s0, symbols.types@), text_table(s0, symbols.enums@)),
        ),
{
    let ghost tt = text_table(s0, symbols.types@);
    let ghost et = text_table(s0, symbols.enums@);
    let ghost d0 = diag@;
    let ghost sa = interned(*interner);
    proof {
        assert(d0.skip(d0.len() as int) =~= Seq::<Diagnostic>::empty());
        assert forall|k: int| 0 <= k < d0.len() implies #[trigger] d0[k] == d0[k] by {}
        assert forall|k: int| 0 <= k < sa.len() implies #[trigger] sa[k] == sa[k] by {}
    }
    let root = match Root::cast(file.root.clone()) {
        Some(r) => r,
        None => {
            proof {
                assert(file_entries(*file) =~= Seq::<(ParsedFile, SyntaxNode)>::empty());
                assert(es + file_entries(*file) =~= es);
                assert(entries_unresolved(file_entries(*file), tt, et) =~= Seq::<(Seq<char>, Seq<char>)>::empty());
            }
            return;
        },
    };
    file.root.check_ok();
    let ghost f = *file;
    let ghost nodes = child_nodes(file.root, SyntaxKind::TypeDecl);
    let imports = collect_imports(&root);
    let decls = root.type_decls();
    proof {
        lemma_children_nodes(file.root, decls@, SyntaxKind::TypeDecl);
        lemma_child_nodes_below(file.root, SyntaxKind::TypeDecl);
        assert(nodes.take(0) =~= Seq::<SyntaxNode>::empty());
        assert(in_file(f, aliased(named(nodes.take(0)))) =~= Seq::<(ParsedFile, SyntaxNode)>::empty());
        assert(es + in_file(f, aliased(named(nodes.take(0)))) =~= es);
        lemma_entries_room_prefix(f, nodes, 0);
    }
    let mut i: usize = 0;
    while i < decls.len()
        invariant
            i <= decls@.len() == nodes.len(),
            f == *file,
            f.root.spec_kind() == SyntaxKind::Root,
            nodes == child_nodes(f.root, SyntaxKind::TypeDecl),
            forall|j: int| 0 <= j < decls@.len() ==> (#[trigger] decls@[j]).node() == nodes[j],
            forall|j: int| 0 <= j < nodes.len() ==> node_ok(#[trigger] nodes[j]),
            imports@ == file_imports(f),
            tt == text_table(s0, symbols.types@),
            et == text_table(s0, symbols.enums@),
            grows(s0, sa),
            grows(sa, interned(*interner)),
            distinct(interned(*interner)),
            keys_below(symbols.types@, s0.len()),
            keys_below(symbols.enums@, s0.len()),
            interned(*interner).len() <= sa.len() + entries_room(in_file(f, aliased(named(nodes.take(i as int))))),
            entries_room(in_file(f, aliased(named(nodes.take(i as int))))) <= entries_room(file_entries(f)),
            sa.len() + entries_room(file_entries(f)) < u32::MAX,
            entries_ok(interned(*interner), out@, es + in_file(f, aliased(named(nodes.take(i as int)))), tt, et),
            forall|k: int|
                0 <= k < (es + in_file(f, aliased(named(nodes.take(i as int))))).len() ==> entry_nodes_ok(
                    #[trigger] (es + in_file(f, aliased(named(nodes.take(i as int)))))[k],
                ),
            grows(d0, diag@),
            reported_in_files(
                diag@.skip(d0.len() as int),
                entries_unresolved(in_file(f, aliased(named(nodes.take(i as int)))), tt, et),
            ),
        decreases decls.len() - i,
    {
        let decl = &decls[i];
        let ghost node = nodes[i as int];
        let ghost prev = aliased(named(nodes.take(i as int)));
        proof {
            lemma_named_step(nodes, i as int);
            lemma_entries_room_prefix(f, nodes, i + 1);
        }
        let name_tok = decl.name();
        proof {
            lemma_name_token(node, name_tok);
        }
        let tok = match name_tok {
            Some(t) => t,
            None => {
                i += 1;
                continue;
            },
        };
        let alias = decl.alias();
        proof {
            lemma_first_child(node, alias, SyntaxKind::TypeAlias);
            lemma_aliased_step(named(nodes.take(i as int)), node);
        }
        let alias = match alias {
            Some(a) => a,
            None => {
                i += 1;
                continue;
            },
        };
        let ghost e = (f, node);
        let ghost cur = aliased(named(nodes.take(i + 1)));
        proof {
            assert(cur == prev.push(node));
            assert(in_file(f, cur) =~= in_file(f, prev).push(e));
            assert(es + in_file(f, cur) =~= (es + in_file(f, prev)).push(e));
            lemma_entries_room_push(in_file(f, prev), e);
            lemma_child_nodes_below(node, SyntaxKind::TypeAlias);
            lemma_child_nodes_below(alias.node(), SyntaxKind::TypeRef);
        }
        let ghost s1 = interned(*interner);
        let ghost o1 = out@;
        let ghost d1 = diag@;
        let name_text_s = tok.text();
        let full = qualify(file.package.as_str(), name_text_s.as_str());
        let full_sym = interner.intern(full.as_str());
        let ghost s_mid = interned(*interner);
        let tr = alias.type_ref();
        proof {
            lemma_first_child(alias.node(), tr, SyntaxKind::TypeRef);
            assert(s_mid.len() <= u32::MAX);
            assert forall|k: int| 0 <= k < s0.len() implies #[trigger] s_mid[k] == s0[k] by {
                assert(s1[k] == s0[k]);
            }
            lemma_text_table_grow(s0, s_mid, symbols.types@);
            lemma_text_table_grow(s0, s_mid, symbols.enums@);
            assert(name_text_s@ == name_text(node));
        }
        let target = match &tr {
            Some(t) => resolve_type_ref(
                t,
                interner,
                file.package.as_str(),
                &imports,
                symbols,
                diag,
                file.file_name.as_str(),
            ),
            None => ResolvedType::Error,
        };
        out.push((full_sym, target));
        proof {
            let s2 = interned(*interner);
            assert(s2.len() <= u32::MAX);
            lemma_text_table_grow(s0, s1, symbols.types@);
            lemma_text_table_grow(s0, s1, symbols.enums@);
            lemma_entries_grow(s1, s2, o1, es + in_file(f, prev), tt, et);
            assert(s2[full_sym as int] == interned(*interner)[full_sym as int]);
            let all = es + in_file(f, cur);
            assert(out@ =~= o1.push((full_sym, target)));
            assert forall|k: int| 0 <= k < out@.len() implies {
                &&& names(s2, (#[trigger] out@[k]).0, entry_full(all[k]))
                &&& out@[k].1 == entry_target(s2, all[k], tt, et)
                &&& entry_leaves(s2, all[k], tt, et)
            } by {
                if k < o1.len() {
                    assert(out@[k] == o1[k]);
                    assert(all[k] == (es + in_file(f, prev))[k]);
                } else {
                    assert(all[k] == e);
                    assert(s2[full_sym as int] == s_mid[full_sym as int]);
                    assert(entry_full(e) == full@);
                }
            }
            match tr {
                Some(t) => {
                    lemma_in_file_reports(
                        diag@.skip(d1.len() as int),
                        unresolved_in(t.node(), f.package@, file_imports(f), tt, et),
                        f.file_name@,
                    );
                },
                None => {
                    assert(diag@.skip(d1.len() as int) =~= Seq::<Diagnostic>::empty());
                    assert forall|k: int| 0 <= k < d1.len() implies #[trigger] diag@[k] == d1[k] by {}
                },
            }
            let part = match alias_type_ref(node) {
                Some(t) => unresolved_in(t, f.package@, file_imports(f), tt, et).map_values(
                    |x: Seq<char>| (f.file_name@, x),
                ),
                None => Seq::empty(),
            };
            assert(in_file(f, cur).drop_last() =~= in_file(f, prev));
            assert(in_file(f, cur).last() == e);
            assert(entries_unresolved(in_file(f, cur), tt, et) == entries_unresolved(in_file(f, prev), tt, et) + part);
            lemma_files_append(d0, d1, diag@, entries_unresolved(in_file(f, prev), tt, et), part);
            assert forall|k: int| 0 <= k < sa.len() implies #[trigger] interned(*interner)[k] == sa[k] by {
                assert(s1[k] == sa[k]);
            }
        }
        i += 1;
    }
    proof {
        assert(nodes.take(nodes.len() as int) =~= nodes);
    }
}

proof fn lemma_entries_room_prefix(f: ParsedFile, nodes: Seq<SyntaxNode>, i: int)
    requires
        0 <= i <= nodes.len(),
        f.root.spec_kind() == SyntaxKind::Root,
        nodes == child_nodes(f.root, SyntaxKind::TypeDecl),
    ensures
        entries_room(in_file(f, aliased(named(nodes.take(i))))) <= entries_room(file_entries(f)),
    decreases nodes.len() - i,
{
    if i < nodes.len() {
        lemma_entries_room_prefix(f, nodes, i + 1);
        lemma_named_step(nodes, i);
        let prev = aliased(named(nodes.take(i)));
        lemma_aliased_step(named(nodes.take(i)), nodes[i]);
        if name_bytes(nodes[i]) is Some && first_child(nodes[i], SyntaxKind::TypeAlias) is Some {
            assert(in_file(f, prev.push(nodes[i])) =~= in_file(f, prev).push((f, nodes[i])));
            lemma_entries_room_push(in_file(f, prev), (f, nodes[i]));
        }
    } else {
        assert(nodes.take(i) =~= nodes);
    }
}

/// Expand type aliases: each `type Name = T;` of the files, in order,
/// resolves `T`; then, alias by alias, every reference to the alias's type
/// in the fields and oneof fields of all types, and in the inputs and
/// outputs of all service calls, becomes `T`. Aliases whose full name is
/// not a type change nothing. Resolving reports unresolved names.
pub fn expand_type_aliases(
    files: &[ParsedFile],
    interner: &mut Interner,
    arenas: &mut Arenas,
    symbols: &mut SymbolTable,
    diag: &mut Diagnostics,
)
    requires
        distinct(interned(*old(interner))),
        keys_below(old(symbols).types@, interned(*old(interner)).len()),
        keys_below(old(symbols).enums@, interned(*old(interner)).len()),
        interned(*old(interner)).len() + entries_room(alias_entries(files@)) < u32::MAX,
        type_defs(old(arenas).types).len() <= u32::MAX,
        service_defs(old(arenas).services).len() <= u32::MAX,
    ensures
        *final(symbols) == *old(symbols),
        grows(interned(*old(interner)), interned(*final(interner))),
        distinct(interned(*final(interner))),
        interned(*final(interner)).len() <= interned(*old(interner)).len() + entries_room(alias_entries(files@)),
        ({
            let tt = text_table(interned(*old(interner)), old(symbols).types@);
            let et = text_table(interned(*old(interner)), old(symbols).enums@);
            let subs = alias_substitutions(interned(*final(interner)), alias_entries(files@), tt, et);
            &&& type_defs(final(arenas).types).len() == type_defs(old(arenas).types).len()
            &&& forall|t: int|
                0 <= t < type_defs(old(arenas).types).len() ==> type_substituted(
                    type_defs(old(arenas).types)[t],
                    #[trigger] type_defs(final(arenas).types)[t],
                    subs,
                )
            &&& service_defs(final(arenas).services).len() == service_defs(old(arenas).services).len()
            &&& forall|t: int|
                0 <= t < service_defs(old(arenas).services).len() ==> service_substituted(
                    service_defs(old(arenas).services)[t],
                    #[trigger] service_defs(final(arenas).services)[t],
                    subs,
                )
            &&& grows(old(diag)@, final(diag)@)
            &&& reported_in_files(
                final(diag)@.skip(old(diag)@.len() as int),
                entries_unresolved(alias_entries(files@), tt, et),
            )
        }),
        final(arenas).enums == old(arenas).enums,
        final(arenas).shapes == old(arenas).shapes,
        final(arenas).annotation_defs == old(arenas).annotation_defs,
{
    let ghost s0 = interned(*interner);
    let ghost tt = text_table(s0, symbols.types@);
    let ghost et = text_table(s0, symbols.enums@);
    let ghost d0 = diag@;
    let ghost fs = files@;
    let mut aliases: Vec<(Sym, ResolvedType)> = Vec::new();
    proof {
        assert(d0.skip(d0.len() as int) =~= Seq::<Diagnostic>::empty());
        assert forall|k: int| 0 <= k < d0.len() implies #[trigger] d0[k] == d0[k] by {}
        assert forall|k: int| 0 <= k < s0.len() implies #[trigger] s0[k] == s0[k] by {}
        assert(fs.take(0) =~= Seq::<ParsedFile>::empty());
        lemma_alias_entries_room_prefix(fs, 0);
    }
    let mut i: usize = 0;
    while i < files.len()
        invariant
            i <= fs.len(),
            fs == files@,
            tt == text_table(s0, symbols.types@),
            et == text_table(s0, symbols.enums@),
            grows(s0, interned(*interner)),
            distinct(interned(*interner)),
            keys_below(symbols.types@, s0.len()),
            keys_below(symbols.enums@, s0.len()),
            interned(*interner).len() <= s0.len() + entries_room(alias_entries(fs.take(i as int))),
            entries_room(alias_entries(fs.take(i as int))) <= entries_room(alias_entries(fs)),
            s0.len() + entries_room(alias_entries(fs)) < u32::MAX,
            entries_ok(interned(*interner), aliases@, alias_entries(fs.take(i as int)), tt, et),
            forall|k: int|
                0 <= k < alias_entries(fs.take(i as int)).len() ==> entry_nodes_ok(
                    #[trigger] alias_entries(fs.take(i as int))[k],
                ),
            grows(d0, diag@),
            reported_in_files(diag@.skip(d0.len() as int), entries_unresolved(alias_entries(fs.take(i as int)), tt, et)),
            *symbols == *old(symbols),
            *arenas == *old(arenas),
        decreases fs.len() - i,
    {
        let ghost d1 = diag@;
        let ghost pre = alias_entries(fs.take(i as int));
        proof {
            assert(fs.take(i + 1).drop_last() =~= fs.take(i as int));
            assert(fs.take(i + 1).last() == fs[i as int]);
            lemma_alias_entries_room_prefix(fs, i + 1);
            lemma_entries_room_concat(pre, file_entries(fs[i as int]));
            lemma_entries_unresolved_concat(pre, file_entries(fs[i as int]), tt, et);
        }
        collect_file_aliases(&files[i], interner, symbols, diag, &mut aliases, Ghost(s0), Ghost(pre));
        proof {
            lemma_files_append(
                d0,
                d1,
                diag@,
                entries_unresolved(pre, tt, et),
                entries_unresolved(file_entries(fs[i as int]), tt, et),
            );
        }
        i += 1;
    }
    proof {
        assert(fs.take(fs.len() as int) =~= fs);
    }
    let ghost sf = interned(*interner);
    let ghost es = alias_entries(fs);
    let ghost types0 = type_defs(arenas.types);
    let ghost services0 = service_defs(arenas.services);
    let lens = arena_lens(arenas);
    let nt = lens.0;
    let ns = lens.2;
    proof {
        assert(es.take(0) =~= Seq::<(ParsedFile, SyntaxNode)>::empty());
        assert forall|t: int| 0 <= t < types0.len() implies type_substituted(
            types0[t],
            #[trigger] type_defs(arenas.types)[t],
            alias_substitutions(sf, es.take(0), tt, et),
        ) by {
            lemma_type_substituted_none(types0[t]);
        }
        assert forall|t: int| 0 <= t < services0.len() implies service_substituted(
            services0[t],
            #[trigger] service_defs(arenas.services)[t],
            alias_substitutions(sf, es.take(0), tt, et),
        ) by {
            lemma_service_substituted_none(services0[t]);
        }
    }
    let mut j: usize = 0;
    while j < aliases.len()
        invariant
            j <= aliases@.len() == es.len(),
            es == alias_entries(fs),
            sf == interned(*interner),
            grows(s0, sf),
            distinct(sf),
            keys_below(symbols.types@, s0.len()),
            tt == text_table(s0, symbols.types@),
            entries_ok(sf, aliases@, es, tt, et),
            nt == types0.len(),
            ns == services0.len(),
            nt <= u32::MAX,
            ns <= u32::MAX,
            type_defs(arenas.types).len() == nt,
            service_defs(arenas.services).len() == ns,
            forall|t: int|
                0 <= t < nt ==> type_substituted(
                    types0[t],
                    #[trigger] type_defs(arenas.types)[t],
                    alias_substitutions(sf, es.take(j as int), tt, et),
                ),
            forall|t: int|
                0 <= t < ns ==> service_substituted(
                    services0[t],
                    #[trigger] service_defs(arenas.services)[t],
                    alias_substitutions(sf, es.take(j as int), tt, et),
                ),
            arenas.enums == old(arenas).enums,
            arenas.shapes == old(arenas).shapes,
            arenas.annotation_defs == old(arenas).annotation_defs,
        decreases aliases.len() - j,
    {
        let ghost subs = alias_substitutions(sf, es.take(j as int), tt, et);
        let sym = aliases[j].0;
        let target = &aliases[j].1;
        proof {
            assert(es.take(j + 1).drop_last() =~= es.take(j as int));
            assert(es.take(j + 1).last() == es[j as int]);
            lemma_lookup(s0, sf, symbols.types@, sym, entry_full(es[j as int]));
        }
        match symbols.types.get(&sym) {
            Some(alias_id) => {
                let alias_id = *alias_id;
                let ghost subs2 = subs.push((alias_id, *target));
                proof {
                    assert(alias_substitutions(sf, es.take(j + 1), tt, et) == subs2);
                }
                let mut t: usize = 0;
                while t < nt
                    invariant
                        t <= nt == types0.len(),
                        nt <= u32::MAX,
                        type_defs(arenas.types).len() == nt,
                        subs2 == subs.push((alias_id, *target)),
                        forall|u: int|
                            0 <= u < nt ==> type_substituted(
                                types0[u],
                                #[trigger] type_defs(arenas.types)[u],
                                if u < t { subs2 } else { subs },
                            ),
                        ns == services0.len(),
                        service_defs(arenas.services).len() == ns,
                        forall|u: int|
                            0 <= u < ns ==> service_substituted(
                                services0[u],
                                #[trigger] service_defs(arenas.services)[u],
                                subs,
                            ),
                        arenas.enums == old(arenas).enums,
                        arenas.shapes == old(arenas).shapes,
                        arenas.annotation_defs == old(arenas).annotation_defs,
                    decreases nt - t,
                {
                    let ghost before = type_defs(arenas.types);
                    let def = type_def_mut(&mut arenas.types, t as TypeId);
                    replace_in_type(def, alias_id, target, Ghost(types0[t as int]), Ghost(subs));
                    proof {
                        assert forall|u: int| 0 <= u < nt implies type_substituted(
                            types0[u],
                            #[trigger] type_defs(arenas.types)[u],
                            if u < t + 1 { subs2 } else { subs },
                        ) by {
                            if u != t as int {
                                assert(type_defs(arenas.types)[u] == before[u]);
                            }
                        }
                    }
                    t += 1;
                }
                let mut v: usize = 0;
                while v < ns
                    invariant
                        v <= ns == services0.len(),
                        ns <= u32::MAX,
                        service_defs(arenas.services).len() == ns,
                        subs2 == subs.push((alias_id, *target)),
                        forall|u: int|
                            0 <= u < ns ==> service_substituted(
                                services0[u],
                                #[trigger] service_defs(arenas.services)[u],
                                if u < v { subs2 } else { subs },
                            ),
                        nt == types0.len(),
                        type_defs(arenas.types).len() == nt,
                        forall|u: int|
                            0 <= u < nt ==> type_substituted(
                                types0[u],
                                #[trigger] type_defs(arenas.types)[u],
                                subs2,
                            ),
                        arenas.enums == old(arenas).enums,
                        arenas.shapes == old(arenas).shapes,
                        arenas.annotation_defs == old(arenas).annotation_defs,
                    decreases ns - v,
                {
                    let ghost before = service_defs(arenas.services);
                    let def = service_def_mut(&mut arenas.services, v as ServiceId);
                    replace_in_service(def, alias_id, target, Ghost(services0[v as int]), Ghost(subs));
                    proof {
                        assert forall|u: int| 0 <= u < ns implies service_substituted(
                            services0[u],
                            #[trigger] service_defs(arenas.services)[u],
                            if u < v + 1 { subs2 } else { subs },
                        ) by {
                            if u != v as int {
                                assert(service_defs(arenas.services)[u] == before[u]);
                            }
                        }
                    }
                    v += 1;
                }
            },
            None => {
                proof {
                    assert(alias_substitutions(sf, es.take(j + 1), tt, et) == subs);
                }
            },
        }
        j += 1;
    }
    proof {
        assert(es.take(es.len() as int) =~= es);
    }
}

proof fn lemma_type_substituted_none(a: TypeDef)
    ensures
        type_substituted(a, a, Seq::empty()),
{
    assert forall|j: int| 0 <= j < a.fields@.len() implies #[trigger] a.fields@[j] == field_with_ty(
        a.fields@[j],
        substituted(a.fields@[j].ty, Seq::empty()),
    ) by {}
}

proof fn lemma_service_substituted_none(a: ServiceDef)
    ensures
        service_substituted(a, a, Seq::empty()),
{
}

proof fn lemma_alias_entries_room_prefix(fs: Seq<ParsedFile>, i: int)
    requires
        0 <= i <= fs.len(),
    ensures
        entries_room(alias_entries(fs.take(i))) <= entries_room(alias_entries(fs)),
    decreases fs.len() - i,
{
    if i < fs.len() {
        lemma_alias_entries_room_prefix(fs, i + 1);
        assert(fs.take(i + 1).drop_last() =~= fs.take(i));
        lemma_entries_room_concat(alias_entries(fs.take(i)), file_entries(fs.take(i + 1).last()));
    } else {
        assert(fs.take(i) =~= fs);
    }
}

// ── Annotation values ──────────────────────────────────────────────────

/// The literal that the text of an annotation value denotes, trimmed: a
/// quoted string, `true`, `false`, an `i64`, a float (kept as its text),
/// or else an identifier.
pub open spec fn literal_of(sf: Seq<Seq<char>>, text: Seq<char>) -> LiteralValue {
    let t = trimmed(text);
    if t.len() >= 2 && t[0] == '"' && t.last() == '"' {
        LiteralValue::String(sym_for(sf, t.subrange(1, t.len() - 1)))
    } else if t == "true"@ {
        LiteralValue::Bool(true)
    } else if t == "false"@ {
        LiteralValue::Bool(false)
    } else {
        match i64_of(t) {
            Some(v) => LiteralValue::Int(v),
            None => if is_float_text(t) {
                LiteralValue::Float(sym_for(sf, t))
            } else {
                LiteralValue::Ident(sym_for(sf, t))
            },
        }
    }
}

/// The string that the literal of `text` interns, if any.
pub open spec fn literal_string(text: Seq<char>) -> Option<Seq<char>> {
    let t = trimmed(text);
    if t.len() >= 2 && t[0] == '"' && t.last() == '"' {
        Some(t.subrange(1, t.len() - 1))
    } else if t == "true"@ || t == "false"@ || i64_of(t) is Some {
        None
    } else {
        Some(t)
    }
}

pub(crate) proof fn lemma_literal_grow(s1: Seq<Seq<char>>, s2: Seq<Seq<char>>, text: Seq<char>)
    requires
        grows(s1, s2),
        distinct(s2),
        literal_string(text) matches Some(x) ==> s1.contains(x),
    ensures
        literal_of(s2, text) == literal_of(s1, text),
        literal_string(text) matches Some(x) ==> s2.contains(x),
{
    if let Some(x) = literal_string(text) {
        let i = s1.index_of(x);
        assert(s2[i] == s1[i]);
        lemma_index_of(s2, i, x);
    }
}

fn chars_equal(a: &Vec<char>, b: &Vec<char>) -> (r: bool)
    ensures
        r == (a@ == b@),
{
    if a.len() != b.len() {
        return false;
    }
    let mut i: usize = 0;
    while i < a.len()
        invariant
            i <= a@.len() == b@.len(),
            forall|k: int| 0 <= k < i ==> a@[k] == b@[k],
        decreases a.len() - i,
    {
        if a[i] != b[i] {
            return false;
        }
        i += 1;
    }
    proof {
        assert(a@ =~= b@);
    }
    true
}

/// The literal that an annotation value denotes, its strings interned.
pub(crate) fn parse_annotation_value(value: &AnnotationValue, interner: &mut Interner) -> (r: LiteralValue)
    requires
        distinct(interned(*old(interner))),
        interned(*old(interner)).len() + 1 < u32::MAX,
    ensures
        grows(interned(*old(interner)), interned(*final(interner))),
        distinct(interned(*final(interner))),
        interned(*final(interner)).len() <= interned(*old(interner)).len() + 1,
        r == literal_of(interned(*final(interner)), text_of(value.node().node_bytes())),
        literal_string(text_of(value.node().node_bytes())) matches Some(x) ==> interned(*final(interner)).contains(x),
{
    let text = value.syntax().text();
    let v = chars_of(text.as_str());
    let (a, b) = trim_bounds(&v);
    let t = trim_chars(&v);
    let ghost s0 = interned(*interner);
    proof {
        assert forall|k: int| 0 <= k < s0.len() implies #[trigger] s0[k] == s0[k] by {}
        if a < b {
            assert(t@ == text@.subrange(a as int, b as int));
        }
    }
    let n = t.len();
    if n >= 2 && t[0] == '"' && t[n - 1] == '"' {
        proof {
            assert(t@.last() == t@[n - 1]);
            assert(a < b);
            assert(t@.subrange(1, n - 1) =~= text@.subrange(a + 1, b - 1));
        }
        let inner = text.as_str().substring_char(a + 1, b - 1);
        let sym = interner.intern(inner);
        proof {
            lemma_index_of(interned(*interner), sym as int, inner@);
        }
        return LiteralValue::String(sym);
    }
    if chars_equal(&t, &chars_of("true")) {
        return LiteralValue::Bool(true);
    }
    if chars_equal(&t, &chars_of("false")) {
        return LiteralValue::Bool(false);
    }
    match parse_i64(&t) {
        Some(i) => {
            return LiteralValue::Int(i);
        },
        None => {},
    }
    let is_float = float_text(&t);
    let whole: &str = if a < b {
        text.as_str().substring_char(a, b)
    } else {
        ""
    };
    proof {
        if a < b {
            assert(whole@ == t@);
        } else {
            reveal_strlit("");
            assert(whole@ =~= t@);
        }
    }
    let sym = interner.intern(whole);
    proof {
        lemma_index_of(interned(*interner), sym as int, whole@);
    }
    if is_float {
        LiteralValue::Float(sym)
    } else {
        LiteralValue::Ident(sym)
    }
}

} // verus!
