//! Resolving the calls of services: their inputs and outputs, with the
//! types written in place allocated as new message types.

use vstd::prelude::*;
use crate::ast::{AstNode, FieldDecl, InlineType, RpcDecl, RpcParam, Root, ServiceDecl, annotation_nodes, lemma_annotation_nodes};
use crate::diagnostics::{Diagnostic, Diagnostics};
use crate::hir::{
    Arenas, FieldDef, Interner, Loc, ResolvedType, RpcDef, RpcParamDef, ServiceDef, Sym, SymbolTable, TypeDef, TypeId,
    alloc_type, distinct, interned, names, service_def_mut, service_defs, type_defs,
};
use crate::index::{
    ParsedFile, child_nodes, first_child, grows, keys_below, lemma_children_nodes, lemma_first_child, lemma_name_token,
    lemma_named_step, name_bytes, name_text, named, qualified, qualify,
};
use crate::populate::{
    calls_of, calls_room, call_nodes, collect_annotation_calls, collect_oneofs, decl_nodes, field_number, kept_oneofs,
    lemma_calls_grow, lemma_grows_trans, lemma_kept_oneofs, lemma_named_ok, lemma_oneofs_grow, oneofs_of, oneofs_room,
    oneofs_unresolved, shape_fields_unresolved,
};
use crate::resolve::{
    ImportMap, collect_imports, file_imports, leaves_in, lemma_child_nodes_below, lemma_files_append, lemma_in_file_reports,
    lemma_index_of, lemma_lookup, lemma_resolved_grow, lemma_text_table_grow, lemma_unresolved_append, reported_in_files,
    resolve_type_ref, resolved, text_table, type_room, unresolved_in, unresolved_reported,
};
use crate::syntax_kind::SyntaxKind;
use crate::tree::{SyntaxNode, TokenSelect, node_ok, node_slots, token_slots};

verus! {

// ── Fields of types written in place ───────────────────────────────────

/// `d` is the field that declaration `f` of a type written in place gives:
/// its type resolved where it has one (an error, neither optional nor
/// repeated, where it has none), no mapping.
pub open spec fn inline_field_def_of(
    strs: Seq<Seq<char>>,
    d: FieldDef,
    f: SyntaxNode,
    pkg: Seq<char>,
    imps: Map<Seq<char>, Seq<char>>,
    tt: Map<Seq<char>, u32>,
    et: Map<Seq<char>, u32>,
) -> bool {
    &&& names(strs, d.name, name_text(f))
    &&& d.number == field_number(f)
    &&& match first_child(f, SyntaxKind::TypeRef) {
        Some(tr) => {
            &&& d.ty == resolved(strs, tr, pkg, imps, tt, et)
            &&& leaves_in(strs, tr, pkg, imps, tt, et)
            &&& d.is_optional == (node_slots(tr.tree(), tr.elements(), SyntaxKind::OptionalMarker).len() > 0)
            &&& d.is_repeated == (first_child(tr, SyntaxKind::ArrayType) is Some)
        },
        None => d.ty == ResolvedType::Error && !d.is_optional && !d.is_repeated,
    }
    &&& calls_of(strs, d.annotations@, annotation_nodes(f))
    &&& d.mapping is None
    &&& d.trace is None
    &&& d.loc.file is None
    &&& d.loc.span == (0usize..0usize)
}

/// `ds` are the fields that the declarations `fs` give, in order.
pub open spec fn inline_fields_of(
    strs: Seq<Seq<char>>,
    ds: Seq<FieldDef>,
    fs: Seq<SyntaxNode>,
    pkg: Seq<char>,
    imps: Map<Seq<char>, Seq<char>>,
    tt: Map<Seq<char>, u32>,
    et: Map<Seq<char>, u32>,
) -> bool {
    &&& ds.len() == fs.len()
    &&& forall|i: int| 0 <= i < ds.len() ==> inline_field_def_of(strs, #[trigger] ds[i], fs[i], pkg, imps, tt, et)
}

/// How many strings field declaration `f` of a type written in place may intern.
pub open spec fn inline_field_room(f: SyntaxNode) -> nat {
    if name_bytes(f) is Some {
        1 + (match first_child(f, SyntaxKind::TypeRef) {
            Some(tr) => type_room(tr),
            None => 0,
        }) + calls_room(annotation_nodes(f))
    } else {
        0
    }
}

/// How many strings the field declarations `fs` may intern.
pub open spec fn inline_fields_room(fs: Seq<SyntaxNode>) -> nat
    decreases fs.len(),
{
    if fs.len() == 0 {
        0
    } else {
        inline_fields_room(fs.drop_last()) + inline_field_room(fs.last())
    }
}

pub(crate) proof fn lemma_inline_fields_grow(
    s1: Seq<Seq<char>>,
    s2: Seq<Seq<char>>,
    ds: Seq<FieldDef>,
    fs: Seq<SyntaxNode>,
    pkg: Seq<char>,
    imps: Map<Seq<char>, Seq<char>>,
    tt: Map<Seq<char>, u32>,
    et: Map<Seq<char>, u32>,
)
    requires
        forall|i: int| 0 <= i < fs.len() ==> node_ok(#[trigger] fs[i]),
        grows(s1, s2),
        distinct(s2),
        inline_fields_of(s1, ds, fs, pkg, imps, tt, et),
    ensures
        inline_fields_of(s2, ds, fs, pkg, imps, tt, et),
{
    assert forall|i: int| 0 <= i < ds.len() implies inline_field_def_of(s2, #[trigger] ds[i], fs[i], pkg, imps, tt, et) by {
        let f = fs[i];
        if let Some(tr) = first_child(f, SyntaxKind::TypeRef) {
            lemma_child_nodes_below(f, SyntaxKind::TypeRef);
            lemma_resolved_grow(s1, s2, tr, pkg, imps, tt, et);
        }
        lemma_calls_grow(s1, s2, ds[i].annotations@, annotation_nodes(f));
        assert(s2[ds[i].name as int] == s1[ds[i].name as int]);
    }
}

proof fn lemma_inline_fields_step(fs: Seq<SyntaxNode>, i: int)
    requires
        0 <= i < fs.len(),
    ensures
        inline_fields_room(fs.take(i + 1)) == inline_fields_room(fs.take(i)) + inline_field_room(fs[i]),
        inline_fields_room(fs.take(i + 1)) <= inline_fields_room(fs),
    decreases fs.len(),
{
    assert(fs.take(i + 1).drop_last() =~= fs.take(i));
    if i + 1 < fs.len() {
        lemma_inline_fields_step(fs.drop_last(), i);
        assert(fs.drop_last().take(i + 1) =~= fs.take(i + 1));
        assert(fs.drop_last().take(i) =~= fs.take(i));
    } else {
        assert(fs.take(i + 1) =~= fs);
    }
}

/// The fields of a type written in place: each declaration with a name,
/// its type resolved (an error where it has none), its annotations
/// collected.
fn collect_inline_fields(
    fields: &Vec<FieldDecl>,
    interner: &mut Interner,
    pkg: &str,
    imports: &ImportMap,
    symbols: &SymbolTable,
    diag: &mut Diagnostics,
    file_name: &str,
) -> (r: Vec<FieldDef>)
    requires
        forall|i: int| 0 <= i < fields@.len() ==> node_ok(#[trigger] fields@[i].node()),
        distinct(interned(*old(interner))),
        interned(*old(interner)).len() + inline_fields_room(decl_nodes(fields@)) < u32::MAX,
        keys_below(symbols.types@, interned(*old(interner)).len()),
        keys_below(symbols.enums@, interned(*old(interner)).len()),
    ensures
        grows(interned(*old(interner)), interned(*final(interner))),
        distinct(interned(*final(interner))),
        interned(*final(interner)).len() <= interned(*old(interner)).len() + inline_fields_room(decl_nodes(fields@)),
        inline_fields_of(
            interned(*final(interner)),
            r@,
            named(decl_nodes(fields@)),
            pkg@,
            imports@,
            text_table(interned(*old(interner)), symbols.types@),
            text_table(interned(*old(interner)), symbols.enums@),
        ),
        grows(old(diag)@, final(diag)@),
        unresolved_reported(
            final(diag)@.skip(old(diag)@.len() as int),
            shape_fields_unresolved(
                decl_nodes(fields@),
                pkg@,
                imports@,
                text_table(interned(*old(interner)), symbols.types@),
                text_table(interned(*old(interner)), symbols.enums@),
            ),
            file_name@,
        ),
{
    let ghost s0 = interned(*interner);
    let ghost tt = text_table(s0, symbols.types@);
    let ghost et = text_table(s0, symbols.enums@);
    let ghost d0 = diag@;
    let ghost fs = decl_nodes(fields@);
    proof {
        assert(d0.skip(d0.len() as int) =~= Seq::<Diagnostic>::empty());
        assert forall|k: int| 0 <= k < d0.len() implies #[trigger] d0[k] == d0[k] by {}
        assert forall|k: int| 0 <= k < s0.len() implies #[trigger] s0[k] == s0[k] by {}
        assert(fs.take(0) =~= Seq::<SyntaxNode>::empty());
    }
    let mut out: Vec<FieldDef> = Vec::new();
    let mut i: usize = 0;
    while i < fields.len()
        invariant
            fs == decl_nodes(fields@),
            forall|k: int| 0 <= k < fs.len() ==> node_ok(#[trigger] fs[k]),
            i <= fields@.len(),
            s0.len() + inline_fields_room(fs) < u32::MAX,
            keys_below(symbols.types@, s0.len()),
            keys_below(symbols.enums@, s0.len()),
            tt == text_table(s0, symbols.types@),
            et == text_table(s0, symbols.enums@),
            grows(s0, interned(*interner)),
            distinct(interned(*interner)),
            interned(*interner).len() <= s0.len() + inline_fields_room(fs.take(i as int)),
            inline_fields_of(interned(*interner), out@, named(fs.take(i as int)), pkg@, imports@, tt, et),
            grows(d0, diag@),
            unresolved_reported(diag@.skip(d0.len() as int), shape_fields_unresolved(fs.take(i as int), pkg@, imports@, tt, et), file_name@),
        decreases fields.len() - i,
    {
        let ghost s1 = interned(*interner);
        let ghost d1 = diag@;
        let f = &fields[i];
        let ghost fnode = f.node();
        proof {
            lemma_inline_fields_step(fs, i as int);
            crate::populate::lemma_shape_fields_step(fs, i as int);
            lemma_named_step(fs, i as int);
            assert(fs[i as int] == fnode);
            assert forall|k: int| 0 <= k < fs.take(i as int).len() implies node_ok(#[trigger] fs.take(i as int)[k]) by {
                assert(fs.take(i as int)[k] == fs[k]);
            }
            lemma_named_ok(fs.take(i as int));
        }
        let nm = f.name();
        proof {
            lemma_name_token(fnode, nm);
        }
        let name = match nm {
            Some(t) => t.text(),
            None => {
                proof {
                    assert(d1.skip(d0.len() as int) == diag@.skip(d0.len() as int));
                }
                i += 1;
                continue;
            },
        };
        let number = match f.field_number() {
            Some(n) => n,
            None => 0,
        };
        let tro = f.type_ref();
        proof {
            lemma_first_child(fnode, tro, SyntaxKind::TypeRef);
            lemma_child_nodes_below(fnode, SyntaxKind::TypeRef);
            lemma_text_table_grow(s0, s1, symbols.types@);
            lemma_text_table_grow(s0, s1, symbols.enums@);
        }
        let is_optional = match &tro {
            Some(tr) => tr.is_optional(),
            None => false,
        };
        let is_repeated = match &tro {
            Some(tr) => {
                let arr = tr.array_type();
                proof {
                    lemma_first_child(tr.node(), arr, SyntaxKind::ArrayType);
                }
                arr.is_some()
            },
            None => false,
        };
        let ty = match &tro {
            Some(tr) => resolve_type_ref(tr, interner, pkg, imports, symbols, diag, file_name),
            None => ResolvedType::Error,
        };
        let ghost s2 = interned(*interner);
        let ghost d2 = diag@;
        proof {
            if tro is None {
                assert(d2.skip(d1.len() as int) =~= Seq::<Diagnostic>::empty());
            }
        }
        let anns = f.annotations();
        proof {
            lemma_annotation_nodes(fnode, anns@);
            assert(call_nodes(anns@) =~= annotation_nodes(fnode));
        }
        let annotations = collect_annotation_calls(anns.as_slice(), interner);
        let ghost s3 = interned(*interner);
        let name_sym = interner.intern(name.as_str());
        let ghost s4 = interned(*interner);
        proof {
            lemma_index_of(s4, name_sym as int, name@);
            lemma_grows_trans(s2, s3, s4);
            lemma_grows_trans(s1, s2, s4);
            lemma_grows_trans(s0, s1, s4);
            if let Some(tr) = tro {
                lemma_resolved_grow(s2, s4, tr.node(), pkg@, imports@, tt, et);
            }
            lemma_calls_grow(s3, s4, annotations@, annotation_nodes(fnode));
            lemma_inline_fields_grow(s1, s4, out@, named(fs.take(i as int)), pkg@, imports@, tt, et);
            let u = match first_child(fnode, SyntaxKind::TypeRef) {
                Some(tr) => unresolved_in(tr, pkg@, imports@, tt, et),
                None => Seq::<Seq<char>>::empty(),
            };
            lemma_unresolved_append(d0, d1, d2, shape_fields_unresolved(fs.take(i as int), pkg@, imports@, tt, et), u, file_name@);
        }
        let fd = FieldDef {
            name: name_sym,
            number,
            ty,
            is_optional,
            is_repeated,
            annotations,
            mapping: None,
            trace: None,
            loc: Loc::default(),
        };
        proof {
            assert(inline_field_def_of(s4, fd, fnode, pkg@, imports@, tt, et));
        }
        out.push(fd);
        proof {
            assert forall|k: int| 0 <= k < out@.len() implies inline_field_def_of(s4, #[trigger] out@[k], named(fs.take(i as int + 1))[k], pkg@, imports@, tt, et) by {
                if k < out@.len() - 1 {
                    assert(out@[k] == out@.drop_last()[k]);
                }
            }
        }
        i += 1;
    }
    proof {
        assert(fs.take(fields@.len() as int) =~= fs);
    }
    out
}

// ── Inputs and outputs ─────────────────────────────────────────────────

/// Whether rpc parameter `p` is `void`.
pub open spec fn param_is_void(p: SyntaxNode) -> bool {
    token_slots(p.tree(), p.elements(), TokenSelect::Kind(SyntaxKind::KwVoid)).len() > 0
}

/// Whether rpc parameter `p` is a stream.
pub open spec fn param_is_stream(p: SyntaxNode) -> bool {
    token_slots(p.tree(), p.elements(), TokenSelect::Kind(SyntaxKind::KwStream)).len() > 0
}

/// The type that rpc parameter `p` writes in place, where it allocates one:
/// it is not `void` and has no type reference.
pub open spec fn param_inline(p: SyntaxNode) -> Option<SyntaxNode> {
    if !param_is_void(p) && first_child(p, SyntaxKind::TypeRef) is None {
        first_child(p, SyntaxKind::InlineType)
    } else {
        None
    }
}

/// The name of the type written in place for the input (or output) of rpc
/// `rpc` of service `svc`.
pub open spec fn inline_type_name(svc: Seq<char>, rpc: Seq<char>, is_input: bool) -> Seq<char> {
    svc + seq!['_'] + rpc + if is_input {
        "Request"@
    } else {
        "Response"@
    }
}

/// `td` is the message type that the type written in place `inl` gives,
/// named `inline_name` in package `pkg`: its fields and oneofs, and nothing else.
pub open spec fn inline_type_def_of(
    strs: Seq<Seq<char>>,
    td: TypeDef,
    inl: SyntaxNode,
    inline_name: Seq<char>,
    pkg: Seq<char>,
    imps: Map<Seq<char>, Seq<char>>,
    tt: Map<Seq<char>, u32>,
    et: Map<Seq<char>, u32>,
) -> bool {
    &&& names(strs, td.name, inline_name)
    &&& names(strs, td.full_name, qualified(pkg, inline_name))
    &&& inline_fields_of(strs, td.fields@, named(child_nodes(inl, SyntaxKind::FieldDecl)), pkg, imps, tt, et)
    &&& oneofs_of(strs, td.oneofs@, kept_oneofs(child_nodes(inl, SyntaxKind::OneofDecl)), pkg, imps, tt, et)
    &&& td.nested_types@.len() == 0
    &&& td.nested_enums@.len() == 0
    &&& td.annotations@.len() == 0
    &&& td.back_references@.len() == 0
    &&& td.trace is None
    &&& td.loc.file is None
    &&& td.loc.span == (0usize..0usize)
}

/// `pd` is what the rpc parameter `po` gives (`void` where there is none),
/// a type written in place becoming message type `id`.
pub open spec fn param_def_of(
    strs: Seq<Seq<char>>,
    pd: RpcParamDef,
    po: Option<SyntaxNode>,
    id: int,
    pkg: Seq<char>,
    imps: Map<Seq<char>, Seq<char>>,
    tt: Map<Seq<char>, u32>,
    et: Map<Seq<char>, u32>,
) -> bool {
    match po {
        Some(p) => if param_is_void(p) {
            pd.is_void && !pd.is_stream && pd.ty == ResolvedType::Error
        } else {
            &&& !pd.is_void
            &&& pd.is_stream == param_is_stream(p)
            &&& match first_child(p, SyntaxKind::TypeRef) {
                Some(tr) => pd.ty == resolved(strs, tr, pkg, imps, tt, et) && leaves_in(strs, tr, pkg, imps, tt, et),
                None => match first_child(p, SyntaxKind::InlineType) {
                    Some(_) => pd.ty == ResolvedType::Message(id as u32),
                    None => pd.ty == ResolvedType::Error,
                },
            }
        },
        None => pd.is_void && !pd.is_stream && pd.ty == ResolvedType::Error,
    }
}

/// How many strings rpc parameter `p` may intern.
pub open spec fn param_room(p: SyntaxNode) -> nat {
    if param_is_void(p) {
        0
    } else {
        match first_child(p, SyntaxKind::TypeRef) {
            Some(tr) => type_room(tr),
            None => match first_child(p, SyntaxKind::InlineType) {
                Some(inl) => 3 + inline_fields_room(child_nodes(inl, SyntaxKind::FieldDecl)) + oneofs_room(
                    child_nodes(inl, SyntaxKind::OneofDecl),
                ),
                None => 0,
            },
        }
    }
}

/// The unresolved names in the types of rpc parameter `p`, in order.
pub open spec fn param_unresolved(
    p: SyntaxNode,
    pkg: Seq<char>,
    imps: Map<Seq<char>, Seq<char>>,
    tt: Map<Seq<char>, u32>,
    et: Map<Seq<char>, u32>,
) -> Seq<Seq<char>> {
    if param_is_void(p) {
        Seq::empty()
    } else {
        match first_child(p, SyntaxKind::TypeRef) {
            Some(tr) => unresolved_in(tr, pkg, imps, tt, et),
            None => match first_child(p, SyntaxKind::InlineType) {
                Some(inl) => shape_fields_unresolved(child_nodes(inl, SyntaxKind::FieldDecl), pkg, imps, tt, et)
                    + oneofs_unresolved(child_nodes(inl, SyntaxKind::OneofDecl), pkg, imps, tt, et),
                None => Seq::empty(),
            },
        }
    }
}

/// `b` is `a` with `x` appended where `x` is `Some`.
pub open spec fn appended<A>(a: Seq<A>, b: Seq<A>, x: Option<A>) -> bool {
    match x {
        Some(v) => b == a.push(v),
        None => b == a,
    }
}

/// The input or output of an rpc: `void`, a resolved type reference, or a
/// type written in place, which becomes a new message type named after the
/// service, the rpc, and `Request` (for an input) or `Response`.
fn resolve_rpc_param(
    param: &RpcParam,
    interner: &mut Interner,
    pkg: &str,
    imports: &ImportMap,
    symbols: &SymbolTable,
    diag: &mut Diagnostics,
    file_name: &str,
    arenas: &mut Arenas,
    svc_name: &str,
    rpc_name: &str,
    is_input: bool,
) -> (r: RpcParamDef)
    requires
        node_ok(param.node()),
        distinct(interned(*old(interner))),
        interned(*old(interner)).len() + param_room(param.node()) < u32::MAX,
        type_defs(old(arenas).types).len() < u32::MAX,
        keys_below(symbols.types@, interned(*old(interner)).len()),
        keys_below(symbols.enums@, interned(*old(interner)).len()),
    ensures
        grows(interned(*old(interner)), interned(*final(interner))),
        distinct(interned(*final(interner))),
        interned(*final(interner)).len() <= interned(*old(interner)).len() + param_room(param.node()),
        param_def_of(
            interned(*final(interner)),
            r,
            Some(param.node()),
            type_defs(old(arenas).types).len() as int,
            pkg@,
            imports@,
            text_table(interned(*old(interner)), symbols.types@),
            text_table(interned(*old(interner)), symbols.enums@),
        ),
        ({
            let added = type_defs(final(arenas).types).skip(type_defs(old(arenas).types).len() as int);
            &&& type_defs(final(arenas).types).len() >= type_defs(old(arenas).types).len()
            &&& type_defs(final(arenas).types).take(type_defs(old(arenas).types).len() as int) == type_defs(old(arenas).types)
            &&& match param_inline(param.node()) {
                Some(inl) => added.len() == 1 && inline_type_def_of(
                    interned(*final(interner)),
                    added[0],
                    inl,
                    inline_type_name(svc_name@, rpc_name@, is_input),
                    pkg@,
                    imports@,
                    text_table(interned(*old(interner)), symbols.types@),
                    text_table(interned(*old(interner)), symbols.enums@),
                ),
                None => added.len() == 0,
            }
        }),
        final(arenas).shapes == old(arenas).shapes,
        final(arenas).enums == old(arenas).enums,
        final(arenas).services == old(arenas).services,
        final(arenas).annotation_defs == old(arenas).annotation_defs,
        grows(old(diag)@, final(diag)@),
        unresolved_reported(
            final(diag)@.skip(old(diag)@.len() as int),
            param_unresolved(
                param.node(),
                pkg@,
                imports@,
                text_table(interned(*old(interner)), symbols.types@),
                text_table(interned(*old(interner)), symbols.enums@),
            ),
            file_name@,
        ),
{
    let ghost s0 = interned(*interner);
    let ghost tt = text_table(s0, symbols.types@);
    let ghost et = text_table(s0, symbols.enums@);
    let ghost d0 = diag@;
    let ghost t0 = type_defs(arenas.types);
    let ghost p = param.node();
    proof {
        assert(d0.skip(d0.len() as int) =~= Seq::<Diagnostic>::empty());
        assert forall|k: int| 0 <= k < d0.len() implies #[trigger] d0[k] == d0[k] by {}
        assert forall|k: int| 0 <= k < s0.len() implies #[trigger] s0[k] == s0[k] by {}
        assert(t0.take(t0.len() as int) =~= t0);
        assert(t0.skip(t0.len() as int) =~= Seq::<TypeDef>::empty());
    }
    if param.is_void() {
        return RpcParamDef { is_void: true, is_stream: false, ty: ResolvedType::Error };
    }
    let is_stream = param.is_stream();
    let tro = param.type_ref();
    proof {
        lemma_first_child(p, tro, SyntaxKind::TypeRef);
        lemma_child_nodes_below(p, SyntaxKind::TypeRef);
    }
    match &tro {
        Some(tr) => {
            let ty = resolve_type_ref(tr, interner, pkg, imports, symbols, diag, file_name);
            return RpcParamDef { is_void: false, is_stream, ty };
        },
        None => {},
    }
    let ino = param.inline_type();
    proof {
        lemma_first_child(p, ino, SyntaxKind::InlineType);
        lemma_child_nodes_below(p, SyntaxKind::InlineType);
    }
    let inline = match ino {
        Some(x) => x,
        None => {
            return RpcParamDef { is_void: false, is_stream, ty: ResolvedType::Error };
        },
    };
    let ghost inl = inline.node();
    let suffix: &str = if is_input {
        "Request"
    } else {
        "Response"
    };
    let mut inline_name = String::from_str(svc_name);
    inline_name.append("_");
    inline_name.append(rpc_name);
    inline_name.append(suffix);
    let full_name = qualify(pkg, inline_name.as_str());
    proof {
        reveal_strlit("_");
        reveal_strlit("Request");
        reveal_strlit("Response");
        assert(inline_name@ =~= inline_type_name(svc_name@, rpc_name@, is_input));
    }
    let name_sym = interner.intern(inline_name.as_str());
    let ghost s1 = interned(*interner);
    let full_sym = interner.intern(full_name.as_str());
    let ghost s2 = interned(*interner);
    proof {
        lemma_index_of(s1, name_sym as int, inline_name@);
        lemma_index_of(s2, full_sym as int, full_name@);
        lemma_grows_trans(s0, s1, s2);
        lemma_text_table_grow(s0, s2, symbols.types@);
        lemma_text_table_grow(s0, s2, symbols.enums@);
    }
    let fl = inline.fields();
    proof {
        lemma_children_nodes(inl, fl@, SyntaxKind::FieldDecl);
        lemma_child_nodes_below(inl, SyntaxKind::FieldDecl);
        assert(decl_nodes(fl@) =~= child_nodes(inl, SyntaxKind::FieldDecl));
    }
    let fields = collect_inline_fields(&fl, interner, pkg, imports, symbols, diag, file_name);
    let ghost s3 = interned(*interner);
    let ghost d3 = diag@;
    let _file_sym = interner.intern(file_name);
    let ghost s4 = interned(*interner);
    let ol = inline.oneofs();
    proof {
        lemma_children_nodes(inl, ol@, SyntaxKind::OneofDecl);
        lemma_child_nodes_below(inl, SyntaxKind::OneofDecl);
        assert(decl_nodes(ol@) =~= child_nodes(inl, SyntaxKind::OneofDecl));
        lemma_grows_trans(s0, s2, s3);
        lemma_grows_trans(s0, s3, s4);
        lemma_text_table_grow(s0, s4, symbols.types@);
        lemma_text_table_grow(s0, s4, symbols.enums@);
    }
    let oneofs = collect_oneofs(&ol, interner, pkg, imports, symbols, diag, file_name);
    let ghost s5 = interned(*interner);
    proof {
        lemma_grows_trans(s3, s4, s5);
        lemma_grows_trans(s0, s4, s5);
        lemma_named_ok(child_nodes(inl, SyntaxKind::FieldDecl));
        lemma_inline_fields_grow(s3, s5, fields@, named(child_nodes(inl, SyntaxKind::FieldDecl)), pkg@, imports@, tt, et);
        assert(s5[name_sym as int] == s1[name_sym as int]);
        assert(s5[full_sym as int] == s2[full_sym as int]);
        lemma_unresolved_append(
            d0,
            d3,
            diag@,
            shape_fields_unresolved(child_nodes(inl, SyntaxKind::FieldDecl), pkg@, imports@, tt, et),
            oneofs_unresolved(child_nodes(inl, SyntaxKind::OneofDecl), pkg@, imports@, tt, et),
            file_name@,
        );
    }
    let td = TypeDef {
        name: name_sym,
        full_name: full_sym,
        fields,
        oneofs,
        nested_types: Vec::new(),
        nested_enums: Vec::new(),
        annotations: Vec::new(),
        back_references: Vec::new(),
        trace: None,
        loc: Loc::default(),
    };
    proof {
        assert(inline_type_def_of(s5, td, inl, inline_name@, pkg@, imports@, tt, et));
    }
    let type_id = alloc_type(&mut arenas.types, td);
    proof {
        let t1 = type_defs(arenas.types);
        assert(t1.take(t0.len() as int) =~= t0);
        assert(t1.skip(t0.len() as int) =~= seq![td]);
    }
    RpcParamDef { is_void: false, is_stream, ty: ResolvedType::Message(type_id) }
}

proof fn lemma_inline_type_grow(
    s1: Seq<Seq<char>>,
    s2: Seq<Seq<char>>,
    td: TypeDef,
    inl: SyntaxNode,
    inline_name: Seq<char>,
    pkg: Seq<char>,
    imps: Map<Seq<char>, Seq<char>>,
    tt: Map<Seq<char>, u32>,
    et: Map<Seq<char>, u32>,
)
    requires
        node_ok(inl),
        grows(s1, s2),
        distinct(s2),
        inline_type_def_of(s1, td, inl, inline_name, pkg, imps, tt, et),
    ensures
        inline_type_def_of(s2, td, inl, inline_name, pkg, imps, tt, et),
{
    lemma_child_nodes_below(inl, SyntaxKind::FieldDecl);
    lemma_child_nodes_below(inl, SyntaxKind::OneofDecl);
    lemma_named_ok(child_nodes(inl, SyntaxKind::FieldDecl));
    lemma_kept_oneofs(child_nodes(inl, SyntaxKind::OneofDecl));
    lemma_inline_fields_grow(s1, s2, td.fields@, named(child_nodes(inl, SyntaxKind::FieldDecl)), pkg, imps, tt, et);
    lemma_oneofs_grow(s1, s2, td.oneofs@, kept_oneofs(child_nodes(inl, SyntaxKind::OneofDecl)), pkg, imps, tt, et);
    assert(s2[td.name as int] == s1[td.name as int]);
    assert(s2[td.full_name as int] == s1[td.full_name as int]);
}

proof fn lemma_param_grow(
    s1: Seq<Seq<char>>,
    s2: Seq<Seq<char>>,
    pd: RpcParamDef,
    po: Option<SyntaxNode>,
    id: int,
    pkg: Seq<char>,
    imps: Map<Seq<char>, Seq<char>>,
    tt: Map<Seq<char>, u32>,
    et: Map<Seq<char>, u32>,
)
    requires
        po matches Some(p) ==> node_ok(p),
        grows(s1, s2),
        distinct(s2),
        param_def_of(s1, pd, po, id, pkg, imps, tt, et),
    ensures
        param_def_of(s2, pd, po, id, pkg, imps, tt, et),
{
    if let Some(p) = po {
        if let Some(tr) = first_child(p, SyntaxKind::TypeRef) {
            lemma_child_nodes_below(p, SyntaxKind::TypeRef);
            if !param_is_void(p) {
                lemma_resolved_grow(s1, s2, tr, pkg, imps, tt, et);
            }
        }
    }
}

// ── The calls of a service ─────────────────────────────────────────────

/// The `i`-th rpc parameter of rpc `r`, if it has one.
pub open spec fn rpc_param(r: SyntaxNode, i: int) -> Option<SyntaxNode> {
    crate::resolve::nth_child(r, SyntaxKind::RpcParam, i)
}

/// Whether an optional rpc parameter allocates a type.
pub open spec fn allocates(po: Option<SyntaxNode>) -> bool {
    po matches Some(p) && param_inline(p) is Some
}

/// The types that rpc `r` of service `svc` writes in place, in order: each
/// node with its name.
pub open spec fn rpc_allocs(r: SyntaxNode, svc: Seq<char>) -> Seq<(SyntaxNode, Seq<char>)> {
    (if allocates(rpc_param(r, 0)) {
        seq![(param_inline(rpc_param(r, 0)->Some_0)->Some_0, inline_type_name(svc, name_text(r), true))]
    } else {
        Seq::empty()
    }) + (if allocates(rpc_param(r, 1)) {
        seq![(param_inline(rpc_param(r, 1)->Some_0)->Some_0, inline_type_name(svc, name_text(r), false))]
    } else {
        Seq::empty()
    })
}

/// The types that the rpcs `rs` of service `svc` write in place, in order.
pub open spec fn rpcs_allocs(rs: Seq<SyntaxNode>, svc: Seq<char>) -> Seq<(SyntaxNode, Seq<char>)>
    decreases rs.len(),
{
    if rs.len() == 0 {
        Seq::empty()
    } else {
        rpcs_allocs(rs.drop_last(), svc) + rpc_allocs(rs.last(), svc)
    }
}

/// `d` is the call that rpc `r` of service `svc` gives, the types it writes
/// in place becoming message types from `base` on.
pub open spec fn rpc_def_of(
    strs: Seq<Seq<char>>,
    d: RpcDef,
    r: SyntaxNode,
    base: int,
    pkg: Seq<char>,
    imps: Map<Seq<char>, Seq<char>>,
    tt: Map<Seq<char>, u32>,
    et: Map<Seq<char>, u32>,
) -> bool {
    &&& names(strs, d.name, name_text(r))
    &&& param_def_of(strs, d.input, rpc_param(r, 0), base, pkg, imps, tt, et)
    &&& param_def_of(
        strs,
        d.output,
        rpc_param(r, 1),
        base + if allocates(rpc_param(r, 0)) {
            1int
        } else {
            0int
        },
        pkg,
        imps,
        tt,
        et,
    )
    &&& calls_of(strs, d.annotations@, annotation_nodes(r))
    &&& d.loc.file is None
    &&& d.loc.span == (0usize..0usize)
}

/// `ds` are the calls that the rpcs `rs` of service `svc` give, in order,
/// the types they write in place becoming message types from `base` on.
pub open spec fn rpcs_of(
    strs: Seq<Seq<char>>,
    ds: Seq<RpcDef>,
    rs: Seq<SyntaxNode>,
    svc: Seq<char>,
    base: int,
    pkg: Seq<char>,
    imps: Map<Seq<char>, Seq<char>>,
    tt: Map<Seq<char>, u32>,
    et: Map<Seq<char>, u32>,
) -> bool {
    &&& ds.len() == rs.len()
    &&& forall|i: int|
        0 <= i < ds.len() ==> rpc_def_of(
            strs,
            #[trigger] ds[i],
            rs[i],
            base + rpcs_allocs(rs.take(i), svc).len(),
            pkg,
            imps,
            tt,
            et,
        )
}

/// The types `added` are those that the nodes `allocs` write in place.
pub open spec fn allocs_of(
    strs: Seq<Seq<char>>,
    added: Seq<TypeDef>,
    allocs: Seq<(SyntaxNode, Seq<char>)>,
    pkg: Seq<char>,
    imps: Map<Seq<char>, Seq<char>>,
    tt: Map<Seq<char>, u32>,
    et: Map<Seq<char>, u32>,
) -> bool {
    &&& added.len() == allocs.len()
    &&& forall|k: int|
        0 <= k < added.len() ==> inline_type_def_of(strs, #[trigger] added[k], allocs[k].0, allocs[k].1, pkg, imps, tt, et)
}

/// How many strings rpc `r` may intern.
pub open spec fn rpc_room(r: SyntaxNode) -> nat {
    if name_bytes(r) is Some {
        (match rpc_param(r, 0) {
            Some(p) => param_room(p),
            None => 0,
        }) + (match rpc_param(r, 1) {
            Some(p) => param_room(p),
            None => 0,
        }) + calls_room(annotation_nodes(r)) + 1
    } else {
        0
    }
}

/// How many strings the rpcs `rs` may intern.
pub open spec fn rpcs_room(rs: Seq<SyntaxNode>) -> nat
    decreases rs.len(),
{
    if rs.len() == 0 {
        0
    } else {
        rpcs_room(rs.drop_last()) + rpc_room(rs.last())
    }
}

/// The unresolved names in the parameters of the rpcs `rs` that have a name, in order.
pub open spec fn rpcs_unresolved(
    rs: Seq<SyntaxNode>,
    pkg: Seq<char>,
    imps: Map<Seq<char>, Seq<char>>,
    tt: Map<Seq<char>, u32>,
    et: Map<Seq<char>, u32>,
) -> Seq<Seq<char>>
    decreases rs.len(),
{
    if rs.len() == 0 {
        Seq::empty()
    } else {
        let r = rs.last();
        rpcs_unresolved(rs.drop_last(), pkg, imps, tt, et) + if name_bytes(r) is Some {
            (match rpc_param(r, 0) {
                Some(p) => param_unresolved(p, pkg, imps, tt, et),
                None => Seq::empty(),
            }) + (match rpc_param(r, 1) {
                Some(p) => param_unresolved(p, pkg, imps, tt, et),
                None => Seq::empty(),
            })
        } else {
            Seq::empty()
        }
    }
}

proof fn lemma_rpc_param_ok(r: SyntaxNode, i: int)
    requires
        node_ok(r),
    ensures
        rpc_param(r, i) matches Some(p) ==> node_ok(p) && (param_inline(p) matches Some(inl) ==> node_ok(inl)),
{
    lemma_child_nodes_below(r, SyntaxKind::RpcParam);
    if let Some(p) = rpc_param(r, i) {
        lemma_child_nodes_below(p, SyntaxKind::InlineType);
    }
}

proof fn lemma_rpc_allocs_ok(r: SyntaxNode, svc: Seq<char>)
    requires
        node_ok(r),
    ensures
        forall|k: int| 0 <= k < rpc_allocs(r, svc).len() ==> node_ok(#[trigger] rpc_allocs(r, svc)[k].0),
{
    lemma_rpc_param_ok(r, 0);
    lemma_rpc_param_ok(r, 1);
    let a = if allocates(rpc_param(r, 0)) {
        seq![(param_inline(rpc_param(r, 0)->Some_0)->Some_0, inline_type_name(svc, name_text(r), true))]
    } else {
        Seq::empty()
    };
    let b = if allocates(rpc_param(r, 1)) {
        seq![(param_inline(rpc_param(r, 1)->Some_0)->Some_0, inline_type_name(svc, name_text(r), false))]
    } else {
        Seq::empty()
    };
    assert forall|k: int| 0 <= k < rpc_allocs(r, svc).len() implies node_ok(#[trigger] rpc_allocs(r, svc)[k].0) by {
        if k < a.len() {
            assert(rpc_allocs(r, svc)[k] == a[k]);
        } else {
            assert(rpc_allocs(r, svc)[k] == b[k - a.len()]);
        }
    }
}

proof fn lemma_rpcs_allocs_ok(rs: Seq<SyntaxNode>, svc: Seq<char>)
    requires
        forall|i: int| 0 <= i < rs.len() ==> node_ok(#[trigger] rs[i]),
    ensures
        forall|k: int| 0 <= k < rpcs_allocs(rs, svc).len() ==> node_ok(#[trigger] rpcs_allocs(rs, svc)[k].0),
    decreases rs.len(),
{
    if rs.len() > 0 {
        lemma_rpcs_allocs_ok(rs.drop_last(), svc);
        lemma_rpc_allocs_ok(rs.last(), svc);
        let a = rpcs_allocs(rs.drop_last(), svc);
        let b = rpc_allocs(rs.last(), svc);
        assert forall|k: int| 0 <= k < rpcs_allocs(rs, svc).len() implies node_ok(#[trigger] rpcs_allocs(rs, svc)[k].0) by {
            if k < a.len() {
                assert(rpcs_allocs(rs, svc)[k] == a[k]);
            } else {
                assert(rpcs_allocs(rs, svc)[k] == b[k - a.len()]);
            }
        }
    }
}

pub(crate) proof fn lemma_allocs_grow(
    s1: Seq<Seq<char>>,
    s2: Seq<Seq<char>>,
    added: Seq<TypeDef>,
    allocs: Seq<(SyntaxNode, Seq<char>)>,
    pkg: Seq<char>,
    imps: Map<Seq<char>, Seq<char>>,
    tt: Map<Seq<char>, u32>,
    et: Map<Seq<char>, u32>,
)
    requires
        forall|k: int| 0 <= k < allocs.len() ==> node_ok(#[trigger] allocs[k].0),
        grows(s1, s2),
        distinct(s2),
        allocs_of(s1, added, allocs, pkg, imps, tt, et),
    ensures
        allocs_of(s2, added, allocs, pkg, imps, tt, et),
{
    assert forall|k: int| 0 <= k < added.len() implies inline_type_def_of(s2, #[trigger] added[k], allocs[k].0, allocs[k].1, pkg, imps, tt, et) by {
        assert(node_ok(allocs[k].0));
        lemma_inline_type_grow(s1, s2, added[k], allocs[k].0, allocs[k].1, pkg, imps, tt, et);
    }
}

pub(crate) proof fn lemma_rpcs_grow(
    s1: Seq<Seq<char>>,
    s2: Seq<Seq<char>>,
    ds: Seq<RpcDef>,
    rs: Seq<SyntaxNode>,
    svc: Seq<char>,
    base: int,
    pkg: Seq<char>,
    imps: Map<Seq<char>, Seq<char>>,
    tt: Map<Seq<char>, u32>,
    et: Map<Seq<char>, u32>,
)
    requires
        forall|i: int| 0 <= i < rs.len() ==> node_ok(#[trigger] rs[i]),
        grows(s1, s2),
        distinct(s2),
        rpcs_of(s1, ds, rs, svc, base, pkg, imps, tt, et),
    ensures
        rpcs_of(s2, ds, rs, svc, base, pkg, imps, tt, et),
{
    assert forall|i: int| 0 <= i < ds.len() implies rpc_def_of(
        s2,
        #[trigger] ds[i],
        rs[i],
        base + rpcs_allocs(rs.take(i), svc).len(),
        pkg,
        imps,
        tt,
        et,
    ) by {
        let r = rs[i];
        let b = base + rpcs_allocs(rs.take(i), svc).len();
        assert(node_ok(r));
        lemma_rpc_param_ok(r, 0);
        lemma_rpc_param_ok(r, 1);
        lemma_param_grow(s1, s2, ds[i].input, rpc_param(r, 0), b, pkg, imps, tt, et);
        lemma_param_grow(
            s1,
            s2,
            ds[i].output,
            rpc_param(r, 1),
            b + if allocates(rpc_param(r, 0)) {
                1int
            } else {
                0int
            },
            pkg,
            imps,
            tt,
            et,
        );
        lemma_calls_grow(s1, s2, ds[i].annotations@, annotation_nodes(r));
        assert(s2[ds[i].name as int] == s1[ds[i].name as int]);
    }
}

proof fn lemma_rpcs_step(ns: Seq<SyntaxNode>, i: int, svc: Seq<char>)
    requires
        0 <= i < ns.len(),
    ensures
        rpcs_room(ns.take(i + 1)) == rpcs_room(ns.take(i)) + rpc_room(ns[i]),
        rpcs_room(ns.take(i + 1)) <= rpcs_room(ns),
        rpcs_allocs(named(ns.take(i + 1)), svc).len() <= rpcs_allocs(named(ns), svc).len(),
        name_bytes(ns[i]) is Some ==> rpcs_allocs(named(ns.take(i + 1)), svc) == rpcs_allocs(named(ns.take(i)), svc)
            + rpc_allocs(ns[i], svc),
        name_bytes(ns[i]) is None ==> rpcs_allocs(named(ns.take(i + 1)), svc) == rpcs_allocs(named(ns.take(i)), svc),
        forall|pkg: Seq<char>, imps: Map<Seq<char>, Seq<char>>, tt: Map<Seq<char>, u32>, et: Map<Seq<char>, u32>|
            #[trigger] rpcs_unresolved(ns.take(i + 1), pkg, imps, tt, et) == rpcs_unresolved(ns.take(i), pkg, imps, tt, et)
                + if name_bytes(ns[i]) is Some {
                (match rpc_param(ns[i], 0) {
                    Some(p) => param_unresolved(p, pkg, imps, tt, et),
                    None => Seq::empty(),
                }) + (match rpc_param(ns[i], 1) {
                    Some(p) => param_unresolved(p, pkg, imps, tt, et),
                    None => Seq::empty(),
                })
            } else {
                Seq::empty()
            },
    decreases ns.len(),
{
    assert(ns.take(i + 1).drop_last() =~= ns.take(i));
    lemma_named_step(ns, i);
    if name_bytes(ns[i]) is Some {
        assert(named(ns.take(i + 1)).drop_last() =~= named(ns.take(i)));
    }
    if i + 1 < ns.len() {
        lemma_rpcs_step(ns.drop_last(), i, svc);
        assert(ns.drop_last().take(i + 1) =~= ns.take(i + 1));
        assert(ns.drop_last().take(i) =~= ns.take(i));
        lemma_named_step(ns, ns.len() - 1);
        assert(ns.take(ns.len() - 1) =~= ns.drop_last());
        assert(ns.take(ns.len() as int) =~= ns);
        if name_bytes(ns[ns.len() - 1]) is Some {
            assert(named(ns).drop_last() =~= named(ns.drop_last()));
        }
    } else {
        assert(ns.take(i + 1) =~= ns);
    }
}

/// The calls of a service named `svc_name`: each rpc with a name, its
/// input and output resolved (`void` where it has none), the types they
/// write in place allocated in order.
fn collect_rpcs(
    rpcs: &Vec<RpcDecl>,
    svc_name: &str,
    interner: &mut Interner,
    pkg: &str,
    imports: &ImportMap,
    symbols: &SymbolTable,
    diag: &mut Diagnostics,
    file_name: &str,
    arenas: &mut Arenas,
) -> (r: Vec<RpcDef>)
    requires
        forall|i: int| 0 <= i < rpcs@.len() ==> node_ok(#[trigger] rpcs@[i].node()),
        distinct(interned(*old(interner))),
        interned(*old(interner)).len() + rpcs_room(decl_nodes(rpcs@)) < u32::MAX,
        type_defs(old(arenas).types).len() + rpcs_allocs(named(decl_nodes(rpcs@)), svc_name@).len() < u32::MAX,
        keys_below(symbols.types@, interned(*old(interner)).len()),
        keys_below(symbols.enums@, interned(*old(interner)).len()),
    ensures
        grows(interned(*old(interner)), interned(*final(interner))),
        distinct(interned(*final(interner))),
        interned(*final(interner)).len() <= interned(*old(interner)).len() + rpcs_room(decl_nodes(rpcs@)),
        ({
            let t0 = type_defs(old(arenas).types);
            let t1 = type_defs(final(arenas).types);
            let tt = text_table(interned(*old(interner)), symbols.types@);
            let et = text_table(interned(*old(interner)), symbols.enums@);
            let rs = named(decl_nodes(rpcs@));
            &&& rpcs_of(interned(*final(interner)), r@, rs, svc_name@, t0.len() as int, pkg@, imports@, tt, et)
            &&& t1.len() == t0.len() + rpcs_allocs(rs, svc_name@).len()
            &&& t1.take(t0.len() as int) == t0
            &&& allocs_of(interned(*final(interner)), t1.skip(t0.len() as int), rpcs_allocs(rs, svc_name@), pkg@, imports@, tt, et)
        }),
        final(arenas).shapes == old(arenas).shapes,
        final(arenas).enums == old(arenas).enums,
        final(arenas).services == old(arenas).services,
        final(arenas).annotation_defs == old(arenas).annotation_defs,
        grows(old(diag)@, final(diag)@),
        unresolved_reported(
            final(diag)@.skip(old(diag)@.len() as int),
            rpcs_unresolved(
                decl_nodes(rpcs@),
                pkg@,
                imports@,
                text_table(interned(*old(interner)), symbols.types@),
                text_table(interned(*old(interner)), symbols.enums@),
            ),
            file_name@,
        ),
{
    let ghost s0 = interned(*interner);
    let ghost tt = text_table(s0, symbols.types@);
    let ghost et = text_table(s0, symbols.enums@);
    let ghost d0 = diag@;
    let ghost t0 = type_defs(arenas.types);
    let ghost ns = decl_nodes(rpcs@);
    let ghost svc = svc_name@;
    proof {
        assert(d0.skip(d0.len() as int) =~= Seq::<Diagnostic>::empty());
        assert forall|k: int| 0 <= k < d0.len() implies #[trigger] d0[k] == d0[k] by {}
        assert forall|k: int| 0 <= k < s0.len() implies #[trigger] s0[k] == s0[k] by {}
        assert(ns.take(0) =~= Seq::<SyntaxNode>::empty());
        assert(t0.take(t0.len() as int) =~= t0);
        assert(t0.skip(t0.len() as int) =~= Seq::<TypeDef>::empty());
    }
    let mut out: Vec<RpcDef> = Vec::new();
    let mut i: usize = 0;
    while i < rpcs.len()
        invariant
            ns == decl_nodes(rpcs@),
            svc == svc_name@,
            forall|k: int| 0 <= k < ns.len() ==> node_ok(#[trigger] ns[k]),
            i <= rpcs@.len(),
            s0.len() + rpcs_room(ns) < u32::MAX,
            t0.len() + rpcs_allocs(named(ns), svc).len() < u32::MAX,
            keys_below(symbols.types@, s0.len()),
            keys_below(symbols.enums@, s0.len()),
            tt == text_table(s0, symbols.types@),
            et == text_table(s0, symbols.enums@),
            grows(s0, interned(*interner)),
            distinct(interned(*interner)),
            interned(*interner).len() <= s0.len() + rpcs_room(ns.take(i as int)),
            rpcs_of(interned(*interner), out@, named(ns.take(i as int)), svc, t0.len() as int, pkg@, imports@, tt, et),
            type_defs(arenas.types).take(t0.len() as int) == t0,
            type_defs(arenas.types).len() == t0.len() + rpcs_allocs(named(ns.take(i as int)), svc).len(),
            allocs_of(interned(*interner), type_defs(arenas.types).skip(t0.len() as int), rpcs_allocs(named(ns.take(i as int)), svc), pkg@, imports@, tt, et),
            arenas.shapes == old(arenas).shapes,
            arenas.enums == old(arenas).enums,
            arenas.services == old(arenas).services,
            arenas.annotation_defs == old(arenas).annotation_defs,
            grows(d0, diag@),
            unresolved_reported(diag@.skip(d0.len() as int), rpcs_unresolved(ns.take(i as int), pkg@, imports@, tt, et), file_name@),
        decreases rpcs.len() - i,
    {
        let ghost s1 = interned(*interner);
        let ghost d1 = diag@;
        let ghost ta = type_defs(arenas.types);
        let rd = &rpcs[i];
        let ghost r = rd.node();
        let ghost prev_rs = named(ns.take(i as int));
        let ghost prev_allocs = rpcs_allocs(prev_rs, svc);
        proof {
            lemma_rpcs_step(ns, i as int, svc);
            lemma_named_step(ns, i as int);
            assert(ns[i as int] == r);
            assert forall|k: int| 0 <= k < ns.take(i as int).len() implies node_ok(#[trigger] ns.take(i as int)[k]) by {
                assert(ns.take(i as int)[k] == ns[k]);
            }
            lemma_named_ok(ns.take(i as int));
            lemma_rpcs_allocs_ok(prev_rs, svc);
            lemma_rpc_param_ok(r, 0);
            lemma_rpc_param_ok(r, 1);
            lemma_rpc_allocs_ok(r, svc);
        }
        let nm = rd.name();
        proof {
            lemma_name_token(r, nm);
        }
        let name = match nm {
            Some(t) => t.text(),
            None => {
                proof {
                    assert(d1.skip(d0.len() as int) == diag@.skip(d0.len() as int));
                }
                i += 1;
                continue;
            },
        };
        proof {
            lemma_text_table_grow(s0, s1, symbols.types@);
            lemma_text_table_grow(s0, s1, symbols.enums@);
        }
        let ino = rd.input();
        proof {
            crate::resolve::lemma_nth_child(r, ino, SyntaxKind::RpcParam, 0);
        }
        let input = match &ino {
            Some(p) => resolve_rpc_param(p, interner, pkg, imports, symbols, diag, file_name, arenas, svc_name, name.as_str(), true),
            None => RpcParamDef { is_void: true, is_stream: false, ty: ResolvedType::Error },
        };
        let ghost s2 = interned(*interner);
        let ghost d2 = diag@;
        let ghost tb = type_defs(arenas.types);
        proof {
            lemma_grows_trans(s0, s1, s2);
            lemma_text_table_grow(s0, s2, symbols.types@);
            lemma_text_table_grow(s0, s2, symbols.enums@);
            if ino is None {
                assert(d2.skip(d1.len() as int) =~= Seq::<Diagnostic>::empty());
                assert(tb == ta);
            } else {
                assert(rpc_param(r, 0) == Some(ino->Some_0.node()));
                assert(tb.take(ta.len() as int).len() == ta.len());
                assert(tb.skip(ta.len() as int).len() == tb.len() - ta.len());
            }
        }
        let outo = rd.output();
        proof {
            crate::resolve::lemma_nth_child(r, outo, SyntaxKind::RpcParam, 1);
        }
        let output = match &outo {
            Some(p) => resolve_rpc_param(p, interner, pkg, imports, symbols, diag, file_name, arenas, svc_name, name.as_str(), false),
            None => RpcParamDef { is_void: true, is_stream: false, ty: ResolvedType::Error },
        };
        let ghost s3 = interned(*interner);
        let ghost d3 = diag@;
        let ghost tc = type_defs(arenas.types);
        proof {
            lemma_grows_trans(s0, s2, s3);
            if outo is None {
                assert(d3.skip(d2.len() as int) =~= Seq::<Diagnostic>::empty());
                assert(tc == tb);
            } else {
                assert(rpc_param(r, 1) == Some(outo->Some_0.node()));
                assert(tc.take(tb.len() as int).len() == tb.len());
                assert(tc.skip(tb.len() as int).len() == tc.len() - tb.len());
            }
        }
        let anns = rd.annotations();
        proof {
            lemma_annotation_nodes(r, anns@);
            assert(call_nodes(anns@) =~= annotation_nodes(r));
        }
        let annotations = collect_annotation_calls(anns.as_slice(), interner);
        let ghost s4 = interned(*interner);
        let name_sym = interner.intern(name.as_str());
        let ghost s5 = interned(*interner);
        proof {
            let in_u = match rpc_param(r, 0) {
                Some(p) => param_unresolved(p, pkg@, imports@, tt, et),
                None => Seq::<Seq<char>>::empty(),
            };
            let out_u = match rpc_param(r, 1) {
                Some(p) => param_unresolved(p, pkg@, imports@, tt, et),
                None => Seq::<Seq<char>>::empty(),
            };
            lemma_index_of(s5, name_sym as int, name@);
            lemma_grows_trans(s3, s4, s5);
            lemma_grows_trans(s2, s3, s5);
            lemma_grows_trans(s1, s2, s5);
            lemma_grows_trans(s0, s1, s5);
            lemma_param_grow(s2, s5, input, rpc_param(r, 0), ta.len() as int, pkg@, imports@, tt, et);
            lemma_param_grow(s3, s5, output, rpc_param(r, 1), tb.len() as int, pkg@, imports@, tt, et);
            lemma_calls_grow(s4, s5, annotations@, annotation_nodes(r));
            lemma_rpcs_grow(s1, s5, out@, prev_rs, svc, t0.len() as int, pkg@, imports@, tt, et);
            lemma_unresolved_append(d1, d2, d3, in_u, out_u, file_name@);
            lemma_unresolved_append(d0, d1, d3, rpcs_unresolved(ns.take(i as int), pkg@, imports@, tt, et), in_u + out_u, file_name@);
            assert(rpcs_unresolved(ns.take(i as int), pkg@, imports@, tt, et) + (in_u + out_u) =~= rpcs_unresolved(ns.take(i as int), pkg@, imports@, tt, et) + in_u + out_u);
            // the types allocated for this rpc
            let a_in = if allocates(rpc_param(r, 0)) {
                seq![(param_inline(rpc_param(r, 0)->Some_0)->Some_0, inline_type_name(svc, name_text(r), true))]
            } else {
                Seq::empty()
            };
            let a_out = if allocates(rpc_param(r, 1)) {
                seq![(param_inline(rpc_param(r, 1)->Some_0)->Some_0, inline_type_name(svc, name_text(r), false))]
            } else {
                Seq::empty()
            };
            assert(rpc_allocs(r, svc) == a_in + a_out);
            assert(name@ == name_text(r));
            assert(tb.take(ta.len() as int) == ta);
            assert(tc.take(tb.len() as int) == tb);
            assert(tb.len() == ta.len() + a_in.len());
            assert(tc.len() == tb.len() + a_out.len());
            let all = prev_allocs + a_in + a_out;
            assert(all =~= prev_allocs + rpc_allocs(r, svc));
            let added = tc.skip(t0.len() as int);
            assert(tc.take(t0.len() as int) =~= t0) by {
                assert forall|k: int| 0 <= k < t0.len() implies tc[k] == t0[k] by {
                    assert(tc[k] == tb[k]);
                    assert(tb[k] == ta[k]);
                    assert(ta.take(t0.len() as int)[k] == ta[k]);
                }
            }
            assert(added.len() == all.len());
            assert forall|k: int| 0 <= k < added.len() implies inline_type_def_of(s5, #[trigger] added[k], all[k].0, all[k].1, pkg@, imports@, tt, et) by {
                if k < prev_allocs.len() {
                    assert(added[k] == tc[t0.len() + k]);
                    assert(tc[t0.len() + k] == tb[t0.len() + k]);
                    assert(tb[t0.len() + k] == ta[t0.len() + k]);
                    assert(ta.skip(t0.len() as int)[k] == ta[t0.len() + k]);
                    assert(all[k] == prev_allocs[k]);
                    assert(node_ok(prev_allocs[k].0));
                    lemma_inline_type_grow(s1, s5, added[k], all[k].0, all[k].1, pkg@, imports@, tt, et);
                } else if k < prev_allocs.len() + a_in.len() {
                    assert(added[k] == tc[ta.len() as int]);
                    assert(tc[ta.len() as int] == tb[ta.len() as int]);
                    assert(tb.skip(ta.len() as int)[0] == tb[ta.len() as int]);
                    assert(all[k] == a_in[0]);
                    lemma_inline_type_grow(s2, s5, added[k], all[k].0, all[k].1, pkg@, imports@, tt, et);
                } else {
                    assert(added[k] == tc[tb.len() as int]);
                    assert(tc.skip(tb.len() as int)[0] == tc[tb.len() as int]);
                    assert(all[k] == a_out[0]);
                    lemma_inline_type_grow(s3, s5, added[k], all[k].0, all[k].1, pkg@, imports@, tt, et);
                }
            }
        }
        let rdef = RpcDef { name: name_sym, input, output, annotations, loc: Loc::default() };
        proof {
            assert(named(ns.take(i as int + 1)) == prev_rs.push(r));
            assert(prev_rs.push(r).take(prev_rs.len() as int) =~= prev_rs);
            assert(rpc_def_of(s5, rdef, r, t0.len() as int + rpcs_allocs(prev_rs, svc).len(), pkg@, imports@, tt, et));
        }
        out.push(rdef);
        proof {
            let rs2 = prev_rs.push(r);
            assert forall|k: int| 0 <= k < out@.len() implies rpc_def_of(
                s5,
                #[trigger] out@[k],
                rs2[k],
                t0.len() as int + rpcs_allocs(rs2.take(k), svc).len(),
                pkg@,
                imports@,
                tt,
                et,
            ) by {
                if k < out@.len() - 1 {
                    assert(out@[k] == out@.drop_last()[k]);
                    assert(rs2.take(k) =~= prev_rs.take(k));
                }
            }
        }
        i += 1;
    }
    proof {
        assert(ns.take(rpcs@.len() as int) =~= ns);
    }
    out
}

// ── Services ───────────────────────────────────────────────────────────

/// A write to a service: its position, its declaration, and the file.
pub type ServiceWrite = (u32, SyntaxNode, ParsedFile);

/// The write for service declaration `d` of file `f`, where it has a name
/// whose full name is a service.
pub open spec fn service_write(d: SyntaxNode, f: ParsedFile, vt: Map<Seq<char>, u32>) -> Seq<ServiceWrite> {
    let full = qualified(f.package@, name_text(d));
    if name_bytes(d) is Some && vt.contains_key(full) {
        seq![(vt[full], d, f)]
    } else {
        Seq::empty()
    }
}

/// The writes for the service declarations `ds` of file `f`, in order.
pub open spec fn service_writes(ds: Seq<SyntaxNode>, f: ParsedFile, vt: Map<Seq<char>, u32>) -> Seq<ServiceWrite>
    decreases ds.len(),
{
    if ds.len() == 0 {
        Seq::empty()
    } else {
        service_writes(ds.drop_last(), f, vt) + service_write(ds.last(), f, vt)
    }
}

/// The writes for file `f` (none where its root is not a file root).
pub open spec fn file_service_writes(f: ParsedFile, vt: Map<Seq<char>, u32>) -> Seq<ServiceWrite> {
    if f.root.spec_kind() == SyntaxKind::Root {
        service_writes(child_nodes(f.root, SyntaxKind::ServiceDecl), f, vt)
    } else {
        Seq::empty()
    }
}

/// The writes for the files `fs`, in order.
pub open spec fn files_service_writes(fs: Seq<ParsedFile>, vt: Map<Seq<char>, u32>) -> Seq<ServiceWrite>
    decreases fs.len(),
{
    if fs.len() == 0 {
        Seq::empty()
    } else {
        files_service_writes(fs.drop_last(), vt) + file_service_writes(fs.last(), vt)
    }
}

/// The types that a service write writes in place, each with its name and file.
pub open spec fn write_allocs(w: ServiceWrite) -> Seq<(SyntaxNode, Seq<char>, ParsedFile)> {
    rpcs_allocs(named(child_nodes(w.1, SyntaxKind::RpcDecl)), name_text(w.1)).map_values(
        |a: (SyntaxNode, Seq<char>)| (a.0, a.1, w.2),
    )
}

/// The types that the writes `ws` write in place, in order.
pub open spec fn writes_allocs(ws: Seq<ServiceWrite>) -> Seq<(SyntaxNode, Seq<char>, ParsedFile)>
    decreases ws.len(),
{
    if ws.len() == 0 {
        Seq::empty()
    } else {
        writes_allocs(ws.drop_last()) + write_allocs(ws.last())
    }
}

/// The types `added` are those that `allocs` write in place, each in its file.
pub open spec fn added_types(
    strs: Seq<Seq<char>>,
    added: Seq<TypeDef>,
    allocs: Seq<(SyntaxNode, Seq<char>, ParsedFile)>,
    tt: Map<Seq<char>, u32>,
    et: Map<Seq<char>, u32>,
) -> bool {
    &&& added.len() == allocs.len()
    &&& forall|k: int|
        0 <= k < added.len() ==> inline_type_def_of(
            strs,
            #[trigger] added[k],
            allocs[k].0,
            allocs[k].1,
            allocs[k].2.package@,
            file_imports(allocs[k].2),
            tt,
            et,
        )
}

/// The unresolved names that a service write reports, each with its file name.
pub open spec fn write_unresolved(w: ServiceWrite, tt: Map<Seq<char>, u32>, et: Map<Seq<char>, u32>) -> Seq<
    (Seq<char>, Seq<char>),
> {
    rpcs_unresolved(child_nodes(w.1, SyntaxKind::RpcDecl), w.2.package@, file_imports(w.2), tt, et).map_values(
        |x: Seq<char>| (w.2.file_name@, x),
    )
}

/// The unresolved names that the writes `ws` report, in order.
pub open spec fn writes_unresolved(ws: Seq<ServiceWrite>, tt: Map<Seq<char>, u32>, et: Map<Seq<char>, u32>) -> Seq<
    (Seq<char>, Seq<char>),
>
    decreases ws.len(),
{
    if ws.len() == 0 {
        Seq::empty()
    } else {
        writes_unresolved(ws.drop_last(), tt, et) + write_unresolved(ws.last(), tt, et)
    }
}

/// The position among `ws` of the last write to service `t`, if any.
pub open spec fn last_write(ws: Seq<ServiceWrite>, t: int) -> Option<int>
    decreases ws.len(),
{
    if ws.len() == 0 {
        None
    } else if ws.last().0 == t {
        Some(ws.len() - 1)
    } else {
        last_write(ws.drop_last(), t)
    }
}

/// Service `b` is service `a` after the writes `ws` to service `t`, the
/// types written in place becoming message types from `base` on: the calls
/// and annotations of the last declaration written, all else as it was.
pub open spec fn service_filled(
    strs: Seq<Seq<char>>,
    a: ServiceDef,
    b: ServiceDef,
    ws: Seq<ServiceWrite>,
    t: int,
    base: int,
    tt: Map<Seq<char>, u32>,
    et: Map<Seq<char>, u32>,
) -> bool {
    &&& b.name == a.name
    &&& b.full_name == a.full_name
    &&& b.loc == a.loc
    &&& match last_write(ws, t) {
        Some(k) => {
            let w = ws[k];
            &&& rpcs_of(
                strs,
                b.rpcs@,
                named(child_nodes(w.1, SyntaxKind::RpcDecl)),
                name_text(w.1),
                base + writes_allocs(ws.take(k)).len(),
                w.2.package@,
                file_imports(w.2),
                tt,
                et,
            )
            &&& calls_of(strs, b.annotations@, annotation_nodes(w.1))
        },
        None => b.rpcs == a.rpcs && b.annotations == a.annotations,
    }
}

/// The services `bs` are the services `as_` after the writes `ws`.
pub open spec fn services_filled(
    strs: Seq<Seq<char>>,
    as_: Seq<ServiceDef>,
    bs: Seq<ServiceDef>,
    ws: Seq<ServiceWrite>,
    base: int,
    tt: Map<Seq<char>, u32>,
    et: Map<Seq<char>, u32>,
) -> bool {
    &&& bs.len() == as_.len()
    &&& forall|t: int| 0 <= t < as_.len() ==> service_filled(strs, as_[t], #[trigger] bs[t], ws, t, base, tt, et)
}

/// The declarations that the writes `ws` read are nodes of well-formed trees.
pub open spec fn writes_ok(ws: Seq<ServiceWrite>) -> bool {
    forall|k: int| 0 <= k < ws.len() ==> node_ok(#[trigger] ws[k].1)
}

proof fn lemma_writes_allocs_concat(a: Seq<ServiceWrite>, b: Seq<ServiceWrite>)
    ensures
        writes_allocs(a + b) == writes_allocs(a) + writes_allocs(b),
    decreases b.len(),
{
    if b.len() == 0 {
        assert(a + b =~= a);
        assert(writes_allocs(a) + writes_allocs(b) =~= writes_allocs(a));
    } else {
        assert((a + b).drop_last() =~= a + b.drop_last());
        lemma_writes_allocs_concat(a, b.drop_last());
        assert(writes_allocs(a + b) =~= writes_allocs(a) + writes_allocs(b));
    }
}

proof fn lemma_writes_unresolved_concat(a: Seq<ServiceWrite>, b: Seq<ServiceWrite>, tt: Map<Seq<char>, u32>, et: Map<Seq<char>, u32>)
    ensures
        writes_unresolved(a + b, tt, et) == writes_unresolved(a, tt, et) + writes_unresolved(b, tt, et),
    decreases b.len(),
{
    if b.len() == 0 {
        assert(a + b =~= a);
        assert(writes_unresolved(a, tt, et) + writes_unresolved(b, tt, et) =~= writes_unresolved(a, tt, et));
    } else {
        assert((a + b).drop_last() =~= a + b.drop_last());
        lemma_writes_unresolved_concat(a, b.drop_last(), tt, et);
        assert(writes_unresolved(a + b, tt, et) =~= writes_unresolved(a, tt, et) + writes_unresolved(b, tt, et));
    }
}

proof fn lemma_last_write_append(a: Seq<ServiceWrite>, b: Seq<ServiceWrite>, t: int)
    ensures
        last_write(a + b, t) == match last_write(b, t) {
            Some(k) => Some(a.len() + k),
            None => last_write(a, t),
        },
        last_write(a, t) matches Some(k) ==> 0 <= k < a.len() && a[k].0 == t,
    decreases b.len(),
{
    if b.len() == 0 {
        assert(a + b =~= a);
    } else {
        assert((a + b).drop_last() =~= a + b.drop_last());
        lemma_last_write_append(a, b.drop_last(), t);
    }
    lemma_last_write_in(a, t);
}

proof fn lemma_last_write_in(a: Seq<ServiceWrite>, t: int)
    ensures
        last_write(a, t) matches Some(k) ==> 0 <= k < a.len() && a[k].0 == t,
    decreases a.len(),
{
    if a.len() > 0 {
        lemma_last_write_in(a.drop_last(), t);
    }
}

proof fn lemma_write_allocs_ok(w: ServiceWrite)
    requires
        node_ok(w.1),
    ensures
        forall|k: int| 0 <= k < write_allocs(w).len() ==> node_ok(#[trigger] write_allocs(w)[k].0),
{
    let rs = named(child_nodes(w.1, SyntaxKind::RpcDecl));
    lemma_child_nodes_below(w.1, SyntaxKind::RpcDecl);
    lemma_named_ok(child_nodes(w.1, SyntaxKind::RpcDecl));
    lemma_rpcs_allocs_ok(rs, name_text(w.1));
    assert forall|k: int| 0 <= k < write_allocs(w).len() implies node_ok(#[trigger] write_allocs(w)[k].0) by {
        assert(write_allocs(w)[k].0 == rpcs_allocs(rs, name_text(w.1))[k].0);
    }
}

proof fn lemma_writes_allocs_ok(ws: Seq<ServiceWrite>)
    requires
        writes_ok(ws),
    ensures
        forall|k: int| 0 <= k < writes_allocs(ws).len() ==> node_ok(#[trigger] writes_allocs(ws)[k].0),
    decreases ws.len(),
{
    if ws.len() > 0 {
        assert(writes_ok(ws.drop_last())) by {
            assert forall|k: int| 0 <= k < ws.drop_last().len() implies node_ok(#[trigger] ws.drop_last()[k].1) by {
                assert(ws.drop_last()[k] == ws[k]);
            }
        }
        lemma_writes_allocs_ok(ws.drop_last());
        assert(ws.last() == ws[ws.len() - 1]);
        lemma_write_allocs_ok(ws.last());
        let a = writes_allocs(ws.drop_last());
        let b = write_allocs(ws.last());
        assert forall|k: int| 0 <= k < writes_allocs(ws).len() implies node_ok(#[trigger] writes_allocs(ws)[k].0) by {
            if k < a.len() {
                assert(writes_allocs(ws)[k] == a[k]);
            } else {
                assert(writes_allocs(ws)[k] == b[k - a.len()]);
            }
        }
    }
}

proof fn lemma_added_grow(
    s1: Seq<Seq<char>>,
    s2: Seq<Seq<char>>,
    added: Seq<TypeDef>,
    allocs: Seq<(SyntaxNode, Seq<char>, ParsedFile)>,
    tt: Map<Seq<char>, u32>,
    et: Map<Seq<char>, u32>,
)
    requires
        forall|k: int| 0 <= k < allocs.len() ==> node_ok(#[trigger] allocs[k].0),
        grows(s1, s2),
        distinct(s2),
        added_types(s1, added, allocs, tt, et),
    ensures
        added_types(s2, added, allocs, tt, et),
{
    assert forall|k: int| 0 <= k < added.len() implies inline_type_def_of(
        s2,
        #[trigger] added[k],
        allocs[k].0,
        allocs[k].1,
        allocs[k].2.package@,
        file_imports(allocs[k].2),
        tt,
        et,
    ) by {
        assert(node_ok(allocs[k].0));
        lemma_inline_type_grow(s1, s2, added[k], allocs[k].0, allocs[k].1, allocs[k].2.package@, file_imports(allocs[k].2), tt, et);
    }
}

proof fn lemma_added_concat(
    s: Seq<Seq<char>>,
    x: Seq<TypeDef>,
    y: Seq<TypeDef>,
    a: Seq<(SyntaxNode, Seq<char>, ParsedFile)>,
    b: Seq<(SyntaxNode, Seq<char>, ParsedFile)>,
    tt: Map<Seq<char>, u32>,
    et: Map<Seq<char>, u32>,
)
    requires
        added_types(s, x, a, tt, et),
        added_types(s, y, b, tt, et),
    ensures
        added_types(s, x + y, a + b, tt, et),
{
    assert forall|k: int| 0 <= k < (x + y).len() implies inline_type_def_of(
        s,
        #[trigger] (x + y)[k],
        (a + b)[k].0,
        (a + b)[k].1,
        (a + b)[k].2.package@,
        file_imports((a + b)[k].2),
        tt,
        et,
    ) by {
        if k < x.len() {
            assert((x + y)[k] == x[k]);
            assert((a + b)[k] == a[k]);
        } else {
            assert((x + y)[k] == y[k - x.len()]);
            assert((a + b)[k] == b[k - x.len()]);
        }
    }
}

/// Service writes compose.
proof fn lemma_services_filled_trans(
    s1: Seq<Seq<char>>,
    s2: Seq<Seq<char>>,
    a: Seq<ServiceDef>,
    b: Seq<ServiceDef>,
    c: Seq<ServiceDef>,
    ws1: Seq<ServiceWrite>,
    ws2: Seq<ServiceWrite>,
    base: int,
    tt: Map<Seq<char>, u32>,
    et: Map<Seq<char>, u32>,
)
    requires
        services_filled(s1, a, b, ws1, base, tt, et),
        services_filled(s2, b, c, ws2, base + writes_allocs(ws1).len(), tt, et),
        grows(s1, s2),
        distinct(s2),
        writes_ok(ws1),
    ensures
        services_filled(s2, a, c, ws1 + ws2, base, tt, et),
{
    assert forall|t: int| 0 <= t < a.len() implies service_filled(s2, a[t], #[trigger] c[t], ws1 + ws2, t, base, tt, et) by {
        assert(service_filled(s1, a[t], b[t], ws1, t, base, tt, et));
        assert(service_filled(s2, b[t], c[t], ws2, t, base + writes_allocs(ws1).len(), tt, et));
        lemma_last_write_append(ws1, ws2, t);
        let ws = ws1 + ws2;
        match last_write(ws2, t) {
            Some(k2) => {
                lemma_last_write_in(ws2, t);
                assert(ws.take(ws1.len() + k2) =~= ws1 + ws2.take(k2));
                lemma_writes_allocs_concat(ws1, ws2.take(k2));
                assert(ws[ws1.len() + k2] == ws2[k2]);
            },
            None => {
                if let Some(k) = last_write(ws1, t) {
                    assert(ws.take(k) =~= ws1.take(k));
                    assert(ws[k] == ws1[k]);
                    let w = ws1[k];
                    assert(node_ok(w.1));
                    lemma_child_nodes_below(w.1, SyntaxKind::RpcDecl);
                    lemma_named_ok(child_nodes(w.1, SyntaxKind::RpcDecl));
                    lemma_rpcs_grow(
                        s1,
                        s2,
                        b[t].rpcs@,
                        named(child_nodes(w.1, SyntaxKind::RpcDecl)),
                        name_text(w.1),
                        base + writes_allocs(ws1.take(k)).len(),
                        w.2.package@,
                        file_imports(w.2),
                        tt,
                        et,
                    );
                    lemma_calls_grow(s1, s2, b[t].annotations@, annotation_nodes(w.1));
                }
            },
        }
    }
}

proof fn lemma_writes_ok_append(a: Seq<ServiceWrite>, b: Seq<ServiceWrite>)
    requires
        writes_ok(a),
        writes_ok(b),
    ensures
        writes_ok(a + b),
{
    assert forall|k: int| 0 <= k < (a + b).len() implies node_ok(#[trigger] (a + b)[k].1) by {
        if k < a.len() {
            assert((a + b)[k] == a[k]);
        } else {
            assert((a + b)[k] == b[k - a.len()]);
        }
    }
}

proof fn lemma_services_filled_none(s: Seq<Seq<char>>, a: Seq<ServiceDef>, base: int, tt: Map<Seq<char>, u32>, et: Map<Seq<char>, u32>)
    ensures
        services_filled(s, a, a, Seq::empty(), base, tt, et),
        writes_ok(Seq::<ServiceWrite>::empty()),
        writes_allocs(Seq::<ServiceWrite>::empty()) == Seq::<(SyntaxNode, Seq<char>, ParsedFile)>::empty(),
        writes_unresolved(Seq::<ServiceWrite>::empty(), tt, et) == Seq::<(Seq<char>, Seq<char>)>::empty(),
{
    assert forall|t: int| 0 <= t < a.len() implies service_filled(s, a[t], #[trigger] a[t], Seq::empty(), t, base, tt, et) by {}
}

/// How many strings service declaration `d` of package `pkg` may intern.
pub open spec fn service_room(d: SyntaxNode, pkg: Seq<char>, vt: Map<Seq<char>, u32>) -> nat {
    if name_bytes(d) is Some {
        1 + if vt.contains_key(qualified(pkg, name_text(d))) {
            rpcs_room(child_nodes(d, SyntaxKind::RpcDecl)) + calls_room(annotation_nodes(d))
        } else {
            0
        }
    } else {
        0
    }
}

/// One service declaration of `file`: where it has a name whose full name
/// is a service, that service takes its calls and its annotations.
fn fill_service(
    decl: &ServiceDecl,
    file: &ParsedFile,
    imports: &ImportMap,
    interner: &mut Interner,
    arenas: &mut Arenas,
    symbols: &SymbolTable,
    diag: &mut Diagnostics,
)
    requires
        node_ok(decl.node()),
        imports@ == file_imports(*file),
        forall|k: Sym| #[trigger] symbols.services@.contains_key(k) ==> symbols.services@[k] < service_defs(old(arenas).services).len(),
        distinct(interned(*old(interner))),
        interned(*old(interner)).len() + service_room(
            decl.node(),
            file.package@,
            text_table(interned(*old(interner)), symbols.services@),
        ) < u32::MAX,
        type_defs(old(arenas).types).len() + writes_allocs(
            service_write(decl.node(), *file, text_table(interned(*old(interner)), symbols.services@)),
        ).len() < u32::MAX,
        keys_below(symbols.types@, interned(*old(interner)).len()),
        keys_below(symbols.enums@, interned(*old(interner)).len()),
        keys_below(symbols.services@, interned(*old(interner)).len()),
    ensures
        grows(interned(*old(interner)), interned(*final(interner))),
        distinct(interned(*final(interner))),
        interned(*final(interner)).len() <= interned(*old(interner)).len() + service_room(
            decl.node(),
            file.package@,
            text_table(interned(*old(interner)), symbols.services@),
        ),
        ({
            let tt = text_table(interned(*old(interner)), symbols.types@);
            let et = text_table(interned(*old(interner)), symbols.enums@);
            let ws = service_write(decl.node(), *file, text_table(interned(*old(interner)), symbols.services@));
            let t0 = type_defs(old(arenas).types);
            let t1 = type_defs(final(arenas).types);
            &&& writes_ok(ws)
            &&& services_filled(
                interned(*final(interner)),
                service_defs(old(arenas).services),
                service_defs(final(arenas).services),
                ws,
                t0.len() as int,
                tt,
                et,
            )
            &&& t1.len() == t0.len() + writes_allocs(ws).len()
            &&& t1.take(t0.len() as int) == t0
            &&& added_types(interned(*final(interner)), t1.skip(t0.len() as int), writes_allocs(ws), tt, et)
            &&& reported_in_files(final(diag)@.skip(old(diag)@.len() as int), writes_unresolved(ws, tt, et))
        }),
        final(arenas).shapes == old(arenas).shapes,
        final(arenas).enums == old(arenas).enums,
        final(arenas).annotation_defs == old(arenas).annotation_defs,
        grows(old(diag)@, final(diag)@),
{
    let ghost s0 = interned(*interner);
    let ghost tt = text_table(s0, symbols.types@);
    let ghost et = text_table(s0, symbols.enums@);
    let ghost vt = text_table(s0, symbols.services@);
    let ghost d0 = diag@;
    let ghost t0 = type_defs(arenas.types);
    let ghost v0 = service_defs(arenas.services);
    let ghost d = decl.node();
    proof {
        assert(d0.skip(d0.len() as int) =~= Seq::<Diagnostic>::empty());
        assert forall|k: int| 0 <= k < s0.len() implies #[trigger] s0[k] == s0[k] by {}
        lemma_services_filled_none(s0, v0, t0.len() as int, tt, et);
        assert(t0.take(t0.len() as int) =~= t0);
        assert(t0.skip(t0.len() as int) =~= Seq::<TypeDef>::empty());
    }
    let nm = decl.name();
    proof {
        lemma_name_token(d, nm);
    }
    let tok = match nm {
        Some(t) => t,
        None => {
            return;
        },
    };
    let name = tok.text();
    let pkg = file.package.as_str();
    let full = qualify(pkg, name.as_str());
    let full_sym = interner.intern(full.as_str());
    let ghost s1 = interned(*interner);
    proof {
        lemma_index_of(s1, full_sym as int, full@);
        lemma_lookup(s0, s1, symbols.services@, full_sym, full@);
        lemma_text_table_grow(s0, s1, symbols.types@);
        lemma_text_table_grow(s0, s1, symbols.enums@);
        lemma_services_filled_none(s1, v0, t0.len() as int, tt, et);
    }
    let id = match symbols.services.get(&full_sym) {
        Some(idr) => *idr,
        None => {
            return;
        },
    };
    let ghost w = (id, d, *file);
    let ghost rs = named(child_nodes(d, SyntaxKind::RpcDecl));
    let rl = decl.rpcs();
    proof {
        lemma_children_nodes(d, rl@, SyntaxKind::RpcDecl);
        lemma_child_nodes_below(d, SyntaxKind::RpcDecl);
        assert(decl_nodes(rl@) =~= child_nodes(d, SyntaxKind::RpcDecl));
        assert(service_write(d, *file, vt) == seq![w]);
        assert(seq![w].drop_last() =~= Seq::<ServiceWrite>::empty());
        assert(writes_allocs(seq![w]) =~= write_allocs(w));
    }
    let rpcs = collect_rpcs(&rl, name.as_str(), interner, pkg, imports, symbols, diag, file.file_name.as_str(), arenas);
    let ghost s2 = interned(*interner);
    let ghost t2 = type_defs(arenas.types);
    let def = service_def_mut(&mut arenas.services, id);
    def.rpcs = rpcs;
    let anns = decl.annotations();
    proof {
        lemma_annotation_nodes(d, anns@);
        assert(call_nodes(anns@) =~= annotation_nodes(d));
    }
    let calls = collect_annotation_calls(anns.as_slice(), interner);
    let ghost s3 = interned(*interner);
    let def = service_def_mut(&mut arenas.services, id);
    def.annotations = calls;
    proof {
        let ws = seq![w];
        lemma_grows_trans(s0, s1, s2);
        lemma_grows_trans(s0, s2, s3);
        lemma_named_ok(child_nodes(d, SyntaxKind::RpcDecl));
        lemma_rpcs_grow(s2, s3, service_defs(arenas.services)[id as int].rpcs@, rs, name_text(d), t0.len() as int, pkg@, imports@, tt, et);
        lemma_rpcs_allocs_ok(rs, name_text(d));
        lemma_allocs_grow(s2, s3, t2.skip(t0.len() as int), rpcs_allocs(rs, name_text(d)), pkg@, imports@, tt, et);
        assert(ws.take(0) =~= Seq::<ServiceWrite>::empty());
        assert forall|t: int| 0 <= t < v0.len() implies service_filled(s3, v0[t], #[trigger] service_defs(arenas.services)[t], ws, t, t0.len() as int, tt, et) by {
            assert(last_write(ws.drop_last(), t) is None);
            if t == id as int {
                assert(last_write(ws, t) == Some(0int));
            }
        }
        assert(writes_ok(ws)) by {
            assert forall|k: int| 0 <= k < ws.len() implies node_ok(#[trigger] ws[k].1) by {
                assert(ws[k] == w);
            }
        }
        let wa = write_allocs(w);
        assert forall|k: int| 0 <= k < wa.len() implies inline_type_def_of(
            s3,
            #[trigger] t2.skip(t0.len() as int)[k],
            wa[k].0,
            wa[k].1,
            wa[k].2.package@,
            file_imports(wa[k].2),
            tt,
            et,
        ) by {
            assert(wa[k].0 == rpcs_allocs(rs, name_text(d))[k].0);
        }
        assert(writes_unresolved(ws.drop_last(), tt, et) =~= Seq::empty());
        assert(writes_unresolved(ws, tt, et) =~= write_unresolved(w, tt, et));
        lemma_in_file_reports(
            diag@.skip(d0.len() as int),
            rpcs_unresolved(child_nodes(d, SyntaxKind::RpcDecl), pkg@, imports@, tt, et),
            file.file_name@,
        );
        let t1 = type_defs(arenas.types);
        assert(t1 == t2);
        assert(services_filled(s3, v0, service_defs(arenas.services), ws, t0.len() as int, tt, et));
        assert(t1.len() == t0.len() + writes_allocs(ws).len());
        assert(t1.take(t0.len() as int) == t0);
        assert(added_types(s3, t1.skip(t0.len() as int), writes_allocs(ws), tt, et));
        assert(reported_in_files(diag@.skip(d0.len() as int), writes_unresolved(ws, tt, et)));
    }
}

/// The types appended by writes `wa` and then `wb` are those of `wa + wb`.
proof fn lemma_types_step(
    s1: Seq<Seq<char>>,
    s2: Seq<Seq<char>>,
    t0: Seq<TypeDef>,
    ta: Seq<TypeDef>,
    tb: Seq<TypeDef>,
    wa: Seq<ServiceWrite>,
    wb: Seq<ServiceWrite>,
    tt: Map<Seq<char>, u32>,
    et: Map<Seq<char>, u32>,
)
    requires
        ta.len() == t0.len() + writes_allocs(wa).len(),
        ta.take(t0.len() as int) == t0,
        added_types(s1, ta.skip(t0.len() as int), writes_allocs(wa), tt, et),
        tb.len() == ta.len() + writes_allocs(wb).len(),
        tb.take(ta.len() as int) == ta,
        added_types(s2, tb.skip(ta.len() as int), writes_allocs(wb), tt, et),
        grows(s1, s2),
        distinct(s2),
        writes_ok(wa),
    ensures
        tb.len() == t0.len() + writes_allocs(wa + wb).len(),
        tb.take(t0.len() as int) == t0,
        added_types(s2, tb.skip(t0.len() as int), writes_allocs(wa + wb), tt, et),
{
    lemma_writes_allocs_concat(wa, wb);
    lemma_writes_allocs_ok(wa);
    lemma_added_grow(s1, s2, ta.skip(t0.len() as int), writes_allocs(wa), tt, et);
    lemma_added_concat(s2, ta.skip(t0.len() as int), tb.skip(ta.len() as int), writes_allocs(wa), writes_allocs(wb), tt, et);
    assert(tb.skip(t0.len() as int) =~= ta.skip(t0.len() as int) + tb.skip(ta.len() as int)) by {
        assert forall|k: int| 0 <= k < tb.len() - t0.len() implies #[trigger] tb.skip(t0.len() as int)[k] == (ta.skip(
            t0.len() as int,
        ) + tb.skip(ta.len() as int))[k] by {
            if k < ta.len() - t0.len() {
                assert(tb[t0.len() + k] == tb.take(ta.len() as int)[t0.len() + k]);
            }
        }
    }
    assert(tb.take(t0.len() as int) =~= t0) by {
        assert forall|k: int| 0 <= k < t0.len() implies #[trigger] tb.take(t0.len() as int)[k] == t0[k] by {
            assert(tb[k] == tb.take(ta.len() as int)[k]);
            assert(ta[k] == ta.take(t0.len() as int)[k]);
        }
    }
}

/// How many strings the service declarations `ds` of package `pkg` may intern.
pub open spec fn services_room(ds: Seq<SyntaxNode>, pkg: Seq<char>, vt: Map<Seq<char>, u32>) -> nat
    decreases ds.len(),
{
    if ds.len() == 0 {
        0
    } else {
        services_room(ds.drop_last(), pkg, vt) + service_room(ds.last(), pkg, vt)
    }
}

/// How many strings resolving the calls of file `f` may intern.
pub open spec fn file_services_room(f: ParsedFile, vt: Map<Seq<char>, u32>) -> nat {
    if f.root.spec_kind() == SyntaxKind::Root {
        services_room(child_nodes(f.root, SyntaxKind::ServiceDecl), f.package@, vt)
    } else {
        0
    }
}

/// How many strings resolving the calls of the files `fs` may intern.
pub open spec fn files_services_room(fs: Seq<ParsedFile>, vt: Map<Seq<char>, u32>) -> nat
    decreases fs.len(),
{
    if fs.len() == 0 {
        0
    } else {
        files_services_room(fs.drop_last(), vt) + file_services_room(fs.last(), vt)
    }
}

proof fn lemma_services_step(ds: Seq<SyntaxNode>, i: int, f: ParsedFile, vt: Map<Seq<char>, u32>)
    requires
        0 <= i < ds.len(),
    ensures
        service_writes(ds.take(i + 1), f, vt) == service_writes(ds.take(i), f, vt) + service_write(ds[i], f, vt),
        services_room(ds.take(i + 1), f.package@, vt) == services_room(ds.take(i), f.package@, vt) + service_room(ds[i], f.package@, vt),
        services_room(ds.take(i + 1), f.package@, vt) <= services_room(ds, f.package@, vt),
        writes_allocs(service_writes(ds.take(i + 1), f, vt)).len() <= writes_allocs(service_writes(ds, f, vt)).len(),
    decreases ds.len(),
{
    assert(ds.take(i + 1).drop_last() =~= ds.take(i));
    if i + 1 < ds.len() {
        lemma_services_step(ds.drop_last(), i, f, vt);
        assert(ds.drop_last().take(i + 1) =~= ds.take(i + 1));
        assert(ds.drop_last().take(i) =~= ds.take(i));
        lemma_writes_allocs_concat(service_writes(ds.drop_last(), f, vt), service_write(ds.last(), f, vt));
    } else {
        assert(ds.take(i + 1) =~= ds);
    }
}

/// The services of one file, in order, as [`fill_service`] says (none where
/// its root is not a file root).
fn fill_file_services(
    file: &ParsedFile,
    interner: &mut Interner,
    arenas: &mut Arenas,
    symbols: &SymbolTable,
    diag: &mut Diagnostics,
)
    requires
        forall|k: Sym| #[trigger] symbols.services@.contains_key(k) ==> symbols.services@[k] < service_defs(old(arenas).services).len(),
        distinct(interned(*old(interner))),
        interned(*old(interner)).len() + file_services_room(*file, text_table(interned(*old(interner)), symbols.services@))
            < u32::MAX,
        type_defs(old(arenas).types).len() + writes_allocs(
            file_service_writes(*file, text_table(interned(*old(interner)), symbols.services@)),
        ).len() < u32::MAX,
        keys_below(symbols.types@, interned(*old(interner)).len()),
        keys_below(symbols.enums@, interned(*old(interner)).len()),
        keys_below(symbols.services@, interned(*old(interner)).len()),
    ensures
        grows(interned(*old(interner)), interned(*final(interner))),
        distinct(interned(*final(interner))),
        interned(*final(interner)).len() <= interned(*old(interner)).len() + file_services_room(
            *file,
            text_table(interned(*old(interner)), symbols.services@),
        ),
        ({
            let tt = text_table(interned(*old(interner)), symbols.types@);
            let et = text_table(interned(*old(interner)), symbols.enums@);
            let ws = file_service_writes(*file, text_table(interned(*old(interner)), symbols.services@));
            let t0 = type_defs(old(arenas).types);
            let t1 = type_defs(final(arenas).types);
            &&& writes_ok(ws)
            &&& services_filled(
                interned(*final(interner)),
                service_defs(old(arenas).services),
                service_defs(final(arenas).services),
                ws,
                t0.len() as int,
                tt,
                et,
            )
            &&& t1.len() == t0.len() + writes_allocs(ws).len()
            &&& t1.take(t0.len() as int) == t0
            &&& added_types(interned(*final(interner)), t1.skip(t0.len() as int), writes_allocs(ws), tt, et)
            &&& reported_in_files(final(diag)@.skip(old(diag)@.len() as int), writes_unresolved(ws, tt, et))
        }),
        final(arenas).shapes == old(arenas).shapes,
        final(arenas).enums == old(arenas).enums,
        final(arenas).annotation_defs == old(arenas).annotation_defs,
        grows(old(diag)@, final(diag)@),
{
    let ghost s0 = interned(*interner);
    let ghost tt = text_table(s0, symbols.types@);
    let ghost et = text_table(s0, symbols.enums@);
    let ghost vt = text_table(s0, symbols.services@);
    let ghost d0 = diag@;
    let ghost t0 = type_defs(arenas.types);
    let ghost v0 = service_defs(arenas.services);
    proof {
        assert(d0.skip(d0.len() as int) =~= Seq::<Diagnostic>::empty());
        assert forall|k: int| 0 <= k < d0.len() implies #[trigger] d0[k] == d0[k] by {}
        assert forall|k: int| 0 <= k < s0.len() implies #[trigger] s0[k] == s0[k] by {}
        lemma_services_filled_none(s0, v0, t0.len() as int, tt, et);
        assert(t0.take(t0.len() as int) =~= t0);
        assert(t0.skip(t0.len() as int) =~= Seq::<TypeDef>::empty());
    }
    let root = match Root::cast(file.root.clone()) {
        Some(r) => r,
        None => {
            return;
        },
    };
    file.root.check_ok();
    let ghost rn = file.root;
    let imports = collect_imports(&root);
    let decls = root.service_decls();
    let ghost ds = child_nodes(rn, SyntaxKind::ServiceDecl);
    proof {
        lemma_children_nodes(rn, decls@, SyntaxKind::ServiceDecl);
        lemma_child_nodes_below(rn, SyntaxKind::ServiceDecl);
        assert(ds.take(0) =~= Seq::<SyntaxNode>::empty());
        assert(imports@ == file_imports(*file));
    }
    let mut i: usize = 0;
    while i < decls.len()
        invariant
            ds == child_nodes(rn, SyntaxKind::ServiceDecl),
            rn == file.root,
            rn.spec_kind() == SyntaxKind::Root,
            decls@.len() == ds.len(),
            forall|k: int| 0 <= k < ds.len() ==> (#[trigger] decls@[k]).node() == ds[k],
            forall|k: int| 0 <= k < ds.len() ==> node_ok(#[trigger] ds[k]),
            i <= ds.len(),
            imports@ == file_imports(*file),
            s0.len() + file_services_room(*file, vt) < u32::MAX,
            t0.len() + writes_allocs(file_service_writes(*file, vt)).len() < u32::MAX,
            keys_below(symbols.types@, s0.len()),
            keys_below(symbols.enums@, s0.len()),
            keys_below(symbols.services@, s0.len()),
            tt == text_table(s0, symbols.types@),
            et == text_table(s0, symbols.enums@),
            vt == text_table(s0, symbols.services@),
            service_defs(arenas.services).len() == v0.len(),
            forall|k: Sym| #[trigger] symbols.services@.contains_key(k) ==> symbols.services@[k] < v0.len(),
            grows(s0, interned(*interner)),
            distinct(interned(*interner)),
            interned(*interner).len() <= s0.len() + services_room(ds.take(i as int), file.package@, vt),
            writes_ok(service_writes(ds.take(i as int), *file, vt)),
            services_filled(interned(*interner), v0, service_defs(arenas.services), service_writes(ds.take(i as int), *file, vt), t0.len() as int, tt, et),
            type_defs(arenas.types).len() == t0.len() + writes_allocs(service_writes(ds.take(i as int), *file, vt)).len(),
            type_defs(arenas.types).take(t0.len() as int) == t0,
            added_types(interned(*interner), type_defs(arenas.types).skip(t0.len() as int), writes_allocs(service_writes(ds.take(i as int), *file, vt)), tt, et),
            arenas.shapes == old(arenas).shapes,
            arenas.enums == old(arenas).enums,
            arenas.annotation_defs == old(arenas).annotation_defs,
            grows(d0, diag@),
            reported_in_files(diag@.skip(d0.len() as int), writes_unresolved(service_writes(ds.take(i as int), *file, vt), tt, et)),
        decreases decls.len() - i,
    {
        let ghost sa = interned(*interner);
        let ghost da = diag@;
        let ghost ta = type_defs(arenas.types);
        let ghost va = service_defs(arenas.services);
        let ghost prev = service_writes(ds.take(i as int), *file, vt);
        proof {
            lemma_services_step(ds, i as int, *file, vt);
            lemma_text_table_grow(s0, sa, symbols.types@);
            lemma_text_table_grow(s0, sa, symbols.enums@);
            lemma_text_table_grow(s0, sa, symbols.services@);
            lemma_writes_allocs_concat(prev, service_write(ds[i as int], *file, vt));
            assert(decls@[i as int].node() == ds[i as int]);
            assert(file_services_room(*file, vt) == services_room(ds, file.package@, vt));
            assert(file_service_writes(*file, vt) == service_writes(ds, *file, vt));
        }
        fill_service(&decls[i], file, &imports, interner, arenas, symbols, diag);
        proof {
            let u = service_write(ds[i as int], *file, vt);
            lemma_services_filled_trans(sa, interned(*interner), v0, va, service_defs(arenas.services), prev, u, t0.len() as int, tt, et);
            lemma_types_step(sa, interned(*interner), t0, ta, type_defs(arenas.types), prev, u, tt, et);
            lemma_files_append(d0, da, diag@, writes_unresolved(prev, tt, et), writes_unresolved(u, tt, et));
            lemma_writes_unresolved_concat(prev, u, tt, et);
            lemma_writes_ok_append(prev, u);
            lemma_grows_trans(s0, sa, interned(*interner));
        }
        i += 1;
    }
    proof {
        assert(ds.take(ds.len() as int) =~= ds);
    }
}

proof fn lemma_files_services_step(fs: Seq<ParsedFile>, i: int, vt: Map<Seq<char>, u32>)
    requires
        0 <= i < fs.len(),
    ensures
        files_service_writes(fs.take(i + 1), vt) == files_service_writes(fs.take(i), vt) + file_service_writes(fs[i], vt),
        files_services_room(fs.take(i + 1), vt) == files_services_room(fs.take(i), vt) + file_services_room(fs[i], vt),
        files_services_room(fs.take(i + 1), vt) <= files_services_room(fs, vt),
        writes_allocs(files_service_writes(fs.take(i + 1), vt)).len() <= writes_allocs(files_service_writes(fs, vt)).len(),
    decreases fs.len(),
{
    assert(fs.take(i + 1).drop_last() =~= fs.take(i));
    if i + 1 < fs.len() {
        lemma_files_services_step(fs.drop_last(), i, vt);
        assert(fs.drop_last().take(i + 1) =~= fs.take(i + 1));
        assert(fs.drop_last().take(i) =~= fs.take(i));
        lemma_writes_allocs_concat(files_service_writes(fs.drop_last(), vt), file_service_writes(fs.last(), vt));
    } else {
        assert(fs.take(i + 1) =~= fs);
    }
}

/// Resolve the calls of the services, file by file: each service
/// declaration whose full name is a service gives that service its calls,
/// each rpc with a name with its input and output (`void` where it has
/// none), and its annotations. A type written in place for an input or
/// output becomes a new message type, appended in order, named after the
/// service and the rpc with `Request` or `Response`. Where several
/// declarations write to one service, the last one stands; services that
/// none writes, the types there were, and all else, stay as they were. Each
/// unresolved type name is reported, in order.
pub fn resolve_rpcs(
    files: &[ParsedFile],
    interner: &mut Interner,
    arenas: &mut Arenas,
    symbols: &SymbolTable,
    diag: &mut Diagnostics,
)
    requires
        distinct(interned(*old(interner))),
        keys_below(symbols.types@, interned(*old(interner)).len()),
        keys_below(symbols.enums@, interned(*old(interner)).len()),
        keys_below(symbols.services@, interned(*old(interner)).len()),
        forall|k: Sym| #[trigger] symbols.services@.contains_key(k) ==> symbols.services@[k] < service_defs(old(arenas).services).len(),
        interned(*old(interner)).len() + files_services_room(files@, text_table(interned(*old(interner)), symbols.services@))
            < u32::MAX,
        type_defs(old(arenas).types).len() + writes_allocs(
            files_service_writes(files@, text_table(interned(*old(interner)), symbols.services@)),
        ).len() < u32::MAX,
    ensures
        grows(interned(*old(interner)), interned(*final(interner))),
        distinct(interned(*final(interner))),
        interned(*final(interner)).len() <= interned(*old(interner)).len() + files_services_room(
            files@,
            text_table(interned(*old(interner)), symbols.services@),
        ),
        ({
            let tt = text_table(interned(*old(interner)), symbols.types@);
            let et = text_table(interned(*old(interner)), symbols.enums@);
            let ws = files_service_writes(files@, text_table(interned(*old(interner)), symbols.services@));
            let t0 = type_defs(old(arenas).types);
            let t1 = type_defs(final(arenas).types);
            &&& services_filled(
                interned(*final(interner)),
                service_defs(old(arenas).services),
                service_defs(final(arenas).services),
                ws,
                t0.len() as int,
                tt,
                et,
            )
            &&& t1.len() == t0.len() + writes_allocs(ws).len()
            &&& t1.take(t0.len() as int) == t0
            &&& added_types(interned(*final(interner)), t1.skip(t0.len() as int), writes_allocs(ws), tt, et)
            &&& reported_in_files(final(diag)@.skip(old(diag)@.len() as int), writes_unresolved(ws, tt, et))
        }),
        final(arenas).shapes == old(arenas).shapes,
        final(arenas).enums == old(arenas).enums,
        final(arenas).annotation_defs == old(arenas).annotation_defs,
        grows(old(diag)@, final(diag)@),
{
    let ghost s0 = interned(*interner);
    let ghost tt = text_table(s0, symbols.types@);
    let ghost et = text_table(s0, symbols.enums@);
    let ghost vt = text_table(s0, symbols.services@);
    let ghost d0 = diag@;
    let ghost t0 = type_defs(arenas.types);
    let ghost v0 = service_defs(arenas.services);
    let ghost fs = files@;
    proof {
        assert(d0.skip(d0.len() as int) =~= Seq::<Diagnostic>::empty());
        assert forall|k: int| 0 <= k < d0.len() implies #[trigger] d0[k] == d0[k] by {}
        assert forall|k: int| 0 <= k < s0.len() implies #[trigger] s0[k] == s0[k] by {}
        lemma_services_filled_none(s0, v0, t0.len() as int, tt, et);
        assert(t0.take(t0.len() as int) =~= t0);
        assert(t0.skip(t0.len() as int) =~= Seq::<TypeDef>::empty());
        assert(fs.take(0) =~= Seq::<ParsedFile>::empty());
    }
    let mut i: usize = 0;
    while i < files.len()
        invariant
            fs == files@,
            i <= fs.len(),
            s0.len() + files_services_room(fs, vt) < u32::MAX,
            t0.len() + writes_allocs(files_service_writes(fs, vt)).len() < u32::MAX,
            keys_below(symbols.types@, s0.len()),
            keys_below(symbols.enums@, s0.len()),
            keys_below(symbols.services@, s0.len()),
            tt == text_table(s0, symbols.types@),
            et == text_table(s0, symbols.enums@),
            vt == text_table(s0, symbols.services@),
            service_defs(arenas.services).len() == v0.len(),
            forall|k: Sym| #[trigger] symbols.services@.contains_key(k) ==> symbols.services@[k] < v0.len(),
            grows(s0, interned(*interner)),
            distinct(interned(*interner)),
            interned(*interner).len() <= s0.len() + files_services_room(fs.take(i as int), vt),
            writes_ok(files_service_writes(fs.take(i as int), vt)),
            services_filled(interned(*interner), v0, service_defs(arenas.services), files_service_writes(fs.take(i as int), vt), t0.len() as int, tt, et),
            type_defs(arenas.types).len() == t0.len() + writes_allocs(files_service_writes(fs.take(i as int), vt)).len(),
            type_defs(arenas.types).take(t0.len() as int) == t0,
            added_types(interned(*interner), type_defs(arenas.types).skip(t0.len() as int), writes_allocs(files_service_writes(fs.take(i as int), vt)), tt, et),
            arenas.shapes == old(arenas).shapes,
            arenas.enums == old(arenas).enums,
            arenas.annotation_defs == old(arenas).annotation_defs,
            grows(d0, diag@),
            reported_in_files(diag@.skip(d0.len() as int), writes_unresolved(files_service_writes(fs.take(i as int), vt), tt, et)),
        decreases files.len() - i,
    {
        let ghost sa = interned(*interner);
        let ghost da = diag@;
        let ghost ta = type_defs(arenas.types);
        let ghost va = service_defs(arenas.services);
        let ghost prev = files_service_writes(fs.take(i as int), vt);
        proof {
            lemma_files_services_step(fs, i as int, vt);
            lemma_text_table_grow(s0, sa, symbols.types@);
            lemma_text_table_grow(s0, sa, symbols.enums@);
            lemma_text_table_grow(s0, sa, symbols.services@);
            lemma_writes_allocs_concat(prev, file_service_writes(fs[i as int], vt));
        }
        fill_file_services(&files[i], interner, arenas, symbols, diag);
        proof {
            let u = file_service_writes(fs[i as int], vt);
            lemma_services_filled_trans(sa, interned(*interner), v0, va, service_defs(arenas.services), prev, u, t0.len() as int, tt, et);
            lemma_types_step(sa, interned(*interner), t0, ta, type_defs(arenas.types), prev, u, tt, et);
            lemma_files_append(d0, da, diag@, writes_unresolved(prev, tt, et), writes_unresolved(u, tt, et));
            lemma_writes_unresolved_concat(prev, u, tt, et);
            lemma_writes_ok_append(prev, u);
            lemma_grows_trans(s0, sa, interned(*interner));
        }
        i += 1;
    }
    proof {
        assert(fs.take(fs.len() as int) =~= fs);
    }
}

} // verus!
