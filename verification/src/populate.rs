//! Populating the definitions that the index pass created: the fields,
//! oneofs and annotations of types, and the fields of shapes.

use vstd::prelude::*;
use crate::ast::{
    AnnotationArgs, AstNode, FieldDecl, MappingSource, NestedTypeDecl, OneofDecl, OneofField, Root, ShapeDecl, ShapeField,
    TypeBody, TypeDecl, annotation_nodes, annotations_are, int_literal_value,
    lemma_annotation_nodes, selected_bytes, slot_bytes, slot_token_kind, text_pair_is,
};
use crate::diagnostics::{Diagnostic, Diagnostics};
use crate::hir;
use crate::hir::{
    AnnotationArgDef, FieldDef, FieldMapping, Interner, LiteralValue, Loc, MappingLink, OneofDef, OneofFieldDef, ResolvedType,
    ShapeDef, ShapeFieldDef, Sym, SymbolTable, TypeDef, TypeId, Arenas, shape_def_mut, shape_defs, type_defs, type_def_mut,
    distinct, interned, names,
};
use crate::index::{
    ParsedFile, qualified, child_nodes, first_child, grows, keys_below, lemma_children_nodes, lemma_first_child, lemma_name_token, lemma_named_step, name_bytes,
    named,
    name_text, qualify, selected_texts, syms_of,
};
use crate::resolve::{
    ImportMap, collect_imports, file_imports, leaves_in, lemma_child_nodes_below, lemma_index_of, lemma_literal_grow, lemma_resolved_grow,
    lemma_text_table_grow, lemma_unresolved_append, lemma_lookup, lemma_files_append, lemma_in_file_reports,
    reported_in_files, literal_of, literal_string, parse_annotation_value, resolve_type_ref,
    resolved, text_table, type_room, unresolved_in, unresolved_reported,
};
use crate::syntax_kind::SyntaxKind;
use crate::tree::{SyntaxNode, TokenSelect, node_ok, node_slots, text_of, token_slots};

verus! {

// ── Annotation calls ───────────────────────────────────────────────────

/// The name of an annotation argument written `name = value` (empty for a
/// bare value).
pub open spec fn arg_name_text(a: SyntaxNode) -> Seq<char> {
    let s = token_slots(a.tree(), a.elements(), TokenSelect::NonTrivia);
    if s.len() >= 2 && slot_token_kind(a, s[1]) == SyntaxKind::Eq {
        text_of(slot_bytes(a, s[0]))
    } else {
        Seq::empty()
    }
}

/// The text of an annotation argument's value, if it has one.
pub open spec fn arg_value_text(a: SyntaxNode) -> Option<Seq<char>> {
    match first_child(a, SyntaxKind::AnnotationValue) {
        Some(v) => Some(text_of(v.node_bytes())),
        None => None,
    }
}

/// `v` is the literal that `text` denotes among the interned strings
/// `strs`, which hold the string it names.
pub open spec fn literal_is(strs: Seq<Seq<char>>, v: LiteralValue, text: Seq<char>) -> bool {
    &&& literal_string(text) matches Some(x) ==> strs.contains(x)
    &&& v == literal_of(strs, text)
}

/// `d` is what annotation argument `a` gives: its name, and the literal of
/// its value (`false` where it has none).
pub open spec fn arg_def_of(strs: Seq<Seq<char>>, d: AnnotationArgDef, a: SyntaxNode) -> bool {
    &&& names(strs, d.name, arg_name_text(a))
    &&& match arg_value_text(a) {
        Some(t) => literal_is(strs, d.value, t),
        None => d.value == LiteralValue::Bool(false),
    }
}

/// `ds` are what the arguments `ns` give, in order.
pub open spec fn args_of(strs: Seq<Seq<char>>, ds: Seq<AnnotationArgDef>, ns: Seq<SyntaxNode>) -> bool {
    &&& ds.len() == ns.len()
    &&& forall|i: int| 0 <= i < ds.len() ==> arg_def_of(strs, #[trigger] ds[i], ns[i])
}

/// The arguments of annotation call `c`.
pub open spec fn arg_nodes(c: SyntaxNode) -> Seq<SyntaxNode> {
    match first_child(c, SyntaxKind::AnnotationArgs) {
        Some(x) => child_nodes(x, SyntaxKind::AnnotationArg),
        None => Seq::empty(),
    }
}

/// The library and the name of annotation call `c` (both empty where it
/// does not have two identifiers).
pub open spec fn call_texts(c: SyntaxNode) -> (Seq<char>, Seq<char>) {
    let b = selected_bytes(c, TokenSelect::Kind(SyntaxKind::Ident));
    if b.len() >= 2 {
        (text_of(b[0]), text_of(b[1]))
    } else {
        (Seq::empty(), Seq::empty())
    }
}

/// `d` is what annotation call `c` gives: its library, name and arguments,
/// no definition yet, and no place.
pub open spec fn call_def_of(strs: Seq<Seq<char>>, d: hir::AnnotationCall, c: SyntaxNode) -> bool {
    &&& names(strs, d.library, call_texts(c).0)
    &&& names(strs, d.name, call_texts(c).1)
    &&& args_of(strs, d.arguments@, arg_nodes(c))
    &&& d.definition is None
    &&& d.loc.file is None
    &&& d.loc.span == (0usize..0usize)
}

/// `ds` are what the annotation calls `ns` give, in order.
pub open spec fn calls_of(strs: Seq<Seq<char>>, ds: Seq<hir::AnnotationCall>, ns: Seq<SyntaxNode>) -> bool {
    &&& ds.len() == ns.len()
    &&& forall|i: int| 0 <= i < ds.len() ==> call_def_of(strs, #[trigger] ds[i], ns[i])
}

/// How many strings the annotation calls `ns` may intern.
pub open spec fn calls_room(ns: Seq<SyntaxNode>) -> nat
    decreases ns.len(),
{
    if ns.len() == 0 {
        0
    } else {
        calls_room(ns.drop_last()) + 2 + 2 * arg_nodes(ns.last()).len()
    }
}

proof fn lemma_arg_grow(s1: Seq<Seq<char>>, s2: Seq<Seq<char>>, d: AnnotationArgDef, a: SyntaxNode)
    requires
        grows(s1, s2),
        distinct(s2),
        arg_def_of(s1, d, a),
    ensures
        arg_def_of(s2, d, a),
{
    if let Some(t) = arg_value_text(a) {
        lemma_literal_grow(s1, s2, t);
    }
}

proof fn lemma_args_grow(s1: Seq<Seq<char>>, s2: Seq<Seq<char>>, ds: Seq<AnnotationArgDef>, ns: Seq<SyntaxNode>)
    requires
        grows(s1, s2),
        distinct(s2),
        args_of(s1, ds, ns),
    ensures
        args_of(s2, ds, ns),
{
    assert forall|i: int| 0 <= i < ds.len() implies arg_def_of(s2, #[trigger] ds[i], ns[i]) by {
        lemma_arg_grow(s1, s2, ds[i], ns[i]);
    }
}

proof fn lemma_call_grow(s1: Seq<Seq<char>>, s2: Seq<Seq<char>>, d: hir::AnnotationCall, c: SyntaxNode)
    requires
        grows(s1, s2),
        distinct(s2),
        call_def_of(s1, d, c),
    ensures
        call_def_of(s2, d, c),
{
    lemma_args_grow(s1, s2, d.arguments@, arg_nodes(c));
}

pub(crate) proof fn lemma_calls_grow(s1: Seq<Seq<char>>, s2: Seq<Seq<char>>, ds: Seq<hir::AnnotationCall>, ns: Seq<SyntaxNode>)
    requires
        grows(s1, s2),
        distinct(s2),
        calls_of(s1, ds, ns),
    ensures
        calls_of(s2, ds, ns),
{
    assert forall|i: int| 0 <= i < ds.len() implies call_def_of(s2, #[trigger] ds[i], ns[i]) by {
        lemma_call_grow(s1, s2, ds[i], ns[i]);
    }
}

pub(crate) proof fn lemma_grows_trans(a: Seq<Seq<char>>, b: Seq<Seq<char>>, c: Seq<Seq<char>>)
    requires
        grows(a, b),
        grows(b, c),
    ensures
        grows(a, c),
{
    assert forall|k: int| 0 <= k < a.len() implies #[trigger] c[k] == a[k] by {
        assert(c[k] == b[k]);
    }
}

/// The arguments of an annotation call: each one's name and value.
fn collect_annotation_args(args: &AnnotationArgs, interner: &mut Interner) -> (r: Vec<AnnotationArgDef>)
    requires
        distinct(interned(*old(interner))),
        interned(*old(interner)).len() + 2 * child_nodes(args.node(), SyntaxKind::AnnotationArg).len() < u32::MAX,
    ensures
        grows(interned(*old(interner)), interned(*final(interner))),
        distinct(interned(*final(interner))),
        interned(*final(interner)).len() <= interned(*old(interner)).len() + 2 * child_nodes(
            args.node(),
            SyntaxKind::AnnotationArg,
        ).len(),
        args_of(interned(*final(interner)), r@, child_nodes(args.node(), SyntaxKind::AnnotationArg)),
{
    let ghost s0 = interned(*interner);
    let ghost ns = child_nodes(args.node(), SyntaxKind::AnnotationArg);
    let list = args.args();
    proof {
        lemma_children_nodes(args.node(), list@, SyntaxKind::AnnotationArg);
        assert forall|k: int| 0 <= k < s0.len() implies #[trigger] s0[k] == s0[k] by {}
    }
    let mut out: Vec<AnnotationArgDef> = Vec::new();
    let mut i: usize = 0;
    while i < list.len()
        invariant
            list@.len() == ns.len(),
            forall|k: int| 0 <= k < list@.len() ==> (#[trigger] list@[k]).node() == ns[k],
            i <= list@.len(),
            s0.len() + 2 * ns.len() < u32::MAX,
            grows(s0, interned(*interner)),
            distinct(interned(*interner)),
            interned(*interner).len() <= s0.len() + 2 * i,
            args_of(interned(*interner), out@, ns.take(i as int)),
        decreases list.len() - i,
    {
        let ghost s1 = interned(*interner);
        let arg = &list[i];
        let nm = arg.name();
        let name_text = match nm {
            Some(t) => t.text(),
            None => String::new(),
        };
        let name_sym = interner.intern(name_text.as_str());
        let ghost s2 = interned(*interner);
        let vo = arg.value();
        proof {
            lemma_first_child(arg.node(), vo, SyntaxKind::AnnotationValue);
        }
        let value = match &vo {
            Some(v) => parse_annotation_value(v, interner),
            None => LiteralValue::Bool(false),
        };
        let ghost s3 = interned(*interner);
        proof {
            lemma_index_of(s2, name_sym as int, name_text@);
            assert(name_text@ == arg_name_text(ns[i as int]));
            lemma_grows_trans(s1, s2, s3);
            lemma_grows_trans(s0, s1, s3);
            lemma_args_grow(s1, s3, out@, ns.take(i as int));
        }
        out.push(AnnotationArgDef { name: name_sym, value });
        proof {
            assert(ns.take(i as int + 1) =~= ns.take(i as int).push(ns[i as int]));
            assert(out@.last() == AnnotationArgDef { name: name_sym, value });
            assert forall|k: int| 0 <= k < out@.len() implies arg_def_of(s3, #[trigger] out@[k], ns.take(i as int + 1)[k]) by {
                if k < i {
                    assert(out@[k] == out@.drop_last()[k]);
                }
            }
        }
        i += 1;
    }
    proof {
        assert(ns.take(list@.len() as int) =~= ns);
    }
    out
}

/// The nodes of typed declarations.
pub open spec fn decl_nodes<T: AstNode>(ds: Seq<T>) -> Seq<SyntaxNode> {
    ds.map_values(|d: T| d.node())
}

/// The nodes of typed annotation calls.
pub open spec fn call_nodes(anns: Seq<crate::ast::AnnotationCall>) -> Seq<SyntaxNode> {
    anns.map_values(|a: crate::ast::AnnotationCall| a.node())
}

proof fn lemma_calls_room_prefix(ns: Seq<SyntaxNode>, i: int)
    requires
        0 <= i < ns.len(),
    ensures
        calls_room(ns.take(i + 1)) == calls_room(ns.take(i)) + 2 + 2 * arg_nodes(ns[i]).len(),
        calls_room(ns.take(i + 1)) <= calls_room(ns),
    decreases ns.len(),
{
    assert(ns.take(i + 1).drop_last() =~= ns.take(i));
    if i + 1 < ns.len() {
        lemma_calls_room_prefix(ns.drop_last(), i);
        assert(ns.drop_last().take(i + 1) =~= ns.take(i + 1));
        assert(ns.drop_last().take(i) =~= ns.take(i));
    } else {
        assert(ns.take(i + 1) =~= ns);
    }
}

/// The annotation calls written on a declaration: each one's library, name
/// and arguments, with no definition yet.
pub(crate) fn collect_annotation_calls(
    annotations: &[crate::ast::AnnotationCall],
    interner: &mut Interner,
) -> (r: Vec<hir::AnnotationCall>)
    requires
        distinct(interned(*old(interner))),
        interned(*old(interner)).len() + calls_room(call_nodes(annotations@)) < u32::MAX,
    ensures
        grows(interned(*old(interner)), interned(*final(interner))),
        distinct(interned(*final(interner))),
        interned(*final(interner)).len() <= interned(*old(interner)).len() + calls_room(call_nodes(annotations@)),
        calls_of(interned(*final(interner)), r@, call_nodes(annotations@)),
{
    let ghost s0 = interned(*interner);
    let ghost ns = call_nodes(annotations@);
    proof {
        assert forall|k: int| 0 <= k < s0.len() implies #[trigger] s0[k] == s0[k] by {}
    }
    let mut out: Vec<hir::AnnotationCall> = Vec::new();
    let mut i: usize = 0;
    while i < annotations.len()
        invariant
            ns == call_nodes(annotations@),
            i <= annotations@.len(),
            s0.len() + calls_room(ns) < u32::MAX,
            grows(s0, interned(*interner)),
            distinct(interned(*interner)),
            interned(*interner).len() <= s0.len() + calls_room(ns.take(i as int)),
            calls_of(interned(*interner), out@, ns.take(i as int)),
        decreases annotations.len() - i,
    {
        let ghost s1 = interned(*interner);
        let ann = &annotations[i];
        let ghost c = ann.node();
        proof {
            lemma_calls_room_prefix(ns, i as int);
            assert(ns[i as int] == c);
        }
        let pair = ann.library_name();
        let (lib, name) = match pair {
            Some(p) => p,
            None => (String::new(), String::new()),
        };
        let lib_sym = interner.intern(lib.as_str());
        let ghost s2 = interned(*interner);
        let name_sym = interner.intern(name.as_str());
        let ghost s3 = interned(*interner);
        let ao = ann.args();
        proof {
            lemma_first_child(c, ao, SyntaxKind::AnnotationArgs);
        }
        let arguments = match &ao {
            Some(a) => collect_annotation_args(a, interner),
            None => Vec::new(),
        };
        let ghost s4 = interned(*interner);
        proof {
            lemma_index_of(s2, lib_sym as int, lib@);
            lemma_index_of(s3, name_sym as int, name@);
            lemma_grows_trans(s2, s3, s4);
            lemma_grows_trans(s1, s2, s4);
            lemma_grows_trans(s0, s1, s4);
            lemma_calls_grow(s1, s4, out@, ns.take(i as int));
            assert((lib@, name@) == call_texts(c));
            if ao is None {
                assert(arguments@ =~= Seq::<AnnotationArgDef>::empty());
            }
        }
        out.push(hir::AnnotationCall { library: lib_sym, name: name_sym, arguments, definition: None, loc: Loc::default() });
        proof {
            assert(ns.take(i as int + 1) =~= ns.take(i as int).push(c));
            assert forall|k: int| 0 <= k < out@.len() implies call_def_of(s4, #[trigger] out@[k], ns.take(i as int + 1)[k]) by {
                if k < i {
                    assert(out@[k] == out@.drop_last()[k]);
                }
            }
        }
        i += 1;
    }
    proof {
        assert(ns.take(annotations@.len() as int) =~= ns);
    }
    out
}

// ── Field mappings ─────────────────────────────────────────────────────

/// The path segments of a mapping source.
pub open spec fn mapping_segments(m: SyntaxNode) -> Seq<Seq<char>> {
    selected_texts(m, TokenSelect::IdentOrStar)
}

/// `l` is the one link that a mapping with segments `segs` starts with: no
/// source type yet, the last segment as the source field, and the path.
pub open spec fn link_of(strs: Seq<Seq<char>>, l: MappingLink, segs: Seq<Seq<char>>) -> bool {
    &&& l.source_type == 0
    &&& names(strs, l.source_field_name, if segs.len() > 0 { segs.last() } else { Seq::empty() })
    &&& syms_of(strs, l.path@, segs)
}

/// `m` is the mapping that declaration `f` writes, if it writes one.
pub open spec fn mapping_of(strs: Seq<Seq<char>>, m: Option<FieldMapping>, f: SyntaxNode) -> bool {
    match first_child(f, SyntaxKind::MappingSource) {
        Some(src) => m matches Some(fm) && fm.chain@.len() == 1 && link_of(strs, fm.chain@[0], mapping_segments(src)),
        None => m is None,
    }
}

/// How many strings the mapping of `f` may intern.
pub open spec fn mapping_room(f: SyntaxNode) -> nat {
    match first_child(f, SyntaxKind::MappingSource) {
        Some(src) => 1 + mapping_segments(src).len(),
        None => 0,
    }
}

proof fn lemma_syms_grow(s1: Seq<Seq<char>>, s2: Seq<Seq<char>>, syms: Seq<Sym>, texts: Seq<Seq<char>>)
    requires
        grows(s1, s2),
        syms_of(s1, syms, texts),
    ensures
        syms_of(s2, syms, texts),
{
    assert forall|i: int| 0 <= i < syms.len() implies names(s2, #[trigger] syms[i], texts[i]) by {
        assert(s2[syms[i] as int] == s1[syms[i] as int]);
    }
}

proof fn lemma_mapping_grow(s1: Seq<Seq<char>>, s2: Seq<Seq<char>>, m: Option<FieldMapping>, f: SyntaxNode)
    requires
        grows(s1, s2),
        mapping_of(s1, m, f),
    ensures
        mapping_of(s2, m, f),
{
    if let Some(src) = first_child(f, SyntaxKind::MappingSource) {
        let l = m->Some_0.chain@[0];
        lemma_syms_grow(s1, s2, l.path@, mapping_segments(src));
        assert(s2[l.source_field_name as int] == s1[l.source_field_name as int]);
    }
}

/// The mapping that a mapping source gives: one link, with the last path
/// segment as the source field.
fn collect_mapping(src: Option<MappingSource>, interner: &mut Interner, Ghost(f): Ghost<SyntaxNode>) -> (r: Option<FieldMapping>)
    requires
        crate::ast::first_child_is(f, src, SyntaxKind::MappingSource),
        distinct(interned(*old(interner))),
        interned(*old(interner)).len() + mapping_room(f) < u32::MAX,
    ensures
        grows(interned(*old(interner)), interned(*final(interner))),
        distinct(interned(*final(interner))),
        interned(*final(interner)).len() <= interned(*old(interner)).len() + mapping_room(f),
        mapping_of(interned(*final(interner)), r, f),
{
    proof {
        lemma_first_child(f, src, SyntaxKind::MappingSource);
        let s0 = interned(*interner);
        assert forall|k: int| 0 <= k < s0.len() implies #[trigger] s0[k] == s0[k] by {}
    }
    match &src {
        None => None,
        Some(m) => {
            let ghost s0 = interned(*interner);
            let ghost segs = mapping_segments(m.node());
            let segments = m.segments();
            let n = segments.len();
            let last: &str = if n > 0 {
                segments[n - 1].as_str()
            } else {
                ""
            };
            proof {
                reveal_strlit("");
                if n > 0 {
                    assert(segments@[n - 1]@ == segs.last());
                } else {
                    assert(last@ =~= Seq::<char>::empty());
                }
            }
            let field_sym = interner.intern(last);
            let ghost s1 = interned(*interner);
            proof {
                lemma_index_of(s1, field_sym as int, last@);
            }
            let mut path: Vec<Sym> = Vec::new();
            let mut i: usize = 0;
            while i < n
                invariant
                    n == segments@.len() == segs.len(),
                    forall|k: int| 0 <= k < n ==> (#[trigger] segments@[k])@ == segs[k],
                    i <= n,
                    s0.len() + 1 + n < u32::MAX,
                    grows(s0, s1),
                    grows(s1, interned(*interner)),
                    distinct(interned(*interner)),
                    interned(*interner).len() <= s1.len() + i,
                    s1.len() <= s0.len() + 1,
                    names(s1, field_sym, if segs.len() > 0 { segs.last() } else { Seq::empty() }),
                    syms_of(interned(*interner), path@, segs.take(i as int)),
                decreases n - i,
            {
                let ghost sa = interned(*interner);
                let sym = interner.intern(segments[i].as_str());
                let ghost sb = interned(*interner);
                proof {
                    lemma_index_of(sb, sym as int, segments@[i as int]@);
                    lemma_syms_grow(sa, sb, path@, segs.take(i as int));
                    assert forall|k: int| 0 <= k < s1.len() implies #[trigger] sb[k] == s1[k] by {
                        assert(sb[k] == sa[k]);
                    }
                }
                path.push(sym);
                proof {
                    assert(segs.take(i as int + 1) =~= segs.take(i as int).push(segs[i as int]));
                }
                i += 1;
            }
            let ghost s2 = interned(*interner);
            proof {
                assert(segs.take(n as int) =~= segs);
                assert(s2[field_sym as int] == s1[field_sym as int]);
                assert forall|k: int| 0 <= k < s0.len() implies #[trigger] s2[k] == s0[k] by {
                    assert(s2[k] == s1[k]);
                }
            }
            let mut chain: Vec<MappingLink> = Vec::new();
            chain.push(MappingLink { source_type: 0, source_field_name: field_sym, path });
            Some(FieldMapping { chain })
        },
    }
}

// ── Fields ─────────────────────────────────────────────────────────────

/// Whether field declaration `f` gives a field: it has a name and a type.
pub open spec fn field_kept(f: SyntaxNode) -> bool {
    name_bytes(f) is Some && first_child(f, SyntaxKind::TypeRef) is Some
}

/// The type reference of field declaration `f`.
pub open spec fn field_type(f: SyntaxNode) -> SyntaxNode {
    first_child(f, SyntaxKind::TypeRef)->Some_0
}

/// The number written on field declaration `f` (0 where none is).
pub open spec fn field_number(f: SyntaxNode) -> u32 {
    match int_literal_value(f, 0) {
        Some(n) => n,
        None => 0,
    }
}

/// The field declarations among `fs` that give fields, in order.
pub open spec fn kept_fields(fs: Seq<SyntaxNode>) -> Seq<SyntaxNode>
    decreases fs.len(),
{
    if fs.len() == 0 {
        Seq::empty()
    } else if field_kept(fs.last()) {
        kept_fields(fs.drop_last()).push(fs.last())
    } else {
        kept_fields(fs.drop_last())
    }
}

/// How many strings field declaration `f` may intern.
pub open spec fn field_room(f: SyntaxNode) -> nat {
    if field_kept(f) {
        1 + type_room(field_type(f)) + mapping_room(f) + calls_room(annotation_nodes(f))
    } else {
        0
    }
}

/// How many strings the field declarations `fs` may intern.
pub open spec fn fields_room(fs: Seq<SyntaxNode>) -> nat
    decreases fs.len(),
{
    if fs.len() == 0 {
        0
    } else {
        fields_room(fs.drop_last()) + field_room(fs.last())
    }
}

/// The unresolved names in the types of the field declarations `fs`, in order.
pub open spec fn fields_unresolved(
    fs: Seq<SyntaxNode>,
    pkg: Seq<char>,
    imps: Map<Seq<char>, Seq<char>>,
    tt: Map<Seq<char>, u32>,
    et: Map<Seq<char>, u32>,
) -> Seq<Seq<char>>
    decreases fs.len(),
{
    if fs.len() == 0 {
        Seq::empty()
    } else if field_kept(fs.last()) {
        fields_unresolved(fs.drop_last(), pkg, imps, tt, et) + unresolved_in(field_type(fs.last()), pkg, imps, tt, et)
    } else {
        fields_unresolved(fs.drop_last(), pkg, imps, tt, et)
    }
}

/// `d` is the field that declaration `f` gives, its type resolved in
/// package `pkg` with imports `imps` and the tables `tt` and `et`.
pub open spec fn field_def_of(
    strs: Seq<Seq<char>>,
    d: FieldDef,
    f: SyntaxNode,
    pkg: Seq<char>,
    imps: Map<Seq<char>, Seq<char>>,
    tt: Map<Seq<char>, u32>,
    et: Map<Seq<char>, u32>,
) -> bool {
    let tr = field_type(f);
    &&& names(strs, d.name, name_text(f))
    &&& d.number == field_number(f)
    &&& d.ty == resolved(strs, tr, pkg, imps, tt, et)
    &&& leaves_in(strs, tr, pkg, imps, tt, et)
    &&& d.is_optional == (node_slots(tr.tree(), tr.elements(), SyntaxKind::OptionalMarker).len() > 0)
    &&& d.is_repeated == (first_child(tr, SyntaxKind::ArrayType) is Some)
    &&& calls_of(strs, d.annotations@, annotation_nodes(f))
    &&& mapping_of(strs, d.mapping, f)
    &&& d.trace is None
    &&& d.loc.file is None
    &&& d.loc.span == (0usize..0usize)
}

/// `ds` are the fields that the declarations `fs` give, in order.
pub open spec fn fields_of(
    strs: Seq<Seq<char>>,
    ds: Seq<FieldDef>,
    fs: Seq<SyntaxNode>,
    pkg: Seq<char>,
    imps: Map<Seq<char>, Seq<char>>,
    tt: Map<Seq<char>, u32>,
    et: Map<Seq<char>, u32>,
) -> bool {
    &&& ds.len() == fs.len()
    &&& forall|i: int| 0 <= i < ds.len() ==> field_def_of(strs, #[trigger] ds[i], fs[i], pkg, imps, tt, et)
}

proof fn lemma_field_grow(
    s1: Seq<Seq<char>>,
    s2: Seq<Seq<char>>,
    d: FieldDef,
    f: SyntaxNode,
    pkg: Seq<char>,
    imps: Map<Seq<char>, Seq<char>>,
    tt: Map<Seq<char>, u32>,
    et: Map<Seq<char>, u32>,
)
    requires
        node_ok(f),
        field_kept(f),
        grows(s1, s2),
        distinct(s2),
        field_def_of(s1, d, f, pkg, imps, tt, et),
    ensures
        field_def_of(s2, d, f, pkg, imps, tt, et),
{
    lemma_child_nodes_below(f, SyntaxKind::TypeRef);
    lemma_resolved_grow(s1, s2, field_type(f), pkg, imps, tt, et);
    lemma_calls_grow(s1, s2, d.annotations@, annotation_nodes(f));
    lemma_mapping_grow(s1, s2, d.mapping, f);
    assert(s2[d.name as int] == s1[d.name as int]);
}

pub(crate) proof fn lemma_fields_grow(
    s1: Seq<Seq<char>>,
    s2: Seq<Seq<char>>,
    ds: Seq<FieldDef>,
    fs: Seq<SyntaxNode>,
    pkg: Seq<char>,
    imps: Map<Seq<char>, Seq<char>>,
    tt: Map<Seq<char>, u32>,
    et: Map<Seq<char>, u32>,
)
    requires
        forall|i: int| 0 <= i < fs.len() ==> node_ok(#[trigger] fs[i]) && field_kept(fs[i]),
        grows(s1, s2),
        distinct(s2),
        fields_of(s1, ds, fs, pkg, imps, tt, et),
    ensures
        fields_of(s2, ds, fs, pkg, imps, tt, et),
{
    assert forall|i: int| 0 <= i < ds.len() implies field_def_of(s2, #[trigger] ds[i], fs[i], pkg, imps, tt, et) by {
        lemma_field_grow(s1, s2, ds[i], fs[i], pkg, imps, tt, et);
    }
}

proof fn lemma_kept_fields(fs: Seq<SyntaxNode>)
    ensures
        forall|i: int|
            0 <= i < kept_fields(fs).len() ==> field_kept(#[trigger] kept_fields(fs)[i]) && fs.contains(
                kept_fields(fs)[i],
            ),
    decreases fs.len(),
{
    if fs.len() > 0 {
        lemma_kept_fields(fs.drop_last());
        assert forall|i: int| 0 <= i < kept_fields(fs).len() implies field_kept(#[trigger] kept_fields(fs)[i])
            && fs.contains(kept_fields(fs)[i]) by {
            if i < kept_fields(fs.drop_last()).len() {
                let j = choose|j: int| 0 <= j < fs.drop_last().len() && fs.drop_last()[j] == kept_fields(fs)[i];
                assert(fs[j] == kept_fields(fs)[i]);
            } else {
                assert(fs[fs.len() - 1] == kept_fields(fs)[i]);
            }
        }
    }
}

proof fn lemma_fields_step(fs: Seq<SyntaxNode>, i: int)
    requires
        0 <= i < fs.len(),
    ensures
        kept_fields(fs.take(i + 1)) == if field_kept(fs[i]) {
            kept_fields(fs.take(i)).push(fs[i])
        } else {
            kept_fields(fs.take(i))
        },
        fields_room(fs.take(i + 1)) == fields_room(fs.take(i)) + field_room(fs[i]),
        fields_room(fs.take(i + 1)) <= fields_room(fs),
        forall|pkg: Seq<char>, imps: Map<Seq<char>, Seq<char>>, tt: Map<Seq<char>, u32>, et: Map<Seq<char>, u32>|
            #[trigger] fields_unresolved(fs.take(i + 1), pkg, imps, tt, et) == if field_kept(fs[i]) {
                fields_unresolved(fs.take(i), pkg, imps, tt, et) + unresolved_in(field_type(fs[i]), pkg, imps, tt, et)
            } else {
                fields_unresolved(fs.take(i), pkg, imps, tt, et)
            },
    decreases fs.len(),
{
    assert(fs.take(i + 1).drop_last() =~= fs.take(i));
    if i + 1 < fs.len() {
        lemma_fields_step(fs.drop_last(), i);
        assert(fs.drop_last().take(i + 1) =~= fs.take(i + 1));
        assert(fs.drop_last().take(i) =~= fs.take(i));
    } else {
        assert(fs.take(i + 1) =~= fs);
    }
}

/// The fields that field declarations give: each declaration with a name
/// and a type, its type resolved, its mapping and annotations collected.
fn collect_fields(
    fields: &Vec<FieldDecl>,
    interner: &mut Interner,
    pkg: &str,
    imports: &ImportMap,
    symbols: &SymbolTable,
    diag: &mut Diagnostics,
    file_name: &str,
) -> (r: Vec<FieldDef>)
    requires
        forall|i: int| 0 <= i < fields@.len() ==> node_ok(#[trigger] fields@[i].node()),
        distinct(interned(*old(interner))),
        interned(*old(interner)).len() + fields_room(decl_nodes(fields@)) < u32::MAX,
        keys_below(symbols.types@, interned(*old(interner)).len()),
        keys_below(symbols.enums@, interned(*old(interner)).len()),
    ensures
        grows(interned(*old(interner)), interned(*final(interner))),
        distinct(interned(*final(interner))),
        interned(*final(interner)).len() <= interned(*old(interner)).len() + fields_room(decl_nodes(fields@)),
        fields_of(
            interned(*final(interner)),
            r@,
            kept_fields(decl_nodes(fields@)),
            pkg@,
            imports@,
            text_table(interned(*old(interner)), symbols.types@),
            text_table(interned(*old(interner)), symbols.enums@),
        ),
        grows(old(diag)@, final(diag)@),
        unresolved_reported(
            final(diag)@.skip(old(diag)@.len() as int),
            fields_unresolved(
                decl_nodes(fields@),
                pkg@,
                imports@,
                text_table(interned(*old(interner)), symbols.types@),
                text_table(interned(*old(interner)), symbols.enums@),
            ),
            file_name@,
        ),
{
    let ghost s0 = interned(*interner);
    let ghost tt = text_table(s0, symbols.types@);
    let ghost et = text_table(s0, symbols.enums@);
    let ghost d0 = diag@;
    let ghost fs = decl_nodes(fields@);
    proof {
        assert(d0.skip(d0.len() as int) =~= Seq::<Diagnostic>::empty());
        assert forall|k: int| 0 <= k < d0.len() implies #[trigger] d0[k] == d0[k] by {}
        assert forall|k: int| 0 <= k < s0.len() implies #[trigger] s0[k] == s0[k] by {}
        assert(fs.take(0) =~= Seq::<SyntaxNode>::empty());
    }
    let mut out: Vec<FieldDef> = Vec::new();
    let mut i: usize = 0;
    while i < fields.len()
        invariant
            fs == decl_nodes(fields@),
            forall|k: int| 0 <= k < fs.len() ==> node_ok(#[trigger] fs[k]),
            i <= fields@.len(),
            s0.len() + fields_room(fs) < u32::MAX,
            keys_below(symbols.types@, s0.len()),
            keys_below(symbols.enums@, s0.len()),
            tt == text_table(s0, symbols.types@),
            et == text_table(s0, symbols.enums@),
            grows(s0, interned(*interner)),
            distinct(interned(*interner)),
            interned(*interner).len() <= s0.len() + fields_room(fs.take(i as int)),
            fields_of(interned(*interner), out@, kept_fields(fs.take(i as int)), pkg@, imports@, tt, et),
            grows(d0, diag@),
            unresolved_reported(diag@.skip(d0.len() as int), fields_unresolved(fs.take(i as int), pkg@, imports@, tt, et), file_name@),
        decreases fields.len() - i,
    {
        let ghost s1 = interned(*interner);
        let ghost d1 = diag@;
        let f = &fields[i];
        let ghost fnode = f.node();
        proof {
            lemma_fields_step(fs, i as int);
            lemma_kept_fields(fs.take(i as int));
            assert forall|k: int| 0 <= k < kept_fields(fs.take(i as int)).len() implies node_ok(
                #[trigger] kept_fields(fs.take(i as int))[k],
            ) by {
                let j = choose|j: int| 0 <= j < fs.take(i as int).len() && fs.take(i as int)[j] == kept_fields(fs.take(i as int))[k];
                assert(node_ok(fs[j]));
            }
            assert(fs[i as int] == fnode);
        }
        let nm = f.name();
        proof {
            lemma_name_token(fnode, nm);
        }
        let name = match nm {
            Some(t) => t.text(),
            None => {
                i += 1;
                continue;
            },
        };
        let number = match f.field_number() {
            Some(n) => n,
            None => 0,
        };
        let tro = f.type_ref();
        proof {
            lemma_first_child(fnode, tro, SyntaxKind::TypeRef);
            lemma_child_nodes_below(fnode, SyntaxKind::TypeRef);
        }
        let type_ref = match tro {
            Some(t) => t,
            None => {
                i += 1;
                continue;
            },
        };
        let ghost tr = type_ref.node();
        let is_optional = type_ref.is_optional();
        let arr = type_ref.array_type();
        proof {
            lemma_first_child(tr, arr, SyntaxKind::ArrayType);
            lemma_text_table_grow(s0, s1, symbols.types@);
            lemma_text_table_grow(s0, s1, symbols.enums@);
        }
        let is_repeated = arr.is_some();
        let ty = resolve_type_ref(&type_ref, interner, pkg, imports, symbols, diag, file_name);
        let ghost s2 = interned(*interner);
        let mo = f.mapping();
        let mapping = collect_mapping(mo, interner, Ghost(fnode));
        let ghost s3 = interned(*interner);
        let anns = f.annotations();
        proof {
            lemma_annotation_nodes(fnode, anns@);
            assert(call_nodes(anns@) =~= annotation_nodes(fnode));
        }
        let annotations = collect_annotation_calls(anns.as_slice(), interner);
        let ghost s4 = interned(*interner);
        let name_sym = interner.intern(name.as_str());
        let ghost s5 = interned(*interner);
        proof {
            lemma_index_of(s5, name_sym as int, name@);
            lemma_grows_trans(s2, s3, s4);
            lemma_grows_trans(s2, s4, s5);
            lemma_grows_trans(s1, s2, s5);
            lemma_grows_trans(s0, s1, s5);
            lemma_grows_trans(s3, s4, s5);
            lemma_resolved_grow(s2, s5, tr, pkg@, imports@, tt, et);
            lemma_mapping_grow(s3, s5, mapping, fnode);
            lemma_calls_grow(s4, s5, annotations@, annotation_nodes(fnode));
            lemma_fields_grow(s1, s5, out@, kept_fields(fs.take(i as int)), pkg@, imports@, tt, et);
            lemma_unresolved_append(d0, d1, diag@, fields_unresolved(fs.take(i as int), pkg@, imports@, tt, et), unresolved_in(tr, pkg@, imports@, tt, et), file_name@);
        }
        let fd = FieldDef {
            name: name_sym,
            number,
            ty,
            is_optional,
            is_repeated,
            annotations,
            mapping,
            trace: None,
            loc: Loc::default(),
        };
        proof {
            assert(field_def_of(s5, fd, fnode, pkg@, imports@, tt, et));
        }
        out.push(fd);
        proof {
            assert forall|k: int| 0 <= k < out@.len() implies field_def_of(s5, #[trigger] out@[k], kept_fields(fs.take(i as int + 1))[k], pkg@, imports@, tt, et) by {
                if k < out@.len() - 1 {
                    assert(out@[k] == out@.drop_last()[k]);
                }
            }
        }
        i += 1;
    }
    proof {
        assert(fs.take(fields@.len() as int) =~= fs);
    }
    out
}


// ── Oneofs ─────────────────────────────────────────────────────────────

/// `d` is the oneof field that declaration `f` gives.
pub open spec fn oneof_field_def_of(
    strs: Seq<Seq<char>>,
    d: OneofFieldDef,
    f: SyntaxNode,
    pkg: Seq<char>,
    imps: Map<Seq<char>, Seq<char>>,
    tt: Map<Seq<char>, u32>,
    et: Map<Seq<char>, u32>,
) -> bool {
    let tr = field_type(f);
    &&& names(strs, d.name, name_text(f))
    &&& d.number == field_number(f)
    &&& d.ty == resolved(strs, tr, pkg, imps, tt, et)
    &&& leaves_in(strs, tr, pkg, imps, tt, et)
    &&& calls_of(strs, d.annotations@, annotation_nodes(f))
    &&& mapping_of(strs, d.mapping, f)
    &&& d.loc.file is None
    &&& d.loc.span == (0usize..0usize)
}

/// `ds` are the oneof fields that the declarations `fs` give, in order.
pub open spec fn oneof_fields_of(
    strs: Seq<Seq<char>>,
    ds: Seq<OneofFieldDef>,
    fs: Seq<SyntaxNode>,
    pkg: Seq<char>,
    imps: Map<Seq<char>, Seq<char>>,
    tt: Map<Seq<char>, u32>,
    et: Map<Seq<char>, u32>,
) -> bool {
    &&& ds.len() == fs.len()
    &&& forall|i: int| 0 <= i < ds.len() ==> oneof_field_def_of(strs, #[trigger] ds[i], fs[i], pkg, imps, tt, et)
}

proof fn lemma_oneof_fields_grow(
    s1: Seq<Seq<char>>,
    s2: Seq<Seq<char>>,
    ds: Seq<OneofFieldDef>,
    fs: Seq<SyntaxNode>,
    pkg: Seq<char>,
    imps: Map<Seq<char>, Seq<char>>,
    tt: Map<Seq<char>, u32>,
    et: Map<Seq<char>, u32>,
)
    requires
        forall|i: int| 0 <= i < fs.len() ==> node_ok(#[trigger] fs[i]) && field_kept(fs[i]),
        grows(s1, s2),
        distinct(s2),
        oneof_fields_of(s1, ds, fs, pkg, imps, tt, et),
    ensures
        oneof_fields_of(s2, ds, fs, pkg, imps, tt, et),
{
    assert forall|i: int| 0 <= i < ds.len() implies oneof_field_def_of(s2, #[trigger] ds[i], fs[i], pkg, imps, tt, et) by {
        let d = ds[i];
        let f = fs[i];
        lemma_child_nodes_below(f, SyntaxKind::TypeRef);
        lemma_resolved_grow(s1, s2, field_type(f), pkg, imps, tt, et);
        lemma_calls_grow(s1, s2, d.annotations@, annotation_nodes(f));
        lemma_mapping_grow(s1, s2, d.mapping, f);
        assert(s2[d.name as int] == s1[d.name as int]);
    }
}

/// The fields of a oneof: each one with a name and a type, its type
/// resolved, its mapping and annotations collected.
fn collect_oneof_fields(
    fields: &Vec<OneofField>,
    interner: &mut Interner,
    pkg: &str,
    imports: &ImportMap,
    symbols: &SymbolTable,
    diag: &mut Diagnostics,
    file_name: &str,
) -> (r: Vec<OneofFieldDef>)
    requires
        forall|i: int| 0 <= i < fields@.len() ==> node_ok(#[trigger] fields@[i].node()),
        distinct(interned(*old(interner))),
        interned(*old(interner)).len() + fields_room(decl_nodes(fields@)) < u32::MAX,
        keys_below(symbols.types@, interned(*old(interner)).len()),
        keys_below(symbols.enums@, interned(*old(interner)).len()),
    ensures
        grows(interned(*old(interner)), interned(*final(interner))),
        distinct(interned(*final(interner))),
        interned(*final(interner)).len() <= interned(*old(interner)).len() + fields_room(decl_nodes(fields@)),
        oneof_fields_of(
            interned(*final(interner)),
            r@,
            kept_fields(decl_nodes(fields@)),
            pkg@,
            imports@,
            text_table(interned(*old(interner)), symbols.types@),
            text_table(interned(*old(interner)), symbols.enums@),
        ),
        grows(old(diag)@, final(diag)@),
        unresolved_reported(
            final(diag)@.skip(old(diag)@.len() as int),
            fields_unresolved(
                decl_nodes(fields@),
                pkg@,
                imports@,
                text_table(interned(*old(interner)), symbols.types@),
                text_table(interned(*old(interner)), symbols.enums@),
            ),
            file_name@,
        ),
{
    let ghost s0 = interned(*interner);
    let ghost tt = text_table(s0, symbols.types@);
    let ghost et = text_table(s0, symbols.enums@);
    let ghost d0 = diag@;
    let ghost fs = decl_nodes(fields@);
    proof {
        assert(d0.skip(d0.len() as int) =~= Seq::<Diagnostic>::empty());
        assert forall|k: int| 0 <= k < d0.len() implies #[trigger] d0[k] == d0[k] by {}
        assert forall|k: int| 0 <= k < s0.len() implies #[trigger] s0[k] == s0[k] by {}
        assert(fs.take(0) =~= Seq::<SyntaxNode>::empty());
    }
    let mut out: Vec<OneofFieldDef> = Vec::new();
    let mut i: usize = 0;
    while i < fields.len()
        invariant
            fs == decl_nodes(fields@),
            forall|k: int| 0 <= k < fs.len() ==> node_ok(#[trigger] fs[k]),
            i <= fields@.len(),
            s0.len() + fields_room(fs) < u32::MAX,
            keys_below(symbols.types@, s0.len()),
            keys_below(symbols.enums@, s0.len()),
            tt == text_table(s0, symbols.types@),
            et == text_table(s0, symbols.enums@),
            grows(s0, interned(*interner)),
            distinct(interned(*interner)),
            interned(*interner).len() <= s0.len() + fields_room(fs.take(i as int)),
            oneof_fields_of(interned(*interner), out@, kept_fields(fs.take(i as int)), pkg@, imports@, tt, et),
            grows(d0, diag@),
            unresolved_reported(diag@.skip(d0.len() as int), fields_unresolved(fs.take(i as int), pkg@, imports@, tt, et), file_name@),
        decreases fields.len() - i,
    {
        let ghost s1 = interned(*interner);
        let ghost d1 = diag@;
        let f = &fields[i];
        let ghost fnode = f.node();
        proof {
            lemma_fields_step(fs, i as int);
            lemma_kept_fields(fs.take(i as int));
            assert forall|k: int| 0 <= k < kept_fields(fs.take(i as int)).len() implies node_ok(
                #[trigger] kept_fields(fs.take(i as int))[k],
            ) by {
                let j = choose|j: int| 0 <= j < fs.take(i as int).len() && fs.take(i as int)[j] == kept_fields(fs.take(i as int))[k];
                assert(node_ok(fs[j]));
            }
            assert(fs[i as int] == fnode);
        }
        let nm = f.name();
        proof {
            lemma_name_token(fnode, nm);
        }
        let name = match nm {
            Some(t) => t.text(),
            None => {
                i += 1;
                continue;
            },
        };
        let number = match f.field_number() {
            Some(n) => n,
            None => 0,
        };
        let tro = f.type_ref();
        proof {
            lemma_first_child(fnode, tro, SyntaxKind::TypeRef);
            lemma_child_nodes_below(fnode, SyntaxKind::TypeRef);
        }
        let type_ref = match tro {
            Some(t) => t,
            None => {
                i += 1;
                continue;
            },
        };
        let ghost tr = type_ref.node();
        proof {
            lemma_text_table_grow(s0, s1, symbols.types@);
            lemma_text_table_grow(s0, s1, symbols.enums@);
        }
        let ty = resolve_type_ref(&type_ref, interner, pkg, imports, symbols, diag, file_name);
        let ghost s2 = interned(*interner);
        let mo = f.mapping();
        let mapping = collect_mapping(mo, interner, Ghost(fnode));
        let ghost s3 = interned(*interner);
        let anns = f.annotations();
        proof {
            lemma_annotation_nodes(fnode, anns@);
            assert(call_nodes(anns@) =~= annotation_nodes(fnode));
        }
        let annotations = collect_annotation_calls(anns.as_slice(), interner);
        let ghost s4 = interned(*interner);
        let name_sym = interner.intern(name.as_str());
        let ghost s5 = interned(*interner);
        proof {
            lemma_index_of(s5, name_sym as int, name@);
            lemma_grows_trans(s2, s3, s4);
            lemma_grows_trans(s2, s4, s5);
            lemma_grows_trans(s1, s2, s5);
            lemma_grows_trans(s0, s1, s5);
            lemma_grows_trans(s3, s4, s5);
            lemma_resolved_grow(s2, s5, tr, pkg@, imports@, tt, et);
            lemma_mapping_grow(s3, s5, mapping, fnode);
            lemma_calls_grow(s4, s5, annotations@, annotation_nodes(fnode));
            lemma_oneof_fields_grow(s1, s5, out@, kept_fields(fs.take(i as int)), pkg@, imports@, tt, et);
            lemma_unresolved_append(d0, d1, diag@, fields_unresolved(fs.take(i as int), pkg@, imports@, tt, et), unresolved_in(tr, pkg@, imports@, tt, et), file_name@);
        }
        let fd = OneofFieldDef { name: name_sym, number, ty, annotations, mapping, loc: Loc::default() };
        proof {
            assert(oneof_field_def_of(s5, fd, fnode, pkg@, imports@, tt, et));
        }
        out.push(fd);
        proof {
            assert forall|k: int| 0 <= k < out@.len() implies oneof_field_def_of(s5, #[trigger] out@[k], kept_fields(fs.take(i as int + 1))[k], pkg@, imports@, tt, et) by {
                if k < out@.len() - 1 {
                    assert(out@[k] == out@.drop_last()[k]);
                }
            }
        }
        i += 1;
    }
    proof {
        assert(fs.take(fields@.len() as int) =~= fs);
    }
    out
}

/// Whether oneof declaration `o` gives a oneof: it has a name.
pub open spec fn oneof_kept(o: SyntaxNode) -> bool {
    name_bytes(o) is Some
}

/// The oneof declarations among `os` that give oneofs, in order.
pub open spec fn kept_oneofs(os: Seq<SyntaxNode>) -> Seq<SyntaxNode>
    decreases os.len(),
{
    if os.len() == 0 {
        Seq::empty()
    } else if oneof_kept(os.last()) {
        kept_oneofs(os.drop_last()).push(os.last())
    } else {
        kept_oneofs(os.drop_last())
    }
}

/// How many strings oneof declaration `o` may intern.
pub open spec fn oneof_room(o: SyntaxNode) -> nat {
    if oneof_kept(o) {
        1 + fields_room(child_nodes(o, SyntaxKind::OneofField)) + calls_room(annotation_nodes(o))
    } else {
        0
    }
}

/// How many strings the oneof declarations `os` may intern.
pub open spec fn oneofs_room(os: Seq<SyntaxNode>) -> nat
    decreases os.len(),
{
    if os.len() == 0 {
        0
    } else {
        oneofs_room(os.drop_last()) + oneof_room(os.last())
    }
}

/// The unresolved names in the field types of the oneof declarations `os`, in order.
pub open spec fn oneofs_unresolved(
    os: Seq<SyntaxNode>,
    pkg: Seq<char>,
    imps: Map<Seq<char>, Seq<char>>,
    tt: Map<Seq<char>, u32>,
    et: Map<Seq<char>, u32>,
) -> Seq<Seq<char>>
    decreases os.len(),
{
    if os.len() == 0 {
        Seq::empty()
    } else if oneof_kept(os.last()) {
        oneofs_unresolved(os.drop_last(), pkg, imps, tt, et) + fields_unresolved(
            child_nodes(os.last(), SyntaxKind::OneofField),
            pkg,
            imps,
            tt,
            et,
        )
    } else {
        oneofs_unresolved(os.drop_last(), pkg, imps, tt, et)
    }
}

/// `d` is the oneof that declaration `o` gives: its name, its fields and
/// its annotations.
pub open spec fn oneof_def_of(
    strs: Seq<Seq<char>>,
    d: OneofDef,
    o: SyntaxNode,
    pkg: Seq<char>,
    imps: Map<Seq<char>, Seq<char>>,
    tt: Map<Seq<char>, u32>,
    et: Map<Seq<char>, u32>,
) -> bool {
    &&& names(strs, d.name, name_text(o))
    &&& oneof_fields_of(strs, d.fields@, kept_fields(child_nodes(o, SyntaxKind::OneofField)), pkg, imps, tt, et)
    &&& calls_of(strs, d.annotations@, annotation_nodes(o))
    &&& d.loc.file is None
    &&& d.loc.span == (0usize..0usize)
}

/// `ds` are the oneofs that the declarations `os` give, in order.
pub open spec fn oneofs_of(
    strs: Seq<Seq<char>>,
    ds: Seq<OneofDef>,
    os: Seq<SyntaxNode>,
    pkg: Seq<char>,
    imps: Map<Seq<char>, Seq<char>>,
    tt: Map<Seq<char>, u32>,
    et: Map<Seq<char>, u32>,
) -> bool {
    &&& ds.len() == os.len()
    &&& forall|i: int| 0 <= i < ds.len() ==> oneof_def_of(strs, #[trigger] ds[i], os[i], pkg, imps, tt, et)
}

/// The kept field declarations of well-formed declarations are well-formed.
pub(crate) proof fn lemma_kept_ok(fs: Seq<SyntaxNode>)
    requires
        forall|i: int| 0 <= i < fs.len() ==> node_ok(#[trigger] fs[i]),
    ensures
        forall|i: int| 0 <= i < kept_fields(fs).len() ==> node_ok(#[trigger] kept_fields(fs)[i]) && field_kept(kept_fields(fs)[i]),
{
    lemma_kept_fields(fs);
    assert forall|i: int| 0 <= i < kept_fields(fs).len() implies node_ok(#[trigger] kept_fields(fs)[i]) && field_kept(kept_fields(fs)[i]) by {
        let j = choose|j: int| 0 <= j < fs.len() && fs[j] == kept_fields(fs)[i];
        assert(node_ok(fs[j]));
    }
}

pub(crate) proof fn lemma_oneofs_grow(
    s1: Seq<Seq<char>>,
    s2: Seq<Seq<char>>,
    ds: Seq<OneofDef>,
    os: Seq<SyntaxNode>,
    pkg: Seq<char>,
    imps: Map<Seq<char>, Seq<char>>,
    tt: Map<Seq<char>, u32>,
    et: Map<Seq<char>, u32>,
)
    requires
        forall|i: int| 0 <= i < os.len() ==> node_ok(#[trigger] os[i]),
        grows(s1, s2),
        distinct(s2),
        oneofs_of(s1, ds, os, pkg, imps, tt, et),
    ensures
        oneofs_of(s2, ds, os, pkg, imps, tt, et),
{
    assert forall|i: int| 0 <= i < ds.len() implies oneof_def_of(s2, #[trigger] ds[i], os[i], pkg, imps, tt, et) by {
        let o = os[i];
        lemma_child_nodes_below(o, SyntaxKind::OneofField);
        lemma_kept_ok(child_nodes(o, SyntaxKind::OneofField));
        lemma_oneof_fields_grow(s1, s2, ds[i].fields@, kept_fields(child_nodes(o, SyntaxKind::OneofField)), pkg, imps, tt, et);
        lemma_calls_grow(s1, s2, ds[i].annotations@, annotation_nodes(o));
        assert(s2[ds[i].name as int] == s1[ds[i].name as int]);
    }
}

proof fn lemma_oneofs_step(os: Seq<SyntaxNode>, i: int)
    requires
        0 <= i < os.len(),
    ensures
        kept_oneofs(os.take(i + 1)) == if oneof_kept(os[i]) {
            kept_oneofs(os.take(i)).push(os[i])
        } else {
            kept_oneofs(os.take(i))
        },
        oneofs_room(os.take(i + 1)) == oneofs_room(os.take(i)) + oneof_room(os[i]),
        oneofs_room(os.take(i + 1)) <= oneofs_room(os),
        forall|pkg: Seq<char>, imps: Map<Seq<char>, Seq<char>>, tt: Map<Seq<char>, u32>, et: Map<Seq<char>, u32>|
            #[trigger] oneofs_unresolved(os.take(i + 1), pkg, imps, tt, et) == if oneof_kept(os[i]) {
                oneofs_unresolved(os.take(i), pkg, imps, tt, et) + fields_unresolved(
                    child_nodes(os[i], SyntaxKind::OneofField),
                    pkg,
                    imps,
                    tt,
                    et,
                )
            } else {
                oneofs_unresolved(os.take(i), pkg, imps, tt, et)
            },
    decreases os.len(),
{
    assert(os.take(i + 1).drop_last() =~= os.take(i));
    if i + 1 < os.len() {
        lemma_oneofs_step(os.drop_last(), i);
        assert(os.drop_last().take(i + 1) =~= os.take(i + 1));
        assert(os.drop_last().take(i) =~= os.take(i));
    } else {
        assert(os.take(i + 1) =~= os);
    }
}

pub(crate) proof fn lemma_kept_oneofs(os: Seq<SyntaxNode>)
    requires
        forall|i: int| 0 <= i < os.len() ==> node_ok(#[trigger] os[i]),
    ensures
        forall|i: int| 0 <= i < kept_oneofs(os).len() ==> node_ok(#[trigger] kept_oneofs(os)[i]),
    decreases os.len(),
{
    if os.len() > 0 {
        lemma_kept_oneofs(os.drop_last());
        assert forall|i: int| 0 <= i < kept_oneofs(os).len() implies node_ok(#[trigger] kept_oneofs(os)[i]) by {
            if i < kept_oneofs(os.drop_last()).len() {
                assert(node_ok(kept_oneofs(os.drop_last())[i]));
            }
        }
    }
}

/// The oneofs of a type body: each oneof with a name, with its fields and
/// annotations.
pub(crate) fn collect_oneofs(
    oneofs: &Vec<OneofDecl>,
    interner: &mut Interner,
    pkg: &str,
    imports: &ImportMap,
    symbols: &SymbolTable,
    diag: &mut Diagnostics,
    file_name: &str,
) -> (r: Vec<OneofDef>)
    requires
        forall|i: int| 0 <= i < oneofs@.len() ==> node_ok(#[trigger] oneofs@[i].node()),
        distinct(interned(*old(interner))),
        interned(*old(interner)).len() + oneofs_room(decl_nodes(oneofs@)) < u32::MAX,
        keys_below(symbols.types@, interned(*old(interner)).len()),
        keys_below(symbols.enums@, interned(*old(interner)).len()),
    ensures
        grows(interned(*old(interner)), interned(*final(interner))),
        distinct(interned(*final(interner))),
        interned(*final(interner)).len() <= interned(*old(interner)).len() + oneofs_room(decl_nodes(oneofs@)),
        oneofs_of(
            interned(*final(interner)),
            r@,
            kept_oneofs(decl_nodes(oneofs@)),
            pkg@,
            imports@,
            text_table(interned(*old(interner)), symbols.types@),
            text_table(interned(*old(interner)), symbols.enums@),
        ),
        grows(old(diag)@, final(diag)@),
        unresolved_reported(
            final(diag)@.skip(old(diag)@.len() as int),
            oneofs_unresolved(
                decl_nodes(oneofs@),
                pkg@,
                imports@,
                text_table(interned(*old(interner)), symbols.types@),
                text_table(interned(*old(interner)), symbols.enums@),
            ),
            file_name@,
        ),
{
    let ghost s0 = interned(*interner);
    let ghost tt = text_table(s0, symbols.types@);
    let ghost et = text_table(s0, symbols.enums@);
    let ghost d0 = diag@;
    let ghost os = decl_nodes(oneofs@);
    proof {
        assert(d0.skip(d0.len() as int) =~= Seq::<Diagnostic>::empty());
        assert forall|k: int| 0 <= k < d0.len() implies #[trigger] d0[k] == d0[k] by {}
        assert forall|k: int| 0 <= k < s0.len() implies #[trigger] s0[k] == s0[k] by {}
        assert(os.take(0) =~= Seq::<SyntaxNode>::empty());
    }
    let mut out: Vec<OneofDef> = Vec::new();
    let mut i: usize = 0;
    while i < oneofs.len()
        invariant
            os == decl_nodes(oneofs@),
            forall|k: int| 0 <= k < os.len() ==> node_ok(#[trigger] os[k]),
            i <= oneofs@.len(),
            s0.len() + oneofs_room(os) < u32::MAX,
            keys_below(symbols.types@, s0.len()),
            keys_below(symbols.enums@, s0.len()),
            tt == text_table(s0, symbols.types@),
            et == text_table(s0, symbols.enums@),
            grows(s0, interned(*interner)),
            distinct(interned(*interner)),
            interned(*interner).len() <= s0.len() + oneofs_room(os.take(i as int)),
            oneofs_of(interned(*interner), out@, kept_oneofs(os.take(i as int)), pkg@, imports@, tt, et),
            grows(d0, diag@),
            unresolved_reported(diag@.skip(d0.len() as int), oneofs_unresolved(os.take(i as int), pkg@, imports@, tt, et), file_name@),
        decreases oneofs.len() - i,
    {
        let ghost s1 = interned(*interner);
        let ghost d1 = diag@;
        let o = &oneofs[i];
        let ghost onode = o.node();
        proof {
            lemma_oneofs_step(os, i as int);
            assert(os[i as int] == onode);
            assert forall|k: int| 0 <= k < os.take(i as int).len() implies node_ok(#[trigger] os.take(i as int)[k]) by {
                assert(os.take(i as int)[k] == os[k]);
            }
            lemma_kept_oneofs(os.take(i as int));
        }
        let nm = o.name();
        proof {
            lemma_name_token(onode, nm);
        }
        let name = match nm {
            Some(t) => t.text(),
            None => {
                i += 1;
                continue;
            },
        };
        let fl = o.fields();
        proof {
            lemma_children_nodes(onode, fl@, SyntaxKind::OneofField);
            lemma_child_nodes_below(onode, SyntaxKind::OneofField);
            assert(decl_nodes(fl@) =~= child_nodes(onode, SyntaxKind::OneofField));
            lemma_text_table_grow(s0, s1, symbols.types@);
            lemma_text_table_grow(s0, s1, symbols.enums@);
        }
        let fields = collect_oneof_fields(&fl, interner, pkg, imports, symbols, diag, file_name);
        let ghost s2 = interned(*interner);
        let anns = o.annotations();
        proof {
            lemma_annotation_nodes(onode, anns@);
            assert(call_nodes(anns@) =~= annotation_nodes(onode));
        }
        let annotations = collect_annotation_calls(anns.as_slice(), interner);
        let ghost s3 = interned(*interner);
        let name_sym = interner.intern(name.as_str());
        let ghost s4 = interned(*interner);
        proof {
            let cf = child_nodes(onode, SyntaxKind::OneofField);
            lemma_index_of(s4, name_sym as int, name@);
            lemma_grows_trans(s2, s3, s4);
            lemma_grows_trans(s1, s2, s4);
            lemma_grows_trans(s0, s1, s4);
            lemma_kept_ok(cf);
            lemma_oneof_fields_grow(s2, s4, fields@, kept_fields(cf), pkg@, imports@, tt, et);
            lemma_calls_grow(s3, s4, annotations@, annotation_nodes(onode));
            lemma_oneofs_grow(s1, s4, out@, kept_oneofs(os.take(i as int)), pkg@, imports@, tt, et);
            lemma_unresolved_append(d0, d1, diag@, oneofs_unresolved(os.take(i as int), pkg@, imports@, tt, et), fields_unresolved(cf, pkg@, imports@, tt, et), file_name@);
        }
        let od = OneofDef { name: name_sym, fields, annotations, loc: Loc::default() };
        proof {
            assert(oneof_def_of(s4, od, onode, pkg@, imports@, tt, et));
        }
        out.push(od);
        proof {
            assert forall|k: int| 0 <= k < out@.len() implies oneof_def_of(s4, #[trigger] out@[k], kept_oneofs(os.take(i as int + 1))[k], pkg@, imports@, tt, et) by {
                if k < out@.len() - 1 {
                    assert(out@[k] == out@.drop_last()[k]);
                }
            }
        }
        i += 1;
    }
    proof {
        assert(os.take(oneofs@.len() as int) =~= os);
    }
    out
}

// ── Shape fields ───────────────────────────────────────────────────────

/// The type reference of a shape field, if it has one.
pub open spec fn shape_field_type(f: SyntaxNode) -> Option<SyntaxNode> {
    first_child(f, SyntaxKind::TypeRef)
}

/// How many strings shape field `f` may intern.
pub open spec fn shape_field_room(f: SyntaxNode) -> nat {
    if name_bytes(f) is Some {
        1 + (match shape_field_type(f) {
            Some(tr) => type_room(tr),
            None => 0,
        }) + calls_room(child_nodes(f, SyntaxKind::AnnotationCall))
    } else {
        0
    }
}

/// How many strings the shape fields `fs` may intern.
pub open spec fn shape_fields_room(fs: Seq<SyntaxNode>) -> nat
    decreases fs.len(),
{
    if fs.len() == 0 {
        0
    } else {
        shape_fields_room(fs.drop_last()) + shape_field_room(fs.last())
    }
}

/// The unresolved names in the types of the shape fields `fs`, in order.
pub open spec fn shape_fields_unresolved(
    fs: Seq<SyntaxNode>,
    pkg: Seq<char>,
    imps: Map<Seq<char>, Seq<char>>,
    tt: Map<Seq<char>, u32>,
    et: Map<Seq<char>, u32>,
) -> Seq<Seq<char>>
    decreases fs.len(),
{
    if fs.len() == 0 {
        Seq::empty()
    } else {
        shape_fields_unresolved(fs.drop_last(), pkg, imps, tt, et) + if name_bytes(fs.last()) is Some {
            match shape_field_type(fs.last()) {
                Some(tr) => unresolved_in(tr, pkg, imps, tt, et),
                None => Seq::empty(),
            }
        } else {
            Seq::empty()
        }
    }
}

/// `d` is the shape field that `f` gives: its name, its type resolved (an
/// error where it has none) and its annotations.
pub open spec fn shape_field_def_of(
    strs: Seq<Seq<char>>,
    d: ShapeFieldDef,
    f: SyntaxNode,
    pkg: Seq<char>,
    imps: Map<Seq<char>, Seq<char>>,
    tt: Map<Seq<char>, u32>,
    et: Map<Seq<char>, u32>,
) -> bool {
    &&& names(strs, d.name, name_text(f))
    &&& match shape_field_type(f) {
        Some(tr) => d.ty == resolved(strs, tr, pkg, imps, tt, et) && leaves_in(strs, tr, pkg, imps, tt, et),
        None => d.ty == ResolvedType::Error,
    }
    &&& calls_of(strs, d.annotations@, child_nodes(f, SyntaxKind::AnnotationCall))
    &&& d.loc.file is None
    &&& d.loc.span == (0usize..0usize)
}

/// `ds` are the shape fields that `fs` give, in order.
pub open spec fn shape_fields_of(
    strs: Seq<Seq<char>>,
    ds: Seq<ShapeFieldDef>,
    fs: Seq<SyntaxNode>,
    pkg: Seq<char>,
    imps: Map<Seq<char>, Seq<char>>,
    tt: Map<Seq<char>, u32>,
    et: Map<Seq<char>, u32>,
) -> bool {
    &&& ds.len() == fs.len()
    &&& forall|i: int| 0 <= i < ds.len() ==> shape_field_def_of(strs, #[trigger] ds[i], fs[i], pkg, imps, tt, et)
}

proof fn lemma_shape_fields_grow(
    s1: Seq<Seq<char>>,
    s2: Seq<Seq<char>>,
    ds: Seq<ShapeFieldDef>,
    fs: Seq<SyntaxNode>,
    pkg: Seq<char>,
    imps: Map<Seq<char>, Seq<char>>,
    tt: Map<Seq<char>, u32>,
    et: Map<Seq<char>, u32>,
)
    requires
        forall|i: int| 0 <= i < fs.len() ==> node_ok(#[trigger] fs[i]),
        grows(s1, s2),
        distinct(s2),
        shape_fields_of(s1, ds, fs, pkg, imps, tt, et),
    ensures
        shape_fields_of(s2, ds, fs, pkg, imps, tt, et),
{
    assert forall|i: int| 0 <= i < ds.len() implies shape_field_def_of(s2, #[trigger] ds[i], fs[i], pkg, imps, tt, et) by {
        let f = fs[i];
        if let Some(tr) = shape_field_type(f) {
            lemma_child_nodes_below(f, SyntaxKind::TypeRef);
            lemma_resolved_grow(s1, s2, tr, pkg, imps, tt, et);
        }
        lemma_calls_grow(s1, s2, ds[i].annotations@, child_nodes(f, SyntaxKind::AnnotationCall));
        assert(s2[ds[i].name as int] == s1[ds[i].name as int]);
    }
}

pub(crate) proof fn lemma_shape_fields_step(fs: Seq<SyntaxNode>, i: int)
    requires
        0 <= i < fs.len(),
    ensures
        shape_fields_room(fs.take(i + 1)) == shape_fields_room(fs.take(i)) + shape_field_room(fs[i]),
        shape_fields_room(fs.take(i + 1)) <= shape_fields_room(fs),
        forall|pkg: Seq<char>, imps: Map<Seq<char>, Seq<char>>, tt: Map<Seq<char>, u32>, et: Map<Seq<char>, u32>|
            #[trigger] shape_fields_unresolved(fs.take(i + 1), pkg, imps, tt, et) == shape_fields_unresolved(
                fs.take(i),
                pkg,
                imps,
                tt,
                et,
            ) + if name_bytes(fs[i]) is Some {
                match shape_field_type(fs[i]) {
                    Some(tr) => unresolved_in(tr, pkg, imps, tt, et),
                    None => Seq::empty(),
                }
            } else {
                Seq::empty()
            },
    decreases fs.len(),
{
    assert(fs.take(i + 1).drop_last() =~= fs.take(i));
    if i + 1 < fs.len() {
        lemma_shape_fields_step(fs.drop_last(), i);
        assert(fs.drop_last().take(i + 1) =~= fs.take(i + 1));
        assert(fs.drop_last().take(i) =~= fs.take(i));
    } else {
        assert(fs.take(i + 1) =~= fs);
    }
}

pub(crate) proof fn lemma_named_ok(fs: Seq<SyntaxNode>)
    requires
        forall|i: int| 0 <= i < fs.len() ==> node_ok(#[trigger] fs[i]),
    ensures
        forall|i: int| 0 <= i < named(fs).len() ==> node_ok(#[trigger] named(fs)[i]),
    decreases fs.len(),
{
    if fs.len() > 0 {
        lemma_named_ok(fs.drop_last());
        assert forall|i: int| 0 <= i < named(fs).len() implies node_ok(#[trigger] named(fs)[i]) by {
            if i < named(fs.drop_last()).len() {
                assert(node_ok(named(fs.drop_last())[i]));
            }
        }
    }
}

/// The fields of a shape: each one with a name, its type resolved (an
/// error where it has none), its annotations collected.
fn collect_shape_fields(
    fields: &Vec<ShapeField>,
    interner: &mut Interner,
    pkg: &str,
    imports: &ImportMap,
    symbols: &SymbolTable,
    diag: &mut Diagnostics,
    file_name: &str,
) -> (r: Vec<ShapeFieldDef>)
    requires
        forall|i: int| 0 <= i < fields@.len() ==> node_ok(#[trigger] fields@[i].node()),
        distinct(interned(*old(interner))),
        interned(*old(interner)).len() + shape_fields_room(decl_nodes(fields@)) < u32::MAX,
        keys_below(symbols.types@, interned(*old(interner)).len()),
        keys_below(symbols.enums@, interned(*old(interner)).len()),
    ensures
        grows(interned(*old(interner)), interned(*final(interner))),
        distinct(interned(*final(interner))),
        interned(*final(interner)).len() <= interned(*old(interner)).len() + shape_fields_room(decl_nodes(fields@)),
        shape_fields_of(
            interned(*final(interner)),
            r@,
            named(decl_nodes(fields@)),
            pkg@,
            imports@,
            text_table(interned(*old(interner)), symbols.types@),
            text_table(interned(*old(interner)), symbols.enums@),
        ),
        grows(old(diag)@, final(diag)@),
        unresolved_reported(
            final(diag)@.skip(old(diag)@.len() as int),
            shape_fields_unresolved(
                decl_nodes(fields@),
                pkg@,
                imports@,
                text_table(interned(*old(interner)), symbols.types@),
                text_table(interned(*old(interner)), symbols.enums@),
            ),
            file_name@,
        ),
{
    let ghost s0 = interned(*interner);
    let ghost tt = text_table(s0, symbols.types@);
    let ghost et = text_table(s0, symbols.enums@);
    let ghost d0 = diag@;
    let ghost fs = decl_nodes(fields@);
    proof {
        assert(d0.skip(d0.len() as int) =~= Seq::<Diagnostic>::empty());
        assert forall|k: int| 0 <= k < d0.len() implies #[trigger] d0[k] == d0[k] by {}
        assert forall|k: int| 0 <= k < s0.len() implies #[trigger] s0[k] == s0[k] by {}
        assert(fs.take(0) =~= Seq::<SyntaxNode>::empty());
    }
    let mut out: Vec<ShapeFieldDef> = Vec::new();
    let mut i: usize = 0;
    while i < fields.len()
        invariant
            fs == decl_nodes(fields@),
            forall|k: int| 0 <= k < fs.len() ==> node_ok(#[trigger] fs[k]),
            i <= fields@.len(),
            s0.len() + shape_fields_room(fs) < u32::MAX,
            keys_below(symbols.types@, s0.len()),
            keys_below(symbols.enums@, s0.len()),
            tt == text_table(s0, symbols.types@),
            et == text_table(s0, symbols.enums@),
            grows(s0, interned(*interner)),
            distinct(interned(*interner)),
            interned(*interner).len() <= s0.len() + shape_fields_room(fs.take(i as int)),
            shape_fields_of(interned(*interner), out@, named(fs.take(i as int)), pkg@, imports@, tt, et),
            grows(d0, diag@),
            unresolved_reported(diag@.skip(d0.len() as int), shape_fields_unresolved(fs.take(i as int), pkg@, imports@, tt, et), file_name@),
        decreases fields.len() - i,
    {
        let ghost s1 = interned(*interner);
        let ghost d1 = diag@;
        let f = &fields[i];
        let ghost fnode = f.node();
        proof {
            lemma_shape_fields_step(fs, i as int);
            lemma_named_step(fs, i as int);
            assert(fs[i as int] == fnode);
            assert forall|k: int| 0 <= k < fs.take(i as int).len() implies node_ok(#[trigger] fs.take(i as int)[k]) by {
                assert(fs.take(i as int)[k] == fs[k]);
            }
            lemma_named_ok(fs.take(i as int));
        }
        let nm = f.name();
        proof {
            lemma_name_token(fnode, nm);
        }
        let name = match nm {
            Some(t) => t.text(),
            None => {
                proof {
                    assert(d1.skip(d0.len() as int) == diag@.skip(d0.len() as int));
                }
                i += 1;
                continue;
            },
        };
        let tro = f.type_ref();
        proof {
            lemma_first_child(fnode, tro, SyntaxKind::TypeRef);
            lemma_child_nodes_below(fnode, SyntaxKind::TypeRef);
            lemma_text_table_grow(s0, s1, symbols.types@);
            lemma_text_table_grow(s0, s1, symbols.enums@);
        }
        let ty = match &tro {
            Some(tr) => resolve_type_ref(tr, interner, pkg, imports, symbols, diag, file_name),
            None => ResolvedType::Error,
        };
        let ghost s2 = interned(*interner);
        let ghost d2 = diag@;
        proof {
            if tro is None {
                assert(d2.skip(d1.len() as int) =~= Seq::<Diagnostic>::empty());
            }
        }
        let anns = f.annotations();
        proof {
            lemma_children_nodes(fnode, anns@, SyntaxKind::AnnotationCall);
            assert(call_nodes(anns@) =~= child_nodes(fnode, SyntaxKind::AnnotationCall));
        }
        let annotations = collect_annotation_calls(anns.as_slice(), interner);
        let ghost s3 = interned(*interner);
        let name_sym = interner.intern(name.as_str());
        let ghost s4 = interned(*interner);
        proof {
            lemma_index_of(s4, name_sym as int, name@);
            lemma_grows_trans(s2, s3, s4);
            lemma_grows_trans(s1, s2, s4);
            lemma_grows_trans(s0, s1, s4);
            if let Some(tr) = tro {
                lemma_resolved_grow(s2, s4, tr.node(), pkg@, imports@, tt, et);
            }
            lemma_calls_grow(s3, s4, annotations@, child_nodes(fnode, SyntaxKind::AnnotationCall));
            lemma_shape_fields_grow(s1, s4, out@, named(fs.take(i as int)), pkg@, imports@, tt, et);
            let u = match shape_field_type(fnode) {
                Some(tr) => unresolved_in(tr, pkg@, imports@, tt, et),
                None => Seq::<Seq<char>>::empty(),
            };
            lemma_unresolved_append(d0, d1, d2, shape_fields_unresolved(fs.take(i as int), pkg@, imports@, tt, et), u, file_name@);
        }
        let sd = ShapeFieldDef { name: name_sym, ty, annotations, loc: Loc::default() };
        proof {
            assert(shape_field_def_of(s4, sd, fnode, pkg@, imports@, tt, et));
        }
        out.push(sd);
        proof {
            assert forall|k: int| 0 <= k < out@.len() implies shape_field_def_of(s4, #[trigger] out@[k], named(fs.take(i as int + 1))[k], pkg@, imports@, tt, et) by {
                if k < out@.len() - 1 {
                    assert(out@[k] == out@.drop_last()[k]);
                }
            }
        }
        i += 1;
    }
    proof {
        assert(fs.take(fields@.len() as int) =~= fs);
    }
    out
}

// ── What populating writes ─────────────────────────────────────────────

/// One write that populating makes into a definition, from a node.
pub enum Update {
    /// The annotations of type `id`, from its declaration.
    Annotations(u32, SyntaxNode),
    /// The fields and oneofs of type `id`, from a type body.
    Body(u32, SyntaxNode),
    /// The fields of shape `id`, from its declaration.
    ShapeFields(u32, SyntaxNode),
}

/// The writes for the nested type declaration `n` inside the type with full
/// name `outer`: its body, where its full name is a type.
pub open spec fn nested_update(n: SyntaxNode, outer: Seq<char>, f: ParsedFile, tt: Map<Seq<char>, u32>) -> Seq<
    (Update, ParsedFile),
> {
    match first_child(n, SyntaxKind::TypeDecl) {
        Some(i) => {
            let full = qualified(outer, name_text(i));
            if name_bytes(i) is Some && tt.contains_key(full) {
                match first_child(i, SyntaxKind::TypeBody) {
                    Some(b) => seq![(Update::Body(tt[full], b), f)],
                    None => Seq::empty(),
                }
            } else {
                Seq::empty()
            }
        },
        None => Seq::empty(),
    }
}

/// The writes for the nested type declarations `ns`, in order.
pub open spec fn nested_updates(ns: Seq<SyntaxNode>, outer: Seq<char>, f: ParsedFile, tt: Map<Seq<char>, u32>) -> Seq<
    (Update, ParsedFile),
>
    decreases ns.len(),
{
    if ns.len() == 0 {
        Seq::empty()
    } else {
        nested_updates(ns.drop_last(), outer, f, tt) + nested_update(ns.last(), outer, f, tt)
    }
}

/// The writes for type declaration `d` of file `f`, where its full name is
/// a type: its annotations, then its body, then the bodies of its nested
/// types.
pub open spec fn decl_updates(d: SyntaxNode, f: ParsedFile, tt: Map<Seq<char>, u32>) -> Seq<(Update, ParsedFile)> {
    let full = qualified(f.package@, name_text(d));
    if name_bytes(d) is Some && tt.contains_key(full) {
        seq![(Update::Annotations(tt[full], d), f)] + match first_child(d, SyntaxKind::TypeBody) {
            Some(b) => seq![(Update::Body(tt[full], b), f)] + nested_updates(
                child_nodes(b, SyntaxKind::NestedTypeDecl),
                full,
                f,
                tt,
            ),
            None => Seq::empty(),
        }
    } else {
        Seq::empty()
    }
}

/// The writes for the type declarations `ds` of file `f`, in order.
pub open spec fn decls_updates(ds: Seq<SyntaxNode>, f: ParsedFile, tt: Map<Seq<char>, u32>) -> Seq<(Update, ParsedFile)>
    decreases ds.len(),
{
    if ds.len() == 0 {
        Seq::empty()
    } else {
        decls_updates(ds.drop_last(), f, tt) + decl_updates(ds.last(), f, tt)
    }
}

/// The write for shape declaration `d` of file `f`, where its full name is a shape.
pub open spec fn shape_update(d: SyntaxNode, f: ParsedFile, st: Map<Seq<char>, u32>) -> Seq<(Update, ParsedFile)> {
    let full = qualified(f.package@, name_text(d));
    if name_bytes(d) is Some && st.contains_key(full) {
        seq![(Update::ShapeFields(st[full], d), f)]
    } else {
        Seq::empty()
    }
}

/// The writes for the shape declarations `ds` of file `f`, in order.
pub open spec fn shapes_updates(ds: Seq<SyntaxNode>, f: ParsedFile, st: Map<Seq<char>, u32>) -> Seq<(Update, ParsedFile)>
    decreases ds.len(),
{
    if ds.len() == 0 {
        Seq::empty()
    } else {
        shapes_updates(ds.drop_last(), f, st) + shape_update(ds.last(), f, st)
    }
}

/// The writes for file `f`: its types, then its shapes (none where its
/// root is not a file root).
pub open spec fn file_updates(f: ParsedFile, tt: Map<Seq<char>, u32>, st: Map<Seq<char>, u32>) -> Seq<(Update, ParsedFile)> {
    if f.root.spec_kind() == SyntaxKind::Root {
        decls_updates(child_nodes(f.root, SyntaxKind::TypeDecl), f, tt) + shapes_updates(
            child_nodes(f.root, SyntaxKind::ShapeDecl),
            f,
            st,
        )
    } else {
        Seq::empty()
    }
}

/// The writes for the files `fs`, in order.
pub open spec fn files_updates(fs: Seq<ParsedFile>, tt: Map<Seq<char>, u32>, st: Map<Seq<char>, u32>) -> Seq<
    (Update, ParsedFile),
>
    decreases fs.len(),
{
    if fs.len() == 0 {
        Seq::empty()
    } else {
        files_updates(fs.drop_last(), tt, st) + file_updates(fs.last(), tt, st)
    }
}

/// The unresolved names that a write reports, each with its file name.
pub open spec fn update_unresolved(u: (Update, ParsedFile), tt: Map<Seq<char>, u32>, et: Map<Seq<char>, u32>) -> Seq<
    (Seq<char>, Seq<char>),
> {
    let f = u.1;
    let imps = file_imports(f);
    let xs = match u.0 {
        Update::Annotations(_, _) => Seq::empty(),
        Update::Body(_, b) => fields_unresolved(child_nodes(b, SyntaxKind::FieldDecl), f.package@, imps, tt, et)
            + oneofs_unresolved(child_nodes(b, SyntaxKind::OneofDecl), f.package@, imps, tt, et),
        Update::ShapeFields(_, d) => shape_fields_unresolved(child_nodes(d, SyntaxKind::ShapeField), f.package@, imps, tt, et),
    };
    xs.map_values(|x: Seq<char>| (f.file_name@, x))
}

/// The unresolved names that the writes `us` report, in order.
pub open spec fn updates_unresolved(us: Seq<(Update, ParsedFile)>, tt: Map<Seq<char>, u32>, et: Map<Seq<char>, u32>) -> Seq<
    (Seq<char>, Seq<char>),
>
    decreases us.len(),
{
    if us.len() == 0 {
        Seq::empty()
    } else {
        updates_unresolved(us.drop_last(), tt, et) + update_unresolved(us.last(), tt, et)
    }
}

/// The declaration whose annotations the last write among `us` to the
/// annotations of type `t` takes, if any.
pub open spec fn last_annotations(us: Seq<(Update, ParsedFile)>, t: int) -> Option<SyntaxNode>
    decreases us.len(),
{
    if us.len() == 0 {
        None
    } else {
        match us.last().0 {
            Update::Annotations(id, d) => if id == t {
                Some(d)
            } else {
                last_annotations(us.drop_last(), t)
            },
            _ => last_annotations(us.drop_last(), t),
        }
    }
}

/// The body, and its file, that the last write among `us` to the fields of
/// type `t` takes, if any.
pub open spec fn last_body(us: Seq<(Update, ParsedFile)>, t: int) -> Option<(SyntaxNode, ParsedFile)>
    decreases us.len(),
{
    if us.len() == 0 {
        None
    } else {
        match us.last().0 {
            Update::Body(id, b) => if id == t {
                Some((b, us.last().1))
            } else {
                last_body(us.drop_last(), t)
            },
            _ => last_body(us.drop_last(), t),
        }
    }
}

/// The declaration, and its file, that the last write among `us` to the
/// fields of shape `t` takes, if any.
pub open spec fn last_shape(us: Seq<(Update, ParsedFile)>, t: int) -> Option<(SyntaxNode, ParsedFile)>
    decreases us.len(),
{
    if us.len() == 0 {
        None
    } else {
        match us.last().0 {
            Update::ShapeFields(id, d) => if id == t {
                Some((d, us.last().1))
            } else {
                last_shape(us.drop_last(), t)
            },
            _ => last_shape(us.drop_last(), t),
        }
    }
}

/// Type `b` is type `a` after the writes `us` to type `t`: the annotations
/// of the last declaration written, the fields and oneofs of the last body
/// written, all else as it was.
pub open spec fn type_filled(
    strs: Seq<Seq<char>>,
    a: TypeDef,
    b: TypeDef,
    us: Seq<(Update, ParsedFile)>,
    t: int,
    tt: Map<Seq<char>, u32>,
    et: Map<Seq<char>, u32>,
) -> bool {
    &&& b.name == a.name
    &&& b.full_name == a.full_name
    &&& b.nested_types == a.nested_types
    &&& b.nested_enums == a.nested_enums
    &&& b.back_references == a.back_references
    &&& b.trace == a.trace
    &&& b.loc == a.loc
    &&& match last_annotations(us, t) {
        Some(d) => calls_of(strs, b.annotations@, annotation_nodes(d)),
        None => b.annotations == a.annotations,
    }
    &&& match last_body(us, t) {
        Some((body, f)) => {
            &&& fields_of(
                strs,
                b.fields@,
                kept_fields(child_nodes(body, SyntaxKind::FieldDecl)),
                f.package@,
                file_imports(f),
                tt,
                et,
            )
            &&& oneofs_of(
                strs,
                b.oneofs@,
                kept_oneofs(child_nodes(body, SyntaxKind::OneofDecl)),
                f.package@,
                file_imports(f),
                tt,
                et,
            )
        },
        None => b.fields == a.fields && b.oneofs == a.oneofs,
    }
}

/// The types `bs` are the types `as_` after the writes `us`.
pub open spec fn types_filled(
    strs: Seq<Seq<char>>,
    as_: Seq<TypeDef>,
    bs: Seq<TypeDef>,
    us: Seq<(Update, ParsedFile)>,
    tt: Map<Seq<char>, u32>,
    et: Map<Seq<char>, u32>,
) -> bool {
    &&& bs.len() == as_.len()
    &&& forall|t: int| 0 <= t < as_.len() ==> type_filled(strs, as_[t], #[trigger] bs[t], us, t, tt, et)
}

/// Shape `b` is shape `a` after the writes `us` to shape `t`: the fields of
/// the last declaration written, all else as it was.
pub open spec fn shape_filled(
    strs: Seq<Seq<char>>,
    a: ShapeDef,
    b: ShapeDef,
    us: Seq<(Update, ParsedFile)>,
    t: int,
    tt: Map<Seq<char>, u32>,
    et: Map<Seq<char>, u32>,
) -> bool {
    &&& b.name == a.name
    &&& b.full_name == a.full_name
    &&& b.includes == a.includes
    &&& b.type_params == a.type_params
    &&& b.annotations == a.annotations
    &&& b.loc == a.loc
    &&& match last_shape(us, t) {
        Some((d, f)) => shape_fields_of(
            strs,
            b.fields@,
            named(child_nodes(d, SyntaxKind::ShapeField)),
            f.package@,
            file_imports(f),
            tt,
            et,
        ),
        None => b.fields == a.fields,
    }
}

/// The shapes `bs` are the shapes `as_` after the writes `us`.
pub open spec fn shapes_filled(
    strs: Seq<Seq<char>>,
    as_: Seq<ShapeDef>,
    bs: Seq<ShapeDef>,
    us: Seq<(Update, ParsedFile)>,
    tt: Map<Seq<char>, u32>,
    et: Map<Seq<char>, u32>,
) -> bool {
    &&& bs.len() == as_.len()
    &&& forall|t: int| 0 <= t < as_.len() ==> shape_filled(strs, as_[t], #[trigger] bs[t], us, t, tt, et)
}

/// The nodes that the writes `us` read are nodes of well-formed trees.
pub open spec fn updates_ok(us: Seq<(Update, ParsedFile)>) -> bool {
    forall|k: int|
        0 <= k < us.len() ==> match (#[trigger] us[k]).0 {
            Update::Annotations(_, _) => true,
            Update::Body(_, b) => node_ok(b),
            Update::ShapeFields(_, d) => node_ok(d),
        }
}

proof fn lemma_last_append(us1: Seq<(Update, ParsedFile)>, us2: Seq<(Update, ParsedFile)>, t: int)
    ensures
        last_annotations(us1 + us2, t) == if last_annotations(us2, t) is Some {
            last_annotations(us2, t)
        } else {
            last_annotations(us1, t)
        },
        last_body(us1 + us2, t) == if last_body(us2, t) is Some {
            last_body(us2, t)
        } else {
            last_body(us1, t)
        },
        last_shape(us1 + us2, t) == if last_shape(us2, t) is Some {
            last_shape(us2, t)
        } else {
            last_shape(us1, t)
        },
    decreases us2.len(),
{
    if us2.len() == 0 {
        assert(us1 + us2 =~= us1);
    } else {
        assert((us1 + us2).drop_last() =~= us1 + us2.drop_last());
        lemma_last_append(us1, us2.drop_last(), t);
    }
}

proof fn lemma_last_ok(us: Seq<(Update, ParsedFile)>, t: int)
    requires
        updates_ok(us),
    ensures
        last_body(us, t) matches Some((b, _)) ==> node_ok(b),
        last_shape(us, t) matches Some((d, _)) ==> node_ok(d),
    decreases us.len(),
{
    if us.len() > 0 {
        assert(updates_ok(us.drop_last())) by {
            assert forall|k: int| 0 <= k < us.drop_last().len() implies match (#[trigger] us.drop_last()[k]).0 {
                Update::Annotations(_, _) => true,
                Update::Body(_, b) => node_ok(b),
                Update::ShapeFields(_, d) => node_ok(d),
            } by {
                assert(us.drop_last()[k] == us[k]);
            }
        }
        lemma_last_ok(us.drop_last(), t);
        assert(us.last() == us[us.len() - 1]);
    }
}

proof fn lemma_body_grow(
    s1: Seq<Seq<char>>,
    s2: Seq<Seq<char>>,
    b: TypeDef,
    body: SyntaxNode,
    f: ParsedFile,
    tt: Map<Seq<char>, u32>,
    et: Map<Seq<char>, u32>,
)
    requires
        node_ok(body),
        grows(s1, s2),
        distinct(s2),
        fields_of(s1, b.fields@, kept_fields(child_nodes(body, SyntaxKind::FieldDecl)), f.package@, file_imports(f), tt, et),
        oneofs_of(s1, b.oneofs@, kept_oneofs(child_nodes(body, SyntaxKind::OneofDecl)), f.package@, file_imports(f), tt, et),
    ensures
        fields_of(s2, b.fields@, kept_fields(child_nodes(body, SyntaxKind::FieldDecl)), f.package@, file_imports(f), tt, et),
        oneofs_of(s2, b.oneofs@, kept_oneofs(child_nodes(body, SyntaxKind::OneofDecl)), f.package@, file_imports(f), tt, et),
{
    lemma_child_nodes_below(body, SyntaxKind::FieldDecl);
    lemma_child_nodes_below(body, SyntaxKind::OneofDecl);
    lemma_kept_ok(child_nodes(body, SyntaxKind::FieldDecl));
    lemma_kept_oneofs(child_nodes(body, SyntaxKind::OneofDecl));
    lemma_fields_grow(s1, s2, b.fields@, kept_fields(child_nodes(body, SyntaxKind::FieldDecl)), f.package@, file_imports(f), tt, et);
    lemma_oneofs_grow(s1, s2, b.oneofs@, kept_oneofs(child_nodes(body, SyntaxKind::OneofDecl)), f.package@, file_imports(f), tt, et);
}

/// Writes compose: the types after `us1` and then `us2` are the types after
/// `us1 + us2`.
proof fn lemma_types_filled_trans(
    s1: Seq<Seq<char>>,
    s2: Seq<Seq<char>>,
    a: Seq<TypeDef>,
    b: Seq<TypeDef>,
    c: Seq<TypeDef>,
    us1: Seq<(Update, ParsedFile)>,
    us2: Seq<(Update, ParsedFile)>,
    tt: Map<Seq<char>, u32>,
    et: Map<Seq<char>, u32>,
)
    requires
        types_filled(s1, a, b, us1, tt, et),
        types_filled(s2, b, c, us2, tt, et),
        grows(s1, s2),
        distinct(s2),
        updates_ok(us1),
    ensures
        types_filled(s2, a, c, us1 + us2, tt, et),
{
    assert forall|t: int| 0 <= t < a.len() implies type_filled(s2, a[t], #[trigger] c[t], us1 + us2, t, tt, et) by {
        assert(type_filled(s1, a[t], b[t], us1, t, tt, et));
        assert(type_filled(s2, b[t], c[t], us2, t, tt, et));
        lemma_last_append(us1, us2, t);
        lemma_last_ok(us1, t);
        if last_annotations(us2, t) is None {
            if let Some(d) = last_annotations(us1, t) {
                lemma_calls_grow(s1, s2, b[t].annotations@, annotation_nodes(d));
            }
        }
        if last_body(us2, t) is None {
            if let Some((body, f)) = last_body(us1, t) {
                lemma_body_grow(s1, s2, b[t], body, f, tt, et);
            }
        }
    }
}

/// Writes compose for shapes too.
proof fn lemma_shapes_filled_trans(
    s1: Seq<Seq<char>>,
    s2: Seq<Seq<char>>,
    a: Seq<ShapeDef>,
    b: Seq<ShapeDef>,
    c: Seq<ShapeDef>,
    us1: Seq<(Update, ParsedFile)>,
    us2: Seq<(Update, ParsedFile)>,
    tt: Map<Seq<char>, u32>,
    et: Map<Seq<char>, u32>,
)
    requires
        shapes_filled(s1, a, b, us1, tt, et),
        shapes_filled(s2, b, c, us2, tt, et),
        grows(s1, s2),
        distinct(s2),
        updates_ok(us1),
    ensures
        shapes_filled(s2, a, c, us1 + us2, tt, et),
{
    assert forall|t: int| 0 <= t < a.len() implies shape_filled(s2, a[t], #[trigger] c[t], us1 + us2, t, tt, et) by {
        assert(shape_filled(s1, a[t], b[t], us1, t, tt, et));
        assert(shape_filled(s2, b[t], c[t], us2, t, tt, et));
        lemma_last_append(us1, us2, t);
        lemma_last_ok(us1, t);
        if last_shape(us2, t) is None {
            if let Some((d, f)) = last_shape(us1, t) {
                lemma_child_nodes_below(d, SyntaxKind::ShapeField);
                lemma_named_ok(child_nodes(d, SyntaxKind::ShapeField));
                lemma_shape_fields_grow(s1, s2, b[t].fields@, named(child_nodes(d, SyntaxKind::ShapeField)), f.package@, file_imports(f), tt, et);
            }
        }
    }
}

proof fn lemma_updates_ok_append(us1: Seq<(Update, ParsedFile)>, us2: Seq<(Update, ParsedFile)>)
    requires
        updates_ok(us1),
        updates_ok(us2),
    ensures
        updates_ok(us1 + us2),
{
    assert forall|k: int| 0 <= k < (us1 + us2).len() implies match (#[trigger] (us1 + us2)[k]).0 {
        Update::Annotations(_, _) => true,
        Update::Body(_, b) => node_ok(b),
        Update::ShapeFields(_, d) => node_ok(d),
    } by {
        if k < us1.len() {
            assert((us1 + us2)[k] == us1[k]);
        } else {
            assert((us1 + us2)[k] == us2[k - us1.len()]);
        }
    }
}

proof fn lemma_unresolved_concat(us1: Seq<(Update, ParsedFile)>, us2: Seq<(Update, ParsedFile)>, tt: Map<Seq<char>, u32>, et: Map<Seq<char>, u32>)
    ensures
        updates_unresolved(us1 + us2, tt, et) == updates_unresolved(us1, tt, et) + updates_unresolved(us2, tt, et),
    decreases us2.len(),
{
    if us2.len() == 0 {
        assert(us1 + us2 =~= us1);
        assert(updates_unresolved(us1, tt, et) + updates_unresolved(us2, tt, et) =~= updates_unresolved(us1, tt, et));
    } else {
        assert((us1 + us2).drop_last() =~= us1 + us2.drop_last());
        lemma_unresolved_concat(us1, us2.drop_last(), tt, et);
        assert(updates_unresolved(us1 + us2, tt, et) =~= updates_unresolved(us1, tt, et) + updates_unresolved(us2, tt, et));
    }
}

// ── Populating ─────────────────────────────────────────────────────────

/// How many strings the fields and oneofs of type body `b` may intern.
pub open spec fn body_room(b: SyntaxNode) -> nat {
    fields_room(child_nodes(b, SyntaxKind::FieldDecl)) + oneofs_room(child_nodes(b, SyntaxKind::OneofDecl))
}

/// A single write.
proof fn lemma_one(x: (Update, ParsedFile), tt: Map<Seq<char>, u32>, et: Map<Seq<char>, u32>)
    ensures
        forall|t: int|
            #[trigger] last_annotations(seq![x], t) == match x.0 {
                Update::Annotations(id, d) => if id == t {
                    Some(d)
                } else {
                    None
                },
                _ => None,
            },
        forall|t: int|
            #[trigger] last_body(seq![x], t) == match x.0 {
                Update::Body(id, b) => if id == t {
                    Some((b, x.1))
                } else {
                    None
                },
                _ => None,
            },
        forall|t: int|
            #[trigger] last_shape(seq![x], t) == match x.0 {
                Update::ShapeFields(id, d) => if id == t {
                    Some((d, x.1))
                } else {
                    None
                },
                _ => None,
            },
        updates_unresolved(seq![x], tt, et) == update_unresolved(x, tt, et),
{
    let s = seq![x];
    assert(s.drop_last() =~= Seq::<(Update, ParsedFile)>::empty());
    assert(s.last() == x);
    assert(updates_unresolved(s.drop_last(), tt, et) =~= Seq::empty());
    assert(updates_unresolved(s, tt, et) =~= update_unresolved(x, tt, et));
    assert forall|t: int| #[trigger] last_annotations(s, t) == match x.0 {
        Update::Annotations(id, d) => if id == t {
            Some(d)
        } else {
            None
        },
        _ => None,
    } by {
        assert(last_annotations(s.drop_last(), t) is None);
    }
    assert forall|t: int| #[trigger] last_body(s, t) == match x.0 {
        Update::Body(id, b) => if id == t {
            Some((b, x.1))
        } else {
            None
        },
        _ => None,
    } by {
        assert(last_body(s.drop_last(), t) is None);
    }
    assert forall|t: int| #[trigger] last_shape(s, t) == match x.0 {
        Update::ShapeFields(id, d) => if id == t {
            Some((d, x.1))
        } else {
            None
        },
        _ => None,
    } by {
        assert(last_shape(s.drop_last(), t) is None);
    }
}

/// Type `id` takes the fields and oneofs of `body`, a type body of `file`.
fn fill_body(
    body: &TypeBody,
    id: TypeId,
    file: &ParsedFile,
    imports: &ImportMap,
    interner: &mut Interner,
    arenas: &mut Arenas,
    symbols: &SymbolTable,
    diag: &mut Diagnostics,
)
    requires
        node_ok(body.node()),
        imports@ == file_imports(*file),
        id < type_defs(old(arenas).types).len(),
        distinct(interned(*old(interner))),
        interned(*old(interner)).len() + body_room(body.node()) < u32::MAX,
        keys_below(symbols.types@, interned(*old(interner)).len()),
        keys_below(symbols.enums@, interned(*old(interner)).len()),
    ensures
        grows(interned(*old(interner)), interned(*final(interner))),
        distinct(interned(*final(interner))),
        interned(*final(interner)).len() <= interned(*old(interner)).len() + body_room(body.node()),
        types_filled(
            interned(*final(interner)),
            type_defs(old(arenas).types),
            type_defs(final(arenas).types),
            seq![(Update::Body(id, body.node()), *file)],
            text_table(interned(*old(interner)), symbols.types@),
            text_table(interned(*old(interner)), symbols.enums@),
        ),
        final(arenas).shapes == old(arenas).shapes,
        final(arenas).enums == old(arenas).enums,
        final(arenas).services == old(arenas).services,
        final(arenas).annotation_defs == old(arenas).annotation_defs,
        grows(old(diag)@, final(diag)@),
        reported_in_files(
            final(diag)@.skip(old(diag)@.len() as int),
            update_unresolved(
                (Update::Body(id, body.node()), *file),
                text_table(interned(*old(interner)), symbols.types@),
                text_table(interned(*old(interner)), symbols.enums@),
            ),
        ),
{
    let ghost s0 = interned(*interner);
    let ghost tt = text_table(s0, symbols.types@);
    let ghost et = text_table(s0, symbols.enums@);
    let ghost d0 = diag@;
    let ghost b = body.node();
    let pkg = file.package.as_str();
    let file_name = file.file_name.as_str();
    let fl = body.fields();
    proof {
        lemma_children_nodes(b, fl@, SyntaxKind::FieldDecl);
        lemma_child_nodes_below(b, SyntaxKind::FieldDecl);
        assert(decl_nodes(fl@) =~= child_nodes(b, SyntaxKind::FieldDecl));
    }
    let fields = collect_fields(&fl, interner, pkg, imports, symbols, diag, file_name);
    let ghost s1 = interned(*interner);
    let ghost d1 = diag@;
    let ol = body.oneofs();
    proof {
        lemma_children_nodes(b, ol@, SyntaxKind::OneofDecl);
        lemma_child_nodes_below(b, SyntaxKind::OneofDecl);
        assert(decl_nodes(ol@) =~= child_nodes(b, SyntaxKind::OneofDecl));
        lemma_text_table_grow(s0, s1, symbols.types@);
        lemma_text_table_grow(s0, s1, symbols.enums@);
    }
    let oneofs = collect_oneofs(&ol, interner, pkg, imports, symbols, diag, file_name);
    let ghost s2 = interned(*interner);
    proof {
        lemma_grows_trans(s0, s1, s2);
        lemma_kept_ok(child_nodes(b, SyntaxKind::FieldDecl));
        lemma_fields_grow(s1, s2, fields@, kept_fields(child_nodes(b, SyntaxKind::FieldDecl)), pkg@, imports@, tt, et);
        lemma_unresolved_append(
            d0,
            d1,
            diag@,
            fields_unresolved(child_nodes(b, SyntaxKind::FieldDecl), pkg@, imports@, tt, et),
            oneofs_unresolved(child_nodes(b, SyntaxKind::OneofDecl), pkg@, imports@, tt, et),
            file_name@,
        );
        lemma_in_file_reports(
            diag@.skip(d0.len() as int),
            fields_unresolved(child_nodes(b, SyntaxKind::FieldDecl), pkg@, imports@, tt, et)
                + oneofs_unresolved(child_nodes(b, SyntaxKind::OneofDecl), pkg@, imports@, tt, et),
            file_name@,
        );
    }
    let ghost a = type_defs(arenas.types);
    let def = type_def_mut(&mut arenas.types, id);
    def.fields = fields;
    def.oneofs = oneofs;
    proof {
        let us = seq![(Update::Body(id, b), *file)];
        lemma_one((Update::Body(id, b), *file), tt, et);
        assert forall|t: int| 0 <= t < a.len() implies type_filled(s2, a[t], #[trigger] type_defs(arenas.types)[t], us, t, tt, et) by {
            assert(last_annotations(us, t) is None);
            assert(last_body(us, t) == if id == t { Some((b, *file)) } else { None::<(SyntaxNode, ParsedFile)> });
        }
    }
}

/// How many strings the nested type declaration `n` inside the type with
/// full name `outer` may intern.
pub open spec fn nested_room(n: SyntaxNode, outer: Seq<char>, tt: Map<Seq<char>, u32>) -> nat {
    match first_child(n, SyntaxKind::TypeDecl) {
        Some(i) => if name_bytes(i) is Some {
            1 + if tt.contains_key(qualified(outer, name_text(i))) {
                match first_child(i, SyntaxKind::TypeBody) {
                    Some(b) => body_room(b),
                    None => 0,
                }
            } else {
                0
            }
        } else {
            0
        },
        None => 0,
    }
}

/// How many strings the nested type declarations `ns` may intern.
pub open spec fn nesteds_room(ns: Seq<SyntaxNode>, outer: Seq<char>, tt: Map<Seq<char>, u32>) -> nat
    decreases ns.len(),
{
    if ns.len() == 0 {
        0
    } else {
        nesteds_room(ns.drop_last(), outer, tt) + nested_room(ns.last(), outer, tt)
    }
}

proof fn lemma_nesteds_step(ns: Seq<SyntaxNode>, i: int, outer: Seq<char>, f: ParsedFile, tt: Map<Seq<char>, u32>)
    requires
        0 <= i < ns.len(),
    ensures
        nested_updates(ns.take(i + 1), outer, f, tt) == nested_updates(ns.take(i), outer, f, tt) + nested_update(ns[i], outer, f, tt),
        nesteds_room(ns.take(i + 1), outer, tt) == nesteds_room(ns.take(i), outer, tt) + nested_room(ns[i], outer, tt),
        nesteds_room(ns.take(i + 1), outer, tt) <= nesteds_room(ns, outer, tt),
    decreases ns.len(),
{
    assert(ns.take(i + 1).drop_last() =~= ns.take(i));
    if i + 1 < ns.len() {
        lemma_nesteds_step(ns.drop_last(), i, outer, f, tt);
        assert(ns.drop_last().take(i + 1) =~= ns.take(i + 1));
        assert(ns.drop_last().take(i) =~= ns.take(i));
    } else {
        assert(ns.take(i + 1) =~= ns);
    }
}

/// No writes change no type.
proof fn lemma_types_filled_none(s: Seq<Seq<char>>, a: Seq<TypeDef>, tt: Map<Seq<char>, u32>, et: Map<Seq<char>, u32>)
    ensures
        types_filled(s, a, a, Seq::empty(), tt, et),
        updates_ok(Seq::<(Update, ParsedFile)>::empty()),
{
    assert forall|t: int| 0 <= t < a.len() implies type_filled(s, a[t], #[trigger] a[t], Seq::empty(), t, tt, et) by {}
}

/// Writes `us` followed by none are `us`.
proof fn lemma_no_more(us: Seq<(Update, ParsedFile)>)
    ensures
        us + Seq::<(Update, ParsedFile)>::empty() == us,
{
    assert(us + Seq::<(Update, ParsedFile)>::empty() =~= us);
}

/// One nested type declaration: where it declares a type with a name whose
/// full name is a type, and with a body, that type takes the fields and
/// oneofs of that body.
fn fill_one_nested(
    nested: &NestedTypeDecl,
    outer: &str,
    file: &ParsedFile,
    imports: &ImportMap,
    interner: &mut Interner,
    arenas: &mut Arenas,
    symbols: &SymbolTable,
    diag: &mut Diagnostics,
)
    requires
        node_ok(nested.node()),
        imports@ == file_imports(*file),
        forall|k: Sym| #[trigger] symbols.types@.contains_key(k) ==> symbols.types@[k] < type_defs(old(arenas).types).len(),
        distinct(interned(*old(interner))),
        interned(*old(interner)).len() + nested_room(nested.node(), outer@, text_table(interned(*old(interner)), symbols.types@))
            < u32::MAX,
        keys_below(symbols.types@, interned(*old(interner)).len()),
        keys_below(symbols.enums@, interned(*old(interner)).len()),
    ensures
        grows(interned(*old(interner)), interned(*final(interner))),
        distinct(interned(*final(interner))),
        interned(*final(interner)).len() <= interned(*old(interner)).len() + nested_room(
            nested.node(),
            outer@,
            text_table(interned(*old(interner)), symbols.types@),
        ),
        updates_ok(nested_update(nested.node(), outer@, *file, text_table(interned(*old(interner)), symbols.types@))),
        types_filled(
            interned(*final(interner)),
            type_defs(old(arenas).types),
            type_defs(final(arenas).types),
            nested_update(nested.node(), outer@, *file, text_table(interned(*old(interner)), symbols.types@)),
            text_table(interned(*old(interner)), symbols.types@),
            text_table(interned(*old(interner)), symbols.enums@),
        ),
        final(arenas).shapes == old(arenas).shapes,
        final(arenas).enums == old(arenas).enums,
        final(arenas).services == old(arenas).services,
        final(arenas).annotation_defs == old(arenas).annotation_defs,
        grows(old(diag)@, final(diag)@),
        reported_in_files(
            final(diag)@.skip(old(diag)@.len() as int),
            updates_unresolved(
                nested_update(nested.node(), outer@, *file, text_table(interned(*old(interner)), symbols.types@)),
                text_table(interned(*old(interner)), symbols.types@),
                text_table(interned(*old(interner)), symbols.enums@),
            ),
        ),
{
    let ghost s0 = interned(*interner);
    let ghost tt = text_table(s0, symbols.types@);
    let ghost et = text_table(s0, symbols.enums@);
    let ghost d0 = diag@;
    let ghost a0 = type_defs(arenas.types);
    let ghost n = nested.node();
    proof {
        assert(d0.skip(d0.len() as int) =~= Seq::<Diagnostic>::empty());
        assert forall|k: int| 0 <= k < d0.len() implies #[trigger] d0[k] == d0[k] by {}
        assert forall|k: int| 0 <= k < s0.len() implies #[trigger] s0[k] == s0[k] by {}
        lemma_types_filled_none(s0, a0, tt, et);
    }
    let ido = nested.type_decl();
    proof {
        lemma_first_child(n, ido, SyntaxKind::TypeDecl);
        lemma_child_nodes_below(n, SyntaxKind::TypeDecl);
    }
    let inner = match ido {
        Some(x) => x,
        None => {
            return;
        },
    };
    let ghost inode = inner.node();
    let nm = inner.name();
    proof {
        lemma_name_token(inode, nm);
    }
    let tok = match nm {
        Some(t) => t,
        None => {
            return;
        },
    };
    let name = tok.text();
    let full = qualify(outer, name.as_str());
    let full_sym = interner.intern(full.as_str());
    let ghost s1 = interned(*interner);
    proof {
        lemma_index_of(s1, full_sym as int, full@);
        lemma_lookup(s0, s1, symbols.types@, full_sym, full@);
        lemma_text_table_grow(s0, s1, symbols.types@);
        lemma_text_table_grow(s0, s1, symbols.enums@);
        lemma_types_filled_none(s1, a0, tt, et);
    }
    let nid = match symbols.types.get(&full_sym) {
        Some(idr) => *idr,
        None => {
            return;
        },
    };
    let bo = inner.body();
    proof {
        lemma_first_child(inode, bo, SyntaxKind::TypeBody);
        lemma_child_nodes_below(inode, SyntaxKind::TypeBody);
    }
    match &bo {
        Some(nb) => {
            fill_body(nb, nid, file, imports, interner, arenas, symbols, diag);
            proof {
                let u = seq![(Update::Body(nid, nb.node()), *file)];
                assert(nested_update(n, outer@, *file, tt) == u);
                lemma_one(u[0], tt, et);
                assert(u == seq![u[0]]);
                lemma_grows_trans(s0, s1, interned(*interner));
                assert(updates_ok(u)) by {
                    assert forall|k: int| 0 <= k < u.len() implies match (#[trigger] u[k]).0 {
                        Update::Annotations(_, _) => true,
                        Update::Body(_, b) => node_ok(b),
                        Update::ShapeFields(_, d) => node_ok(d),
                    } by {
                        assert(u[k] == u[0]);
                    }
                }
            }
        },
        None => {},
    }
}

/// The nested types of `body`, inside the type with full name `outer`, in
/// order, as [`fill_one_nested`] says.
fn fill_nested(
    body: &TypeBody,
    outer: &str,
    file: &ParsedFile,
    imports: &ImportMap,
    interner: &mut Interner,
    arenas: &mut Arenas,
    symbols: &SymbolTable,
    diag: &mut Diagnostics,
)
    requires
        node_ok(body.node()),
        imports@ == file_imports(*file),
        forall|k: Sym| #[trigger] symbols.types@.contains_key(k) ==> symbols.types@[k] < type_defs(old(arenas).types).len(),
        distinct(interned(*old(interner))),
        interned(*old(interner)).len() + nesteds_room(
            child_nodes(body.node(), SyntaxKind::NestedTypeDecl),
            outer@,
            text_table(interned(*old(interner)), symbols.types@),
        ) < u32::MAX,
        keys_below(symbols.types@, interned(*old(interner)).len()),
        keys_below(symbols.enums@, interned(*old(interner)).len()),
    ensures
        grows(interned(*old(interner)), interned(*final(interner))),
        distinct(interned(*final(interner))),
        interned(*final(interner)).len() <= interned(*old(interner)).len() + nesteds_room(
            child_nodes(body.node(), SyntaxKind::NestedTypeDecl),
            outer@,
            text_table(interned(*old(interner)), symbols.types@),
        ),
        updates_ok(
            nested_updates(
                child_nodes(body.node(), SyntaxKind::NestedTypeDecl),
                outer@,
                *file,
                text_table(interned(*old(interner)), symbols.types@),
            ),
        ),
        types_filled(
            interned(*final(interner)),
            type_defs(old(arenas).types),
            type_defs(final(arenas).types),
            nested_updates(
                child_nodes(body.node(), SyntaxKind::NestedTypeDecl),
                outer@,
                *file,
                text_table(interned(*old(interner)), symbols.types@),
            ),
            text_table(interned(*old(interner)), symbols.types@),
            text_table(interned(*old(interner)), symbols.enums@),
        ),
        final(arenas).shapes == old(arenas).shapes,
        final(arenas).enums == old(arenas).enums,
        final(arenas).services == old(arenas).services,
        final(arenas).annotation_defs == old(arenas).annotation_defs,
        grows(old(diag)@, final(diag)@),
        reported_in_files(
            final(diag)@.skip(old(diag)@.len() as int),
            updates_unresolved(
                nested_updates(
                    child_nodes(body.node(), SyntaxKind::NestedTypeDecl),
                    outer@,
                    *file,
                    text_table(interned(*old(interner)), symbols.types@),
                ),
                text_table(interned(*old(interner)), symbols.types@),
                text_table(interned(*old(interner)), symbols.enums@),
            ),
        ),
{
    let ghost s0 = interned(*interner);
    let ghost tt = text_table(s0, symbols.types@);
    let ghost et = text_table(s0, symbols.enums@);
    let ghost d0 = diag@;
    let ghost a0 = type_defs(arenas.types);
    let ghost b = body.node();
    let ghost ns = child_nodes(b, SyntaxKind::NestedTypeDecl);
    let nested = body.nested_types();
    proof {
        lemma_children_nodes(b, nested@, SyntaxKind::NestedTypeDecl);
        lemma_child_nodes_below(b, SyntaxKind::NestedTypeDecl);
        assert(d0.skip(d0.len() as int) =~= Seq::<Diagnostic>::empty());
        assert forall|k: int| 0 <= k < d0.len() implies #[trigger] d0[k] == d0[k] by {}
        assert forall|k: int| 0 <= k < s0.len() implies #[trigger] s0[k] == s0[k] by {}
        assert(ns.take(0) =~= Seq::<SyntaxNode>::empty());
        lemma_types_filled_none(s0, a0, tt, et);
    }
    let mut i: usize = 0;
    while i < nested.len()
        invariant
            ns == child_nodes(b, SyntaxKind::NestedTypeDecl),
            nested@.len() == ns.len(),
            forall|k: int| 0 <= k < ns.len() ==> (#[trigger] nested@[k]).node() == ns[k],
            forall|k: int| 0 <= k < ns.len() ==> node_ok(#[trigger] ns[k]),
            i <= ns.len(),
            imports@ == file_imports(*file),
            s0.len() + nesteds_room(ns, outer@, tt) < u32::MAX,
            keys_below(symbols.types@, s0.len()),
            keys_below(symbols.enums@, s0.len()),
            tt == text_table(s0, symbols.types@),
            et == text_table(s0, symbols.enums@),
            type_defs(arenas.types).len() == a0.len(),
            forall|k: Sym| #[trigger] symbols.types@.contains_key(k) ==> symbols.types@[k] < a0.len(),
            grows(s0, interned(*interner)),
            distinct(interned(*interner)),
            interned(*interner).len() <= s0.len() + nesteds_room(ns.take(i as int), outer@, tt),
            updates_ok(nested_updates(ns.take(i as int), outer@, *file, tt)),
            types_filled(interned(*interner), a0, type_defs(arenas.types), nested_updates(ns.take(i as int), outer@, *file, tt), tt, et),
            arenas.shapes == old(arenas).shapes,
            arenas.enums == old(arenas).enums,
            arenas.services == old(arenas).services,
            arenas.annotation_defs == old(arenas).annotation_defs,
            grows(d0, diag@),
            reported_in_files(diag@.skip(d0.len() as int), updates_unresolved(nested_updates(ns.take(i as int), outer@, *file, tt), tt, et)),
        decreases nested.len() - i,
    {
        let ghost s1 = interned(*interner);
        let ghost d1 = diag@;
        let ghost a1 = type_defs(arenas.types);
        let ghost prev = nested_updates(ns.take(i as int), outer@, *file, tt);
        proof {
            lemma_nesteds_step(ns, i as int, outer@, *file, tt);
            lemma_text_table_grow(s0, s1, symbols.types@);
            lemma_text_table_grow(s0, s1, symbols.enums@);
        }
        fill_one_nested(&nested[i], outer, file, imports, interner, arenas, symbols, diag);
        proof {
            let u = nested_update(ns[i as int], outer@, *file, tt);
            lemma_types_filled_trans(s1, interned(*interner), a0, a1, type_defs(arenas.types), prev, u, tt, et);
            lemma_files_append(d0, d1, diag@, updates_unresolved(prev, tt, et), updates_unresolved(u, tt, et));
            lemma_unresolved_concat(prev, u, tt, et);
            lemma_updates_ok_append(prev, u);
            lemma_grows_trans(s0, s1, interned(*interner));
        }
        i += 1;
    }
    proof {
        assert(ns.take(ns.len() as int) =~= ns);
    }
}

/// How many strings type declaration `d` of package `pkg` may intern.
pub open spec fn decl_room(d: SyntaxNode, pkg: Seq<char>, tt: Map<Seq<char>, u32>) -> nat {
    let full = qualified(pkg, name_text(d));
    if name_bytes(d) is Some {
        1 + if tt.contains_key(full) {
            calls_room(annotation_nodes(d)) + match first_child(d, SyntaxKind::TypeBody) {
                Some(b) => body_room(b) + nesteds_room(child_nodes(b, SyntaxKind::NestedTypeDecl), full, tt),
                None => 0,
            }
        } else {
            0
        }
    } else {
        0
    }
}

/// One type declaration of `file`: where it has a name whose full name is a
/// type, that type takes its annotations, the fields and oneofs of its
/// body, and its nested types theirs.
fn fill_type(
    decl: &TypeDecl,
    file: &ParsedFile,
    imports: &ImportMap,
    interner: &mut Interner,
    arenas: &mut Arenas,
    symbols: &SymbolTable,
    diag: &mut Diagnostics,
)
    requires
        node_ok(decl.node()),
        imports@ == file_imports(*file),
        forall|k: Sym| #[trigger] symbols.types@.contains_key(k) ==> symbols.types@[k] < type_defs(old(arenas).types).len(),
        distinct(interned(*old(interner))),
        interned(*old(interner)).len() + decl_room(decl.node(), file.package@, text_table(interned(*old(interner)), symbols.types@))
            < u32::MAX,
        keys_below(symbols.types@, interned(*old(interner)).len()),
        keys_below(symbols.enums@, interned(*old(interner)).len()),
    ensures
        grows(interned(*old(interner)), interned(*final(interner))),
        distinct(interned(*final(interner))),
        interned(*final(interner)).len() <= interned(*old(interner)).len() + decl_room(
            decl.node(),
            file.package@,
            text_table(interned(*old(interner)), symbols.types@),
        ),
        updates_ok(decl_updates(decl.node(), *file, text_table(interned(*old(interner)), symbols.types@))),
        types_filled(
            interned(*final(interner)),
            type_defs(old(arenas).types),
            type_defs(final(arenas).types),
            decl_updates(decl.node(), *file, text_table(interned(*old(interner)), symbols.types@)),
            text_table(interned(*old(interner)), symbols.types@),
            text_table(interned(*old(interner)), symbols.enums@),
        ),
        final(arenas).shapes == old(arenas).shapes,
        final(arenas).enums == old(arenas).enums,
        final(arenas).services == old(arenas).services,
        final(arenas).annotation_defs == old(arenas).annotation_defs,
        grows(old(diag)@, final(diag)@),
        reported_in_files(
            final(diag)@.skip(old(diag)@.len() as int),
            updates_unresolved(
                decl_updates(decl.node(), *file, text_table(interned(*old(interner)), symbols.types@)),
                text_table(interned(*old(interner)), symbols.types@),
                text_table(interned(*old(interner)), symbols.enums@),
            ),
        ),
{
    let ghost s0 = interned(*interner);
    let ghost tt = text_table(s0, symbols.types@);
    let ghost et = text_table(s0, symbols.enums@);
    let ghost d0 = diag@;
    let ghost a0 = type_defs(arenas.types);
    let ghost d = decl.node();
    proof {
        assert(d0.skip(d0.len() as int) =~= Seq::<Diagnostic>::empty());
        assert(updates_unresolved(Seq::empty(), tt, et) =~= Seq::empty());
        assert forall|k: int| 0 <= k < d0.len() implies #[trigger] d0[k] == d0[k] by {}
        assert forall|k: int| 0 <= k < s0.len() implies #[trigger] s0[k] == s0[k] by {}
        lemma_types_filled_none(s0, a0, tt, et);
    }
    let nm = decl.name();
    proof {
        lemma_name_token(d, nm);
    }
    let tok = match nm {
        Some(t) => t,
        None => {
            return;
        },
    };
    let name = tok.text();
    let pkg = file.package.as_str();
    let full = qualify(pkg, name.as_str());
    let full_sym = interner.intern(full.as_str());
    let ghost s1 = interned(*interner);
    proof {
        lemma_index_of(s1, full_sym as int, full@);
        lemma_lookup(s0, s1, symbols.types@, full_sym, full@);
        lemma_text_table_grow(s0, s1, symbols.types@);
        lemma_text_table_grow(s0, s1, symbols.enums@);
        lemma_types_filled_none(s1, a0, tt, et);
    }
    let id = match symbols.types.get(&full_sym) {
        Some(idr) => *idr,
        None => {
            return;
        },
    };
    let anns = decl.annotations();
    proof {
        lemma_annotation_nodes(d, anns@);
        assert(call_nodes(anns@) =~= annotation_nodes(d));
    }
    let calls = collect_annotation_calls(anns.as_slice(), interner);
    let ghost s2 = interned(*interner);
    let def = type_def_mut(&mut arenas.types, id);
    def.annotations = calls;
    let ghost a1 = type_defs(arenas.types);
    let ghost ua = seq![(Update::Annotations(id, d), *file)];
    proof {
        lemma_grows_trans(s0, s1, s2);
        lemma_one(ua[0], tt, et);
        assert(ua == seq![ua[0]]);
        assert forall|t: int| 0 <= t < a0.len() implies type_filled(s2, a0[t], #[trigger] a1[t], ua, t, tt, et) by {
            assert(last_body(ua, t) is None);
        }
        assert(updates_ok(ua)) by {
            assert forall|k: int| 0 <= k < ua.len() implies match (#[trigger] ua[k]).0 {
                Update::Annotations(_, _) => true,
                Update::Body(_, b) => node_ok(b),
                Update::ShapeFields(_, d) => node_ok(d),
            } by {
                assert(ua[k] == ua[0]);
            }
        }
        lemma_text_table_grow(s0, s2, symbols.types@);
        lemma_text_table_grow(s0, s2, symbols.enums@);
        assert(diag@.skip(d0.len() as int) =~= Seq::<Diagnostic>::empty());
    }
    let bo = decl.body();
    proof {
        lemma_first_child(d, bo, SyntaxKind::TypeBody);
        lemma_child_nodes_below(d, SyntaxKind::TypeBody);
    }
    match &bo {
        Some(body) => {
            let ghost bn = body.node();
            let ghost ub = seq![(Update::Body(id, bn), *file)];
            let ghost un = nested_updates(child_nodes(bn, SyntaxKind::NestedTypeDecl), full@, *file, tt);
            fill_body(body, id, file, imports, interner, arenas, symbols, diag);
            let ghost s3 = interned(*interner);
            let ghost a2 = type_defs(arenas.types);
            let ghost d2 = diag@;
            proof {
                lemma_one(ub[0], tt, et);
                assert(ub == seq![ub[0]]);
                lemma_types_filled_trans(s2, s3, a0, a1, a2, ua, ub, tt, et);
                lemma_text_table_grow(s0, s3, symbols.types@);
                lemma_text_table_grow(s0, s3, symbols.enums@);
                lemma_grows_trans(s0, s2, s3);
                assert(updates_ok(ub)) by {
                    assert forall|k: int| 0 <= k < ub.len() implies match (#[trigger] ub[k]).0 {
                        Update::Annotations(_, _) => true,
                        Update::Body(_, b) => node_ok(b),
                        Update::ShapeFields(_, d) => node_ok(d),
                    } by {
                        assert(ub[k] == ub[0]);
                    }
                }
                lemma_updates_ok_append(ua, ub);
                lemma_unresolved_concat(ua, ub, tt, et);
                lemma_one(ua[0], tt, et);
                assert(update_unresolved(ua[0], tt, et) =~= Seq::empty());
            }
            fill_nested(body, full.as_str(), file, imports, interner, arenas, symbols, diag);
            proof {
                lemma_types_filled_trans(s3, interned(*interner), a0, a2, type_defs(arenas.types), ua + ub, un, tt, et);
                lemma_files_append(d0, d2, diag@, updates_unresolved(ua + ub, tt, et), updates_unresolved(un, tt, et));
                lemma_unresolved_concat(ua + ub, un, tt, et);
                lemma_updates_ok_append(ua + ub, un);
                lemma_grows_trans(s0, s3, interned(*interner));
                assert(decl_updates(d, *file, tt) =~= ua + ub + un);
            }
        },
        None => {
            proof {
                assert(decl_updates(d, *file, tt) =~= ua);
                assert(updates_unresolved(ua, tt, et) =~= Seq::empty());
            }
        },
    }
}

/// How many strings shape declaration `d` of package `pkg` may intern.
pub open spec fn shape_decl_room(d: SyntaxNode, pkg: Seq<char>, st: Map<Seq<char>, u32>) -> nat {
    if name_bytes(d) is Some {
        1 + if st.contains_key(qualified(pkg, name_text(d))) {
            shape_fields_room(child_nodes(d, SyntaxKind::ShapeField))
        } else {
            0
        }
    } else {
        0
    }
}

/// No write among `us` is to the fields of a shape.
pub open spec fn types_only(us: Seq<(Update, ParsedFile)>) -> bool {
    forall|k: int| 0 <= k < us.len() ==> !((#[trigger] us[k]).0 is ShapeFields)
}

/// Every write among `us` is to the fields of a shape.
pub open spec fn shapes_only(us: Seq<(Update, ParsedFile)>) -> bool {
    forall|k: int| 0 <= k < us.len() ==> ((#[trigger] us[k]).0 is ShapeFields)
}

proof fn lemma_types_only_shapes(s: Seq<Seq<char>>, a: Seq<ShapeDef>, us: Seq<(Update, ParsedFile)>, tt: Map<Seq<char>, u32>, et: Map<Seq<char>, u32>)
    requires
        types_only(us),
    ensures
        shapes_filled(s, a, a, us, tt, et),
    decreases us.len(),
{
    if us.len() > 0 {
        assert(types_only(us.drop_last())) by {
            assert forall|k: int| 0 <= k < us.drop_last().len() implies !((#[trigger] us.drop_last()[k]).0 is ShapeFields) by {
                assert(us.drop_last()[k] == us[k]);
            }
        }
        lemma_types_only_shapes(s, a, us.drop_last(), tt, et);
        assert(!(us[us.len() - 1].0 is ShapeFields));
        assert forall|t: int| 0 <= t < a.len() implies shape_filled(s, a[t], #[trigger] a[t], us, t, tt, et) by {
            assert(shape_filled(s, a[t], a[t], us.drop_last(), t, tt, et));
        }
    } else {
        assert forall|t: int| 0 <= t < a.len() implies shape_filled(s, a[t], #[trigger] a[t], us, t, tt, et) by {}
    }
}

proof fn lemma_shapes_only_types(s: Seq<Seq<char>>, a: Seq<TypeDef>, us: Seq<(Update, ParsedFile)>, tt: Map<Seq<char>, u32>, et: Map<Seq<char>, u32>)
    requires
        shapes_only(us),
    ensures
        types_filled(s, a, a, us, tt, et),
    decreases us.len(),
{
    if us.len() > 0 {
        assert(shapes_only(us.drop_last())) by {
            assert forall|k: int| 0 <= k < us.drop_last().len() implies ((#[trigger] us.drop_last()[k]).0 is ShapeFields) by {
                assert(us.drop_last()[k] == us[k]);
            }
        }
        lemma_shapes_only_types(s, a, us.drop_last(), tt, et);
        assert(us[us.len() - 1].0 is ShapeFields);
        assert forall|t: int| 0 <= t < a.len() implies type_filled(s, a[t], #[trigger] a[t], us, t, tt, et) by {
            assert(type_filled(s, a[t], a[t], us.drop_last(), t, tt, et));
        }
    } else {
        assert forall|t: int| 0 <= t < a.len() implies type_filled(s, a[t], #[trigger] a[t], us, t, tt, et) by {}
    }
}

proof fn lemma_nested_types_only(ns: Seq<SyntaxNode>, outer: Seq<char>, f: ParsedFile, tt: Map<Seq<char>, u32>)
    ensures
        types_only(nested_updates(ns, outer, f, tt)),
    decreases ns.len(),
{
    if ns.len() > 0 {
        lemma_nested_types_only(ns.drop_last(), outer, f, tt);
        let a = nested_updates(ns.drop_last(), outer, f, tt);
        let b = nested_update(ns.last(), outer, f, tt);
        assert forall|k: int| 0 <= k < (a + b).len() implies !((#[trigger] (a + b)[k]).0 is ShapeFields) by {
            if k < a.len() {
                assert((a + b)[k] == a[k]);
            } else {
                assert((a + b)[k] == b[k - a.len()]);
            }
        }
    }
}

proof fn lemma_decl_types_only(d: SyntaxNode, f: ParsedFile, tt: Map<Seq<char>, u32>)
    ensures
        types_only(decl_updates(d, f, tt)),
{
    let us = decl_updates(d, f, tt);
    let full = qualified(f.package@, name_text(d));
    if name_bytes(d) is Some && tt.contains_key(full) {
        if let Some(b) = first_child(d, SyntaxKind::TypeBody) {
            let ns = nested_updates(child_nodes(b, SyntaxKind::NestedTypeDecl), full, f, tt);
            lemma_nested_types_only(child_nodes(b, SyntaxKind::NestedTypeDecl), full, f, tt);
            let h = seq![(Update::Annotations(tt[full], d), f), (Update::Body(tt[full], b), f)];
            assert(us =~= h + ns);
            assert forall|k: int| 0 <= k < us.len() implies !((#[trigger] us[k]).0 is ShapeFields) by {
                if k >= 2 {
                    assert(us[k] == ns[k - 2]);
                }
            }
        }
    }
}

/// One shape declaration of `file`: where it has a name whose full name is
/// a shape, that shape takes its fields.
fn fill_shape(
    decl: &ShapeDecl,
    file: &ParsedFile,
    imports: &ImportMap,
    interner: &mut Interner,
    arenas: &mut Arenas,
    symbols: &SymbolTable,
    diag: &mut Diagnostics,
)
    requires
        node_ok(decl.node()),
        imports@ == file_imports(*file),
        forall|k: Sym| #[trigger] symbols.shapes@.contains_key(k) ==> symbols.shapes@[k] < shape_defs(old(arenas).shapes).len(),
        distinct(interned(*old(interner))),
        interned(*old(interner)).len() + shape_decl_room(
            decl.node(),
            file.package@,
            text_table(interned(*old(interner)), symbols.shapes@),
        ) < u32::MAX,
        keys_below(symbols.types@, interned(*old(interner)).len()),
        keys_below(symbols.enums@, interned(*old(interner)).len()),
        keys_below(symbols.shapes@, interned(*old(interner)).len()),
    ensures
        grows(interned(*old(interner)), interned(*final(interner))),
        distinct(interned(*final(interner))),
        interned(*final(interner)).len() <= interned(*old(interner)).len() + shape_decl_room(
            decl.node(),
            file.package@,
            text_table(interned(*old(interner)), symbols.shapes@),
        ),
        updates_ok(shape_update(decl.node(), *file, text_table(interned(*old(interner)), symbols.shapes@))),
        shapes_filled(
            interned(*final(interner)),
            shape_defs(old(arenas).shapes),
            shape_defs(final(arenas).shapes),
            shape_update(decl.node(), *file, text_table(interned(*old(interner)), symbols.shapes@)),
            text_table(interned(*old(interner)), symbols.types@),
            text_table(interned(*old(interner)), symbols.enums@),
        ),
        final(arenas).types == old(arenas).types,
        final(arenas).enums == old(arenas).enums,
        final(arenas).services == old(arenas).services,
        final(arenas).annotation_defs == old(arenas).annotation_defs,
        grows(old(diag)@, final(diag)@),
        reported_in_files(
            final(diag)@.skip(old(diag)@.len() as int),
            updates_unresolved(
                shape_update(decl.node(), *file, text_table(interned(*old(interner)), symbols.shapes@)),
                text_table(interned(*old(interner)), symbols.types@),
                text_table(interned(*old(interner)), symbols.enums@),
            ),
        ),
{
    let ghost s0 = interned(*interner);
    let ghost tt = text_table(s0, symbols.types@);
    let ghost et = text_table(s0, symbols.enums@);
    let ghost st = text_table(s0, symbols.shapes@);
    let ghost d0 = diag@;
    let ghost a0 = shape_defs(arenas.shapes);
    let ghost d = decl.node();
    proof {
        assert(d0.skip(d0.len() as int) =~= Seq::<Diagnostic>::empty());
        assert(updates_unresolved(Seq::empty(), tt, et) =~= Seq::empty());
        assert forall|k: int| 0 <= k < s0.len() implies #[trigger] s0[k] == s0[k] by {}
        assert forall|t: int| 0 <= t < a0.len() implies shape_filled(s0, a0[t], #[trigger] a0[t], Seq::empty(), t, tt, et) by {}
    }
    let nm = decl.name();
    proof {
        lemma_name_token(d, nm);
    }
    let tok = match nm {
        Some(t) => t,
        None => {
            return;
        },
    };
    let name = tok.text();
    let pkg = file.package.as_str();
    let full = qualify(pkg, name.as_str());
    let full_sym = interner.intern(full.as_str());
    let ghost s1 = interned(*interner);
    proof {
        lemma_index_of(s1, full_sym as int, full@);
        lemma_lookup(s0, s1, symbols.shapes@, full_sym, full@);
        lemma_text_table_grow(s0, s1, symbols.types@);
        lemma_text_table_grow(s0, s1, symbols.enums@);
        assert forall|t: int| 0 <= t < a0.len() implies shape_filled(s1, a0[t], #[trigger] a0[t], Seq::empty(), t, tt, et) by {}
    }
    let id = match symbols.shapes.get(&full_sym) {
        Some(idr) => *idr,
        None => {
            return;
        },
    };
    let fl = decl.fields();
    proof {
        lemma_children_nodes(d, fl@, SyntaxKind::ShapeField);
        lemma_child_nodes_below(d, SyntaxKind::ShapeField);
        assert(decl_nodes(fl@) =~= child_nodes(d, SyntaxKind::ShapeField));
    }
    let fields = collect_shape_fields(&fl, interner, pkg, imports, symbols, diag, file.file_name.as_str());
    let ghost s2 = interned(*interner);
    let def = shape_def_mut(&mut arenas.shapes, id);
    def.fields = fields;
    proof {
        let u = seq![(Update::ShapeFields(id, d), *file)];
        lemma_grows_trans(s0, s1, s2);
        lemma_one(u[0], tt, et);
        assert(u == seq![u[0]]);
        assert forall|t: int| 0 <= t < a0.len() implies shape_filled(s2, a0[t], #[trigger] shape_defs(arenas.shapes)[t], u, t, tt, et) by {}
        assert(updates_ok(u)) by {
            assert forall|k: int| 0 <= k < u.len() implies match (#[trigger] u[k]).0 {
                Update::Annotations(_, _) => true,
                Update::Body(_, b) => node_ok(b),
                Update::ShapeFields(_, d) => node_ok(d),
            } by {
                assert(u[k] == u[0]);
            }
        }
        lemma_in_file_reports(
            diag@.skip(d0.len() as int),
            shape_fields_unresolved(child_nodes(d, SyntaxKind::ShapeField), pkg@, imports@, tt, et),
            file.file_name@,
        );
    }
}

/// How many strings the type declarations `ds` of package `pkg` may intern.
pub open spec fn decls_room(ds: Seq<SyntaxNode>, pkg: Seq<char>, tt: Map<Seq<char>, u32>) -> nat
    decreases ds.len(),
{
    if ds.len() == 0 {
        0
    } else {
        decls_room(ds.drop_last(), pkg, tt) + decl_room(ds.last(), pkg, tt)
    }
}

/// How many strings the shape declarations `ds` of package `pkg` may intern.
pub open spec fn shape_decls_room(ds: Seq<SyntaxNode>, pkg: Seq<char>, st: Map<Seq<char>, u32>) -> nat
    decreases ds.len(),
{
    if ds.len() == 0 {
        0
    } else {
        shape_decls_room(ds.drop_last(), pkg, st) + shape_decl_room(ds.last(), pkg, st)
    }
}

/// How many strings populating file `f` may intern.
pub open spec fn file_room(f: ParsedFile, tt: Map<Seq<char>, u32>, st: Map<Seq<char>, u32>) -> nat {
    if f.root.spec_kind() == SyntaxKind::Root {
        1 + decls_room(child_nodes(f.root, SyntaxKind::TypeDecl), f.package@, tt) + shape_decls_room(
            child_nodes(f.root, SyntaxKind::ShapeDecl),
            f.package@,
            st,
        )
    } else {
        0
    }
}

/// How many strings populating the files `fs` may intern.
pub open spec fn files_room(fs: Seq<ParsedFile>, tt: Map<Seq<char>, u32>, st: Map<Seq<char>, u32>) -> nat
    decreases fs.len(),
{
    if fs.len() == 0 {
        0
    } else {
        files_room(fs.drop_last(), tt, st) + file_room(fs.last(), tt, st)
    }
}

proof fn lemma_decls_step(ds: Seq<SyntaxNode>, i: int, f: ParsedFile, tt: Map<Seq<char>, u32>)
    requires
        0 <= i < ds.len(),
    ensures
        decls_updates(ds.take(i + 1), f, tt) == decls_updates(ds.take(i), f, tt) + decl_updates(ds[i], f, tt),
        decls_room(ds.take(i + 1), f.package@, tt) == decls_room(ds.take(i), f.package@, tt) + decl_room(ds[i], f.package@, tt),
        decls_room(ds.take(i + 1), f.package@, tt) <= decls_room(ds, f.package@, tt),
    decreases ds.len(),
{
    assert(ds.take(i + 1).drop_last() =~= ds.take(i));
    if i + 1 < ds.len() {
        lemma_decls_step(ds.drop_last(), i, f, tt);
        assert(ds.drop_last().take(i + 1) =~= ds.take(i + 1));
        assert(ds.drop_last().take(i) =~= ds.take(i));
    } else {
        assert(ds.take(i + 1) =~= ds);
    }
}

proof fn lemma_shape_decls_step(ds: Seq<SyntaxNode>, i: int, f: ParsedFile, st: Map<Seq<char>, u32>)
    requires
        0 <= i < ds.len(),
    ensures
        shapes_updates(ds.take(i + 1), f, st) == shapes_updates(ds.take(i), f, st) + shape_update(ds[i], f, st),
        shape_decls_room(ds.take(i + 1), f.package@, st) == shape_decls_room(ds.take(i), f.package@, st) + shape_decl_room(
            ds[i],
            f.package@,
            st,
        ),
        shape_decls_room(ds.take(i + 1), f.package@, st) <= shape_decls_room(ds, f.package@, st),
    decreases ds.len(),
{
    assert(ds.take(i + 1).drop_last() =~= ds.take(i));
    if i + 1 < ds.len() {
        lemma_shape_decls_step(ds.drop_last(), i, f, st);
        assert(ds.drop_last().take(i + 1) =~= ds.take(i + 1));
        assert(ds.drop_last().take(i) =~= ds.take(i));
    } else {
        assert(ds.take(i + 1) =~= ds);
    }
}

proof fn lemma_types_only_append(a: Seq<(Update, ParsedFile)>, b: Seq<(Update, ParsedFile)>)
    requires
        types_only(a),
        types_only(b),
    ensures
        types_only(a + b),
{
    assert forall|k: int| 0 <= k < (a + b).len() implies !((#[trigger] (a + b)[k]).0 is ShapeFields) by {
        if k < a.len() {
            assert((a + b)[k] == a[k]);
        } else {
            assert((a + b)[k] == b[k - a.len()]);
        }
    }
}

proof fn lemma_shapes_only_append(a: Seq<(Update, ParsedFile)>, b: Seq<(Update, ParsedFile)>)
    requires
        shapes_only(a),
        shapes_only(b),
    ensures
        shapes_only(a + b),
{
    assert forall|k: int| 0 <= k < (a + b).len() implies ((#[trigger] (a + b)[k]).0 is ShapeFields) by {
        if k < a.len() {
            assert((a + b)[k] == a[k]);
        } else {
            assert((a + b)[k] == b[k - a.len()]);
        }
    }
}

/// One file: where its root is a file root, its type declarations in
/// order, as [`fill_type`] says, then its shape declarations in order, as
/// [`fill_shape`] says.
fn fill_file(
    file: &ParsedFile,
    interner: &mut Interner,
    arenas: &mut Arenas,
    symbols: &SymbolTable,
    diag: &mut Diagnostics,
)
    requires
        forall|k: Sym| #[trigger] symbols.types@.contains_key(k) ==> symbols.types@[k] < type_defs(old(arenas).types).len(),
        forall|k: Sym| #[trigger] symbols.shapes@.contains_key(k) ==> symbols.shapes@[k] < shape_defs(old(arenas).shapes).len(),
        distinct(interned(*old(interner))),
        interned(*old(interner)).len() + file_room(
            *file,
            text_table(interned(*old(interner)), symbols.types@),
            text_table(interned(*old(interner)), symbols.shapes@),
        ) < u32::MAX,
        keys_below(symbols.types@, interned(*old(interner)).len()),
        keys_below(symbols.enums@, interned(*old(interner)).len()),
        keys_below(symbols.shapes@, interned(*old(interner)).len()),
    ensures
        grows(interned(*old(interner)), interned(*final(interner))),
        distinct(interned(*final(interner))),
        interned(*final(interner)).len() <= interned(*old(interner)).len() + file_room(
            *file,
            text_table(interned(*old(interner)), symbols.types@),
            text_table(interned(*old(interner)), symbols.shapes@),
        ),
        ({
            let tt = text_table(interned(*old(interner)), symbols.types@);
            let et = text_table(interned(*old(interner)), symbols.enums@);
            let us = file_updates(*file, tt, text_table(interned(*old(interner)), symbols.shapes@));
            &&& updates_ok(us)
            &&& types_filled(interned(*final(interner)), type_defs(old(arenas).types), type_defs(final(arenas).types), us, tt, et)
            &&& shapes_filled(interned(*final(interner)), shape_defs(old(arenas).shapes), shape_defs(final(arenas).shapes), us, tt, et)
            &&& reported_in_files(final(diag)@.skip(old(diag)@.len() as int), updates_unresolved(us, tt, et))
        }),
        final(arenas).enums == old(arenas).enums,
        final(arenas).services == old(arenas).services,
        final(arenas).annotation_defs == old(arenas).annotation_defs,
        grows(old(diag)@, final(diag)@),
{
    let ghost s0 = interned(*interner);
    let ghost tt = text_table(s0, symbols.types@);
    let ghost et = text_table(s0, symbols.enums@);
    let ghost st = text_table(s0, symbols.shapes@);
    let ghost d0 = diag@;
    let ghost t0 = type_defs(arenas.types);
    let ghost h0 = shape_defs(arenas.shapes);
    proof {
        assert(d0.skip(d0.len() as int) =~= Seq::<Diagnostic>::empty());
        assert(updates_unresolved(Seq::empty(), tt, et) =~= Seq::empty());
        assert forall|k: int| 0 <= k < d0.len() implies #[trigger] d0[k] == d0[k] by {}
        assert forall|k: int| 0 <= k < s0.len() implies #[trigger] s0[k] == s0[k] by {}
        lemma_types_filled_none(s0, t0, tt, et);
        lemma_types_only_shapes(s0, h0, Seq::empty(), tt, et);
    }
    let root = match Root::cast(file.root.clone()) {
        Some(r) => r,
        None => {
            return;
        },
    };
    file.root.check_ok();
    let ghost rn = file.root;
    let _file_sym = interner.intern(file.file_name.as_str());
    let ghost s1 = interned(*interner);
    let imports = collect_imports(&root);
    let decls = root.type_decls();
    let ghost ds = child_nodes(rn, SyntaxKind::TypeDecl);
    proof {
        lemma_text_table_grow(s0, s1, symbols.types@);
        lemma_text_table_grow(s0, s1, symbols.enums@);
        lemma_text_table_grow(s0, s1, symbols.shapes@);
        lemma_children_nodes(rn, decls@, SyntaxKind::TypeDecl);
        lemma_child_nodes_below(rn, SyntaxKind::TypeDecl);
        assert(ds.take(0) =~= Seq::<SyntaxNode>::empty());
        lemma_types_filled_none(s1, t0, tt, et);
        assert(imports@ == file_imports(*file));
    }
    let mut i: usize = 0;
    while i < decls.len()
        invariant
            ds == child_nodes(rn, SyntaxKind::TypeDecl),
            rn == file.root,
            decls@.len() == ds.len(),
            forall|k: int| 0 <= k < ds.len() ==> (#[trigger] decls@[k]).node() == ds[k],
            forall|k: int| 0 <= k < ds.len() ==> node_ok(#[trigger] ds[k]),
            i <= ds.len(),
            imports@ == file_imports(*file),
            rn.spec_kind() == SyntaxKind::Root,
            s1.len() <= s0.len() + 1,
            s0.len() + file_room(*file, tt, st) < u32::MAX,
            keys_below(symbols.types@, s0.len()),
            keys_below(symbols.enums@, s0.len()),
            keys_below(symbols.shapes@, s0.len()),
            tt == text_table(s0, symbols.types@),
            et == text_table(s0, symbols.enums@),
            st == text_table(s0, symbols.shapes@),
            type_defs(arenas.types).len() == t0.len(),
            forall|k: Sym| #[trigger] symbols.types@.contains_key(k) ==> symbols.types@[k] < t0.len(),
            grows(s0, interned(*interner)),
            distinct(interned(*interner)),
            interned(*interner).len() <= s1.len() + decls_room(ds.take(i as int), file.package@, tt),
            updates_ok(decls_updates(ds.take(i as int), *file, tt)),
            types_only(decls_updates(ds.take(i as int), *file, tt)),
            types_filled(interned(*interner), t0, type_defs(arenas.types), decls_updates(ds.take(i as int), *file, tt), tt, et),
            arenas.shapes == old(arenas).shapes,
            arenas.enums == old(arenas).enums,
            arenas.services == old(arenas).services,
            arenas.annotation_defs == old(arenas).annotation_defs,
            grows(d0, diag@),
            reported_in_files(diag@.skip(d0.len() as int), updates_unresolved(decls_updates(ds.take(i as int), *file, tt), tt, et)),
        decreases decls.len() - i,
    {
        let ghost sa = interned(*interner);
        let ghost da = diag@;
        let ghost ta = type_defs(arenas.types);
        let ghost prev = decls_updates(ds.take(i as int), *file, tt);
        proof {
            lemma_decls_step(ds, i as int, *file, tt);
            lemma_text_table_grow(s0, sa, symbols.types@);
            lemma_text_table_grow(s0, sa, symbols.enums@);
            assert(decls@[i as int].node() == ds[i as int]);
        }
        fill_type(&decls[i], file, &imports, interner, arenas, symbols, diag);
        proof {
            let u = decl_updates(ds[i as int], *file, tt);
            lemma_types_filled_trans(sa, interned(*interner), t0, ta, type_defs(arenas.types), prev, u, tt, et);
            lemma_files_append(d0, da, diag@, updates_unresolved(prev, tt, et), updates_unresolved(u, tt, et));
            lemma_unresolved_concat(prev, u, tt, et);
            lemma_updates_ok_append(prev, u);
            lemma_decl_types_only(ds[i as int], *file, tt);
            lemma_types_only_append(prev, u);
            lemma_grows_trans(s0, sa, interned(*interner));
        }
        i += 1;
    }
    let ghost s2 = interned(*interner);
    let ghost d2 = diag@;
    let ghost t2 = type_defs(arenas.types);
    let ghost tu = decls_updates(ds, *file, tt);
    let shapes = root.shape_decls();
    let ghost hs = child_nodes(rn, SyntaxKind::ShapeDecl);
    proof {
        assert(ds.take(ds.len() as int) =~= ds);
        lemma_children_nodes(rn, shapes@, SyntaxKind::ShapeDecl);
        lemma_child_nodes_below(rn, SyntaxKind::ShapeDecl);
        assert(hs.take(0) =~= Seq::<SyntaxNode>::empty());
        assert(d2.skip(d2.len() as int) =~= Seq::<Diagnostic>::empty());
        assert forall|t: int| 0 <= t < h0.len() implies shape_filled(s2, h0[t], #[trigger] h0[t], Seq::empty(), t, tt, et) by {}
        assert forall|k: int| 0 <= k < d2.len() implies #[trigger] d2[k] == d2[k] by {}
    }
    let mut j: usize = 0;
    while j < shapes.len()
        invariant
            hs == child_nodes(rn, SyntaxKind::ShapeDecl),
            ds == child_nodes(rn, SyntaxKind::TypeDecl),
            rn == file.root,
            shapes@.len() == hs.len(),
            forall|k: int| 0 <= k < hs.len() ==> (#[trigger] shapes@[k]).node() == hs[k],
            forall|k: int| 0 <= k < hs.len() ==> node_ok(#[trigger] hs[k]),
            j <= hs.len(),
            imports@ == file_imports(*file),
            s0.len() + file_room(*file, tt, st) < u32::MAX,
            rn.spec_kind() == SyntaxKind::Root,
            s2.len() <= s0.len() + 1 + decls_room(ds, file.package@, tt),
            keys_below(symbols.types@, s0.len()),
            keys_below(symbols.enums@, s0.len()),
            keys_below(symbols.shapes@, s0.len()),
            tt == text_table(s0, symbols.types@),
            et == text_table(s0, symbols.enums@),
            st == text_table(s0, symbols.shapes@),
            shape_defs(arenas.shapes).len() == h0.len(),
            forall|k: Sym| #[trigger] symbols.shapes@.contains_key(k) ==> symbols.shapes@[k] < h0.len(),
            grows(s0, s2),
            grows(s2, interned(*interner)),
            distinct(interned(*interner)),
            interned(*interner).len() <= s2.len() + shape_decls_room(hs.take(j as int), file.package@, st),
            updates_ok(shapes_updates(hs.take(j as int), *file, st)),
            shapes_only(shapes_updates(hs.take(j as int), *file, st)),
            shapes_filled(interned(*interner), h0, shape_defs(arenas.shapes), shapes_updates(hs.take(j as int), *file, st), tt, et),
            type_defs(arenas.types) == t2,
            arenas.enums == old(arenas).enums,
            arenas.services == old(arenas).services,
            arenas.annotation_defs == old(arenas).annotation_defs,
            grows(d2, diag@),
            reported_in_files(diag@.skip(d2.len() as int), updates_unresolved(shapes_updates(hs.take(j as int), *file, st), tt, et)),
        decreases shapes.len() - j,
    {
        let ghost sa = interned(*interner);
        let ghost da = diag@;
        let ghost ha = shape_defs(arenas.shapes);
        let ghost prev = shapes_updates(hs.take(j as int), *file, st);
        proof {
            lemma_shape_decls_step(hs, j as int, *file, st);
            assert(file_room(*file, tt, st) == 1 + decls_room(ds, file.package@, tt) + shape_decls_room(hs, file.package@, st));
            lemma_grows_trans(s0, s2, sa);
            lemma_text_table_grow(s0, sa, symbols.types@);
            lemma_text_table_grow(s0, sa, symbols.enums@);
            lemma_text_table_grow(s0, sa, symbols.shapes@);
            assert(shapes@[j as int].node() == hs[j as int]);
        }
        fill_shape(&shapes[j], file, &imports, interner, arenas, symbols, diag);
        proof {
            let u = shape_update(hs[j as int], *file, st);
            lemma_shapes_filled_trans(sa, interned(*interner), h0, ha, shape_defs(arenas.shapes), prev, u, tt, et);
            lemma_files_append(d2, da, diag@, updates_unresolved(prev, tt, et), updates_unresolved(u, tt, et));
            lemma_unresolved_concat(prev, u, tt, et);
            lemma_updates_ok_append(prev, u);
            assert(shapes_only(u)) by {
                assert forall|k: int| 0 <= k < u.len() implies ((#[trigger] u[k]).0 is ShapeFields) by {
                    assert(u[k] == u[0]);
                }
            }
            lemma_shapes_only_append(prev, u);
            lemma_grows_trans(s2, sa, interned(*interner));
        }
        j += 1;
    }
    proof {
        let su = shapes_updates(hs, *file, st);
        let s3 = interned(*interner);
        assert(hs.take(hs.len() as int) =~= hs);
        assert(file_updates(*file, tt, st) == tu + su);
        lemma_grows_trans(s0, s2, s3);
        lemma_shapes_only_types(s3, t2, su, tt, et);
        lemma_types_filled_trans(s2, s3, t0, t2, t2, tu, su, tt, et);
        lemma_types_only_shapes(s2, h0, tu, tt, et);
        lemma_shapes_filled_trans(s2, s3, h0, h0, shape_defs(arenas.shapes), tu, su, tt, et);
        lemma_files_append(d0, d2, diag@, updates_unresolved(tu, tt, et), updates_unresolved(su, tt, et));
        lemma_unresolved_concat(tu, su, tt, et);
        lemma_updates_ok_append(tu, su);
    }
}

proof fn lemma_files_step(fs: Seq<ParsedFile>, i: int, tt: Map<Seq<char>, u32>, st: Map<Seq<char>, u32>)
    requires
        0 <= i < fs.len(),
    ensures
        files_updates(fs.take(i + 1), tt, st) == files_updates(fs.take(i), tt, st) + file_updates(fs[i], tt, st),
        files_room(fs.take(i + 1), tt, st) == files_room(fs.take(i), tt, st) + file_room(fs[i], tt, st),
        files_room(fs.take(i + 1), tt, st) <= files_room(fs, tt, st),
    decreases fs.len(),
{
    assert(fs.take(i + 1).drop_last() =~= fs.take(i));
    if i + 1 < fs.len() {
        lemma_files_step(fs.drop_last(), i, tt, st);
        assert(fs.drop_last().take(i + 1) =~= fs.take(i + 1));
        assert(fs.drop_last().take(i) =~= fs.take(i));
    } else {
        assert(fs.take(i + 1) =~= fs);
    }
}

/// Populate the definitions that the index pass created, file by file:
/// each type declaration whose full name is a type gives that type its
/// annotations, and each of its bodies, and the bodies of its nested types
/// whose full names are types, give those types their fields (with types
/// resolved) and oneofs; each shape declaration whose full name is a shape
/// gives that shape its fields. Where several declarations write to one
/// definition, the last one stands; definitions that none writes, and all
/// else, stay as they were. Each unresolved type name is reported, in order.
pub fn populate_and_resolve(
    files: &[ParsedFile],
    interner: &mut Interner,
    arenas: &mut Arenas,
    symbols: &SymbolTable,
    diag: &mut Diagnostics,
)
    requires
        distinct(interned(*old(interner))),
        keys_below(symbols.types@, interned(*old(interner)).len()),
        keys_below(symbols.enums@, interned(*old(interner)).len()),
        keys_below(symbols.shapes@, interned(*old(interner)).len()),
        forall|k: Sym| #[trigger] symbols.types@.contains_key(k) ==> symbols.types@[k] < type_defs(old(arenas).types).len(),
        forall|k: Sym| #[trigger] symbols.shapes@.contains_key(k) ==> symbols.shapes@[k] < shape_defs(old(arenas).shapes).len(),
        interned(*old(interner)).len() + files_room(
            files@,
            text_table(interned(*old(interner)), symbols.types@),
            text_table(interned(*old(interner)), symbols.shapes@),
        ) < u32::MAX,
    ensures
        grows(interned(*old(interner)), interned(*final(interner))),
        distinct(interned(*final(interner))),
        interned(*final(interner)).len() <= interned(*old(interner)).len() + files_room(
            files@,
            text_table(interned(*old(interner)), symbols.types@),
            text_table(interned(*old(interner)), symbols.shapes@),
        ),
        ({
            let tt = text_table(interned(*old(interner)), symbols.types@);
            let et = text_table(interned(*old(interner)), symbols.enums@);
            let us = files_updates(files@, tt, text_table(interned(*old(interner)), symbols.shapes@));
            &&& types_filled(interned(*final(interner)), type_defs(old(arenas).types), type_defs(final(arenas).types), us, tt, et)
            &&& shapes_filled(interned(*final(interner)), shape_defs(old(arenas).shapes), shape_defs(final(arenas).shapes), us, tt, et)
            &&& reported_in_files(final(diag)@.skip(old(diag)@.len() as int), updates_unresolved(us, tt, et))
        }),
        final(arenas).enums == old(arenas).enums,
        final(arenas).services == old(arenas).services,
        final(arenas).annotation_defs == old(arenas).annotation_defs,
        grows(old(diag)@, final(diag)@),
{
    let ghost s0 = interned(*interner);
    let ghost tt = text_table(s0, symbols.types@);
    let ghost et = text_table(s0, symbols.enums@);
    let ghost st = text_table(s0, symbols.shapes@);
    let ghost d0 = diag@;
    let ghost t0 = type_defs(arenas.types);
    let ghost h0 = shape_defs(arenas.shapes);
    let ghost fs = files@;
    proof {
        assert(d0.skip(d0.len() as int) =~= Seq::<Diagnostic>::empty());
        assert(updates_unresolved(Seq::empty(), tt, et) =~= Seq::empty());
        assert forall|k: int| 0 <= k < d0.len() implies #[trigger] d0[k] == d0[k] by {}
        assert forall|k: int| 0 <= k < s0.len() implies #[trigger] s0[k] == s0[k] by {}
        assert(fs.take(0) =~= Seq::<ParsedFile>::empty());
        lemma_types_filled_none(s0, t0, tt, et);
        lemma_types_only_shapes(s0, h0, Seq::empty(), tt, et);
    }
    let mut i: usize = 0;
    while i < files.len()
        invariant
            fs == files@,
            i <= fs.len(),
            s0.len() + files_room(fs, tt, st) < u32::MAX,
            keys_below(symbols.types@, s0.len()),
            keys_below(symbols.enums@, s0.len()),
            keys_below(symbols.shapes@, s0.len()),
            tt == text_table(s0, symbols.types@),
            et == text_table(s0, symbols.enums@),
            st == text_table(s0, symbols.shapes@),
            type_defs(arenas.types).len() == t0.len(),
            shape_defs(arenas.shapes).len() == h0.len(),
            forall|k: Sym| #[trigger] symbols.types@.contains_key(k) ==> symbols.types@[k] < t0.len(),
            forall|k: Sym| #[trigger] symbols.shapes@.contains_key(k) ==> symbols.shapes@[k] < h0.len(),
            grows(s0, interned(*interner)),
            distinct(interned(*interner)),
            interned(*interner).len() <= s0.len() + files_room(fs.take(i as int), tt, st),
            updates_ok(files_updates(fs.take(i as int), tt, st)),
            types_filled(interned(*interner), t0, type_defs(arenas.types), files_updates(fs.take(i as int), tt, st), tt, et),
            shapes_filled(interned(*interner), h0, shape_defs(arenas.shapes), files_updates(fs.take(i as int), tt, st), tt, et),
            arenas.enums == old(arenas).enums,
            arenas.services == old(arenas).services,
            arenas.annotation_defs == old(arenas).annotation_defs,
            grows(d0, diag@),
            reported_in_files(diag@.skip(d0.len() as int), updates_unresolved(files_updates(fs.take(i as int), tt, st), tt, et)),
        decreases files.len() - i,
    {
        let ghost sa = interned(*interner);
        let ghost da = diag@;
        let ghost ta = type_defs(arenas.types);
        let ghost ha = shape_defs(arenas.shapes);
        let ghost prev = files_updates(fs.take(i as int), tt, st);
        proof {
            lemma_files_step(fs, i as int, tt, st);
            lemma_text_table_grow(s0, sa, symbols.types@);
            lemma_text_table_grow(s0, sa, symbols.enums@);
            lemma_text_table_grow(s0, sa, symbols.shapes@);
        }
        fill_file(&files[i], interner, arenas, symbols, diag);
        proof {
            let u = file_updates(fs[i as int], tt, st);
            lemma_types_filled_trans(sa, interned(*interner), t0, ta, type_defs(arenas.types), prev, u, tt, et);
            lemma_shapes_filled_trans(sa, interned(*interner), h0, ha, shape_defs(arenas.shapes), prev, u, tt, et);
            lemma_files_append(d0, da, diag@, updates_unresolved(prev, tt, et), updates_unresolved(u, tt, et));
            lemma_unresolved_concat(prev, u, tt, et);
            lemma_updates_ok_append(prev, u);
            lemma_grows_trans(s0, sa, interned(*interner));
        }
        i += 1;
    }
    proof {
        assert(fs.take(fs.len() as int) =~= fs);
    }
}

} // verus!
