//! `Pick<T, a, b>` and `Omit<T, a, b>` aliases: a type declared as one
//! gets the fields of its source type that the names keep, in the source's
//! order, and a trace of where they came from.

use vstd::prelude::*;
use crate::ast::{AstNode, IdentList, OmitType, PickType, Root, TypeDecl, TypeRef, first_child_is, texts_are, tokens_are};
use crate::diagnostics::Diagnostics;
use crate::hir::{
    Arenas, FieldDef, FieldMapping, FieldTrace, Interner, LiteralValue, MappingLink, ShapeOrigin, Sym, SymbolTable,
    TypeDef, TypeId, TypeTrace, arena_lens, interned, type_def_at, type_def_mut, type_defs, shape_defs, distinct,
    names,
};
use crate::index::{
    ParsedFile, child_nodes, first_child, grows, keys_below, lemma_children_nodes, lemma_first_child, lemma_name_token,
    name_bytes, name_text, qualified, selected_texts,
};
use crate::shapes::{
    call_same, calls_same, copy_calls, depth_ok, errors_reported, expand_errors, expanded, lemma_errors_append, lit_same,
    named_shape, shapes_interned,
};
use crate::syntax_kind::SyntaxKind;
use crate::tree::{SyntaxNode, SyntaxToken, TokenSelect, node_ok, text_of};
use crate::resolve::{lemma_index_of, lemma_lookup, lemma_text_table_grow, text_table};

verus! {

// ── Copies of fields ───────────────────────────────────────────────────

proof fn lemma_lit_refl(a: LiteralValue)
    ensures
        lit_same(a, a),
    decreases a,
{
    match a {
        LiteralValue::Struct(xs) => {
            assert forall|i: int| 0 <= i < xs@.len() implies xs@[i].0 == xs@[i].0 && lit_same(xs@[i].1, xs@[i].1) by {
                vstd::std_specs::vec::axiom_vec_index_decreases(xs, i);
                lemma_lit_refl(xs@[i].1);
            }
        },
        LiteralValue::List(xs) => {
            assert forall|i: int| 0 <= i < xs@.len() implies lit_same(xs@[i], xs@[i]) by {
                vstd::std_specs::vec::axiom_vec_index_decreases(xs, i);
                lemma_lit_refl(xs@[i]);
            }
        },
        _ => {},
    }
}

proof fn lemma_lit_trans(a: LiteralValue, b: LiteralValue, c: LiteralValue)
    requires
        lit_same(a, b),
        lit_same(b, c),
    ensures
        lit_same(a, c),
    decreases a,
{
    match (a, b, c) {
        (LiteralValue::Struct(xs), LiteralValue::Struct(ys), LiteralValue::Struct(zs)) => {
            assert forall|i: int| 0 <= i < xs@.len() implies xs@[i].0 == zs@[i].0 && lit_same(xs@[i].1, zs@[i].1) by {
                vstd::std_specs::vec::axiom_vec_index_decreases(xs, i);
                lemma_lit_trans(xs@[i].1, ys@[i].1, zs@[i].1);
            }
        },
        (LiteralValue::List(xs), LiteralValue::List(ys), LiteralValue::List(zs)) => {
            assert forall|i: int| 0 <= i < xs@.len() implies lit_same(xs@[i], zs@[i]) by {
                vstd::std_specs::vec::axiom_vec_index_decreases(xs, i);
                lemma_lit_trans(xs@[i], ys@[i], zs@[i]);
            }
        },
        _ => {},
    }
}

proof fn lemma_calls_refl(a: Seq<crate::hir::AnnotationCall>)
    ensures
        calls_same(a, a),
{
    assert forall|i: int| 0 <= i < a.len() implies call_same(a[i], #[trigger] a[i]) by {
        assert forall|k: int| 0 <= k < a[i].arguments@.len() implies lit_same(a[i].arguments@[k].value, a[i].arguments@[k].value) by {
            lemma_lit_refl(a[i].arguments@[k].value);
        }
    }
}

proof fn lemma_calls_trans(a: Seq<crate::hir::AnnotationCall>, b: Seq<crate::hir::AnnotationCall>, c: Seq<crate::hir::AnnotationCall>)
    requires
        calls_same(a, b),
        calls_same(b, c),
    ensures
        calls_same(a, c),
{
    assert forall|i: int| 0 <= i < a.len() implies call_same(a[i], #[trigger] c[i]) by {
        assert(call_same(a[i], b[i]));
        assert(call_same(b[i], c[i]));
        assert forall|k: int| 0 <= k < a[i].arguments@.len() implies (#[trigger] c[i].arguments@[k]).name == a[i].arguments@[k].name
            && lit_same(a[i].arguments@[k].value, c[i].arguments@[k].value) by {
            assert(b[i].arguments@[k].name == a[i].arguments@[k].name);
            lemma_lit_trans(a[i].arguments@[k].value, b[i].arguments@[k].value, c[i].arguments@[k].value);
        }
    }
}

/// `b` is a copy of the mapping `a`: the same links.
pub open spec fn mapping_copy(a: Option<FieldMapping>, b: Option<FieldMapping>) -> bool {
    match (a, b) {
        (None, None) => true,
        (Some(x), Some(y)) => {
            &&& y.chain@.len() == x.chain@.len()
            &&& forall|i: int|
                0 <= i < x.chain@.len() ==> {
                    &&& (#[trigger] y.chain@[i]).source_type == x.chain@[i].source_type
                    &&& y.chain@[i].source_field_name == x.chain@[i].source_field_name
                    &&& y.chain@[i].path@ == x.chain@[i].path@
                }
        },
        _ => false,
    }
}

/// `g` is a copy of the field `f`.
pub open spec fn field_copy(f: FieldDef, g: FieldDef) -> bool {
    &&& g.name == f.name
    &&& g.number == f.number
    &&& g.ty == f.ty
    &&& g.is_optional == f.is_optional
    &&& g.is_repeated == f.is_repeated
    &&& calls_same(f.annotations@, g.annotations@)
    &&& mapping_copy(f.mapping, g.mapping)
    &&& g.trace == f.trace
    &&& g.loc == f.loc
}

proof fn lemma_field_copy_refl(f: FieldDef)
    ensures
        field_copy(f, f),
{
    lemma_calls_refl(f.annotations@);
}

proof fn lemma_field_copy_trans(f: FieldDef, g: FieldDef, h: FieldDef)
    requires
        field_copy(f, g),
        field_copy(g, h),
    ensures
        field_copy(f, h),
{
    lemma_calls_trans(f.annotations@, g.annotations@, h.annotations@);
    if let (Some(x), Some(y), Some(z)) = (f.mapping, g.mapping, h.mapping) {
        assert forall|i: int| 0 <= i < x.chain@.len() implies {
            &&& (#[trigger] z.chain@[i]).source_type == x.chain@[i].source_type
            &&& z.chain@[i].source_field_name == x.chain@[i].source_field_name
            &&& z.chain@[i].path@ == x.chain@[i].path@
        } by {
            assert(y.chain@[i].source_type == x.chain@[i].source_type);
        }
    }
}

fn copy_syms(v: &Vec<Sym>) -> (r: Vec<Sym>)
    ensures
        r@ == v@,
{
    let mut out: Vec<Sym> = Vec::new();
    let mut i: usize = 0;
    while i < v.len()
        invariant
            i <= v@.len(),
            out@ == v@.take(i as int),
        decreases v.len() - i,
    {
        out.push(v[i]);
        proof {
            assert(v@.take(i + 1) =~= v@.take(i as int).push(v@[i as int]));
        }
        i += 1;
    }
    proof {
        assert(v@.take(v@.len() as int) =~= v@);
    }
    out
}

fn copy_mapping(m: &Option<FieldMapping>) -> (r: Option<FieldMapping>)
    ensures
        mapping_copy(*m, r),
{
    match m {
        None => None,
        Some(fm) => {
            let mut chain: Vec<MappingLink> = Vec::new();
            let mut i: usize = 0;
            while i < fm.chain.len()
                invariant
                    i <= fm.chain@.len(),
                    chain@.len() == i,
                    forall|k: int|
                        0 <= k < i ==> {
                            &&& (#[trigger] chain@[k]).source_type == fm.chain@[k].source_type
                            &&& chain@[k].source_field_name == fm.chain@[k].source_field_name
                            &&& chain@[k].path@ == fm.chain@[k].path@
                        },
                decreases fm.chain.len() - i,
            {
                let l = &fm.chain[i];
                chain.push(MappingLink { source_type: l.source_type, source_field_name: l.source_field_name, path: copy_syms(&l.path) });
                i += 1;
            }
            Some(FieldMapping { chain })
        },
    }
}

/// A copy of a field.
fn copy_field(f: &FieldDef) -> (g: FieldDef)
    ensures
        field_copy(*f, g),
{
    let trace = match &f.trace {
        None => None,
        Some(t) => Some(
            FieldTrace {
                shape: match &t.shape {
                    None => None,
                    Some(o) => Some(
                        ShapeOrigin {
                            shape_name: o.shape_name,
                            shape_id: o.shape_id,
                            range_start: o.range_start,
                            range_end: o.range_end,
                        },
                    ),
                },
            },
        ),
    };
    FieldDef {
        name: f.name,
        number: f.number,
        ty: f.ty.clone(),
        is_optional: f.is_optional,
        is_repeated: f.is_repeated,
        annotations: copy_calls(&f.annotations),
        mapping: copy_mapping(&f.mapping),
        trace,
        loc: f.loc.clone(),
    }
}


// ── What the pass does ─────────────────────────────────────────────────

/// The type declarations of the files with a root, each with its file's package.
pub open spec fn po_decls(fs: Seq<ParsedFile>) -> Seq<(SyntaxNode, Seq<char>)>
    decreases fs.len(),
{
    if fs.len() == 0 {
        Seq::empty()
    } else {
        po_decls(fs.drop_last()) + if fs.last().root.spec_kind() == SyntaxKind::Root {
            child_nodes(fs.last().root, SyntaxKind::TypeDecl).map_values(|d: SyntaxNode| (d, fs.last().package@))
        } else {
            Seq::empty()
        }
    }
}

/// The type whose full name is `text`, if any.
pub open spec fn lookup(tt: Map<Seq<char>, u32>, text: Seq<char>) -> Option<u32> {
    if tt.contains_key(text) {
        Some(tt[text])
    } else {
        None
    }
}

/// The text of the last segment of the source type of Pick/Omit node `x`.
pub open spec fn source_name(x: SyntaxNode) -> Option<Seq<char>> {
    match first_child(x, SyntaxKind::TypeRef) {
        Some(tr) => match first_child(tr, SyntaxKind::QualifiedName) {
            Some(qn) => {
                let segs = selected_texts(qn, TokenSelect::Kind(SyntaxKind::Ident));
                if segs.len() > 0 {
                    Some(segs.last())
                } else {
                    None
                }
            },
            None => None,
        },
        None => None,
    }
}

/// The source type of Pick/Omit node `x` of package `pkg`: the type of
/// that package named by the last segment.
pub open spec fn source_of(x: SyntaxNode, pkg: Seq<char>, tt: Map<Seq<char>, u32>) -> Option<u32> {
    match source_name(x) {
        Some(n) => lookup(tt, qualified(pkg, n)),
        None => None,
    }
}

/// The names that Pick/Omit node `x` lists.
pub open spec fn list_names(x: SyntaxNode) -> Seq<Seq<char>> {
    match first_child(x, SyntaxKind::IdentList) {
        Some(l) => selected_texts(l, TokenSelect::Kind(SyntaxKind::Ident)),
        None => Seq::empty(),
    }
}

/// The fields of `fs` whose names are among `ns` (`pick`) or are not
/// (`!pick`), in order.
pub open spec fn keep(fs: Seq<FieldDef>, strs: Seq<Seq<char>>, ns: Seq<Seq<char>>, pick: bool) -> Seq<FieldDef>
    decreases fs.len(),
{
    if fs.len() == 0 {
        Seq::empty()
    } else {
        keep(fs.drop_last(), strs, ns, pick) + if ns.contains(strs[fs.last().name as int]) == pick {
            seq![fs.last()]
        } else {
            Seq::empty()
        }
    }
}

/// What the pass reads besides the declarations: the types by full name,
/// the shapes, the interned strings, the shapes by full name, the fuel.
pub type PoCtx = (Map<Seq<char>, u32>, Seq<crate::hir::ShapeDef>, Seq<Seq<char>>, Map<Seq<char>, u32>, nat);

/// The names of the fields of the shape fields `refs`.
pub open spec fn ref_names(shapes: Seq<crate::hir::ShapeDef>, strs: Seq<Seq<char>>, refs: Seq<(u32, usize)>) -> Seq<Seq<char>> {
    refs.map_values(|r: (u32, usize)| strs[shapes[r.0 as int].fields@[r.1 as int].name as int])
}

/// The names that an Omit list `ns` of package `pkg` leaves out: a name
/// that names a shape stands for its fields' names, includes first; any
/// other stands for itself.
pub open spec fn omit_names(ns: Seq<Seq<char>>, pkg: Seq<char>, c: PoCtx) -> Seq<Seq<char>>
    decreases ns.len(),
{
    if ns.len() == 0 {
        Seq::empty()
    } else {
        omit_names(ns.drop_last(), pkg, c) + match named_shape(c.1, c.2, c.3, ns.last(), pkg) {
            Some(sid) => ref_names(c.1, c.2, expanded(c.1, c.2, c.3, sid as u32, c.4)),
            None => seq![ns.last()],
        }
    }
}

/// The errors of expanding the shapes that the Omit list `ns` names.
pub open spec fn omit_errors(ns: Seq<Seq<char>>, pkg: Seq<char>, c: PoCtx) -> Seq<Seq<char>>
    decreases ns.len(),
{
    if ns.len() == 0 {
        Seq::empty()
    } else {
        omit_errors(ns.drop_last(), pkg, c) + match named_shape(c.1, c.2, c.3, ns.last(), pkg) {
            Some(sid) => expand_errors(c.1, c.2, c.3, sid as u32, c.4),
            None => Seq::empty(),
        }
    }
}

/// A trace as plain values: kind, source type, names.
pub type TraceV = (Seq<char>, u32, Seq<Seq<char>>);

/// The fields of each type and, for those written, their trace.
pub type PoState = (Seq<Seq<FieldDef>>, Seq<Option<TraceV>>);

/// The type that declaration `d` of package `pkg` declares, if it is named
/// and known.
pub open spec fn decl_target(d: SyntaxNode, pkg: Seq<char>, tt: Map<Seq<char>, u32>) -> Option<u32> {
    if name_bytes(d) is Some {
        lookup(tt, qualified(pkg, name_text(d)))
    } else {
        None
    }
}

/// The Pick step: where the alias is a Pick with a known source, the
/// target gets the source's fields whose names it lists.
pub open spec fn pick_step(s: PoState, t: u32, al: SyntaxNode, pkg: Seq<char>, c: PoCtx) -> PoState {
    match first_child(al, SyntaxKind::PickType) {
        Some(pk) => match source_of(pk, pkg, c.0) {
            Some(src) => (
                s.0.update(t as int, keep(s.0[src as int], c.2, list_names(pk), true)),
                s.1.update(t as int, Some(("Pick"@, src, list_names(pk)))),
            ),
            None => s,
        },
        None => s,
    }
}

/// The Omit step: where the alias is an Omit with a known source, the
/// target gets the source's fields whose names it does not leave out.
pub open spec fn omit_step(s: PoState, t: u32, al: SyntaxNode, pkg: Seq<char>, c: PoCtx) -> (PoState, Seq<Seq<char>>) {
    match first_child(al, SyntaxKind::OmitType) {
        Some(om) => match source_of(om, pkg, c.0) {
            Some(src) => {
                let ns = omit_names(list_names(om), pkg, c);
                (
                    (
                        s.0.update(t as int, keep(s.0[src as int], c.2, ns, false)),
                        s.1.update(t as int, Some(("Omit"@, src, ns))),
                    ),
                    omit_errors(list_names(om), pkg, c),
                )
            },
            None => (s, Seq::empty()),
        },
        None => (s, Seq::empty()),
    }
}

/// One declaration: its Pick, then its Omit.
pub open spec fn po_step(s: PoState, d: SyntaxNode, pkg: Seq<char>, c: PoCtx) -> (PoState, Seq<Seq<char>>) {
    match decl_target(d, pkg, c.0) {
        Some(t) => match first_child(d, SyntaxKind::TypeAlias) {
            Some(al) => omit_step(pick_step(s, t, al, pkg, c), t, al, pkg, c),
            None => (s, Seq::empty()),
        },
        None => (s, Seq::empty()),
    }
}

/// The declarations `ds` in order, from state `s`: the state they leave and
/// the errors they report.
pub open spec fn po_run(s: PoState, ds: Seq<(SyntaxNode, Seq<char>)>, c: PoCtx) -> (PoState, Seq<Seq<char>>)
    decreases ds.len(),
{
    if ds.len() == 0 {
        (s, Seq::empty())
    } else {
        let r = po_run(s, ds.drop_last(), c);
        let x = po_step(r.0, ds.last().0, ds.last().1, c);
        (x.0, r.1 + x.1)
    }
}

/// The state before the pass: each type's own fields, no trace written.
pub open spec fn po_start(a: Seq<TypeDef>) -> PoState {
    (a.map_values(|t: TypeDef| t.fields@), Seq::new(a.len(), |i: int| None::<TraceV>))
}

/// Exec fields `es` are copies of the fields `fs`, in order.
pub open spec fn fields_like(fs: Seq<FieldDef>, es: Seq<FieldDef>) -> bool {
    &&& es.len() == fs.len()
    &&& forall|i: int| 0 <= i < fs.len() ==> field_copy(fs[i], #[trigger] es[i])
}

/// `tr` is the Pick/Omit trace `tv`, its symbols naming its texts.
pub open spec fn trace_is(strs: Seq<Seq<char>>, tr: Option<TypeTrace>, tv: TraceV) -> bool {
    match tr {
        Some(TypeTrace::PickOmit { kind, source_type, field_names }) => {
            &&& names(strs, kind, tv.0)
            &&& source_type == tv.1
            &&& field_names@.len() == tv.2.len()
            &&& forall|i: int| 0 <= i < tv.2.len() ==> names(strs, #[trigger] field_names@[i], tv.2[i])
        },
        _ => false,
    }
}

/// The types `b` hold state `s` over the types `a` they started as.
pub open spec fn holds(a: Seq<TypeDef>, b: Seq<TypeDef>, s: PoState, strs: Seq<Seq<char>>) -> bool {
    &&& b.len() == a.len()
    &&& s.0.len() == a.len()
    &&& s.1.len() == a.len()
    &&& forall|t: int|
        0 <= t < a.len() ==> {
            &&& #[trigger] b[t] == TypeDef { fields: b[t].fields, trace: b[t].trace, ..a[t] }
            &&& fields_like(s.0[t], b[t].fields@)
            &&& match s.1[t] {
                None => b[t].trace == a[t].trace,
                Some(tv) => trace_is(strs, b[t].trace, tv),
            }
        }
}


// ── Reading the declarations ───────────────────────────────────────────

/// The views of strings.
pub open spec fn views(v: Seq<String>) -> Seq<Seq<char>> {
    v.map_values(|x: String| x@)
}

/// The texts of the tokens.
fn token_strings(toks: &Vec<SyntaxToken>) -> (r: Vec<String>)
    ensures
        r@.len() == toks@.len(),
        forall|i: int| 0 <= i < toks@.len() ==> (#[trigger] r@[i])@ == text_of(toks@[i].bytes()),
{
    let mut out: Vec<String> = Vec::new();
    let mut i: usize = 0;
    while i < toks.len()
        invariant
            i <= toks@.len(),
            out@.len() == i,
            forall|k: int| 0 <= k < i ==> (#[trigger] out@[k])@ == text_of(toks@[k].bytes()),
        decreases toks.len() - i,
    {
        out.push(toks[i].text());
        i += 1;
    }
    out
}

/// The names an identifier list holds, where there is one.
fn list_of(il: Option<IdentList>, Ghost(x): Ghost<SyntaxNode>) -> (r: Vec<String>)
    requires
        first_child_is(x, il, SyntaxKind::IdentList),
    ensures
        views(r@) == list_names(x),
{
    proof {
        lemma_first_child(x, il, SyntaxKind::IdentList);
    }
    match il {
        Some(l) => {
            let toks = l.names();
            proof {
                crate::index::lemma_token_texts(l.node(), toks@, TokenSelect::Kind(SyntaxKind::Ident));
            }
            let r = token_strings(&toks);
            proof {
                assert(views(r@) =~= list_names(x));
            }
            r
        },
        None => {
            let r: Vec<String> = Vec::new();
            proof {
                assert(views(r@) =~= Seq::<Seq<char>>::empty());
            }
            r
        },
    }
}

/// The source type of a Pick/Omit node of package `pkg`.
fn find_source(
    tr: Option<TypeRef>,
    Ghost(x): Ghost<SyntaxNode>,
    pkg: &str,
    interner: &mut Interner,
    symbols: &SymbolTable,
    Ghost(s0): Ghost<Seq<Seq<char>>>,
) -> (r: Option<u32>)
    requires
        first_child_is(x, tr, SyntaxKind::TypeRef),
        grows(s0, interned(*old(interner))),
        distinct(interned(*old(interner))),
        interned(*old(interner)).len() + 1 < u32::MAX,
        keys_below(symbols.types@, s0.len()),
    ensures
        grows(interned(*old(interner)), interned(*final(interner))),
        distinct(interned(*final(interner))),
        interned(*final(interner)).len() <= interned(*old(interner)).len() + if source_name(x) is Some { 1int } else { 0 },
        r == source_of(x, pkg@, text_table(s0, symbols.types@)),
{
    let ghost s1 = interned(*interner);
    proof {
        lemma_first_child(x, tr, SyntaxKind::TypeRef);
        assert forall|k: int| 0 <= k < s1.len() implies #[trigger] s1[k] == s1[k] by {}
    }
    let t = match tr {
        Some(t) => t,
        None => {
            return None;
        },
    };
    let qo = t.qualified_name();
    proof {
        lemma_first_child(t.node(), qo, SyntaxKind::QualifiedName);
    }
    let qn = match qo {
        Some(q) => q,
        None => {
            return None;
        },
    };
    let segs = qn.segments();
    proof {
        assert(views(segs@) =~= selected_texts(qn.node(), TokenSelect::Kind(SyntaxKind::Ident)));
    }
    if segs.len() == 0 {
        return None;
    }
    let last = &segs[segs.len() - 1];
    let full = crate::index::qualify(pkg, last.as_str());
    let sym = interner.intern(full.as_str());
    proof {
        assert(last@ == views(segs@).last());
        lemma_lookup(s0, interned(*interner), symbols.types@, sym, full@);
    }
    match symbols.types.get(&sym) {
        Some(id) => Some(*id),
        None => None,
    }
}

/// The interned symbols of the strings.
fn intern_strings(ns: &Vec<String>, interner: &mut Interner) -> (r: Vec<Sym>)
    requires
        distinct(interned(*old(interner))),
        interned(*old(interner)).len() + ns@.len() < u32::MAX,
    ensures
        grows(interned(*old(interner)), interned(*final(interner))),
        distinct(interned(*final(interner))),
        interned(*final(interner)).len() <= interned(*old(interner)).len() + ns@.len(),
        r@.len() == ns@.len(),
        forall|i: int| 0 <= i < ns@.len() ==> names(interned(*final(interner)), #[trigger] r@[i], ns@[i]@),
{
    let ghost s0 = interned(*interner);
    let mut out: Vec<Sym> = Vec::new();
    let mut i: usize = 0;
    proof {
        assert forall|k: int| 0 <= k < s0.len() implies #[trigger] s0[k] == s0[k] by {}
    }
    while i < ns.len()
        invariant
            i <= ns@.len(),
            s0.len() + ns@.len() < u32::MAX,
            grows(s0, interned(*interner)),
            distinct(interned(*interner)),
            interned(*interner).len() <= s0.len() + i,
            out@.len() == i,
            forall|k: int| 0 <= k < i ==> names(interned(*interner), #[trigger] out@[k], ns@[k]@),
        decreases ns.len() - i,
    {
        let ghost sa = interned(*interner);
        let sym = interner.intern(ns[i].as_str());
        proof {
            let sb = interned(*interner);
            assert forall|k: int| 0 <= k < i implies names(sb, #[trigger] out@[k], ns@[k]@) by {
                assert(sb[out@[k] as int] == sa[out@[k] as int]);
            }
            crate::populate::lemma_grows_trans(s0, sa, sb);
        }
        out.push(sym);
        i += 1;
    }
    out
}

/// Whether `name` is among `ns`.
fn among(ns: &Vec<String>, name: &str) -> (r: bool)
    ensures
        r == views(ns@).contains(name@),
{
    let mut i: usize = 0;
    while i < ns.len()
        invariant
            i <= ns@.len(),
            forall|k: int| 0 <= k < i ==> ns@[k]@ != name@,
        decreases ns.len() - i,
    {
        if crate::tree::same_text(ns[i].as_str(), name) {
            proof {
                assert(views(ns@)[i as int] == name@);
            }
            return true;
        }
        i += 1;
    }
    proof {
        if views(ns@).contains(name@) {
            let k = views(ns@).index_of(name@);
            assert(ns@[k]@ == name@);
        }
    }
    false
}

/// Copies of the fields of type `src` whose names are among `ns` (`pick`)
/// or are not (`!pick`), in order.
fn keep_fields(
    src: u32,
    ns: &Vec<String>,
    pick: bool,
    interner: &Interner,
    arenas: &Arenas,
    Ghost(fs): Ghost<Seq<FieldDef>>,
    Ghost(s0): Ghost<Seq<Seq<char>>>,
) -> (r: Vec<FieldDef>)
    requires
        src < type_defs(arenas.types).len(),
        fields_like(fs, type_defs(arenas.types)[src as int].fields@),
        grows(s0, interned(*interner)),
        forall|i: int| 0 <= i < fs.len() ==> (#[trigger] fs[i]).name < s0.len(),
    ensures
        fields_like(keep(fs, s0, views(ns@), pick), r@),
{
    let def = type_def_at(&arenas.types, src);
    let mut out: Vec<FieldDef> = Vec::new();
    let mut i: usize = 0;
    proof {
        assert(fs.take(0) =~= Seq::<FieldDef>::empty());
    }
    while i < def.fields.len()
        invariant
            fs.len() == def.fields@.len(),
            forall|k: int| 0 <= k < fs.len() ==> field_copy(fs[k], #[trigger] def.fields@[k]),
            forall|k: int| 0 <= k < fs.len() ==> (#[trigger] fs[k]).name < s0.len(),
            grows(s0, interned(*interner)),
            i <= fs.len(),
            fields_like(keep(fs.take(i as int), s0, views(ns@), pick), out@),
        decreases def.fields.len() - i,
    {
        let f = &def.fields[i];
        proof {
            assert(field_copy(fs[i as int], def.fields@[i as int]));
            assert(fs.take(i + 1).drop_last() =~= fs.take(i as int));
            assert(fs.take(i + 1).last() == fs[i as int]);
            assert(interned(*interner)[f.name as int] == s0[f.name as int]);
        }
        let name = interner.resolve(f.name);
        if among(ns, name) == pick {
            let g = copy_field(f);
            proof {
                lemma_field_copy_trans(fs[i as int], *f, g);
            }
            let ghost before = out@;
            out.push(g);
            proof {
                assert forall|k: int| 0 <= k < before.len() implies out@[k] == before[k] by {}
            }
        }
        i += 1;
    }
    proof {
        assert(fs.take(fs.len() as int) =~= fs);
    }
    out
}


/// The names of the fields of the shapes are interned.
pub open spec fn shape_fields_interned(shapes: Seq<crate::hir::ShapeDef>, strs: Seq<Seq<char>>) -> bool {
    forall|k: int, j: int|
        0 <= k < shapes.len() && 0 <= j < shapes[k].fields@.len() ==> (#[trigger] shapes[k].fields@[j]).name < strs.len()
}

/// Every name of `ns` that names a shape from package `pkg` names one
/// that includes no shape that includes it in turn.
pub open spec fn names_sound(ns: Seq<Seq<char>>, pkg: Seq<char>, c: PoCtx) -> bool {
    forall|k: int|
        0 <= k < ns.len() ==> match named_shape(c.1, c.2, c.3, #[trigger] ns[k], pkg) {
            Some(sid) => depth_ok(c.1, c.2, c.3, sid as u32, c.4),
            None => true,
        }
}

/// The names that the Omit list `ns` leaves out, as [`omit_names`] says;
/// the errors of expanding the shapes it names are reported.
fn omit_list(
    ns: &Vec<String>,
    pkg: &str,
    interner: &mut Interner,
    arenas: &Arenas,
    symbols: &SymbolTable,
    diag: &mut Diagnostics,
    Ghost(c): Ghost<PoCtx>,
) -> (r: Vec<String>)
    requires
        c.1 == shape_defs(arenas.shapes),
        c.3 == text_table(c.2, symbols.shapes@),
        grows(c.2, interned(*old(interner))),
        distinct(interned(*old(interner))),
        interned(*old(interner)).len() + ns@.len() < u32::MAX,
        shapes_interned(c.1, c.2),
        shape_fields_interned(c.1, c.2),
        keys_below(symbols.shapes@, c.2.len()),
        forall|k: Sym| #[trigger] symbols.shapes@.contains_key(k) ==> symbols.shapes@[k] < c.1.len(),
        c.1.len() < u32::MAX,
        names_sound(views(ns@), pkg@, c),
    ensures
        grows(interned(*old(interner)), interned(*final(interner))),
        distinct(interned(*final(interner))),
        interned(*final(interner)).len() <= interned(*old(interner)).len() + ns@.len(),
        views(r@) == omit_names(views(ns@), pkg@, c),
        grows(old(diag)@, final(diag)@),
        errors_reported(final(diag)@.skip(old(diag)@.len() as int), omit_errors(views(ns@), pkg@, c)),
{
    let ghost s0 = c.2;
    let ghost shapes = c.1;
    let ghost st = c.3;
    let ghost fuel = c.4;
    let ghost vs = views(ns@);
    let ghost d0 = diag@;
    let ghost i0 = interned(*interner);
    let mut out: Vec<String> = Vec::new();
    proof {
        assert(d0.skip(d0.len() as int) =~= Seq::<crate::diagnostics::Diagnostic>::empty());
        assert forall|k: int| 0 <= k < d0.len() implies #[trigger] d0[k] == d0[k] by {}
        assert forall|k: int| 0 <= k < i0.len() implies #[trigger] i0[k] == i0[k] by {}
        assert(vs.take(0) =~= Seq::<Seq<char>>::empty());
        assert(views(out@) =~= Seq::<Seq<char>>::empty());
    }
    let mut k: usize = 0;
    while k < ns.len()
        invariant
            vs == views(ns@),
            c.1 == shape_defs(arenas.shapes),
            s0 == c.2,
            shapes == c.1,
            st == c.3,
            fuel == c.4,
            st == text_table(s0, symbols.shapes@),
            grows(s0, i0),
            grows(i0, interned(*interner)),
            distinct(interned(*interner)),
            i0.len() + ns@.len() < u32::MAX,
            interned(*interner).len() <= i0.len() + k,
            shapes_interned(shapes, s0),
            shape_fields_interned(shapes, s0),
            keys_below(symbols.shapes@, s0.len()),
            forall|j: Sym| #[trigger] symbols.shapes@.contains_key(j) ==> symbols.shapes@[j] < shapes.len(),
            shapes.len() < u32::MAX,
            names_sound(vs, pkg@, c),
            k <= ns@.len(),
            views(out@) == omit_names(vs.take(k as int), pkg@, c),
            grows(d0, diag@),
            errors_reported(diag@.skip(d0.len() as int), omit_errors(vs.take(k as int), pkg@, c)),
        decreases ns.len() - k,
    {
        let ghost sa = interned(*interner);
        let ghost da = diag@;
        let ghost o0 = views(out@);
        let ghost n = vs[k as int];
        proof {
            assert(vs.take(k + 1).drop_last() =~= vs.take(k as int));
            assert(vs.take(k + 1).last() == n);
            crate::populate::lemma_grows_trans(s0, i0, sa);
            lemma_text_table_grow(s0, sa, symbols.shapes@);
            assert forall|q: int| 0 <= q < shapes.len() implies #[trigger] shapes[q].name < sa.len() && shapes[q].full_name < sa.len()
                && forall|j: int| 0 <= j < shapes[q].includes@.len() ==> #[trigger] shapes[q].includes@[j] < sa.len() by {
                assert(shapes[q].name < s0.len());
            }
            crate::shapes::lemma_named_shape_same(shapes, s0, sa, st, n, pkg@);
            assert(ns@[k as int]@ == n);
        }
        let sr = crate::shapes::resolve_shape_name(ns[k].as_str(), pkg, interner, arenas, symbols);
        let ghost sb = interned(*interner);
        match sr {
            Some(sid) => {
                proof {
                    crate::populate::lemma_grows_trans(s0, sa, sb);
                    lemma_text_table_grow(s0, sb, symbols.shapes@);
                    crate::shapes::lemma_expanded_same(shapes, s0, sb, st, sid, fuel);
                    assert(names_sound(vs, pkg@, c));
                    assert(named_shape(shapes, s0, st, vs[k as int], pkg@) == Some(sid as int));
                    assert forall|q: int| 0 <= q < shapes.len() implies #[trigger] shapes[q].name < sb.len() && shapes[q].full_name < sb.len()
                        && forall|j: int| 0 <= j < shapes[q].includes@.len() ==> #[trigger] shapes[q].includes@[j] < sb.len() by {
                        assert(shapes[q].name < s0.len());
                    }
                }
                let refs = crate::shapes::expand_shape_fields(sid, arenas, interner, symbols, diag, Ghost(fuel));
                let ghost rn = ref_names(shapes, s0, refs@);
                let mut j: usize = 0;
                while j < refs.len()
                    invariant
                        j <= refs@.len(),
                        crate::shapes::refs_valid(shapes, refs@),
                        shapes == shape_defs(arenas.shapes),
                        shape_fields_interned(shapes, s0),
                        grows(s0, interned(*interner)),
                        rn == ref_names(shapes, s0, refs@),
                        views(out@) == o0 + rn.take(j as int),
                    decreases refs.len() - j,
                {
                    let (q, fi) = refs[j];
                    let sh = crate::hir::shape_def_at(&arenas.shapes, q);
                    proof {
                        assert(sh.fields@[fi as int].name < s0.len());
                        assert(interned(*interner)[sh.fields@[fi as int].name as int] == s0[sh.fields@[fi as int].name as int]);
                    }
                    let nm = interner.resolve(sh.fields[fi].name);
                    let ghost before = out@;
                    out.push(String::from_str(nm));
                    proof {
                        assert(views(out@) =~= views(before).push(nm@));
                        assert(rn.take(j + 1) =~= rn.take(j as int).push(rn[j as int]));
                    }
                    j += 1;
                }
                proof {
                    assert(rn.take(rn.len() as int) =~= rn);
                    lemma_errors_append(d0, da, diag@, omit_errors(vs.take(k as int), pkg@, c), expand_errors(shapes, s0, st, sid, fuel));
                    assert(omit_names(vs.take(k + 1), pkg@, c) == o0 + rn);
                }
            },
            None => {
                let ghost before = out@;
                out.push(ns[k].clone());
                proof {
                    assert(views(out@) =~= views(before).push(n));
                    assert(omit_errors(vs.take(k + 1), pkg@, c) =~= omit_errors(vs.take(k as int), pkg@, c));
                }
            },
        }
        proof {
            crate::populate::lemma_grows_trans(i0, sa, interned(*interner));
        }
        k += 1;
    }
    proof {
        assert(vs.take(vs.len() as int) =~= vs);
    }
    out
}


/// How many strings declaration `d` may intern.
pub open spec fn decl_room(d: SyntaxNode, pkg: Seq<char>, c: PoCtx) -> nat {
    if name_bytes(d) is Some {
        1 + match first_child(d, SyntaxKind::TypeAlias) {
            Some(al) => (match first_child(al, SyntaxKind::PickType) {
                Some(pk) => 2 + list_names(pk).len(),
                None => 0,
            }) + (match first_child(al, SyntaxKind::OmitType) {
                Some(om) => 2 + list_names(om).len() + omit_names(list_names(om), pkg, c).len(),
                None => 0,
            }),
            None => 0,
        }
    } else {
        0
    }
}

/// The Omit list of declaration `d` names only shapes without include cycles.
pub open spec fn decl_sound(d: SyntaxNode, pkg: Seq<char>, c: PoCtx) -> bool {
    match first_child(d, SyntaxKind::TypeAlias) {
        Some(al) => match first_child(al, SyntaxKind::OmitType) {
            Some(om) => names_sound(list_names(om), pkg, c),
            None => true,
        },
        None => true,
    }
}

/// The names of the fields a state holds are interned.
pub open spec fn state_names_ok(s: PoState, strs: Seq<Seq<char>>) -> bool {
    forall|t: int, i: int| 0 <= t < s.0.len() && 0 <= i < s.0[t].len() ==> (#[trigger] s.0[t][i]).name < strs.len()
}

proof fn lemma_holds_grow(a: Seq<TypeDef>, b: Seq<TypeDef>, s: PoState, s1: Seq<Seq<char>>, s2: Seq<Seq<char>>)
    requires
        holds(a, b, s, s1),
        grows(s1, s2),
    ensures
        holds(a, b, s, s2),
{
    assert forall|t: int| 0 <= t < a.len() implies match #[trigger] s.1[t] {
        None => b[t].trace == a[t].trace,
        Some(tv) => trace_is(s2, b[t].trace, tv),
    } by {
        if let Some(tv) = s.1[t] {
            if let Some(TypeTrace::PickOmit { kind, source_type, field_names }) = b[t].trace {
                assert(s2[kind as int] == s1[kind as int]);
                assert forall|i: int| 0 <= i < tv.2.len() implies names(s2, #[trigger] field_names@[i], tv.2[i]) by {
                    assert(names(s1, field_names@[i], tv.2[i]));
                    assert(s2[field_names@[i] as int] == s1[field_names@[i] as int]);
                }
            }
        }
    }
}

proof fn lemma_keep_names(fs: Seq<FieldDef>, strs: Seq<Seq<char>>, ns: Seq<Seq<char>>, pick: bool, n: nat)
    requires
        forall|i: int| 0 <= i < fs.len() ==> (#[trigger] fs[i]).name < n,
    ensures
        forall|i: int| 0 <= i < keep(fs, strs, ns, pick).len() ==> (#[trigger] keep(fs, strs, ns, pick)[i]).name < n,
    decreases fs.len(),
{
    if fs.len() > 0 {
        lemma_keep_names(fs.drop_last(), strs, ns, pick, n);
        let k0 = keep(fs.drop_last(), strs, ns, pick);
        assert forall|i: int| 0 <= i < keep(fs, strs, ns, pick).len() implies (#[trigger] keep(fs, strs, ns, pick)[i]).name < n by {
            if i < k0.len() {
                assert(keep(fs, strs, ns, pick)[i] == k0[i]);
            } else {
                assert(fs[fs.len() - 1].name < n);
            }
        }
    }
}

/// Write the fields and the trace of type `tid`.
fn write_type(
    arenas: &mut Arenas,
    tid: u32,
    fields: Vec<FieldDef>,
    trace: TypeTrace,
)
    requires
        tid < type_defs(old(arenas).types).len(),
    ensures
        type_defs(final(arenas).types) == type_defs(old(arenas).types).update(
            tid as int,
            TypeDef { fields: fields, trace: Some(trace), ..type_defs(old(arenas).types)[tid as int] },
        ),
        final(arenas).enums == old(arenas).enums,
        final(arenas).services == old(arenas).services,
        final(arenas).shapes == old(arenas).shapes,
        final(arenas).annotation_defs == old(arenas).annotation_defs,
{
    let def = type_def_mut(&mut arenas.types, tid);
    def.fields = fields;
    def.trace = Some(trace);
}

/// Apply declaration `decl` of package `pkg`, as [`po_step`] says.
fn process_decl(
    decl: &TypeDecl,
    pkg: &str,
    interner: &mut Interner,
    arenas: &mut Arenas,
    symbols: &SymbolTable,
    diag: &mut Diagnostics,
    Ghost(a): Ghost<Seq<TypeDef>>,
    Ghost(s): Ghost<PoState>,
    Ghost(c): Ghost<PoCtx>,
)
    requires
        c.0 == text_table(c.2, symbols.types@),
        c.1 == shape_defs(old(arenas).shapes),
        c.3 == text_table(c.2, symbols.shapes@),
        c.4 == c.1.len() + 1,
        holds(a, type_defs(old(arenas).types), s, interned(*old(interner))),
        state_names_ok(s, c.2),
        grows(c.2, interned(*old(interner))),
        distinct(interned(*old(interner))),
        interned(*old(interner)).len() + decl_room(decl.node(), pkg@, c) < u32::MAX,
        keys_below(symbols.types@, c.2.len()),
        keys_below(symbols.shapes@, c.2.len()),
        forall|k: Sym| #[trigger] symbols.types@.contains_key(k) ==> symbols.types@[k] < a.len(),
        forall|k: Sym| #[trigger] symbols.shapes@.contains_key(k) ==> symbols.shapes@[k] < c.1.len(),
        shapes_interned(c.1, c.2),
        shape_fields_interned(c.1, c.2),
        c.1.len() < u32::MAX,
        decl_sound(decl.node(), pkg@, c),
    ensures
        holds(a, type_defs(final(arenas).types), po_step(s, decl.node(), pkg@, c).0, interned(*final(interner))),
        state_names_ok(po_step(s, decl.node(), pkg@, c).0, c.2),
        grows(interned(*old(interner)), interned(*final(interner))),
        distinct(interned(*final(interner))),
        interned(*final(interner)).len() <= interned(*old(interner)).len() + decl_room(decl.node(), pkg@, c),
        final(arenas).enums == old(arenas).enums,
        final(arenas).services == old(arenas).services,
        final(arenas).shapes == old(arenas).shapes,
        final(arenas).annotation_defs == old(arenas).annotation_defs,
        grows(old(diag)@, final(diag)@),
        errors_reported(final(diag)@.skip(old(diag)@.len() as int), po_step(s, decl.node(), pkg@, c).1),
{
    let ghost d = decl.node();
    let ghost s0 = c.2;
    let ghost i0 = interned(*interner);
    let ghost d0 = diag@;
    proof {
        assert(d0.skip(d0.len() as int) =~= Seq::<crate::diagnostics::Diagnostic>::empty());
        assert forall|k: int| 0 <= k < d0.len() implies #[trigger] d0[k] == d0[k] by {}
        assert forall|k: int| 0 <= k < i0.len() implies #[trigger] i0[k] == i0[k] by {}
    }
    let nm = decl.name();
    proof {
        lemma_name_token(d, nm);
    }
    let tok = match nm {
        Some(t) => t,
        None => {
            return;
        },
    };
    let name = tok.text();
    let full = crate::index::qualify(pkg, name.as_str());
    let full_sym = interner.intern(full.as_str());
    let ghost i1 = interned(*interner);
    proof {
        lemma_lookup(s0, i1, symbols.types@, full_sym, full@);
        lemma_holds_grow(a, type_defs(arenas.types), s, i0, i1);
    }
    let tid = match symbols.types.get(&full_sym) {
        Some(id) => *id,
        None => {
            return;
        },
    };
    let alo = decl.alias();
    proof {
        lemma_first_child(d, alo, SyntaxKind::TypeAlias);
    }
    let al = match alo {
        Some(x) => x,
        None => {
            return;
        },
    };
    let ghost aln = al.node();
    let ghost mut cur: PoState = s;
    // Pick
    let pko = al.pick_type();
    proof {
        lemma_first_child(aln, pko, SyntaxKind::PickType);
    }
    match pko {
        Some(pk) => {
            let srco = find_source(pk.source_type(), Ghost(pk.node()), pkg, interner, symbols, Ghost(s0));
            match srco {
                Some(src) => {
                    let ns = list_of(pk.fields(), Ghost(pk.node()));
                    let ghost ib = interned(*interner);
                    proof {
                        crate::populate::lemma_grows_trans(s0, i1, ib);
                        lemma_holds_grow(a, type_defs(arenas.types), cur, i1, ib);
                        assert(fields_like(cur.0[src as int], type_defs(arenas.types)[src as int].fields@));
                        assert forall|i: int| 0 <= i < cur.0[src as int].len() implies (#[trigger] cur.0[src as int][i]).name < s0.len() by {}
                    }
                    let fields = keep_fields(src, &ns, true, interner, arenas, Ghost(cur.0[src as int]), Ghost(s0));
                    let kind = interner.intern("Pick");
                    let syms = intern_strings(&ns, interner);
                    let ghost ic = interned(*interner);
                    let ghost tv: TraceV = ("Pick"@, src, views(ns@));
                    proof {
                        crate::populate::lemma_grows_trans(ib, interned(*interner), ic);
                        assert(names(ic, kind, "Pick"@)) by {
                            assert(ic[kind as int] == "Pick"@);
                        }
                        lemma_holds_grow(a, type_defs(arenas.types), cur, ib, ic);
                        lemma_keep_names(cur.0[src as int], s0, views(ns@), true, s0.len());
                    }
                    let ghost b0 = type_defs(arenas.types);
                    write_type(arenas, tid, fields, TypeTrace::PickOmit { kind, source_type: src, field_names: syms });
                    proof {
                        let nxt: PoState = (
                            cur.0.update(tid as int, keep(cur.0[src as int], s0, views(ns@), true)),
                            cur.1.update(tid as int, Some(tv)),
                        );
                        let b = type_defs(arenas.types);
                        assert(holds(a, b, nxt, ic)) by {
                            assert forall|t: int| 0 <= t < a.len() implies {
                                &&& #[trigger] b[t] == TypeDef { fields: b[t].fields, trace: b[t].trace, ..a[t] }
                                &&& fields_like(nxt.0[t], b[t].fields@)
                                &&& match nxt.1[t] {
                                    None => b[t].trace == a[t].trace,
                                    Some(tv2) => trace_is(ic, b[t].trace, tv2),
                                }
                            } by {
                                if t == tid {
                                    assert(b0[t] == TypeDef { fields: b0[t].fields, trace: b0[t].trace, ..a[t] });
                                } else {
                                    assert(b[t] == b0[t]);
                                }
                            }
                        }
                        assert(state_names_ok(nxt, s0)) by {
                            assert forall|t: int, i: int| 0 <= t < nxt.0.len() && 0 <= i < nxt.0[t].len() implies (#[trigger] nxt.0[t][i]).name
                                < s0.len() by {
                                if t != tid {
                                    assert(nxt.0[t] == cur.0[t]);
                                }
                            }
                        }
                        assert(pick_step(cur, tid, aln, pkg@, c) == nxt);
                        cur = nxt;
                    }
                },
                None => {
                    proof {
                        lemma_holds_grow(a, type_defs(arenas.types), cur, i1, interned(*interner));
                    }
                },
            }
        },
        None => {},
    }
    proof {
        assert(cur == pick_step(s, tid, aln, pkg@, c));
    }
    let ghost i2 = interned(*interner);
    // Omit
    let omo = al.omit_type();
    proof {
        lemma_first_child(aln, omo, SyntaxKind::OmitType);
    }
    match omo {
        Some(om) => {
            let srco = find_source(om.source_type(), Ghost(om.node()), pkg, interner, symbols, Ghost(s0));
            match srco {
                Some(src) => {
                    let ls = list_of(om.fields(), Ghost(om.node()));
                    let ghost ib = interned(*interner);
                    proof {
                        crate::populate::lemma_grows_trans(s0, i2, ib);
                    }
                    let ns = omit_list(&ls, pkg, interner, arenas, symbols, diag, Ghost(c));
                    let ghost ib2 = interned(*interner);
                    proof {
                        crate::populate::lemma_grows_trans(s0, ib, ib2);
                        crate::populate::lemma_grows_trans(i2, ib, ib2);
                        lemma_holds_grow(a, type_defs(arenas.types), cur, i2, ib2);
                        assert(fields_like(cur.0[src as int], type_defs(arenas.types)[src as int].fields@));
                        assert forall|i: int| 0 <= i < cur.0[src as int].len() implies (#[trigger] cur.0[src as int][i]).name < s0.len() by {}
                    }
                    let fields = keep_fields(src, &ns, false, interner, arenas, Ghost(cur.0[src as int]), Ghost(s0));
                    let kind = interner.intern("Omit");
                    let syms = intern_strings(&ns, interner);
                    let ghost ic = interned(*interner);
                    let ghost tv: TraceV = ("Omit"@, src, views(ns@));
                    proof {
                        crate::populate::lemma_grows_trans(ib2, interned(*interner), ic);
                        assert(names(ic, kind, "Omit"@)) by {
                            assert(ic[kind as int] == "Omit"@);
                        }
                        lemma_holds_grow(a, type_defs(arenas.types), cur, ib2, ic);
                        lemma_keep_names(cur.0[src as int], s0, views(ns@), false, s0.len());
                    }
                    let ghost b0 = type_defs(arenas.types);
                    write_type(arenas, tid, fields, TypeTrace::PickOmit { kind, source_type: src, field_names: syms });
                    proof {
                        let nxt: PoState = (
                            cur.0.update(tid as int, keep(cur.0[src as int], s0, views(ns@), false)),
                            cur.1.update(tid as int, Some(tv)),
                        );
                        let b = type_defs(arenas.types);
                        assert(holds(a, b, nxt, ic)) by {
                            assert forall|t: int| 0 <= t < a.len() implies {
                                &&& #[trigger] b[t] == TypeDef { fields: b[t].fields, trace: b[t].trace, ..a[t] }
                                &&& fields_like(nxt.0[t], b[t].fields@)
                                &&& match nxt.1[t] {
                                    None => b[t].trace == a[t].trace,
                                    Some(tv2) => trace_is(ic, b[t].trace, tv2),
                                }
                            } by {
                                if t == tid {
                                    assert(b0[t] == TypeDef { fields: b0[t].fields, trace: b0[t].trace, ..a[t] });
                                } else {
                                    assert(b[t] == b0[t]);
                                }
                            }
                        }
                        assert(state_names_ok(nxt, s0)) by {
                            assert forall|t: int, i: int| 0 <= t < nxt.0.len() && 0 <= i < nxt.0[t].len() implies (#[trigger] nxt.0[t][i]).name
                                < s0.len() by {
                                if t != tid {
                                    assert(nxt.0[t] == cur.0[t]);
                                }
                            }
                        }
                        assert(omit_step(cur, tid, aln, pkg@, c) == (nxt, omit_errors(list_names(om.node()), pkg@, c)));
                    }
                },
                None => {
                    proof {
                        lemma_holds_grow(a, type_defs(arenas.types), cur, i2, interned(*interner));
                    }
                },
            }
        },
        None => {},
    }
}


/// The room all the declarations `ds` may take in the interner.
pub open spec fn po_rooms(ds: Seq<(SyntaxNode, Seq<char>)>, c: PoCtx) -> nat
    decreases ds.len(),
{
    if ds.len() == 0 {
        0
    } else {
        po_rooms(ds.drop_last(), c) + decl_room(ds.last().0, ds.last().1, c)
    }
}

proof fn lemma_rooms_add(x: Seq<(SyntaxNode, Seq<char>)>, y: Seq<(SyntaxNode, Seq<char>)>, c: PoCtx)
    ensures
        po_rooms(x + y, c) == po_rooms(x, c) + po_rooms(y, c),
    decreases y.len(),
{
    if y.len() == 0 {
        assert(x + y =~= x);
    } else {
        assert((x + y).drop_last() =~= x + y.drop_last());
        lemma_rooms_add(x, y.drop_last(), c);
    }
}

/// What the pass reads, from the strings `s0`, the symbols and the arenas.
pub open spec fn po_ctx(s0: Seq<Seq<char>>, symbols: SymbolTable, arenas: Arenas) -> PoCtx {
    (
        text_table(s0, symbols.types@),
        shape_defs(arenas.shapes),
        s0,
        text_table(s0, symbols.shapes@),
        shape_defs(arenas.shapes).len() + 1,
    )
}

proof fn lemma_po_decls_step(fs: Seq<ParsedFile>, f: int)
    requires
        0 <= f < fs.len(),
    ensures
        po_decls(fs.take(f + 1)) == po_decls(fs.take(f)) + if fs[f].root.spec_kind() == SyntaxKind::Root {
            child_nodes(fs[f].root, SyntaxKind::TypeDecl).map_values(|d: SyntaxNode| (d, fs[f].package@))
        } else {
            Seq::empty()
        },
{
    assert(fs.take(f + 1).drop_last() =~= fs.take(f));
}

proof fn lemma_po_decls_prefix(fs: Seq<ParsedFile>, k: int)
    requires
        0 <= k <= fs.len(),
    ensures
        po_decls(fs.take(k)).len() <= po_decls(fs).len(),
        po_decls(fs) == po_decls(fs.take(k)) + po_decls(fs).skip(po_decls(fs.take(k)).len() as int),
    decreases fs.len(),
{
    if k == fs.len() {
        assert(fs.take(k) =~= fs);
        assert(po_decls(fs).skip(po_decls(fs).len() as int) =~= Seq::<(SyntaxNode, Seq<char>)>::empty());
        assert(po_decls(fs) + Seq::<(SyntaxNode, Seq<char>)>::empty() =~= po_decls(fs));
    } else {
        let fl = fs.drop_last();
        assert(fl.take(k) =~= fs.take(k));
        lemma_po_decls_prefix(fl, k);
        let p = po_decls(fs.take(k));
        let whole = po_decls(fs);
        assert(whole =~= p + whole.skip(p.len() as int));
    }
}

/// Expand the Pick and Omit aliases of `files`, declaration by declaration
/// in file order: where a declared type is an alias `Pick<S, a, b>` with a
/// known source `S` of its package, it gets copies of the fields of `S` (as
/// the pass has left them so far) that are named `a` or `b`, in `S`'s order,
/// and the trace `PickOmit { "Pick", S, [a, b] }`; for `Omit<S, a, b>`, the
/// fields of `S` not so named, where a name that names a shape stands for
/// that shape's field names, and the errors of expanding such shapes are
/// reported. The source types and all else stay as they were.
pub fn expand_pick_omit(
    files: &[ParsedFile],
    interner: &mut Interner,
    arenas: &mut Arenas,
    symbols: &mut SymbolTable,
    diag: &mut Diagnostics,
)
    requires
        distinct(interned(*old(interner))),
        interned(*old(interner)).len() + po_rooms(
            po_decls(files@),
            po_ctx(interned(*old(interner)), *old(symbols), *old(arenas)),
        ) < u32::MAX,
        keys_below(old(symbols).types@, interned(*old(interner)).len()),
        keys_below(old(symbols).shapes@, interned(*old(interner)).len()),
        forall|k: Sym| #[trigger] old(symbols).types@.contains_key(k) ==> old(symbols).types@[k] < type_defs(old(arenas).types).len(),
        forall|k: Sym| #[trigger] old(symbols).shapes@.contains_key(k) ==> old(symbols).shapes@[k] < shape_defs(old(arenas).shapes).len(),
        shapes_interned(shape_defs(old(arenas).shapes), interned(*old(interner))),
        shape_fields_interned(shape_defs(old(arenas).shapes), interned(*old(interner))),
        shape_defs(old(arenas).shapes).len() < u32::MAX,
        forall|t: int, i: int|
            0 <= t < type_defs(old(arenas).types).len() && 0 <= i < type_defs(old(arenas).types)[t].fields@.len() ==> (
            #[trigger] type_defs(old(arenas).types)[t].fields@[i]).name < interned(*old(interner)).len(),
        forall|k: int|
            0 <= k < po_decls(files@).len() ==> decl_sound(
                (#[trigger] po_decls(files@)[k]).0,
                po_decls(files@)[k].1,
                po_ctx(interned(*old(interner)), *old(symbols), *old(arenas)),
            ),
    ensures
        ({
            let s0 = interned(*old(interner));
            let c = po_ctx(s0, *old(symbols), *old(arenas));
            let r = po_run(po_start(type_defs(old(arenas).types)), po_decls(files@), c);
            &&& holds(type_defs(old(arenas).types), type_defs(final(arenas).types), r.0, interned(*final(interner)))
            &&& errors_reported(final(diag)@.skip(old(diag)@.len() as int), r.1)
        }),
        grows(interned(*old(interner)), interned(*final(interner))),
        distinct(interned(*final(interner))),
        *final(symbols) == *old(symbols),
        final(arenas).enums == old(arenas).enums,
        final(arenas).services == old(arenas).services,
        final(arenas).shapes == old(arenas).shapes,
        final(arenas).annotation_defs == old(arenas).annotation_defs,
        grows(old(diag)@, final(diag)@),
{
    let ghost s0 = interned(*interner);
    let ghost c = po_ctx(s0, *symbols, *arenas);
    let ghost a = type_defs(arenas.types);
    let ghost all = po_decls(files@);
    let ghost fs = files@;
    let ghost d0 = diag@;
    let ghost mut done: Seq<(SyntaxNode, Seq<char>)> = Seq::empty();
    let ghost mut st: PoState = po_start(a);
    proof {
        assert(d0.skip(d0.len() as int) =~= Seq::<crate::diagnostics::Diagnostic>::empty());
        assert forall|k: int| 0 <= k < d0.len() implies #[trigger] d0[k] == d0[k] by {}
        assert forall|k: int| 0 <= k < s0.len() implies #[trigger] s0[k] == s0[k] by {}
        assert(fs.take(0) =~= Seq::<ParsedFile>::empty());
        assert(holds(a, a, st, s0)) by {
            assert forall|t: int| 0 <= t < a.len() implies fields_like(st.0[t], (#[trigger] a[t]).fields@) by {
                assert forall|i: int| 0 <= i < a[t].fields@.len() implies field_copy(st.0[t][i], #[trigger] a[t].fields@[i]) by {
                    lemma_field_copy_refl(a[t].fields@[i]);
                }
            }
        }
        assert(state_names_ok(st, s0));
        lemma_rooms_add(Seq::empty(), all, c);
        assert(Seq::<(SyntaxNode, Seq<char>)>::empty() + all =~= all);
    }
    let mut f: usize = 0;
    while f < files.len()
        invariant
            fs == files@,
            all == po_decls(fs),
            f <= fs.len(),
            done == po_decls(fs.take(f as int)),
            all == done + all.skip(done.len() as int),
            c == po_ctx(s0, *symbols, *arenas),
            *symbols == *old(symbols),
            a == type_defs(old(arenas).types),
            s0 == interned(*old(interner)),
            st == po_run(po_start(a), done, c).0,
            holds(a, type_defs(arenas.types), st, interned(*interner)),
            state_names_ok(st, s0),
            grows(s0, interned(*interner)),
            distinct(interned(*interner)),
            interned(*interner).len() <= s0.len() + po_rooms(done, c),
            s0.len() + po_rooms(all, c) < u32::MAX,
            keys_below(symbols.types@, s0.len()),
            keys_below(symbols.shapes@, s0.len()),
            forall|k: Sym| #[trigger] symbols.types@.contains_key(k) ==> symbols.types@[k] < a.len(),
            forall|k: Sym| #[trigger] symbols.shapes@.contains_key(k) ==> symbols.shapes@[k] < c.1.len(),
            shapes_interned(c.1, s0),
            shape_fields_interned(c.1, s0),
            c.1.len() < u32::MAX,
            forall|k: int| 0 <= k < all.len() ==> decl_sound((#[trigger] all[k]).0, all[k].1, c),
            arenas.enums == old(arenas).enums,
            arenas.services == old(arenas).services,
            arenas.shapes == old(arenas).shapes,
            arenas.annotation_defs == old(arenas).annotation_defs,
            grows(d0, diag@),
            errors_reported(diag@.skip(d0.len() as int), po_run(po_start(a), done, c).1),
        decreases files.len() - f,
    {
        let file = &files[f];
        proof {
            lemma_po_decls_step(fs, f as int);
            lemma_po_decls_prefix(fs, f + 1);
        }
        match Root::cast(file.root.clone()) {
            Some(root) => {
                let ghost rn = file.root;
                let ghost pkg = file.package@;
                let decls = root.type_decls();
                let ghost ds = child_nodes(rn, SyntaxKind::TypeDecl);
                let ghost part = ds.map_values(|d: SyntaxNode| (d, pkg));
                proof {
                    lemma_children_nodes(rn, decls@, SyntaxKind::TypeDecl);
                    assert(done + part.take(0) =~= done);
                }
                let ghost done0 = done;
                let mut i: usize = 0;
                while i < decls.len()
                    invariant
                        fs == files@,
                        all == po_decls(fs),
                        f < fs.len(),
                        file == &fs[f as int],
                        rn == file.root,
                        pkg == file.package@,
                        ds == child_nodes(rn, SyntaxKind::TypeDecl),
                        part == ds.map_values(|d: SyntaxNode| (d, pkg)),
                        decls@.len() == ds.len(),
                        forall|k: int| 0 <= k < ds.len() ==> (#[trigger] decls@[k]).node() == ds[k],
                        done0 == po_decls(fs.take(f as int)),
                        po_decls(fs.take(f + 1)) == done0 + part,
                        all == done0 + part + all.skip((done0 + part).len() as int),
                        i <= ds.len(),
                        done == done0 + part.take(i as int),
                        c == po_ctx(s0, *symbols, *arenas),
                        *symbols == *old(symbols),
                        a == type_defs(old(arenas).types),
                        s0 == interned(*old(interner)),
                        st == po_run(po_start(a), done, c).0,
                        holds(a, type_defs(arenas.types), st, interned(*interner)),
                        state_names_ok(st, s0),
                        grows(s0, interned(*interner)),
                        distinct(interned(*interner)),
                        interned(*interner).len() <= s0.len() + po_rooms(done, c),
                        s0.len() + po_rooms(all, c) < u32::MAX,
                        keys_below(symbols.types@, s0.len()),
                        keys_below(symbols.shapes@, s0.len()),
                        forall|k: Sym| #[trigger] symbols.types@.contains_key(k) ==> symbols.types@[k] < a.len(),
                        forall|k: Sym| #[trigger] symbols.shapes@.contains_key(k) ==> symbols.shapes@[k] < c.1.len(),
                        shapes_interned(c.1, s0),
                        shape_fields_interned(c.1, s0),
                        c.1.len() < u32::MAX,
                        forall|k: int| 0 <= k < all.len() ==> decl_sound((#[trigger] all[k]).0, all[k].1, c),
                        arenas.enums == old(arenas).enums,
                        arenas.services == old(arenas).services,
                        arenas.shapes == old(arenas).shapes,
                        arenas.annotation_defs == old(arenas).annotation_defs,
                        grows(d0, diag@),
                        errors_reported(diag@.skip(d0.len() as int), po_run(po_start(a), done, c).1),
                    decreases decls.len() - i,
                {
                    let ghost da = diag@;
                    let ghost x = part[i as int];
                    let ghost nd = done.push(x);
                    proof {
                        assert(x == (ds[i as int], pkg));
                        assert(nd =~= done0 + part.take(i + 1));
                        assert(nd.drop_last() =~= done);
                        // x sits in all, so it is sound and fits.
                        let j = done.len() as int;
                        assert(all[j] == x) by {
                            assert((done0 + part)[j] == x);
                        }
                        lemma_rooms_add(nd, all.skip(nd.len() as int), c);
                        assert(nd + all.skip(nd.len() as int) =~= all) by {
                            assert(all.len() == (done0 + part).len() + all.skip((done0 + part).len() as int).len());
                        }
                        assert(po_rooms(nd, c) == po_rooms(done, c) + decl_room(x.0, x.1, c));
                    }
                    process_decl(&decls[i], file.package.as_str(), interner, arenas, symbols, diag, Ghost(a), Ghost(st), Ghost(c));
                    proof {
                        let r = po_run(po_start(a), done, c);
                        let step = po_step(r.0, x.0, x.1, c);
                        lemma_errors_append(d0, da, diag@, r.1, step.1);
                        st = step.0;
                        done = nd;
                    }
                    i += 1;
                }
                proof {
                    assert(part.take(part.len() as int) =~= part);
                }
            },
            None => {
                proof {
                    assert(done + Seq::<(SyntaxNode, Seq<char>)>::empty() =~= done);
                }
            },
        }
        f += 1;
    }
    proof {
        assert(fs.take(fs.len() as int) =~= fs);
    }
}

} // verus!
