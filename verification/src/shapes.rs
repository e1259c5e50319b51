//! Shape injection: the fields of shapes, with the shapes they include,
//! injected into types at numbered ranges.

use vstd::prelude::*;
use crate::hir::{
    AnnotationArgDef, AnnotationCall, Arenas, FieldDef, FieldTrace, Interner, LiteralValue, Loc, ResolvedType, ShapeDef,
    ShapeFieldDef, ShapeOrigin, TypeDef, type_def_mut, type_defs, ShapeId, Sym, SymbolTable, arena_lens, distinct, interned, names, shape_def_at,
    shape_defs,
};
use crate::diagnostics::Diagnostics;
use crate::ast::{AstNode, Root, TypeDecl, full_name_text, int_literal_value};
use crate::index::{
    ParsedFile, child_nodes, first_child, grows, keys_below, lemma_children_nodes, lemma_first_child, lemma_name_token,
    name_bytes, name_text, named, qualified, qualify,
};
use crate::syntax_kind::SyntaxKind;
use crate::breaking::nat_text;
use crate::tree::{SyntaxNode, node_ok};
use crate::resolve::{lemma_index_of, lemma_lookup, lemma_text_table_grow, text_table};

verus! {

// ── Names ──────────────────────────────────────────────────────────────

/// The position of the first `.` in `t` at or after `i` (the length where
/// there is none).
pub open spec fn first_dot(t: Seq<char>, i: int) -> int
    decreases t.len() - i,
{
    if i >= t.len() || t[i] == '.' {
        i
    } else {
        first_dot(t, i + 1)
    }
}

/// What comes before the last `.` of `t` (empty where there is none).
pub open spec fn before_last_dot(t: Seq<char>) -> Seq<char>
    decreases t.len(),
{
    if t.len() == 0 {
        Seq::empty()
    } else if t.last() == '.' {
        t.drop_last()
    } else {
        before_last_dot(t.drop_last())
    }
}

/// The text of symbol `s` among the interned strings `strs`.
pub open spec fn text_at(strs: Seq<Seq<char>>, s: Sym) -> Seq<char> {
    strs[s as int]
}

/// The first shape at or after position `k` whose name is `name`.
pub open spec fn shape_by_name(shapes: Seq<ShapeDef>, strs: Seq<Seq<char>>, name: Seq<char>, k: int) -> Option<int>
    decreases shapes.len() - k,
{
    if k < 0 || k >= shapes.len() {
        None
    } else if text_at(strs, shapes[k].name) == name {
        Some(k)
    } else {
        shape_by_name(shapes, strs, name, k + 1)
    }
}

/// The first shape at or after position `k` whose name is `name` and whose
/// full name is of package `pkg`.
pub open spec fn shape_by_qualified(
    shapes: Seq<ShapeDef>,
    strs: Seq<Seq<char>>,
    pkg: Seq<char>,
    name: Seq<char>,
    k: int,
) -> Option<int>
    decreases shapes.len() - k,
{
    if k < 0 || k >= shapes.len() {
        None
    } else if text_at(strs, shapes[k].name) == name && before_last_dot(text_at(strs, shapes[k].full_name)) == pkg {
        Some(k)
    } else {
        shape_by_qualified(shapes, strs, pkg, name, k + 1)
    }
}

/// The shape that `name` names from package `pkg`: for `p.N`, the first
/// shape named `N` of package `p`; for a plain `N`, the shape `pkg.N` if
/// there is one, else the first shape named `N`.
pub open spec fn named_shape(
    shapes: Seq<ShapeDef>,
    strs: Seq<Seq<char>>,
    st: Map<Seq<char>, u32>,
    name: Seq<char>,
    pkg: Seq<char>,
) -> Option<int> {
    let d = first_dot(name, 0);
    if d < name.len() {
        shape_by_qualified(shapes, strs, name.take(d), name.skip(d + 1), 0)
    } else if st.contains_key(qualified(pkg, name)) {
        Some(st[qualified(pkg, name)] as int)
    } else {
        shape_by_name(shapes, strs, name, 0)
    }
}

/// The names of the shapes are interned.
pub open spec fn shapes_interned(shapes: Seq<ShapeDef>, strs: Seq<Seq<char>>) -> bool {
    forall|k: int|
        0 <= k < shapes.len() ==> (#[trigger] shapes[k]).name < strs.len() && shapes[k].full_name < strs.len() && forall|
            j: int,
        |
            0 <= j < shapes[k].includes@.len() ==> #[trigger] shapes[k].includes@[j] < strs.len()
}

/// What comes before the last `.` of `t`.
fn before_last_dot_of(t: &str) -> (r: String)
    ensures
        r@ == before_last_dot(t@),
{
    let n = t.unicode_len();
    let mut i = n;
    proof {
        assert(t@.take(n as int) =~= t@);
    }
    while i > 0
        invariant
            i <= n == t@.len(),
            before_last_dot(t@) == before_last_dot(t@.take(i as int)),
            forall|k: int| i <= k < n ==> t@[k] != '.',
        decreases i,
    {
        let c = t.get_char(i - 1);
        proof {
            assert(t@.take(i as int).drop_last() =~= t@.take(i - 1));
            assert(t@.take(i as int).last() == t@[i - 1]);
        }
        if c == '.' {
            let r = String::from_str(t.substring_char(0, i - 1));
            proof {
                assert(r@ =~= t@.take(i - 1));
            }
            return r;
        }
        i -= 1;
    }
    proof {
        assert(t@.take(0) =~= Seq::<char>::empty());
    }
    String::new()
}

/// The position of the first `.` in `t` (its length where there is none).
fn first_dot_of(t: &str) -> (r: usize)
    ensures
        r == first_dot(t@, 0),
        r <= t@.len(),
{
    let n = t.unicode_len();
    let mut i: usize = 0;
    while i < n
        invariant
            i <= n == t@.len(),
            first_dot(t@, 0) == first_dot(t@, i as int),
        decreases n - i,
    {
        if t.get_char(i) == '.' {
            return i;
        }
        i += 1;
    }
    i
}

/// The shape that `name` names from package `current_pkg`, as
/// [`named_shape`] says.
pub(crate) fn resolve_shape_name(
    name: &str,
    current_pkg: &str,
    interner: &mut Interner,
    arenas: &Arenas,
    symbols: &SymbolTable,
) -> (r: Option<ShapeId>)
    requires
        distinct(interned(*old(interner))),
        interned(*old(interner)).len() + 1 < u32::MAX,
        shapes_interned(shape_defs(arenas.shapes), interned(*old(interner))),
        keys_below(symbols.shapes@, interned(*old(interner)).len()),
        shape_defs(arenas.shapes).len() <= u32::MAX,
    ensures
        grows(interned(*old(interner)), interned(*final(interner))),
        distinct(interned(*final(interner))),
        interned(*final(interner)).len() <= interned(*old(interner)).len() + 1,
        ({
            let nr = named_shape(
                shape_defs(arenas.shapes),
                interned(*old(interner)),
                text_table(interned(*old(interner)), symbols.shapes@),
                name@,
                current_pkg@,
            );
            &&& r is Some <==> nr is Some
            &&& r matches Some(x) ==> x == nr->Some_0
        }),
{
    let ghost s0 = interned(*interner);
    let ghost shapes = shape_defs(arenas.shapes);
    proof {
        assert forall|k: int| 0 <= k < s0.len() implies #[trigger] s0[k] == s0[k] by {}
    }
    let lens = arena_lens(arenas);
    let n = lens.3;
    let d = first_dot_of(name);
    let len = name.unicode_len();
    if d < len {
        let pkg_alias = name.substring_char(0, d);
        let shape_name = name.substring_char(d + 1, len);
        proof {
            assert(pkg_alias@ =~= name@.take(d as int));
            assert(shape_name@ =~= name@.skip(d + 1));
        }
        let mut k: usize = 0;
        while k < n
            invariant
                n == shapes.len(),
                n <= u32::MAX,
                shapes == shape_defs(arenas.shapes),
                shapes_interned(shapes, s0),
                s0 == interned(*interner),
                distinct(s0),
                d < len == name@.len(),
                d == first_dot(name@, 0),
                pkg_alias@ == name@.take(d as int),
                shape_name@ == name@.skip(d + 1),
                shape_by_qualified(shapes, s0, pkg_alias@, shape_name@, 0) == shape_by_qualified(
                    shapes,
                    s0,
                    pkg_alias@,
                    shape_name@,
                    k as int,
                ),
            decreases n - k,
        {
            let shape = shape_def_at(&arenas.shapes, k as ShapeId);
            proof {
                assert(shapes[k as int].name < s0.len());
            }
            let sname = interner.resolve(shape.name);
            let sfull = interner.resolve(shape.full_name);
            let spkg = before_last_dot_of(sfull);
            proof {
                assert(sname@ == text_at(s0, shapes[k as int].name));
                assert(sfull@ == text_at(s0, shapes[k as int].full_name));
            }
            if crate::tree::same_text(sname, shape_name) && crate::tree::same_text(spkg.as_str(), pkg_alias) {
                return Some(k as ShapeId);
            }
            k += 1;
        }
        return None;
    }
    proof {
        assert(d == len);
    }
    let full = qualify(current_pkg, name);
    let full_sym = interner.intern(full.as_str());
    let ghost s1 = interned(*interner);
    proof {
        lemma_index_of(s1, full_sym as int, full@);
        lemma_lookup(s0, s1, symbols.shapes@, full_sym, full@);
    }
    match symbols.shapes.get(&full_sym) {
        Some(id) => {
            return Some(*id);
        },
        None => {},
    }
    let mut k: usize = 0;
    let mut found: Option<ShapeId> = None;
    while k < n
        invariant
            n == shapes.len(),
            n <= u32::MAX,
            k <= n,
            shapes == shape_defs(arenas.shapes),
            shapes_interned(shapes, s0),
            s1 == interned(*interner),
            grows(s0, s1),
            first_dot(name@, 0) >= name@.len(),
            !text_table(s0, symbols.shapes@).contains_key(qualified(current_pkg@, name@)),
            found is None ==> shape_by_name(shapes, s0, name@, 0) == shape_by_name(shapes, s0, name@, k as int),
            found matches Some(x) ==> shape_by_name(shapes, s0, name@, 0) == Some(x as int),
        decreases n - k,
    {
        let shape = shape_def_at(&arenas.shapes, k as ShapeId);
        proof {
            assert(shapes[k as int].name < s0.len());
            assert(interned(*interner)[shapes[k as int].name as int] == s0[shapes[k as int].name as int]);
        }
        let sname = interner.resolve(shape.name);
        proof {
            assert(sname@ == text_at(s0, shapes[k as int].name));
        }
        if found.is_none() && crate::tree::same_text(sname, name) {
            found = Some(k as ShapeId);
        }
        k += 1;
    }
    found
}

// ── Expanding includes ─────────────────────────────────────────────────

/// The shape that include `inc` of shape `sid` names: the shape whose full
/// name is the included name in the package of shape `sid`, if any.
pub open spec fn include_target(
    shapes: Seq<ShapeDef>,
    strs: Seq<Seq<char>>,
    st: Map<Seq<char>, u32>,
    sid: u32,
    inc: Sym,
) -> Option<u32> {
    let full = qualified(before_last_dot(text_at(strs, shapes[sid as int].full_name)), text_at(strs, inc));
    if st.contains_key(full) {
        Some(st[full])
    } else {
        None
    }
}

/// Each (shape, position) pair of `refs` is a field of a shape.
pub open spec fn refs_valid(shapes: Seq<ShapeDef>, refs: Seq<(u32, usize)>) -> bool {
    forall|k: int|
        0 <= k < refs.len() ==> #[trigger] refs[k].0 < shapes.len() && refs[k].1 < shapes[refs[k].0 as int].fields@.len()
}

/// The fields of shape `sid`, as (shape, position) pairs.
pub open spec fn own_fields(shapes: Seq<ShapeDef>, sid: u32) -> Seq<(u32, usize)> {
    Seq::new(shapes[sid as int].fields@.len(), |j: int| (sid, j as usize))
}

/// The fields of shape `sid` with those of the shapes it includes, in
/// order: first each include's expansion, then its own fields.
pub open spec fn expanded(shapes: Seq<ShapeDef>, strs: Seq<Seq<char>>, st: Map<Seq<char>, u32>, sid: u32, fuel: nat) -> Seq<
    (u32, usize),
>
    decreases fuel, 0nat,
{
    if fuel == 0 || sid >= shapes.len() {
        Seq::empty()
    } else {
        incs_expanded(shapes, strs, st, sid, shapes[sid as int].includes@, (fuel - 1) as nat) + own_fields(shapes, sid)
    }
}

/// The expansions of the includes `incs` of shape `sid`, in order.
pub open spec fn incs_expanded(
    shapes: Seq<ShapeDef>,
    strs: Seq<Seq<char>>,
    st: Map<Seq<char>, u32>,
    sid: u32,
    incs: Seq<Sym>,
    fuel: nat,
) -> Seq<(u32, usize)>
    decreases fuel, incs.len() + 1,
{
    if incs.len() == 0 {
        Seq::empty()
    } else {
        incs_expanded(shapes, strs, st, sid, incs.drop_last(), fuel) + match include_target(
            shapes,
            strs,
            st,
            sid,
            incs.last(),
        ) {
            Some(t) => expanded(shapes, strs, st, t, fuel),
            None => Seq::empty(),
        }
    }
}

/// The errors that expanding shape `sid` reports: one for each include
/// that names no shape, in the order met.
pub open spec fn expand_errors(shapes: Seq<ShapeDef>, strs: Seq<Seq<char>>, st: Map<Seq<char>, u32>, sid: u32, fuel: nat) -> Seq<
    Seq<char>,
>
    decreases fuel, 0nat,
{
    if fuel == 0 || sid >= shapes.len() {
        Seq::empty()
    } else {
        incs_errors(shapes, strs, st, sid, shapes[sid as int].includes@, (fuel - 1) as nat)
    }
}

/// The errors that expanding the includes `incs` of shape `sid` reports.
pub open spec fn incs_errors(
    shapes: Seq<ShapeDef>,
    strs: Seq<Seq<char>>,
    st: Map<Seq<char>, u32>,
    sid: u32,
    incs: Seq<Sym>,
    fuel: nat,
) -> Seq<Seq<char>>
    decreases fuel, incs.len() + 1,
{
    if incs.len() == 0 {
        Seq::empty()
    } else {
        incs_errors(shapes, strs, st, sid, incs.drop_last(), fuel) + match include_target(shapes, strs, st, sid, incs.last()) {
            Some(t) => expand_errors(shapes, strs, st, t, fuel),
            None => seq!["unresolved shape include: "@ + text_at(strs, incs.last())],
        }
    }
}

/// Shape `sid` includes shapes at most `fuel - 1` deep: no include chain
/// from it comes back to a shape on the chain within that depth.
pub open spec fn depth_ok(shapes: Seq<ShapeDef>, strs: Seq<Seq<char>>, st: Map<Seq<char>, u32>, sid: u32, fuel: nat) -> bool
    decreases fuel, 0nat,
{
    fuel > 0 && sid < shapes.len() && incs_ok(shapes, strs, st, sid, shapes[sid as int].includes@, (fuel - 1) as nat)
}

/// Each include among `incs` of shape `sid` that names a shape is at most
/// `fuel - 1` deep.
pub open spec fn incs_ok(
    shapes: Seq<ShapeDef>,
    strs: Seq<Seq<char>>,
    st: Map<Seq<char>, u32>,
    sid: u32,
    incs: Seq<Sym>,
    fuel: nat,
) -> bool
    decreases fuel, incs.len() + 1,
{
    if incs.len() == 0 {
        true
    } else {
        incs_ok(shapes, strs, st, sid, incs.drop_last(), fuel) && match include_target(shapes, strs, st, sid, incs.last()) {
            Some(t) => depth_ok(shapes, strs, st, t, fuel),
            None => true,
        }
    }
}

/// The diagnostics `ds` are errors with messages `msgs`, in order, with no
/// file and no place.
pub open spec fn errors_reported(ds: Seq<crate::diagnostics::Diagnostic>, msgs: Seq<Seq<char>>) -> bool {
    &&& ds.len() == msgs.len()
    &&& forall|k: int|
        0 <= k < ds.len() ==> crate::diagnostics::simple(
            crate::diagnostics::Severity::Error,
            Seq::empty(),
            0..0,
            msgs[k],
            #[trigger] ds[k],
        )
}

proof fn lemma_incs_take(
    shapes: Seq<ShapeDef>,
    strs: Seq<Seq<char>>,
    st: Map<Seq<char>, u32>,
    sid: u32,
    incs: Seq<Sym>,
    i: int,
    fuel: nat,
)
    requires
        0 <= i < incs.len(),
        incs_ok(shapes, strs, st, sid, incs, fuel),
    ensures
        incs_ok(shapes, strs, st, sid, incs.take(i + 1), fuel),
        incs.take(i + 1).drop_last() == incs.take(i),
        incs.take(i + 1).last() == incs[i],
    decreases incs.len(),
{
    assert(incs.take(i + 1).drop_last() =~= incs.take(i));
    if i + 1 < incs.len() {
        lemma_incs_take(shapes, strs, st, sid, incs.drop_last(), i, fuel);
        assert(incs.drop_last().take(i + 1) =~= incs.take(i + 1));
    } else {
        assert(incs.take(i + 1) =~= incs);
    }
}

/// The fields of shape `shape_id`, those of the shapes it includes first,
/// each as a (shape, position) pair; each include that names no shape is
/// reported.
pub(crate) fn expand_shape_fields(
    shape_id: ShapeId,
    arenas: &Arenas,
    interner: &Interner,
    symbols: &SymbolTable,
    diag: &mut Diagnostics,
    Ghost(fuel): Ghost<nat>,
) -> (r: Vec<(ShapeId, usize)>)
    requires
        depth_ok(shape_defs(arenas.shapes), interned(*interner), text_table(interned(*interner), symbols.shapes@), shape_id, fuel),
        distinct(interned(*interner)),
        shapes_interned(shape_defs(arenas.shapes), interned(*interner)),
        shape_defs(arenas.shapes).len() <= u32::MAX,
        forall|k: Sym| #[trigger] symbols.shapes@.contains_key(k) ==> symbols.shapes@[k] < shape_defs(arenas.shapes).len(),
    ensures
        r@ == expanded(shape_defs(arenas.shapes), interned(*interner), text_table(interned(*interner), symbols.shapes@), shape_id, fuel),
        refs_valid(shape_defs(arenas.shapes), r@),
        grows(old(diag)@, final(diag)@),
        errors_reported(
            final(diag)@.skip(old(diag)@.len() as int),
            expand_errors(shape_defs(arenas.shapes), interned(*interner), text_table(interned(*interner), symbols.shapes@), shape_id, fuel),
        ),
    decreases fuel,
{
    let ghost shapes = shape_defs(arenas.shapes);
    let ghost sf = interned(*interner);
    let ghost st = text_table(sf, symbols.shapes@);
    let ghost d0 = diag@;
    let ghost incs = shapes[shape_id as int].includes@;
    let shape = shape_def_at(&arenas.shapes, shape_id);
    let mut result: Vec<(ShapeId, usize)> = Vec::new();
    proof {
        assert(d0.skip(d0.len() as int) =~= Seq::<crate::diagnostics::Diagnostic>::empty());
        assert forall|k: int| 0 <= k < d0.len() implies #[trigger] d0[k] == d0[k] by {}
        assert(incs.take(0) =~= Seq::<Sym>::empty());
        assert(shapes[shape_id as int].full_name < sf.len());
    }
    let full_name = interner.resolve(shape.full_name);
    let pkg = before_last_dot_of(full_name);
    let mut i: usize = 0;
    while i < shape.includes.len()
        invariant
            shapes == shape_defs(arenas.shapes),
            sf == interned(*interner),
            st == text_table(sf, symbols.shapes@),
            *shape == shapes[shape_id as int],
            incs == shape.includes@,
            shape_id < shapes.len(),
            fuel > 0,
            i <= incs.len(),
            pkg@ == before_last_dot(text_at(sf, shape.full_name)),
            incs_ok(shapes, sf, st, shape_id, incs, (fuel - 1) as nat),
            distinct(sf),
            shapes_interned(shapes, sf),
            shapes.len() <= u32::MAX,
            forall|k: Sym| #[trigger] symbols.shapes@.contains_key(k) ==> symbols.shapes@[k] < shapes.len(),
            result@ == incs_expanded(shapes, sf, st, shape_id, incs.take(i as int), (fuel - 1) as nat),
            refs_valid(shapes, result@),
            grows(d0, diag@),
            errors_reported(diag@.skip(d0.len() as int), incs_errors(shapes, sf, st, shape_id, incs.take(i as int), (fuel - 1) as nat)),
        decreases shape.includes.len() - i,
    {
        let ghost d1 = diag@;
        let inc = shape.includes[i];
        proof {
            lemma_incs_take(shapes, sf, st, shape_id, incs, i as int, (fuel - 1) as nat);
            assert(inc < sf.len());
        }
        let include_text = interner.resolve(inc);
        let full = qualify(pkg.as_str(), include_text);
        let lk = interner.intern_lookup(full.as_str());
        proof {
            if let Some(x) = lk {
                lemma_index_of(sf, x as int, full@);
            }
        }
        let found = match lk {
            Some(s) => match symbols.shapes.get(&s) {
                Some(id) => Some(*id),
                None => None,
            },
            None => None,
        };
        proof {
            if sf.contains(full@) {
                let j = sf.index_of(full@);
                assert(sf[j] == full@);
                lemma_index_of(sf, j, full@);
            }
            assert(full@ == qualified(before_last_dot(text_at(sf, shapes[shape_id as int].full_name)), text_at(sf, inc)));
            assert(found == include_target(shapes, sf, st, shape_id, inc));
        }
        match found {
            Some(inc_id) => {
                let sub = expand_shape_fields(inc_id, arenas, interner, symbols, diag, Ghost((fuel - 1) as nat));
                let mut j: usize = 0;
                let ghost r0 = result@;
                while j < sub.len()
                    invariant
                        j <= sub@.len(),
                        result@ == r0 + sub@.take(j as int),
                        refs_valid(shapes, r0),
                        refs_valid(shapes, sub@),
                        refs_valid(shapes, result@),
                    decreases sub.len() - j,
                {
                    result.push(sub[j]);
                    proof {
                        assert(sub@.take(j + 1) =~= sub@.take(j as int).push(sub@[j as int]));
                        assert forall|k: int| 0 <= k < result@.len() implies #[trigger] result@[k].0 < shapes.len()
                            && result@[k].1 < shapes[result@[k].0 as int].fields@.len() by {
                            if k < result@.len() - 1 {
                                assert(result@[k] == result@.drop_last()[k]);
                            }
                        }
                    }
                    j += 1;
                }
                proof {
                    assert(sub@.take(sub@.len() as int) =~= sub@);
                                    }
            },
            None => {
                let msg = crate::index::message("unresolved shape include: ", include_text);
                diag.error("", 0..0, msg.as_str());
                proof {
                    reveal_strlit("");
                    let d2 = diag@;
                    assert(d2.skip(d1.len() as int) =~= seq![d2.last()]);
                    assert(msg@ == "unresolved shape include: "@ + text_at(sf, inc));
                    assert(include_target(shapes, sf, st, shape_id, inc) is None);
                    let e = d2.skip(d1.len() as int);
                    assert(e[0] == d2.last());
                    assert(""@ =~= Seq::<char>::empty());
                    assert(crate::diagnostics::simple(crate::diagnostics::Severity::Error, Seq::empty(), 0..0, msg@, e[0]));
                    assert(errors_reported(d2.skip(d1.len() as int), seq!["unresolved shape include: "@ + text_at(sf, inc)]));
                }
            },
        }
        proof {
            let e_prev = incs_errors(shapes, sf, st, shape_id, incs.take(i as int), (fuel - 1) as nat);
            let e_new = match include_target(shapes, sf, st, shape_id, inc) {
                Some(t) => expand_errors(shapes, sf, st, t, (fuel - 1) as nat),
                None => seq!["unresolved shape include: "@ + text_at(sf, inc)],
            };
            assert(incs_errors(shapes, sf, st, shape_id, incs.take(i + 1), (fuel - 1) as nat) == e_prev + e_new);
            lemma_errors_append(d0, d1, diag@, e_prev, e_new);
        }
        i += 1;
    }
    let ghost r1 = result@;
    let mut j: usize = 0;
    while j < shape.fields.len()
        invariant
            *shape == shapes[shape_id as int],
            shape_id < shapes.len(),
            j <= shape.fields@.len(),
            result@ == r1 + own_fields(shapes, shape_id).take(j as int),
            refs_valid(shapes, result@),
        decreases shape.fields.len() - j,
    {
        result.push((shape_id, j));
        proof {
            assert forall|k: int| 0 <= k < result@.len() implies #[trigger] result@[k].0 < shapes.len()
                && result@[k].1 < shapes[result@[k].0 as int].fields@.len() by {
                if k < result@.len() - 1 {
                    assert(result@[k] == result@.drop_last()[k]);
                }
            }
            assert(own_fields(shapes, shape_id).take(j + 1) =~= own_fields(shapes, shape_id).take(j as int).push((shape_id, j)));
        }
        j += 1;
    }
    proof {
        assert(incs.take(incs.len() as int) =~= incs);
        assert(own_fields(shapes, shape_id).take(shape.fields@.len() as int) =~= own_fields(shapes, shape_id));
    }
    result
}

pub(crate) proof fn lemma_errors_append(
    d0: Seq<crate::diagnostics::Diagnostic>,
    d1: Seq<crate::diagnostics::Diagnostic>,
    d2: Seq<crate::diagnostics::Diagnostic>,
    m1: Seq<Seq<char>>,
    m2: Seq<Seq<char>>,
)
    requires
        grows(d0, d1),
        grows(d1, d2),
        errors_reported(d1.skip(d0.len() as int), m1),
        errors_reported(d2.skip(d1.len() as int), m2),
    ensures
        grows(d0, d2),
        errors_reported(d2.skip(d0.len() as int), m1 + m2),
{
    assert forall|k: int| 0 <= k < d0.len() implies #[trigger] d2[k] == d0[k] by {
        assert(d2[k] == d1[k]);
    }
    let a = d1.skip(d0.len() as int);
    let b = d2.skip(d1.len() as int);
    assert(d2.skip(d0.len() as int) =~= a + b) by {
        assert forall|k: int| 0 <= k < a.len() implies #[trigger] d2[d0.len() + k] == a[k] by {
            assert(d2[d0.len() + k] == d1[d0.len() + k]);
        }
    }
}

// ── Copies ─────────────────────────────────────────────────────────────

/// `b` is a copy of the literal `a`.
pub open spec fn lit_same(a: LiteralValue, b: LiteralValue) -> bool
    decreases a,
{
    match (a, b) {
        (LiteralValue::Struct(xs), LiteralValue::Struct(ys)) => {
            &&& xs@.len() == ys@.len()
            &&& forall|i: int|
                0 <= i < xs@.len() ==> xs@[i].0 == ys@[i].0 && {
                    proof {
                        vstd::std_specs::vec::axiom_vec_index_decreases(xs, i);
                    }
                    lit_same(xs@[i].1, ys@[i].1)
                }
        },
        (LiteralValue::List(xs), LiteralValue::List(ys)) => {
            &&& xs@.len() == ys@.len()
            &&& forall|i: int| 0 <= i < xs@.len() ==> lit_same(xs@[i], ys@[i])
        },
        _ => a == b,
    }
}

/// `b` is a copy of the annotation call `a`.
pub open spec fn call_same(a: AnnotationCall, b: AnnotationCall) -> bool {
    &&& b.library == a.library
    &&& b.name == a.name
    &&& b.definition == a.definition
    &&& b.loc == a.loc
    &&& b.arguments@.len() == a.arguments@.len()
    &&& forall|i: int|
        0 <= i < a.arguments@.len() ==> (#[trigger] b.arguments@[i]).name == a.arguments@[i].name && lit_same(
            a.arguments@[i].value,
            b.arguments@[i].value,
        )
}

/// `b` are copies of the annotation calls `a`, in order.
pub open spec fn calls_same(a: Seq<AnnotationCall>, b: Seq<AnnotationCall>) -> bool {
    &&& b.len() == a.len()
    &&& forall|i: int| 0 <= i < a.len() ==> call_same(a[i], #[trigger] b[i])
}

/// A copy of a literal.
fn copy_literal(v: &LiteralValue) -> (r: LiteralValue)
    ensures
        lit_same(*v, r),
    decreases v,
{
    match v {
        LiteralValue::String(s) => LiteralValue::String(*s),
        LiteralValue::Int(n) => LiteralValue::Int(*n),
        LiteralValue::Float(s) => LiteralValue::Float(*s),
        LiteralValue::Bool(b) => LiteralValue::Bool(*b),
        LiteralValue::Ident(s) => LiteralValue::Ident(*s),
        LiteralValue::Struct(xs) => {
            let mut out: Vec<(Sym, LiteralValue)> = Vec::new();
            let mut i: usize = 0;
            while i < xs.len()
                invariant
                    *v == LiteralValue::Struct(*xs),
                    i <= xs@.len(),
                    out@.len() == i,
                    forall|k: int| 0 <= k < i ==> xs@[k].0 == out@[k].0 && lit_same(xs@[k].1, out@[k].1),
                decreases xs.len() - i,
            {
                proof {
                    vstd::std_specs::vec::axiom_vec_index_decreases(*xs, i as int);
                    assert(decreases_to!(*v => v->Struct_0));
                    assert(v->Struct_0 == *xs);
                    assert(decreases_to!(xs[i as int] => xs[i as int].1));
                    assert(decreases_to!(*v => xs[i as int].1));
                }
                let c = copy_literal(&xs[i].1);
                out.push((xs[i].0, c));
                i += 1;
            }
            LiteralValue::Struct(out)
        },
        LiteralValue::List(xs) => {
            let mut out: Vec<LiteralValue> = Vec::new();
            let mut i: usize = 0;
            while i < xs.len()
                invariant
                    *v == LiteralValue::List(*xs),
                    i <= xs@.len(),
                    out@.len() == i,
                    forall|k: int| 0 <= k < i ==> lit_same(xs@[k], out@[k]),
                decreases xs.len() - i,
            {
                proof {
                    vstd::std_specs::vec::axiom_vec_index_decreases(*xs, i as int);
                    assert(decreases_to!(*v => v->List_0));
                    assert(v->List_0 == *xs);
                    assert(decreases_to!(*v => xs[i as int]));
                }
                let c = copy_literal(&xs[i]);
                out.push(c);
                i += 1;
            }
            LiteralValue::List(out)
        },
    }
}

/// Copies of annotation calls.
pub(crate) fn copy_calls(cs: &Vec<AnnotationCall>) -> (r: Vec<AnnotationCall>)
    ensures
        calls_same(cs@, r@),
{
    let mut out: Vec<AnnotationCall> = Vec::new();
    let mut i: usize = 0;
    while i < cs.len()
        invariant
            i <= cs@.len(),
            out@.len() == i,
            forall|k: int| 0 <= k < i ==> call_same(cs@[k], #[trigger] out@[k]),
        decreases cs.len() - i,
    {
        let c = &cs[i];
        let mut args: Vec<AnnotationArgDef> = Vec::new();
        let mut j: usize = 0;
        while j < c.arguments.len()
            invariant
                j <= c.arguments@.len(),
                args@.len() == j,
                forall|k: int| 0 <= k < j ==> (#[trigger] args@[k]).name == c.arguments@[k].name && lit_same(c.arguments@[k].value, args@[k].value),
            decreases c.arguments.len() - j,
        {
            let v = copy_literal(&c.arguments[j].value);
            args.push(AnnotationArgDef { name: c.arguments[j].name, value: v });
            j += 1;
        }
        out.push(AnnotationCall { library: c.library, name: c.name, arguments: args, definition: c.definition, loc: c.loc.clone() });
        proof {
            assert forall|k: int| 0 <= k < i + 1 implies call_same(cs@[k], #[trigger] out@[k]) by {
                if k < i {
                    assert(out@[k] == out@.drop_last()[k]);
                }
            }
        }
        i += 1;
    }
    out
}

// ── Injections ─────────────────────────────────────────────────────────

/// An injection of a shape into a type, as the declarations write it: the
/// type's full name, the shape's name, the range's start and end, the
/// injection's position in the type body, and the package.
pub type InjectionSpec = (Seq<char>, Seq<char>, u32, u32, int, Seq<char>);

/// The injections among the shape injections `ns` of the type with full
/// name `full` of package `pkg`, each at its position among `ns`; those
/// that name no shape are left out.
pub open spec fn injections_in(ns: Seq<SyntaxNode>, full: Seq<char>, pkg: Seq<char>) -> Seq<InjectionSpec>
    decreases ns.len(),
{
    if ns.len() == 0 {
        Seq::empty()
    } else {
        let n = ns.last();
        injections_in(ns.drop_last(), full, pkg) + if full_name_text(n).len() > 0 {
            seq![
                (
                    full,
                    full_name_text(n),
                    match int_literal_value(n, 0) {
                        Some(v) => v,
                        None => 0,
                    },
                    match int_literal_value(n, 1) {
                        Some(v) => v,
                        None => 0,
                    },
                    ns.len() - 1,
                    pkg,
                ),
            ]
        } else {
            Seq::empty()
        }
    }
}

/// The injections of type declaration `d` of package `pkg`.
pub open spec fn decl_injections(d: SyntaxNode, pkg: Seq<char>) -> Seq<InjectionSpec> {
    if name_bytes(d) is Some {
        match first_child(d, SyntaxKind::TypeBody) {
            Some(b) => injections_in(child_nodes(b, SyntaxKind::ShapeInjection), qualified(pkg, name_text(d)), pkg),
            None => Seq::empty(),
        }
    } else {
        Seq::empty()
    }
}

/// The injections of the type declarations `ds` of package `pkg`, in order.
pub open spec fn decls_injections(ds: Seq<SyntaxNode>, pkg: Seq<char>) -> Seq<InjectionSpec>
    decreases ds.len(),
{
    if ds.len() == 0 {
        Seq::empty()
    } else {
        decls_injections(ds.drop_last(), pkg) + decl_injections(ds.last(), pkg)
    }
}

/// The injections of file `f` (none where its root is not a file root).
pub open spec fn file_injections(f: ParsedFile) -> Seq<InjectionSpec> {
    if f.root.spec_kind() == SyntaxKind::Root {
        decls_injections(child_nodes(f.root, SyntaxKind::TypeDecl), f.package@)
    } else {
        Seq::empty()
    }
}

/// The injections of the files `fs`, in order.
pub open spec fn files_injections(fs: Seq<ParsedFile>) -> Seq<InjectionSpec>
    decreases fs.len(),
{
    if fs.len() == 0 {
        Seq::empty()
    } else {
        files_injections(fs.drop_last()) + file_injections(fs.last())
    }
}

/// The named type declarations of the files `fs` with a root.
pub open spec fn files_named_decls(fs: Seq<ParsedFile>) -> nat
    decreases fs.len(),
{
    if fs.len() == 0 {
        0
    } else {
        files_named_decls(fs.drop_last()) + if fs.last().root.spec_kind() == SyntaxKind::Root {
            named(child_nodes(fs.last().root, SyntaxKind::TypeDecl)).len()
        } else {
            0
        }
    }
}

/// A collected injection.
struct Injection {
    type_full_name: Sym,
    shape_name: String,
    range_start: u32,
    range_end: u32,
    insert_position: usize,
    pkg: String,
}

/// `x` is the collected form of `spec`: the type's full name as a symbol.
spec fn injection_is(strs: Seq<Seq<char>>, x: Injection, spec: InjectionSpec) -> bool {
    &&& names(strs, x.type_full_name, spec.0)
    &&& x.shape_name@ == spec.1
    &&& x.range_start == spec.2
    &&& x.range_end == spec.3
    &&& x.insert_position == spec.4
    &&& x.pkg@ == spec.5
}

proof fn lemma_injections_grow(s1: Seq<Seq<char>>, s2: Seq<Seq<char>>, xs: Seq<Injection>, specs: Seq<InjectionSpec>)
    requires
        grows(s1, s2),
        xs.len() == specs.len(),
        forall|k: int| 0 <= k < xs.len() ==> injection_is(s1, #[trigger] xs[k], specs[k]),
    ensures
        forall|k: int| 0 <= k < xs.len() ==> injection_is(s2, #[trigger] xs[k], specs[k]),
{
    assert forall|k: int| 0 <= k < xs.len() implies injection_is(s2, #[trigger] xs[k], specs[k]) by {
        assert(s2[xs[k].type_full_name as int] == s1[xs[k].type_full_name as int]);
    }
}

/// Append the injections of type declaration `decl` of package `pkg`.
fn collect_decl_injections(decl: &TypeDecl, pkg: &str, interner: &mut Interner, out: &mut Vec<Injection>, Ghost(specs): Ghost<Seq<InjectionSpec>>)
    requires
        node_ok(decl.node()),
        distinct(interned(*old(interner))),
        name_bytes(decl.node()) is Some ==> interned(*old(interner)).len() + 1 < u32::MAX,
        old(out)@.len() == specs.len(),
        forall|k: int| 0 <= k < specs.len() ==> injection_is(interned(*old(interner)), #[trigger] old(out)@[k], specs[k]),
    ensures
        grows(interned(*old(interner)), interned(*final(interner))),
        distinct(interned(*final(interner))),
        interned(*final(interner)).len() <= interned(*old(interner)).len() + if name_bytes(decl.node()) is Some {
            1int
        } else {
            0
        },
        final(out)@.len() == specs.len() + decl_injections(decl.node(), pkg@).len(),
        forall|k: int|
            0 <= k < final(out)@.len() ==> injection_is(
                interned(*final(interner)),
                #[trigger] final(out)@[k],
                (specs + decl_injections(decl.node(), pkg@))[k],
            ),
{
    let ghost s0 = interned(*interner);
    let ghost d = decl.node();
    proof {
        assert forall|k: int| 0 <= k < s0.len() implies #[trigger] s0[k] == s0[k] by {}
        assert(specs + Seq::<InjectionSpec>::empty() =~= specs);
    }
    let nm = decl.name();
    proof {
        lemma_name_token(d, nm);
    }
    let tok = match nm {
        Some(t) => t,
        None => {
            return;
        },
    };
    let name = tok.text();
    let full = qualify(pkg, name.as_str());
    let full_sym = interner.intern(full.as_str());
    let ghost s1 = interned(*interner);
    proof {
        lemma_index_of(s1, full_sym as int, full@);
        lemma_injections_grow(s0, s1, out@, specs);
    }
    let bo = decl.body();
    proof {
        lemma_first_child(d, bo, SyntaxKind::TypeBody);
    }
    let body = match bo {
        Some(b) => b,
        None => {
            return;
        },
    };
    let ghost bn = body.node();
    let ghost ns = child_nodes(bn, SyntaxKind::ShapeInjection);
    let injs = body.shape_injections();
    proof {
        lemma_children_nodes(bn, injs@, SyntaxKind::ShapeInjection);
        assert(ns.take(0) =~= Seq::<SyntaxNode>::empty());
    }
    let mut i: usize = 0;
    while i < injs.len()
        invariant
            injs@.len() == ns.len(),
            ns == child_nodes(bn, SyntaxKind::ShapeInjection),
            forall|k: int| 0 <= k < ns.len() ==> (#[trigger] injs@[k]).node() == ns[k],
            i <= ns.len(),
            s1 == interned(*interner),
            names(s1, full_sym, full@),
            full@ == qualified(pkg@, name_text(d)),
            out@.len() == specs.len() + injections_in(ns.take(i as int), full@, pkg@).len(),
            forall|k: int|
                0 <= k < out@.len() ==> injection_is(s1, #[trigger] out@[k], (specs + injections_in(ns.take(i as int), full@, pkg@))[k]),
        decreases injs.len() - i,
    {
        let inj = &injs[i];
        let shape_name = inj.full_name();
        proof {
            assert(ns.take(i + 1).drop_last() =~= ns.take(i as int));
            assert(ns.take(i + 1).last() == ns[i as int]);
        }
        if shape_name.unicode_len() > 0 {
            let start = match inj.range_start() {
                Some(v) => v,
                None => 0,
            };
            let end = match inj.range_end() {
                Some(v) => v,
                None => 0,
            };
            let ghost prev = out@;
            out.push(Injection {
                type_full_name: full_sym,
                shape_name,
                range_start: start,
                range_end: end,
                insert_position: i,
                pkg: String::from_str(pkg),
            });
            proof {
                let a = specs + injections_in(ns.take(i as int), full@, pkg@);
                let b = specs + injections_in(ns.take(i + 1), full@, pkg@);
                assert(b =~= a.push((full@, full_name_text(ns[i as int]), start, end, i as int, pkg@)));
                assert forall|k: int| 0 <= k < out@.len() implies injection_is(s1, #[trigger] out@[k], b[k]) by {
                    if k < prev.len() {
                        assert(out@[k] == prev[k]);
                    }
                }
            }
        } else {
            proof {
                let a = specs + injections_in(ns.take(i as int), full@, pkg@);
                let b = specs + injections_in(ns.take(i + 1), full@, pkg@);
                assert(b =~= a);
            }
        }
        i += 1;
    }
    proof {
        assert(ns.take(ns.len() as int) =~= ns);
    }
}

proof fn lemma_decls_injections_step(ds: Seq<SyntaxNode>, i: int, pkg: Seq<char>)
    requires
        0 <= i < ds.len(),
    ensures
        decls_injections(ds.take(i + 1), pkg) == decls_injections(ds.take(i), pkg) + decl_injections(ds[i], pkg),
{
    assert(ds.take(i + 1).drop_last() =~= ds.take(i));
}

proof fn lemma_named_len(ds: Seq<SyntaxNode>, i: int)
    requires
        0 <= i <= ds.len(),
    ensures
        named(ds.take(i)).len() <= named(ds).len(),
    decreases ds.len() - i,
{
    if i < ds.len() {
        lemma_named_len(ds, i + 1);
        crate::index::lemma_named_step(ds, i);
    } else {
        assert(ds.take(i) =~= ds);
    }
}

proof fn lemma_files_injections_step(fs: Seq<ParsedFile>, i: int)
    requires
        0 <= i < fs.len(),
    ensures
        files_injections(fs.take(i + 1)) == files_injections(fs.take(i)) + file_injections(fs[i]),
        files_named_decls(fs.take(i + 1)) == files_named_decls(fs.take(i)) + if fs[i].root.spec_kind() == SyntaxKind::Root {
            named(child_nodes(fs[i].root, SyntaxKind::TypeDecl)).len()
        } else {
            0
        },
        files_named_decls(fs.take(i + 1)) <= files_named_decls(fs),
    decreases fs.len(),
{
    assert(fs.take(i + 1).drop_last() =~= fs.take(i));
    if i + 1 < fs.len() {
        lemma_files_injections_step(fs.drop_last(), i);
        assert(fs.drop_last().take(i + 1) =~= fs.take(i + 1));
        assert(fs.drop_last().take(i) =~= fs.take(i));
    } else {
        assert(fs.take(i + 1) =~= fs);
    }
}

/// The injections of the files, in order, each type's full name interned.
fn collect_injections(files: &[ParsedFile], interner: &mut Interner) -> (r: Vec<Injection>)
    requires
        distinct(interned(*old(interner))),
        interned(*old(interner)).len() + files_named_decls(files@) < u32::MAX,
    ensures
        grows(interned(*old(interner)), interned(*final(interner))),
        distinct(interned(*final(interner))),
        interned(*final(interner)).len() <= interned(*old(interner)).len() + files_named_decls(files@),
        r@.len() == files_injections(files@).len(),
        forall|k: int| 0 <= k < r@.len() ==> injection_is(interned(*final(interner)), #[trigger] r@[k], files_injections(files@)[k]),
{
    let ghost s0 = interned(*interner);
    let ghost fs = files@;
    proof {
        assert forall|k: int| 0 <= k < s0.len() implies #[trigger] s0[k] == s0[k] by {}
        assert(fs.take(0) =~= Seq::<ParsedFile>::empty());
    }
    let mut out: Vec<Injection> = Vec::new();
    let mut f: usize = 0;
    while f < files.len()
        invariant
            fs == files@,
            f <= fs.len(),
            s0.len() + files_named_decls(fs) < u32::MAX,
            grows(s0, interned(*interner)),
            distinct(interned(*interner)),
            interned(*interner).len() <= s0.len() + files_named_decls(fs.take(f as int)),
            out@.len() == files_injections(fs.take(f as int)).len(),
            forall|k: int| 0 <= k < out@.len() ==> injection_is(interned(*interner), #[trigger] out@[k], files_injections(fs.take(f as int))[k]),
        decreases files.len() - f,
    {
        let ghost sa = interned(*interner);
        let ghost prev = files_injections(fs.take(f as int));
        let file = &files[f];
        proof {
            lemma_files_injections_step(fs, f as int);
        }
        match Root::cast(file.root.clone()) {
            Some(root) => {
                file.root.check_ok();
                let ghost rn = file.root;
                let decls = root.type_decls();
                let ghost ds = child_nodes(rn, SyntaxKind::TypeDecl);
                proof {
                    lemma_children_nodes(rn, decls@, SyntaxKind::TypeDecl);
                    crate::resolve::lemma_child_nodes_below(rn, SyntaxKind::TypeDecl);
                    assert(ds.take(0) =~= Seq::<SyntaxNode>::empty());
                    assert(prev + Seq::<InjectionSpec>::empty() =~= prev);
                    assert(named(ds.take(0)) =~= Seq::<SyntaxNode>::empty());
                }
                let mut i: usize = 0;
                while i < decls.len()
                    invariant
                        ds == child_nodes(rn, SyntaxKind::TypeDecl),
                        rn == file.root,
                        rn.spec_kind() == SyntaxKind::Root,
                        decls@.len() == ds.len(),
                        forall|k: int| 0 <= k < ds.len() ==> (#[trigger] decls@[k]).node() == ds[k],
                        forall|k: int| 0 <= k < ds.len() ==> node_ok(#[trigger] ds[k]),
                        i <= ds.len(),
                        s0.len() + files_named_decls(fs) < u32::MAX,
                        sa.len() <= s0.len() + files_named_decls(fs.take(f as int)),
                        files_named_decls(fs.take(f + 1)) == files_named_decls(fs.take(f as int)) + named(ds).len(),
                        files_named_decls(fs.take(f + 1)) <= files_named_decls(fs),
                        grows(s0, sa),
                        grows(sa, interned(*interner)),
                        distinct(interned(*interner)),
                        interned(*interner).len() <= sa.len() + named(ds.take(i as int)).len(),
                        out@.len() == prev.len() + decls_injections(ds.take(i as int), file.package@).len(),
                        forall|k: int|
                            0 <= k < out@.len() ==> injection_is(
                                interned(*interner),
                                #[trigger] out@[k],
                                (prev + decls_injections(ds.take(i as int), file.package@))[k],
                            ),
                    decreases decls.len() - i,
                {
                    let ghost sb = interned(*interner);
                    let ghost before = prev + decls_injections(ds.take(i as int), file.package@);
                    proof {
                        lemma_decls_injections_step(ds, i as int, file.package@);
                        crate::index::lemma_named_step(ds, i as int);
                        lemma_named_len(ds, i + 1);
                        assert(decls@[i as int].node() == ds[i as int]);
                    }
                    collect_decl_injections(&decls[i], file.package.as_str(), interner, &mut out, Ghost(before));
                    proof {
                        assert(before + decl_injections(ds[i as int], file.package@) =~= prev + decls_injections(ds.take(i + 1), file.package@));
                        crate::populate::lemma_grows_trans(sa, sb, interned(*interner));
                    }
                    i += 1;
                }
                proof {
                    assert(ds.take(ds.len() as int) =~= ds);
                    crate::populate::lemma_grows_trans(s0, sa, interned(*interner));
                }
            },
            None => {
                proof {
                    assert(prev + Seq::<InjectionSpec>::empty() =~= prev);
                }
            },
        }
        f += 1;
    }
    proof {
        assert(fs.take(fs.len() as int) =~= fs);
    }
    out
}

// ── Expansion does not depend on later strings ─────────────────────────

proof fn lemma_target_same(
    shapes: Seq<ShapeDef>,
    s1: Seq<Seq<char>>,
    s2: Seq<Seq<char>>,
    st: Map<Seq<char>, u32>,
    sid: u32,
    inc: Sym,
)
    requires
        grows(s1, s2),
        shapes_interned(shapes, s1),
        sid < shapes.len(),
        inc < s1.len(),
    ensures
        include_target(shapes, s1, st, sid, inc) == include_target(shapes, s2, st, sid, inc),
        text_at(s1, inc) == text_at(s2, inc),
{
    assert(shapes[sid as int].full_name < s1.len());
    assert(s2[shapes[sid as int].full_name as int] == s1[shapes[sid as int].full_name as int]);
    assert(s2[inc as int] == s1[inc as int]);
}

pub(crate) proof fn lemma_expanded_same(
    shapes: Seq<ShapeDef>,
    s1: Seq<Seq<char>>,
    s2: Seq<Seq<char>>,
    st: Map<Seq<char>, u32>,
    sid: u32,
    fuel: nat,
)
    requires
        grows(s1, s2),
        shapes_interned(shapes, s1),
    ensures
        expanded(shapes, s1, st, sid, fuel) == expanded(shapes, s2, st, sid, fuel),
        expand_errors(shapes, s1, st, sid, fuel) == expand_errors(shapes, s2, st, sid, fuel),
        depth_ok(shapes, s1, st, sid, fuel) == depth_ok(shapes, s2, st, sid, fuel),
    decreases fuel, 0nat,
{
    if fuel > 0 && sid < shapes.len() {
        let incs = shapes[sid as int].includes@;
        assert(forall|j: int| 0 <= j < incs.len() ==> #[trigger] incs[j] < s1.len());
        lemma_incs_same(shapes, s1, s2, st, sid, incs, (fuel - 1) as nat);
    }
}

proof fn lemma_incs_same(
    shapes: Seq<ShapeDef>,
    s1: Seq<Seq<char>>,
    s2: Seq<Seq<char>>,
    st: Map<Seq<char>, u32>,
    sid: u32,
    incs: Seq<Sym>,
    fuel: nat,
)
    requires
        grows(s1, s2),
        shapes_interned(shapes, s1),
        sid < shapes.len(),
        forall|j: int| 0 <= j < incs.len() ==> #[trigger] incs[j] < s1.len(),
    ensures
        incs_expanded(shapes, s1, st, sid, incs, fuel) == incs_expanded(shapes, s2, st, sid, incs, fuel),
        incs_errors(shapes, s1, st, sid, incs, fuel) == incs_errors(shapes, s2, st, sid, incs, fuel),
        incs_ok(shapes, s1, st, sid, incs, fuel) == incs_ok(shapes, s2, st, sid, incs, fuel),
    decreases fuel, incs.len() + 1,
{
    if incs.len() > 0 {
        lemma_incs_same(shapes, s1, s2, st, sid, incs.drop_last(), fuel);
        assert(incs.last() == incs[incs.len() - 1]);
        lemma_target_same(shapes, s1, s2, st, sid, incs.last());
        if let Some(t) = include_target(shapes, s1, st, sid, incs.last()) {
            lemma_expanded_same(shapes, s1, s2, st, t, fuel);
        }
    }
}


proof fn lemma_by_name_same(shapes: Seq<ShapeDef>, s1: Seq<Seq<char>>, s2: Seq<Seq<char>>, name: Seq<char>, k: int)
    requires
        grows(s1, s2),
        shapes_interned(shapes, s1),
    ensures
        shape_by_name(shapes, s1, name, k) == shape_by_name(shapes, s2, name, k),
    decreases shapes.len() - k,
{
    if 0 <= k < shapes.len() {
        assert(shapes[k].name < s1.len());
        assert(s2[shapes[k].name as int] == s1[shapes[k].name as int]);
        lemma_by_name_same(shapes, s1, s2, name, k + 1);
    }
}

proof fn lemma_by_qualified_same(
    shapes: Seq<ShapeDef>,
    s1: Seq<Seq<char>>,
    s2: Seq<Seq<char>>,
    pkg: Seq<char>,
    name: Seq<char>,
    k: int,
)
    requires
        grows(s1, s2),
        shapes_interned(shapes, s1),
    ensures
        shape_by_qualified(shapes, s1, pkg, name, k) == shape_by_qualified(shapes, s2, pkg, name, k),
    decreases shapes.len() - k,
{
    if 0 <= k < shapes.len() {
        assert(shapes[k].name < s1.len());
        assert(s2[shapes[k].name as int] == s1[shapes[k].name as int]);
        assert(s2[shapes[k].full_name as int] == s1[shapes[k].full_name as int]);
        lemma_by_qualified_same(shapes, s1, s2, pkg, name, k + 1);
    }
}

/// The shape a name names does not depend on strings interned later.
pub(crate) proof fn lemma_named_shape_same(
    shapes: Seq<ShapeDef>,
    s1: Seq<Seq<char>>,
    s2: Seq<Seq<char>>,
    st: Map<Seq<char>, u32>,
    name: Seq<char>,
    pkg: Seq<char>,
)
    requires
        grows(s1, s2),
        shapes_interned(shapes, s1),
    ensures
        named_shape(shapes, s1, st, name, pkg) == named_shape(shapes, s2, st, name, pkg),
{
    let d = first_dot(name, 0);
    lemma_by_name_same(shapes, s1, s2, name, 0);
    if d < name.len() {
        lemma_by_qualified_same(shapes, s1, s2, name.take(d), name.skip(d + 1), 0);
    }
}

// ── Applying injections ────────────────────────────────────────────────

/// The type that injection `x` goes into, where its full name is a type.
pub open spec fn inj_type(x: InjectionSpec, tt: Map<Seq<char>, u32>) -> Option<u32> {
    if tt.contains_key(x.0) {
        Some(tt[x.0])
    } else {
        None
    }
}

/// The shape that injection `x` names, if any.
pub open spec fn inj_shape(x: InjectionSpec, shapes: Seq<ShapeDef>, strs: Seq<Seq<char>>, st: Map<Seq<char>, u32>) -> Option<int> {
    named_shape(shapes, strs, st, x.1, x.5)
}

/// The fields, as (shape, position) pairs, that injection `x` injects.
pub open spec fn inj_refs(
    x: InjectionSpec,
    shapes: Seq<ShapeDef>,
    strs: Seq<Seq<char>>,
    st: Map<Seq<char>, u32>,
    fuel: nat,
) -> Seq<(u32, usize)> {
    match inj_shape(x, shapes, strs, st) {
        Some(sid) => expanded(shapes, strs, st, sid as u32, fuel),
        None => Seq::empty(),
    }
}

/// How many fields the range of injection `x` holds.
pub open spec fn range_size(x: InjectionSpec) -> int {
    x.3 - x.2 + 1
}

/// The message for an injection whose shape has `n` fields, more than its range holds.
pub open spec fn range_message(x: InjectionSpec, n: nat) -> Seq<char> {
    "shape "@ + x.1 + " has "@ + nat_text(n) + " fields but injection range "@ + nat_text(x.2 as nat) + ".."@
        + nat_text(x.3 as nat) + " only fits "@ + nat_text(range_size(x) as nat)
}

/// The errors that applying injection `x` reports: where its type is
/// found, an unresolved shape, or the shape's include errors and, where
/// it has more fields than the range holds, that.
pub open spec fn inj_messages(
    x: InjectionSpec,
    tt: Map<Seq<char>, u32>,
    shapes: Seq<ShapeDef>,
    strs: Seq<Seq<char>>,
    st: Map<Seq<char>, u32>,
    fuel: nat,
) -> Seq<Seq<char>> {
    if inj_type(x, tt) is None {
        Seq::empty()
    } else {
        match inj_shape(x, shapes, strs, st) {
            None => seq!["unresolved shape: "@ + x.1],
            Some(sid) => expand_errors(shapes, strs, st, sid as u32, fuel) + if inj_refs(x, shapes, strs, st, fuel).len()
                > range_size(x) {
                seq![range_message(x, inj_refs(x, shapes, strs, st, fuel).len())]
            } else {
                Seq::empty()
            },
        }
    }
}

/// Injection `x` can be applied without its range arithmetic overflowing,
/// and the shape it names includes no shape that includes it in turn.
pub open spec fn inj_sound(
    x: InjectionSpec,
    tt: Map<Seq<char>, u32>,
    shapes: Seq<ShapeDef>,
    strs: Seq<Seq<char>>,
    st: Map<Seq<char>, u32>,
    fuel: nat,
) -> bool {
    inj_type(x, tt) is Some ==> match inj_shape(x, shapes, strs, st) {
        Some(sid) => {
            &&& depth_ok(shapes, strs, st, sid as u32, fuel)
            &&& x.2 <= x.3 < u32::MAX
            &&& x.2 + inj_refs(x, shapes, strs, st, fuel).len() <= u32::MAX + 1
        },
        None => true,
    }
}

/// Field `f` is injected from shape field `sd`, with number `number`, from
/// the shape `origin` named `origin_name` at range `start..end`.
pub open spec fn injected_ok(
    f: FieldDef,
    sd: ShapeFieldDef,
    origin_name: Sym,
    origin: u32,
    number: u32,
    start: u32,
    end: u32,
) -> bool {
    &&& f.name == sd.name
    &&& f.number == number
    &&& f.ty == sd.ty
    &&& f.is_optional == (sd.ty is Array)
    &&& !f.is_repeated
    &&& calls_same(sd.annotations@, f.annotations@)
    &&& f.mapping is None
    &&& f.trace == Some(
        FieldTrace {
            shape: Some(ShapeOrigin { shape_name: origin_name, shape_id: origin, range_start: start, range_end: end }),
        },
    )
    &&& f.loc.file is None
    &&& f.loc.span == (0usize..0usize)
}

/// The fields `block` are those that injection `x` of shape `sid` injects.
pub open spec fn block_ok(
    block: Seq<FieldDef>,
    x: InjectionSpec,
    sid: u32,
    refs: Seq<(u32, usize)>,
    shapes: Seq<ShapeDef>,
) -> bool {
    &&& block.len() == refs.len()
    &&& forall|k: int|
        0 <= k < block.len() ==> injected_ok(
            #[trigger] block[k],
            shapes[refs[k].0 as int].fields@[refs[k].1 as int],
            shapes[sid as int].name,
            sid,
            (x.2 + k) as u32,
            x.2,
            x.3,
        )
}

/// Type `b` is type `a` with the fields `block` inserted at position `p`
/// (or at the end where `p` is past it), all else as it was.
pub open spec fn inserted_at(a: TypeDef, b: TypeDef, block: Seq<FieldDef>, p: int) -> bool {
    let q = if p < a.fields@.len() {
        p
    } else {
        a.fields@.len() as int
    };
    &&& b.fields@ == a.fields@.take(q) + block + a.fields@.skip(q)
    &&& b.name == a.name
    &&& b.full_name == a.full_name
    &&& b.oneofs == a.oneofs
    &&& b.nested_types == a.nested_types
    &&& b.nested_enums == a.nested_enums
    &&& b.annotations == a.annotations
    &&& b.back_references == a.back_references
    &&& b.trace == a.trace
    &&& b.loc == a.loc
}

/// Apply one injection: where its type is found and its shape resolves,
/// the shape's expanded fields are inserted into the type at the
/// injection's position, numbered from the range's start.
fn apply_injection(
    inj: &Injection,
    interner: &mut Interner,
    arenas: &mut Arenas,
    symbols: &SymbolTable,
    diag: &mut Diagnostics,
    Ghost(x): Ghost<InjectionSpec>,
    Ghost(s0): Ghost<Seq<Seq<char>>>,
    Ghost(fuel): Ghost<nat>,
)
    requires
        injection_is(interned(*old(interner)), *inj, x),
        grows(s0, interned(*old(interner))),
        distinct(interned(*old(interner))),
        interned(*old(interner)).len() + 1 < u32::MAX,
        keys_below(symbols.types@, s0.len()),
        keys_below(symbols.shapes@, s0.len()),
        shapes_interned(shape_defs(old(arenas).shapes), s0),
        shape_defs(old(arenas).shapes).len() <= u32::MAX,
        forall|k: Sym| #[trigger] symbols.types@.contains_key(k) ==> symbols.types@[k] < type_defs(old(arenas).types).len(),
        forall|k: Sym| #[trigger] symbols.shapes@.contains_key(k) ==> symbols.shapes@[k] < shape_defs(old(arenas).shapes).len(),
        inj_sound(
            x,
            text_table(s0, symbols.types@),
            shape_defs(old(arenas).shapes),
            s0,
            text_table(s0, symbols.shapes@),
            fuel,
        ),
    ensures
        grows(interned(*old(interner)), interned(*final(interner))),
        distinct(interned(*final(interner))),
        interned(*final(interner)).len() <= interned(*old(interner)).len() + 1,
        ({
            let tt = text_table(s0, symbols.types@);
            let st = text_table(s0, symbols.shapes@);
            let shapes = shape_defs(old(arenas).shapes);
            let a = type_defs(old(arenas).types);
            let b = type_defs(final(arenas).types);
            &&& b.len() == a.len()
            &&& match (inj_type(x, tt), inj_shape(x, shapes, s0, st)) {
                (Some(t), Some(sid)) => exists|block: Seq<FieldDef>|
                    {
                        &&& #[trigger] block_ok(block, x, sid as u32, inj_refs(x, shapes, s0, st, fuel), shapes)
                        &&& inserted_at(a[t as int], b[t as int], block, x.4)
                        &&& forall|u: int| 0 <= u < a.len() && u != t ==> b[u] == a[u]
                    },
                _ => b == a,
            }
            &&& errors_reported(final(diag)@.skip(old(diag)@.len() as int), inj_messages(x, tt, shapes, s0, st, fuel))
        }),
        final(arenas).shapes == old(arenas).shapes,
        final(arenas).enums == old(arenas).enums,
        final(arenas).services == old(arenas).services,
        final(arenas).annotation_defs == old(arenas).annotation_defs,
        grows(old(diag)@, final(diag)@),
{
    let ghost s1 = interned(*interner);
    let ghost tt = text_table(s0, symbols.types@);
    let ghost st = text_table(s0, symbols.shapes@);
    let ghost shapes = shape_defs(arenas.shapes);
    let ghost a = type_defs(arenas.types);
    let ghost d0 = diag@;
    proof {
        assert(d0.skip(d0.len() as int) =~= Seq::<crate::diagnostics::Diagnostic>::empty());
        assert forall|k: int| 0 <= k < s1.len() implies #[trigger] s1[k] == s1[k] by {}
        lemma_lookup(s0, s1, symbols.types@, inj.type_full_name, x.0);
    }
    let type_id = match symbols.types.get(&inj.type_full_name) {
        Some(id) => *id,
        None => {
            return;
        },
    };
    proof {
        crate::resolve::lemma_text_table_grow(s0, s1, symbols.shapes@);
        assert forall|k: int| 0 <= k < shapes.len() implies #[trigger] shapes[k].name < s1.len() && shapes[k].full_name < s1.len()
            && forall|j: int| 0 <= j < shapes[k].includes@.len() ==> #[trigger] shapes[k].includes@[j] < s1.len() by {
            assert(shapes[k].name < s0.len());
        }
        lemma_named_shape_same(shapes, s0, s1, st, x.1, x.5);
    }
    let sr = resolve_shape_name(inj.shape_name.as_str(), inj.pkg.as_str(), interner, arenas, symbols);
    let ghost s2 = interned(*interner);
    let shape_id = match sr {
        Some(id) => id,
        None => {
            let msg = crate::index::message("unresolved shape: ", inj.shape_name.as_str());
            diag.error("", 0..0, msg.as_str());
            proof {
                reveal_strlit("");
                let d2 = diag@;
                let e = d2.skip(d0.len() as int);
                assert(e =~= seq![d2.last()]);
                assert(""@ =~= Seq::<char>::empty());
                assert(errors_reported(e, seq!["unresolved shape: "@ + x.1]));
            }
            return;
        },
    };
    proof {
        crate::populate::lemma_grows_trans(s0, s1, s2);
        crate::resolve::lemma_text_table_grow(s0, s2, symbols.shapes@);
        lemma_expanded_same(shapes, s0, s2, st, shape_id, fuel);
        assert forall|k: int| 0 <= k < shapes.len() implies #[trigger] shapes[k].name < s2.len() && shapes[k].full_name < s2.len()
            && forall|j: int| 0 <= j < shapes[k].includes@.len() ==> #[trigger] shapes[k].includes@[j] < s2.len() by {
            assert(shapes[k].name < s0.len());
        }
    }
    let refs = expand_shape_fields(shape_id, arenas, interner, symbols, diag, Ghost(fuel));
    let ghost d1 = diag@;
    let ghost rr = inj_refs(x, shapes, s0, st, fuel);
    let range_size: usize = (inj.range_end - inj.range_start + 1) as usize;
    if refs.len() > range_size {
        let mut m = crate::index::message("shape ", inj.shape_name.as_str());
        m.append(" has ");
        let n1 = crate::workflow::count_string(refs.len() as u64);
        m.append(n1.as_str());
        m.append(" fields but injection range ");
        let n2 = crate::workflow::count_string(inj.range_start as u64);
        m.append(n2.as_str());
        m.append("..");
        let n3 = crate::workflow::count_string(inj.range_end as u64);
        m.append(n3.as_str());
        m.append(" only fits ");
        let n4 = crate::workflow::count_string(range_size as u64);
        m.append(n4.as_str());
        diag.error("", 0..0, m.as_str());
        proof {
            reveal_strlit("");
            reveal_strlit(" has ");
            reveal_strlit(" fields but injection range ");
            reveal_strlit("..");
            reveal_strlit(" only fits ");
            assert(m@ =~= range_message(x, rr.len()));
            let d2 = diag@;
            assert(d2.skip(d1.len() as int) =~= seq![d2.last()]);
            assert(""@ =~= Seq::<char>::empty());
            assert(errors_reported(d2.skip(d1.len() as int), seq![range_message(x, rr.len())]));
            lemma_errors_append(d0, d1, d2, expand_errors(shapes, s0, st, shape_id, fuel), seq![range_message(x, rr.len())]);
        }
    } else {
        proof {
            assert(expand_errors(shapes, s0, st, shape_id, fuel) + Seq::<Seq<char>>::empty() =~= expand_errors(
                shapes,
                s0,
                st,
                shape_id,
                fuel,
            ));
        }
    }
    // The injected fields.
    let origin_name = shape_def_at(&arenas.shapes, shape_id).name;
    let mut block: Vec<FieldDef> = Vec::new();
    let mut k: usize = 0;
    while k < refs.len()
        invariant
            k <= refs@.len(),
            refs@ == rr,
            refs_valid(shapes, refs@),
            shapes == shape_defs(arenas.shapes),
            shape_id < shapes.len(),
            origin_name == shapes[shape_id as int].name,
            inj.range_start == x.2,
            inj.range_end == x.3,
            x.2 + rr.len() <= u32::MAX + 1,
            block@.len() == k,
            forall|j: int|
                0 <= j < k ==> injected_ok(
                    #[trigger] block@[j],
                    shapes[refs@[j].0 as int].fields@[refs@[j].1 as int],
                    origin_name,
                    shape_id,
                    (x.2 + j) as u32,
                    x.2,
                    x.3,
                ),
        decreases refs.len() - k,
    {
        let (sid2, fi) = refs[k];
        let sh = shape_def_at(&arenas.shapes, sid2);
        let sf = &sh.fields[fi];
        let is_optional = match &sf.ty {
            ResolvedType::Array(_) => true,
            _ => false,
        };
        let f = FieldDef {
            name: sf.name,
            number: inj.range_start + k as u32,
            ty: sf.ty.clone(),
            is_optional,
            is_repeated: false,
            annotations: copy_calls(&sf.annotations),
            mapping: None,
            trace: Some(
                FieldTrace {
                    shape: Some(
                        ShapeOrigin {
                            shape_name: origin_name,
                            shape_id,
                            range_start: inj.range_start,
                            range_end: inj.range_end,
                        },
                    ),
                },
            ),
            loc: Loc::default(),
        };
        block.push(f);
        proof {
            assert forall|j: int| 0 <= j < k + 1 implies injected_ok(
                #[trigger] block@[j],
                shapes[refs@[j].0 as int].fields@[refs@[j].1 as int],
                origin_name,
                shape_id,
                (x.2 + j) as u32,
                x.2,
                x.3,
            ) by {
                if j < k {
                    assert(block@[j] == block@.drop_last()[j]);
                }
            }
        }
        k += 1;
    }
    let ghost blk = block@;
    // Insert them at the injection's position.
    let def = type_def_mut(&mut arenas.types, type_id);
    let mut fields: Vec<FieldDef> = Vec::new();
    std::mem::swap(&mut fields, &mut def.fields);
    let ghost old_fields = fields@;
    let pos = if inj.insert_position < fields.len() {
        inj.insert_position
    } else {
        fields.len()
    };
    proof {
        assert(block@.take(block@.len() as int) =~= block@);
        assert(old_fields.take(pos as int) + blk.skip(block@.len() as int) + old_fields.skip(pos as int) =~= old_fields);
    }
    while block.len() > 0
        invariant
            pos <= old_fields.len(),
            block@ == blk.take(block@.len() as int),
            block@.len() <= blk.len(),
            fields@ == old_fields.take(pos as int) + blk.skip(block@.len() as int) + old_fields.skip(pos as int),
        decreases block.len(),
    {
        let ghost m = block@.len();
        let f = block.pop().unwrap();
        fields.insert(pos, f);
        proof {
            assert(blk.skip(m - 1) =~= seq![blk[m - 1]] + blk.skip(m as int));
            assert(block@ =~= blk.take(m - 1));
        }
    }
    def.fields = fields;
    proof {
        let b = type_defs(arenas.types);
        assert(blk.skip(0) =~= blk);
        assert(block_ok(blk, x, shape_id, rr, shapes));
        assert(inserted_at(a[type_id as int], b[type_id as int], blk, x.4));
        assert(b.len() == a.len());
        assert(forall|u: int| 0 <= u < a.len() && u != type_id ==> b[u] == a[u]);
        assert(inj_type(x, tt) == Some(type_id));
        assert(inj_shape(x, shapes, s0, st) == Some(shape_id as int));
        assert(errors_reported(diag@.skip(d0.len() as int), inj_messages(x, tt, shapes, s0, st, fuel)));
        assert(exists|block: Seq<FieldDef>|
            {
                &&& #[trigger] block_ok(block, x, shape_id, rr, shapes)
                &&& inserted_at(a[type_id as int], b[type_id as int], block, x.4)
                &&& forall|u: int| 0 <= u < a.len() && u != type_id ==> b[u] == a[u]
            });
    }
}

// ── The whole pass ─────────────────────────────────────────────────────

/// Where a field of a type after injection comes from.
pub enum Slot {
    /// The field at this position of the type before injection.
    Kept(int),
    /// The field at position `.1` of shape `.0`, injected by shape `.2`
    /// with number `.3`, for the range from `.4` to `.5`.
    Injected(u32, usize, u32, u32, u32, u32),
}

/// The slots of the fields that injection `x` of shape `sid` injects.
pub open spec fn block_slots(x: InjectionSpec, sid: u32, refs: Seq<(u32, usize)>) -> Seq<Slot> {
    Seq::new(refs.len(), |k: int| Slot::Injected(refs[k].0, refs[k].1, sid, (x.2 + k) as u32, x.2, x.3))
}

/// The slots of type `t`'s fields after injection `x`, from `plan`.
pub open spec fn plan_step(
    plan: Seq<Slot>,
    x: InjectionSpec,
    t: int,
    tt: Map<Seq<char>, u32>,
    shapes: Seq<ShapeDef>,
    strs: Seq<Seq<char>>,
    st: Map<Seq<char>, u32>,
    fuel: nat,
) -> Seq<Slot> {
    match (inj_type(x, tt), inj_shape(x, shapes, strs, st)) {
        (Some(u), Some(sid)) => if u == t {
            let q = if x.4 < plan.len() {
                x.4
            } else {
                plan.len() as int
            };
            plan.take(q) + block_slots(x, sid as u32, inj_refs(x, shapes, strs, st, fuel)) + plan.skip(q)
        } else {
            plan
        },
        _ => plan,
    }
}

/// The slots of type `t`'s fields, `n0` before, after the injections `xs`.
pub open spec fn plan_of(
    xs: Seq<InjectionSpec>,
    t: int,
    n0: nat,
    tt: Map<Seq<char>, u32>,
    shapes: Seq<ShapeDef>,
    strs: Seq<Seq<char>>,
    st: Map<Seq<char>, u32>,
    fuel: nat,
) -> Seq<Slot>
    decreases xs.len(),
{
    if xs.len() == 0 {
        Seq::new(n0, |k: int| Slot::Kept(k))
    } else {
        plan_step(plan_of(xs.drop_last(), t, n0, tt, shapes, strs, st, fuel), xs.last(), t, tt, shapes, strs, st, fuel)
    }
}

/// Field `f` is what `slot` says, from the fields `olds` before injection.
pub open spec fn slot_field(f: FieldDef, slot: Slot, olds: Seq<FieldDef>, shapes: Seq<ShapeDef>) -> bool {
    match slot {
        Slot::Kept(k) => 0 <= k < olds.len() && f == olds[k],
        Slot::Injected(s, fi, o, num, a, b) => injected_ok(
            f,
            shapes[s as int].fields@[fi as int],
            shapes[o as int].name,
            o,
            num,
            a,
            b,
        ),
    }
}

/// Type `b` is type `a` with the fields that the slots `plan` say, all
/// else as it was.
pub open spec fn type_planned(a: TypeDef, b: TypeDef, plan: Seq<Slot>, shapes: Seq<ShapeDef>) -> bool {
    &&& b.fields@.len() == plan.len()
    &&& forall|j: int| 0 <= j < plan.len() ==> slot_field(#[trigger] b.fields@[j], plan[j], a.fields@, shapes)
    &&& b.name == a.name
    &&& b.full_name == a.full_name
    &&& b.oneofs == a.oneofs
    &&& b.nested_types == a.nested_types
    &&& b.nested_enums == a.nested_enums
    &&& b.annotations == a.annotations
    &&& b.back_references == a.back_references
    &&& b.trace == a.trace
    &&& b.loc == a.loc
}

/// The errors that applying the injections `xs` reports, in order.
pub open spec fn injs_messages(
    xs: Seq<InjectionSpec>,
    tt: Map<Seq<char>, u32>,
    shapes: Seq<ShapeDef>,
    strs: Seq<Seq<char>>,
    st: Map<Seq<char>, u32>,
    fuel: nat,
) -> Seq<Seq<char>>
    decreases xs.len(),
{
    if xs.len() == 0 {
        Seq::empty()
    } else {
        injs_messages(xs.drop_last(), tt, shapes, strs, st, fuel) + inj_messages(xs.last(), tt, shapes, strs, st, fuel)
    }
}

proof fn lemma_planned_step(
    a: TypeDef,
    cur: TypeDef,
    next: TypeDef,
    plan: Seq<Slot>,
    block: Seq<FieldDef>,
    x: InjectionSpec,
    sid: u32,
    refs: Seq<(u32, usize)>,
    shapes: Seq<ShapeDef>,
)
    requires
        0 <= x.4,
        type_planned(a, cur, plan, shapes),
        block_ok(block, x, sid, refs, shapes),
        inserted_at(cur, next, block, x.4),
    ensures
        type_planned(
            a,
            next,
            ({
                let q = if x.4 < plan.len() {
                    x.4
                } else {
                    plan.len() as int
                };
                plan.take(q) + block_slots(x, sid, refs) + plan.skip(q)
            }),
            shapes,
        ),
{
    let q = if x.4 < plan.len() {
        x.4
    } else {
        plan.len() as int
    };
    let np = plan.take(q) + block_slots(x, sid, refs) + plan.skip(q);
    let bs = block_slots(x, sid, refs);
    assert(plan.len() == cur.fields@.len());
    assert(bs.len() == block.len());
    assert(cur.fields@.take(q).len() == q);
    assert(plan.take(q).len() == q);
    assert(next.fields@ == cur.fields@.take(q) + block + cur.fields@.skip(q));
    assert forall|j: int| 0 <= j < np.len() implies slot_field(#[trigger] next.fields@[j], np[j], a.fields@, shapes) by {
        if j < q {
            assert(next.fields@[j] == cur.fields@[j]);
            assert(np[j] == plan[j]);
        } else if j < q + block.len() {
            assert(next.fields@[j] == block[j - q]);
            assert(np[j] == bs[j - q]);
        } else {
            assert(next.fields@[j] == cur.fields@[j - block.len()]);
            assert(np[j] == plan[j - block.len()]);
        }
    }
}

/// Inject shapes into types: each shape injection of a type declaration,
/// in order, where its type's full name is a type and its shape name
/// resolves, inserts the shape's fields, those of the shapes it includes
/// first, at the injection's position in the type (or at its end), each
/// numbered from the range's start and traced to the shape. Shapes that do
/// not resolve, includes that name no shape, and shapes with more fields
/// than their range holds, are reported.
pub fn expand_shapes(
    files: &[ParsedFile],
    interner: &mut Interner,
    arenas: &mut Arenas,
    symbols: &SymbolTable,
    diag: &mut Diagnostics,
)
    requires
        distinct(interned(*old(interner))),
        interned(*old(interner)).len() + files_named_decls(files@) + files_injections(files@).len() < u32::MAX,
        keys_below(symbols.types@, interned(*old(interner)).len()),
        keys_below(symbols.shapes@, interned(*old(interner)).len()),
        forall|k: Sym| #[trigger] symbols.types@.contains_key(k) ==> symbols.types@[k] < type_defs(old(arenas).types).len(),
        forall|k: Sym| #[trigger] symbols.shapes@.contains_key(k) ==> symbols.shapes@[k] < shape_defs(old(arenas).shapes).len(),
        shapes_interned(shape_defs(old(arenas).shapes), interned(*old(interner))),
        shape_defs(old(arenas).shapes).len() < u32::MAX,
        forall|k: int|
            0 <= k < files_injections(files@).len() ==> inj_sound(
                #[trigger] files_injections(files@)[k],
                text_table(interned(*old(interner)), symbols.types@),
                shape_defs(old(arenas).shapes),
                interned(*old(interner)),
                text_table(interned(*old(interner)), symbols.shapes@),
                shape_defs(old(arenas).shapes).len() as nat + 1,
            ),
    ensures
        grows(interned(*old(interner)), interned(*final(interner))),
        distinct(interned(*final(interner))),
        interned(*final(interner)).len() <= interned(*old(interner)).len() + files_named_decls(files@) + files_injections(
            files@,
        ).len(),
        ({
            let s0 = interned(*old(interner));
            let tt = text_table(s0, symbols.types@);
            let st = text_table(s0, symbols.shapes@);
            let shapes = shape_defs(old(arenas).shapes);
            let fuel = shapes.len() as nat + 1;
            let xs = files_injections(files@);
            let a = type_defs(old(arenas).types);
            let b = type_defs(final(arenas).types);
            &&& b.len() == a.len()
            &&& forall|t: int|
                0 <= t < a.len() ==> type_planned(
                    a[t],
                    #[trigger] b[t],
                    plan_of(xs, t, a[t].fields@.len(), tt, shapes, s0, st, fuel),
                    shapes,
                )
            &&& errors_reported(final(diag)@.skip(old(diag)@.len() as int), injs_messages(xs, tt, shapes, s0, st, fuel))
        }),
        final(arenas).shapes == old(arenas).shapes,
        final(arenas).enums == old(arenas).enums,
        final(arenas).services == old(arenas).services,
        final(arenas).annotation_defs == old(arenas).annotation_defs,
        grows(old(diag)@, final(diag)@),
{
    let ghost s0 = interned(*interner);
    let ghost tt = text_table(s0, symbols.types@);
    let ghost st = text_table(s0, symbols.shapes@);
    let ghost shapes = shape_defs(arenas.shapes);
    let ghost fuel = shapes.len() as nat + 1;
    let ghost xs = files_injections(files@);
    let ghost a0 = type_defs(arenas.types);
    let ghost d0 = diag@;
    let injections = collect_injections(files, interner);
    let ghost s1 = interned(*interner);
    proof {
        assert(d0.skip(d0.len() as int) =~= Seq::<crate::diagnostics::Diagnostic>::empty());
        assert forall|k: int| 0 <= k < d0.len() implies #[trigger] d0[k] == d0[k] by {}
        assert(xs.take(0) =~= Seq::<InjectionSpec>::empty());
        assert forall|t: int| 0 <= t < a0.len() implies type_planned(
            a0[t],
            #[trigger] a0[t],
            plan_of(xs.take(0), t, a0[t].fields@.len(), tt, shapes, s0, st, fuel),
            shapes,
        ) by {
            let p = plan_of(xs.take(0), t, a0[t].fields@.len(), tt, shapes, s0, st, fuel);
            assert forall|j: int| 0 <= j < p.len() implies slot_field(#[trigger] a0[t].fields@[j], p[j], a0[t].fields@, shapes) by {}
        }
    }
    let mut k: usize = 0;
    while k < injections.len()
        invariant
            injections@.len() == xs.len(),
            forall|j: int| 0 <= j < xs.len() ==> injection_is(s1, #[trigger] injections@[j], xs[j]),
            k <= xs.len(),
            grows(s0, s1),
            grows(s1, interned(*interner)),
            distinct(interned(*interner)),
            s1.len() <= s0.len() + files_named_decls(files@),
            s0.len() + files_named_decls(files@) + xs.len() < u32::MAX,
            interned(*interner).len() <= s1.len() + k,
            keys_below(symbols.types@, s0.len()),
            keys_below(symbols.shapes@, s0.len()),
            shapes == shape_defs(arenas.shapes),
            shapes_interned(shapes, s0),
            shapes.len() < u32::MAX,
            fuel == shapes.len() as nat + 1,
            tt == text_table(s0, symbols.types@),
            st == text_table(s0, symbols.shapes@),
            forall|j: Sym| #[trigger] symbols.types@.contains_key(j) ==> symbols.types@[j] < a0.len(),
            forall|j: Sym| #[trigger] symbols.shapes@.contains_key(j) ==> symbols.shapes@[j] < shapes.len(),
            forall|j: int| 0 <= j < xs.len() ==> inj_sound(#[trigger] xs[j], tt, shapes, s0, st, fuel),
            type_defs(arenas.types).len() == a0.len(),
            forall|t: int|
                0 <= t < a0.len() ==> type_planned(
                    a0[t],
                    #[trigger] type_defs(arenas.types)[t],
                    plan_of(xs.take(k as int), t, a0[t].fields@.len(), tt, shapes, s0, st, fuel),
                    shapes,
                ),
            arenas.shapes == old(arenas).shapes,
            arenas.enums == old(arenas).enums,
            arenas.services == old(arenas).services,
            arenas.annotation_defs == old(arenas).annotation_defs,
            grows(d0, diag@),
            errors_reported(diag@.skip(d0.len() as int), injs_messages(xs.take(k as int), tt, shapes, s0, st, fuel)),
        decreases injections.len() - k,
    {
        let ghost sa = interned(*interner);
        let ghost da = diag@;
        let ghost cur = type_defs(arenas.types);
        let ghost x = xs[k as int];
        proof {
            assert(xs.take(k + 1).drop_last() =~= xs.take(k as int));
            assert(xs.take(k + 1).last() == x);
            lemma_injections_grow(s1, sa, injections@, xs);
            assert(injection_is(sa, injections@[k as int], x));
            crate::populate::lemma_grows_trans(s0, s1, sa);
        }
        apply_injection(&injections[k], interner, arenas, symbols, diag, Ghost(x), Ghost(s0), Ghost(fuel));
        proof {
            let nxt = type_defs(arenas.types);
            crate::populate::lemma_grows_trans(s1, sa, interned(*interner));
            lemma_errors_append(d0, da, diag@, injs_messages(xs.take(k as int), tt, shapes, s0, st, fuel), inj_messages(x, tt, shapes, s0, st, fuel));
            assert forall|t: int| 0 <= t < a0.len() implies type_planned(
                a0[t],
                #[trigger] nxt[t],
                plan_of(xs.take(k + 1), t, a0[t].fields@.len(), tt, shapes, s0, st, fuel),
                shapes,
            ) by {
                let plan = plan_of(xs.take(k as int), t, a0[t].fields@.len(), tt, shapes, s0, st, fuel);
                assert(type_planned(a0[t], cur[t], plan, shapes));
                match (inj_type(x, tt), inj_shape(x, shapes, s0, st)) {
                    (Some(u), Some(sid)) => {
                        if u == t {
                            assert(0 <= x.4) by {
                                assert(injection_is(s1, injections@[k as int], x));
                            }
                            let block = choose|block: Seq<FieldDef>|
                                {
                                    &&& #[trigger] block_ok(block, x, sid as u32, inj_refs(x, shapes, s0, st, fuel), shapes)
                                    &&& inserted_at(cur[u as int], nxt[u as int], block, x.4)
                                    &&& forall|v: int| 0 <= v < cur.len() && v != u ==> nxt[v] == cur[v]
                                };
                            lemma_planned_step(a0[t], cur[t], nxt[t], plan, block, x, sid as u32, inj_refs(x, shapes, s0, st, fuel), shapes);
                        } else {
                            assert(nxt[t] == cur[t]);
                        }
                    },
                    _ => {
                        assert(nxt[t] == cur[t]);
                    },
                }
            }
        }
        k += 1;
    }
    proof {
        assert(xs.take(xs.len() as int) =~= xs);
        crate::populate::lemma_grows_trans(s0, s1, interned(*interner));
    }
}


/// How many named type declarations the files hold, where that is below
/// `u32::MAX`; otherwise `u32::MAX`.
fn named_decl_count(files: &[ParsedFile]) -> (r: u64)
    ensures
        r <= u32::MAX,
        r < u32::MAX ==> r == files_named_decls(files@),
        r == u32::MAX ==> files_named_decls(files@) >= u32::MAX,
{
    let ghost fs = files@;
    let mut total: u64 = 0;
    let mut f: usize = 0;
    proof {
        assert(fs.take(0) =~= Seq::<ParsedFile>::empty());
    }
    while f < files.len()
        invariant
            fs == files@,
            f <= fs.len(),
            total == files_named_decls(fs.take(f as int)),
            total < u32::MAX,
        decreases files.len() - f,
    {
        let file = &files[f];
        proof {
            lemma_files_injections_step(fs, f as int);
        }
        match Root::cast(file.root.clone()) {
            Some(root) => {
                let ghost rn = file.root;
                let decls = root.type_decls();
                let ghost ds = child_nodes(rn, SyntaxKind::TypeDecl);
                let ghost prev = total as int;
                proof {
                    lemma_children_nodes(rn, decls@, SyntaxKind::TypeDecl);
                    assert(named(ds.take(0)) =~= Seq::<SyntaxNode>::empty());
                }
                let mut i: usize = 0;
                while i < decls.len()
                    invariant
                        ds == child_nodes(rn, SyntaxKind::TypeDecl),
                        rn == file.root,
                        rn.spec_kind() == SyntaxKind::Root,
                        decls@.len() == ds.len(),
                        forall|k: int| 0 <= k < ds.len() ==> (#[trigger] decls@[k]).node() == ds[k],
                        i <= ds.len(),
                        fs == files@,
                        f < fs.len(),
                        prev == files_named_decls(fs.take(f as int)),
                        files_named_decls(fs.take(f + 1)) == prev + named(ds).len(),
                        files_named_decls(fs.take(f + 1)) <= files_named_decls(fs),
                        total == prev + named(ds.take(i as int)).len(),
                        total < u32::MAX,
                    decreases decls.len() - i,
                {
                    let nm = decls[i].name();
                    proof {
                        lemma_name_token(ds[i as int], nm);
                        crate::index::lemma_named_step(ds, i as int);
                    }
                    if nm.is_some() {
                        total = total + 1;
                        if total >= u32::MAX as u64 {
                            proof {
                                lemma_named_len(ds, i + 1);
                                assert(total == prev + named(ds.take(i + 1)).len());
                                assert(named(ds.take(i + 1)).len() <= named(ds).len());
                                assert(files_named_decls(fs) >= total);
                            }
                            return u32::MAX as u64;
                        }
                    }
                    i += 1;
                }
                proof {
                    assert(ds.take(ds.len() as int) =~= ds);
                }
            },
            None => {},
        }
        f += 1;
    }
    proof {
        assert(fs.take(fs.len() as int) =~= fs);
    }
    total
}

/// Whether shape `shape_id` includes shapes at most `fuel - 1` deep.
fn shape_depth_ok(
    shape_id: ShapeId,
    arenas: &Arenas,
    interner: &Interner,
    symbols: &SymbolTable,
    fuel: usize,
) -> (r: bool)
    requires
        distinct(interned(*interner)),
        shapes_interned(shape_defs(arenas.shapes), interned(*interner)),
        shape_defs(arenas.shapes).len() <= u32::MAX,
        forall|k: Sym| #[trigger] symbols.shapes@.contains_key(k) ==> symbols.shapes@[k] < shape_defs(arenas.shapes).len(),
    ensures
        r == depth_ok(shape_defs(arenas.shapes), interned(*interner), text_table(interned(*interner), symbols.shapes@), shape_id, fuel as nat),
    decreases fuel,
{
    let ghost shapes = shape_defs(arenas.shapes);
    let ghost sf = interned(*interner);
    let ghost st = text_table(sf, symbols.shapes@);
    let lens = arena_lens(arenas);
    if fuel == 0 || shape_id as usize >= lens.3 {
        return false;
    }
    let ghost incs = shapes[shape_id as int].includes@;
    let shape = shape_def_at(&arenas.shapes, shape_id);
    proof {
        assert(incs.take(0) =~= Seq::<Sym>::empty());
        assert(shapes[shape_id as int].full_name < sf.len());
    }
    let full_name = interner.resolve(shape.full_name);
    let pkg = before_last_dot_of(full_name);
    let mut i: usize = 0;
    while i < shape.includes.len()
        invariant
            shapes == shape_defs(arenas.shapes),
            sf == interned(*interner),
            st == text_table(sf, symbols.shapes@),
            *shape == shapes[shape_id as int],
            incs == shape.includes@,
            shape_id < shapes.len(),
            fuel > 0,
            i <= incs.len(),
            pkg@ == before_last_dot(text_at(sf, shape.full_name)),
            incs_ok(shapes, sf, st, shape_id, incs.take(i as int), (fuel - 1) as nat),
            distinct(sf),
            shapes_interned(shapes, sf),
            shapes.len() <= u32::MAX,
            forall|k: Sym| #[trigger] symbols.shapes@.contains_key(k) ==> symbols.shapes@[k] < shapes.len(),
        decreases shape.includes.len() - i,
    {
        let inc = shape.includes[i];
        proof {
            assert(incs.take(i + 1).drop_last() =~= incs.take(i as int));
            assert(incs.take(i + 1).last() == incs[i as int]);
            assert(inc < sf.len());
        }
        let include_text = interner.resolve(inc);
        let full = qualify(pkg.as_str(), include_text);
        let lk = interner.intern_lookup(full.as_str());
        proof {
            if let Some(x) = lk {
                lemma_index_of(sf, x as int, full@);
            }
        }
        let found = match lk {
            Some(s) => match symbols.shapes.get(&s) {
                Some(id) => Some(*id),
                None => None,
            },
            None => None,
        };
        proof {
            if sf.contains(full@) {
                let j = sf.index_of(full@);
                assert(sf[j] == full@);
                lemma_index_of(sf, j, full@);
            }
            assert(full@ == qualified(before_last_dot(text_at(sf, shapes[shape_id as int].full_name)), text_at(sf, inc)));
            assert(found == include_target(shapes, sf, st, shape_id, inc));
        }
        match found {
            Some(inc_id) => {
                if !shape_depth_ok(inc_id, arenas, interner, symbols, fuel - 1) {
                    proof {
                        if incs_ok(shapes, sf, st, shape_id, incs, (fuel - 1) as nat) {
                            lemma_incs_take(shapes, sf, st, shape_id, incs, i as int, (fuel - 1) as nat);
                        }
                    }
                    return false;
                }
            },
            None => {},
        }
        i += 1;
    }
    proof {
        assert(incs.take(incs.len() as int) =~= incs);
    }
    true
}

/// Whether injection `inj` (the collected form of `x`) can be applied
/// soundly; symbols it needs are interned into the scratch `interner`.
fn check_injection(
    inj: &Injection,
    interner: &mut Interner,
    arenas: &Arenas,
    symbols: &SymbolTable,
    Ghost(x): Ghost<InjectionSpec>,
    Ghost(s0): Ghost<Seq<Seq<char>>>,
    fuel: usize,
) -> (r: bool)
    requires
        injection_is(interned(*old(interner)), *inj, x),
        grows(s0, interned(*old(interner))),
        distinct(interned(*old(interner))),
        interned(*old(interner)).len() + 1 < u32::MAX,
        keys_below(symbols.types@, s0.len()),
        keys_below(symbols.shapes@, s0.len()),
        shapes_interned(shape_defs(arenas.shapes), s0),
        shape_defs(arenas.shapes).len() < u32::MAX,
        fuel == shape_defs(arenas.shapes).len() + 1,
        forall|k: Sym| #[trigger] symbols.shapes@.contains_key(k) ==> symbols.shapes@[k] < shape_defs(arenas.shapes).len(),
    ensures
        grows(interned(*old(interner)), interned(*final(interner))),
        distinct(interned(*final(interner))),
        interned(*final(interner)).len() <= interned(*old(interner)).len() + 1,
        r == inj_sound(
            x,
            text_table(s0, symbols.types@),
            shape_defs(arenas.shapes),
            s0,
            text_table(s0, symbols.shapes@),
            fuel as nat,
        ),
{
    let ghost s1 = interned(*interner);
    let ghost tt = text_table(s0, symbols.types@);
    let ghost st = text_table(s0, symbols.shapes@);
    let ghost shapes = shape_defs(arenas.shapes);
    proof {
        assert forall|k: int| 0 <= k < s1.len() implies #[trigger] s1[k] == s1[k] by {}
        lemma_lookup(s0, s1, symbols.types@, inj.type_full_name, x.0);
    }
    if symbols.types.get(&inj.type_full_name).is_none() {
        return true;
    }
    proof {
        crate::resolve::lemma_text_table_grow(s0, s1, symbols.shapes@);
        assert forall|k: int| 0 <= k < shapes.len() implies #[trigger] shapes[k].name < s1.len() && shapes[k].full_name < s1.len()
            && forall|j: int| 0 <= j < shapes[k].includes@.len() ==> #[trigger] shapes[k].includes@[j] < s1.len() by {
            assert(shapes[k].name < s0.len());
        }
        lemma_named_shape_same(shapes, s0, s1, st, x.1, x.5);
    }
    let sr = resolve_shape_name(inj.shape_name.as_str(), inj.pkg.as_str(), interner, arenas, symbols);
    let ghost s2 = interned(*interner);
    let shape_id = match sr {
        Some(id) => id,
        None => {
            return true;
        },
    };
    proof {
        crate::populate::lemma_grows_trans(s0, s1, s2);
        crate::resolve::lemma_text_table_grow(s0, s2, symbols.shapes@);
        lemma_expanded_same(shapes, s0, s2, st, shape_id, fuel as nat);
        assert forall|k: int| 0 <= k < shapes.len() implies #[trigger] shapes[k].name < s2.len() && shapes[k].full_name < s2.len()
            && forall|j: int| 0 <= j < shapes[k].includes@.len() ==> #[trigger] shapes[k].includes@[j] < s2.len() by {
            assert(shapes[k].name < s0.len());
        }
    }
    if !shape_depth_ok(shape_id, arenas, interner, symbols, fuel) {
        return false;
    }
    if !(inj.range_start <= inj.range_end && inj.range_end < u32::MAX) {
        return false;
    }
    let mut scratch = Diagnostics::new();
    let refs = expand_shape_fields(shape_id, arenas, interner, symbols, &mut scratch, Ghost(fuel as nat));
    let n: u64 = refs.len() as u64;
    n <= (u32::MAX as u64 + 1) - (inj.range_start as u64)
}

/// Expand the shape injections of `files` as [`expand_shapes`] does, where
/// every injection can be applied soundly: the shape it names includes no
/// shape that includes it in turn, its range is `start..end` with
/// `start <= end < u32::MAX`, and its fields numbered from `start` fit in
/// a `u32`. Otherwise change nothing. The result says which.
pub fn expand_shapes_checked(
    files: &[ParsedFile],
    interner: &mut Interner,
    arenas: &mut Arenas,
    symbols: &SymbolTable,
    diag: &mut Diagnostics,
) -> (r: bool)
    requires
        distinct(interned(*old(interner))),
        keys_below(symbols.types@, interned(*old(interner)).len()),
        keys_below(symbols.shapes@, interned(*old(interner)).len()),
        forall|k: Sym| #[trigger] symbols.types@.contains_key(k) ==> symbols.types@[k] < type_defs(old(arenas).types).len(),
        forall|k: Sym| #[trigger] symbols.shapes@.contains_key(k) ==> symbols.shapes@[k] < shape_defs(old(arenas).shapes).len(),
        shapes_interned(shape_defs(old(arenas).shapes), interned(*old(interner))),
        shape_defs(old(arenas).shapes).len() < u32::MAX,
    ensures
        r == (interned(*old(interner)).len() + files_named_decls(files@) + files_injections(files@).len() < u32::MAX
            && forall|k: int|
            0 <= k < files_injections(files@).len() ==> inj_sound(
                #[trigger] files_injections(files@)[k],
                text_table(interned(*old(interner)), symbols.types@),
                shape_defs(old(arenas).shapes),
                interned(*old(interner)),
                text_table(interned(*old(interner)), symbols.shapes@),
                shape_defs(old(arenas).shapes).len() as nat + 1,
            )),
        !r ==> *final(interner) == *old(interner) && *final(arenas) == *old(arenas) && final(diag)@ == old(diag)@,
        r ==> grows(interned(*old(interner)), interned(*final(interner))),
        distinct(interned(*final(interner))),
        r ==> ({
            let s0 = interned(*old(interner));
            let tt = text_table(s0, symbols.types@);
            let st = text_table(s0, symbols.shapes@);
            let shapes = shape_defs(old(arenas).shapes);
            let fuel = shapes.len() as nat + 1;
            let xs = files_injections(files@);
            let a = type_defs(old(arenas).types);
            let b = type_defs(final(arenas).types);
            &&& b.len() == a.len()
            &&& forall|t: int|
                0 <= t < a.len() ==> type_planned(
                    a[t],
                    #[trigger] b[t],
                    plan_of(xs, t, a[t].fields@.len(), tt, shapes, s0, st, fuel),
                    shapes,
                )
            &&& errors_reported(final(diag)@.skip(old(diag)@.len() as int), injs_messages(xs, tt, shapes, s0, st, fuel))
        }),
        final(arenas).shapes == old(arenas).shapes,
        final(arenas).enums == old(arenas).enums,
        final(arenas).services == old(arenas).services,
        final(arenas).annotation_defs == old(arenas).annotation_defs,
{
    let ghost s0 = interned(*interner);
    let ghost xs = files_injections(files@);
    let ghost shapes = shape_defs(arenas.shapes);
    let ghost tt = text_table(s0, symbols.types@);
    let ghost st = text_table(s0, symbols.shapes@);
    let lens = arena_lens(arenas);
    let fuel: usize = lens.3 + 1;
    let nd = named_decl_count(files);
    let cur = interner.len();
    if nd >= u32::MAX as u64 || cur as u64 >= u32::MAX as u64 || cur as u64 + nd >= u32::MAX as u64 {
        return false;
    }
    let mut scratch = interner.snapshot();
    let injections = collect_injections(files, &mut scratch);
    let ghost s1 = interned(scratch);
    if injections.len() as u64 >= u32::MAX as u64 || cur as u64 + nd + injections.len() as u64 >= u32::MAX as u64 {
        return false;
    }
    let mut k: usize = 0;
    while k < injections.len()
        invariant
            injections@.len() == xs.len(),
            xs == files_injections(files@),
            forall|j: int| 0 <= j < xs.len() ==> injection_is(s1, #[trigger] injections@[j], xs[j]),
            k <= xs.len(),
            s0 == interned(*interner),
            *interner == *old(interner),
            distinct(s0),
            grows(s0, s1),
            grows(s1, interned(scratch)),
            distinct(interned(scratch)),
            s1.len() <= s0.len() + files_named_decls(files@),
            s0.len() + files_named_decls(files@) + xs.len() < u32::MAX,
            interned(scratch).len() <= s1.len() + k,
            keys_below(symbols.types@, s0.len()),
            keys_below(symbols.shapes@, s0.len()),
            shapes == shape_defs(arenas.shapes),
            shapes_interned(shapes, s0),
            shapes.len() < u32::MAX,
            fuel == shapes.len() + 1,
            tt == text_table(s0, symbols.types@),
            st == text_table(s0, symbols.shapes@),
            forall|j: Sym| #[trigger] symbols.shapes@.contains_key(j) ==> symbols.shapes@[j] < shapes.len(),
            forall|j: int| 0 <= j < k ==> inj_sound(#[trigger] xs[j], tt, shapes, s0, st, fuel as nat),
        decreases injections.len() - k,
    {
        let ghost sa = interned(scratch);
        proof {
            lemma_injections_grow(s1, sa, injections@, xs);
            crate::populate::lemma_grows_trans(s0, s1, sa);
        }
        let ok = check_injection(&injections[k], &mut scratch, arenas, symbols, Ghost(xs[k as int]), Ghost(s0), fuel);
        proof {
            crate::populate::lemma_grows_trans(s1, sa, interned(scratch));
        }
        if !ok {
            return false;
        }
        k += 1;
    }
    expand_shapes(files, interner, arenas, symbols, diag);
    true
}

} // verus!
