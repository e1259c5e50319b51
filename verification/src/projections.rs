//! Projection mappings: each field mapped from another type's field gets
//! the chain of links it comes from, followed through the source fields'
//! own mappings.

use vstd::prelude::*;
use vstd::set_lib::{lemma_int_range, lemma_len_subset, set_int_range};
use crate::diagnostics::Diagnostics;
use crate::hir::{
    Arenas, FieldDef, FieldMapping, Interner, MappingLink, OneofDef, OneofFieldDef, Sym, SymbolTable, TypeDef, TypeId,
    arena_lens, interned, type_def_at, type_def_mut, type_defs,
};
use crate::index::grows;
use crate::shapes::{errors_reported, lemma_errors_append};

verus! {

/// The path of the first link of mapping `m`, where it has one.
pub open spec fn first_path(m: Option<FieldMapping>) -> Option<Seq<Sym>> {
    match m {
        Some(fm) => if fm.chain@.len() > 0 {
            Some(fm.chain@[0].path@)
        } else {
            None
        },
        None => None,
    }
}

/// The path a chain follows from a mapped field: the first link's path,
/// where it has one and it is not empty (an empty path adds no link).
pub open spec fn eff_path(m: Option<FieldMapping>) -> Option<Seq<Sym>> {
    match first_path(m) {
        Some(p) => if p.len() > 0 {
            Some(p)
        } else {
            None
        },
        None => None,
    }
}

/// The first type at or after position `k` whose name is `text`.
pub open spec fn type_named(types: Seq<TypeDef>, strs: Seq<Seq<char>>, text: Seq<char>, k: int) -> Option<int>
    decreases types.len() - k,
{
    if k < 0 || k >= types.len() {
        None
    } else if strs[types[k].name as int] == text {
        Some(k)
    } else {
        type_named(types, strs, text, k + 1)
    }
}

/// The first field at or after position `k` whose name is `name`.
pub open spec fn field_named(fields: Seq<FieldDef>, name: Sym, k: int) -> Option<int>
    decreases fields.len() - k,
{
    if k < 0 || k >= fields.len() {
        None
    } else if fields[k].name == name {
        Some(k)
    } else {
        field_named(fields, name, k + 1)
    }
}

/// A link as plain values: source type, source field name, path.
pub type LinkView = (u32, Sym, Seq<Sym>);

pub open spec fn link_view(l: MappingLink) -> LinkView {
    (l.source_type, l.source_field_name, l.path@)
}

/// The chain of links that the mapping path `path` resolves to, and the
/// errors met: its first segment names the source type (by short name),
/// its last the source field; where that field is itself mapped, its
/// chain follows. A type not found gives one placeholder link and an
/// error; a (type, field) pair already on the chain (`visited`) ends it
/// with an error.
pub open spec fn chain_of(
    types: Seq<TypeDef>,
    strs: Seq<Seq<char>>,
    path: Seq<Sym>,
    visited: Seq<(u32, Sym)>,
    fuel: nat,
) -> (Seq<LinkView>, Seq<Seq<char>>)
    decreases fuel,
{
    if path.len() == 0 || fuel == 0 {
        (Seq::empty(), Seq::empty())
    } else {
        let tn = strs[path[0] as int];
        let fname = path.last();
        match type_named(types, strs, tn, 0) {
            None => (seq![(0u32, fname, path)], seq!["projection: unresolved type "@ + tn]),
            Some(t) => if visited.contains((t as u32, fname)) {
                (Seq::empty(), seq!["projection cycle detected at "@ + tn + "."@ + strs[fname as int]])
            } else {
                let link = (t as u32, fname, path);
                match field_named(types[t].fields@, fname, 0) {
                    Some(j) => match eff_path(types[t].fields@[j].mapping) {
                        Some(p2) => {
                            let r = chain_of(types, strs, p2, visited.push((t as u32, fname)), (fuel - 1) as nat);
                            (seq![link] + r.0, r.1)
                        },
                        None => (seq![link], Seq::empty()),
                    },
                    None => (seq![link], Seq::empty()),
                }
            },
        }
    }
}

/// The number of fields of the types before position `t`.
pub open spec fn fields_before(types: Seq<TypeDef>, t: int) -> nat
    decreases t,
{
    if t <= 0 {
        0
    } else {
        fields_before(types, t - 1) + types[t - 1].fields@.len()
    }
}

/// The number of fields of all the types.
pub open spec fn field_count(types: Seq<TypeDef>) -> nat {
    fields_before(types, types.len() as int)
}

/// The names and mapping paths the chains read, and the names the
/// messages use, are interned.
pub open spec fn mappings_interned(types: Seq<TypeDef>, strs: Seq<Seq<char>>) -> bool {
    &&& forall|t: int| 0 <= t < types.len() ==> (#[trigger] types[t]).name < strs.len()
    &&& forall|t: int, j: int|
        0 <= t < types.len() && 0 <= j < types[t].fields@.len() ==> {
            &&& (#[trigger] types[t].fields@[j]).name < strs.len()
            &&& match first_path(types[t].fields@[j].mapping) {
                Some(p) => forall|k: int| 0 <= k < p.len() ==> #[trigger] p[k] < strs.len(),
                None => true,
            }
        }
    &&& forall|t: int, o: int, j: int|
        0 <= t < types.len() && 0 <= o < types[t].oneofs@.len() && 0 <= j < types[t].oneofs@[o].fields@.len() ==> match first_path(
            (#[trigger] types[t].oneofs@[o].fields@[j]).mapping,
        ) {
            Some(p) => forall|k: int| 0 <= k < p.len() ==> #[trigger] p[k] < strs.len(),
            None => true,
        }
}

proof fn lemma_field_named(fields: Seq<FieldDef>, name: Sym, k: int)
    requires
        0 <= k,
    ensures
        field_named(fields, name, k) matches Some(j) ==> k <= j < fields.len() && fields[j].name == name,
    decreases fields.len() - k,
{
    if k < fields.len() && fields[k].name != name {
        lemma_field_named(fields, name, k + 1);
    }
}

proof fn lemma_type_named(types: Seq<TypeDef>, strs: Seq<Seq<char>>, text: Seq<char>, k: int)
    requires
        0 <= k,
    ensures
        type_named(types, strs, text, k) matches Some(t) ==> k <= t < types.len() && strs[types[t].name as int] == text,
    decreases types.len() - k,
{
    if k < types.len() && strs[types[k].name as int] != text {
        lemma_type_named(types, strs, text, k + 1);
    }
}

proof fn lemma_fields_before_mono(types: Seq<TypeDef>, a: int, b: int)
    requires
        0 <= a <= b,
    ensures
        fields_before(types, a) <= fields_before(types, b),
    decreases b,
{
    if a < b {
        lemma_fields_before_mono(types, a, b - 1);
    }
}

/// Where a key names an existing field: its place among all fields.
spec fn key_pos(types: Seq<TypeDef>, key: (u32, Sym)) -> int {
    fields_before(types, key.0 as int) + field_named(types[key.0 as int].fields@, key.1, 0).unwrap()
}

/// Each key names a field of a type.
spec fn keys_valid(types: Seq<TypeDef>, keys: Seq<(u32, Sym)>) -> bool {
    forall|i: int|
        0 <= i < keys.len() ==> (#[trigger] keys[i]).0 < types.len() && field_named(
            types[keys[i].0 as int].fields@,
            keys[i].1,
            0,
        ) is Some
}

/// Distinct keys that name fields are no more than the fields.
proof fn lemma_keys_bound(types: Seq<TypeDef>, keys: Seq<(u32, Sym)>)
    requires
        keys.no_duplicates(),
        keys_valid(types, keys),
    ensures
        keys.len() <= field_count(types),
{
    let ps = keys.map_values(|k: (u32, Sym)| key_pos(types, k));
    assert forall|i: int| 0 <= i < keys.len() implies 0 <= #[trigger] ps[i] < field_count(types) by {
        let k = keys[i];
        lemma_field_named(types[k.0 as int].fields@, k.1, 0);
        lemma_fields_before_mono(types, k.0 + 1, types.len() as int);
    }
    assert forall|i: int, j: int| 0 <= i < keys.len() && 0 <= j < keys.len() && i != j implies ps[i] != ps[j] by {
        let a = keys[i];
        let b = keys[j];
        lemma_field_named(types[a.0 as int].fields@, a.1, 0);
        lemma_field_named(types[b.0 as int].fields@, b.1, 0);
        if a.0 < b.0 {
            lemma_fields_before_mono(types, a.0 + 1, b.0 as int);
        } else if b.0 < a.0 {
            lemma_fields_before_mono(types, b.0 + 1, a.0 as int);
        }
    }
    assert(ps.no_duplicates());
    ps.unique_seq_to_set();
    lemma_int_range(0, field_count(types) as int);
    assert(ps.to_set().subset_of(set_int_range(0, field_count(types) as int)));
    lemma_len_subset(ps.to_set(), set_int_range(0, field_count(types) as int));
}


fn copy_syms(v: &Vec<Sym>) -> (r: Vec<Sym>)
    ensures
        r@ == v@,
{
    let mut out: Vec<Sym> = Vec::new();
    let mut i: usize = 0;
    while i < v.len()
        invariant
            i <= v@.len(),
            out@ == v@.take(i as int),
        decreases v.len() - i,
    {
        out.push(v[i]);
        proof {
            assert(v@.take(i + 1) =~= v@.take(i as int).push(v@[i as int]));
        }
        i += 1;
    }
    proof {
        assert(v@.take(v@.len() as int) =~= v@);
    }
    out
}

/// The position of the first type named `text`.
fn find_type_named(arenas: &Arenas, interner: &Interner, text: &str) -> (r: Option<u32>)
    requires
        mappings_interned(type_defs(arenas.types), interned(*interner)),
        type_defs(arenas.types).len() <= u32::MAX,
    ensures
        match type_named(type_defs(arenas.types), interned(*interner), text@, 0) {
            Some(t) => r == Some(t as u32),
            None => r is None,
        },
{
    let ghost types = type_defs(arenas.types);
    let ghost strs = interned(*interner);
    let n = arena_lens(arenas).0;
    let mut k: usize = 0;
    while k < n
        invariant
            n == types.len(),
            types == type_defs(arenas.types),
            strs == interned(*interner),
            types.len() <= u32::MAX,
            mappings_interned(types, strs),
            k <= n,
            type_named(types, strs, text@, 0) == type_named(types, strs, text@, k as int),
        decreases n - k,
    {
        let def = type_def_at(&arenas.types, k as TypeId);
        let name = interner.resolve(def.name);
        if crate::tree::same_text(name, text) {
            return Some(k as u32);
        }
        k += 1;
    }
    None
}

/// The position of the first field of `fields` named `name`.
fn find_field_named(fields: &Vec<FieldDef>, name: Sym) -> (r: Option<usize>)
    ensures
        match field_named(fields@, name, 0) {
            Some(j) => r == Some(j as usize),
            None => r is None,
        },
{
    let mut j: usize = 0;
    while j < fields.len()
        invariant
            j <= fields@.len(),
            field_named(fields@, name, 0) == field_named(fields@, name, j as int),
        decreases fields.len() - j,
    {
        if fields[j].name == name {
            return Some(j);
        }
        j += 1;
    }
    None
}

fn visited_has(visited: &Vec<(u32, Sym)>, key: (u32, Sym)) -> (r: bool)
    ensures
        r == visited@.contains(key),
{
    let mut i: usize = 0;
    while i < visited.len()
        invariant
            i <= visited@.len(),
            forall|k: int| 0 <= k < i ==> visited@[k] != key,
        decreases visited.len() - i,
    {
        if visited[i].0 == key.0 && visited[i].1 == key.1 {
            proof {
                assert(visited@[i as int] == key);
            }
            return true;
        }
        i += 1;
    }
    false
}

/// The chain of links that `path` resolves to, as [`chain_of`] says; its
/// errors are reported in order.
fn resolve_mapping_chain(
    path: &Vec<Sym>,
    interner: &Interner,
    arenas: &Arenas,
    diag: &mut Diagnostics,
    visited: &mut Vec<(u32, Sym)>,
    Ghost(fuel): Ghost<nat>,
) -> (r: Vec<MappingLink>)
    requires
        mappings_interned(type_defs(arenas.types), interned(*interner)),
        type_defs(arenas.types).len() <= u32::MAX,
        forall|k: int| 0 <= k < path@.len() ==> #[trigger] path@[k] < interned(*interner).len(),
        old(visited)@.no_duplicates(),
        keys_valid(type_defs(arenas.types), old(visited)@),
        old(visited)@.len() + fuel > field_count(type_defs(arenas.types)),
    ensures
        r@.map_values(|l: MappingLink| link_view(l)) == chain_of(
            type_defs(arenas.types),
            interned(*interner),
            path@,
            old(visited)@,
            fuel,
        ).0,
        grows(old(diag)@, final(diag)@),
        errors_reported(
            final(diag)@.skip(old(diag)@.len() as int),
            chain_of(type_defs(arenas.types), interned(*interner), path@, old(visited)@, fuel).1,
        ),
    decreases fuel,
{
    let ghost types = type_defs(arenas.types);
    let ghost strs = interned(*interner);
    let ghost d0 = diag@;
    let ghost v0 = visited@;
    proof {
        assert(d0.skip(d0.len() as int) =~= Seq::<crate::diagnostics::Diagnostic>::empty());
        assert forall|k: int| 0 <= k < d0.len() implies #[trigger] d0[k] == d0[k] by {}
    }
    if path.len() == 0 {
        let r: Vec<MappingLink> = Vec::new();
        proof {
            assert(r@.map_values(|l: MappingLink| link_view(l)) =~= Seq::<LinkView>::empty());
        }
        return r;
    }
    proof {
        lemma_keys_bound(types, v0);
    }
    let source_name = interner.resolve(path[0]);
    let fname = path[path.len() - 1];
    let found = find_type_named(arenas, interner, source_name);
    proof {
        lemma_type_named(types, strs, source_name@, 0);
        assert(path@.last() == fname);
    }
    let t = match found {
        Some(t) => t,
        None => {
            let msg = crate::index::message("projection: unresolved type ", source_name);
            diag.error("", 0..0, msg.as_str());
            let mut r: Vec<MappingLink> = Vec::new();
            r.push(MappingLink { source_type: 0, source_field_name: fname, path: copy_syms(path) });
            proof {
                reveal_strlit("");
                let d2 = diag@;
                assert(d2.skip(d0.len() as int) =~= seq![d2.last()]);
                assert(""@ =~= Seq::<char>::empty());
                assert(r@.map_values(|l: MappingLink| link_view(l)) =~= seq![(0u32, fname, path@)]);
            }
            return r;
        },
    };
    let key = (t, fname);
    proof {
        assert(path@.len() > 0);
        assert(fuel > 0);
        assert(source_name@ == strs[path@[0] as int]);
        assert(type_named(types, strs, source_name@, 0) == Some(t as int));
    }
    if visited_has(visited, key) {
        let mut msg = crate::index::message("projection cycle detected at ", source_name);
        proof {
            assert(fname < strs.len());
        }
        msg.append(".");
        msg.append(interner.resolve(fname));
        diag.error("", 0..0, msg.as_str());
        let r: Vec<MappingLink> = Vec::new();
        proof {
            reveal_strlit("");
            reveal_strlit(".");
            let d2 = diag@;
            assert(d2.skip(d0.len() as int) =~= seq![d2.last()]);
            assert(""@ =~= Seq::<char>::empty());
            assert(r@.map_values(|l: MappingLink| link_view(l)) =~= Seq::<LinkView>::empty());
        }
        return r;
    }
    visited.push(key);
    let mut r: Vec<MappingLink> = Vec::new();
    r.push(MappingLink { source_type: t, source_field_name: fname, path: copy_syms(path) });
    let def = type_def_at(&arenas.types, t);
    let fj = find_field_named(&def.fields, fname);
    proof {
        assert(def.fields@ == types[t as int].fields@);
        lemma_field_named(types[t as int].fields@, fname, 0);
        assert(!v0.contains((t, fname)));
        match field_named(types[t as int].fields@, fname, 0) {
            Some(jj) => {
                assert(fj == Some(jj as usize));
            },
            None => {},
        }
    }
    let ghost link: LinkView = (t, fname, path@);
    match fj {
        Some(j) => {
            proof {
                let fnm = field_named(types[t as int].fields@, fname, 0);
                assert(fnm is Some);
                assert(0 <= fnm->0 < types[t as int].fields@.len());
                assert(fnm->0 as usize == j);
                assert(def.fields@.len() == def.fields.len());
                assert(fnm == Some(j as int));
            }
            let sub = match &def.fields[j].mapping {
                Some(m) => if m.chain.len() > 0 && m.chain[0].path.len() > 0 {
                    Some(copy_syms(&m.chain[0].path))
                } else {
                    None
                },
                None => None,
            };
            proof {
                let f = types[t as int].fields@[j as int];
                assert(f == def.fields@[j as int]);
                assert(f.name < strs.len());
                assert(match first_path(f.mapping) {
                    Some(p) => forall|k: int| 0 <= k < p.len() ==> #[trigger] p[k] < strs.len(),
                    None => true,
                });
                if sub is Some {
                    assert(eff_path(f.mapping) == Some(sub->0@));
                } else {
                    assert(eff_path(f.mapping) is None);
                }
            }
            match sub {
                Some(p2) => {
                    proof {
                        assert(v0.push(key).no_duplicates()) by {
                            assert forall|a: int, b: int| 0 <= a < b < v0.len() + 1 implies v0.push(key)[a] != v0.push(key)[b] by {
                                if b == v0.len() {
                                    assert(v0.push(key)[a] == v0[a]);
                                }
                            }
                        }
                        assert(keys_valid(types, v0.push(key))) by {
                            assert forall|i: int| 0 <= i < v0.len() + 1 implies (#[trigger] v0.push(key)[i]).0 < types.len() && field_named(
                                types[v0.push(key)[i].0 as int].fields@,
                                v0.push(key)[i].1,
                                0,
                            ) is Some by {
                                if i < v0.len() {
                                    assert(v0.push(key)[i] == v0[i]);
                                }
                            }
                        }
                        assert(types[t as int].fields@[j as int] == def.fields@[j as int]);
                        assert forall|k: int| 0 <= k < p2@.len() implies #[trigger] p2@[k] < strs.len() by {
                            assert(0 <= t < types.len() && 0 <= j < types[t as int].fields@.len());
                            let f = types[t as int].fields@[j as int];
                            assert(f.name < strs.len());
                            assert(first_path(f.mapping) == Some(p2@));
                        }
                    }
                    let rest = resolve_mapping_chain(&p2, interner, arenas, diag, visited, Ghost((fuel - 1) as nat));
                    let ghost rest_v = rest@.map_values(|l: MappingLink| link_view(l));
                    let mut rest = rest;
                    proof {
                        assert(r@.map_values(|l: MappingLink| link_view(l)) =~= seq![link]);
                    }
                    r.append(&mut rest);
                    proof {
                        assert(r@.map_values(|l: MappingLink| link_view(l)) =~= seq![link] + rest_v);
                        assert(!v0.contains((t, fname)));
                        assert(field_named(types[t as int].fields@, fname, 0) == Some(j as int));
                        assert(eff_path(types[t as int].fields@[j as int].mapping) == Some(p2@));
                        assert(chain_of(types, strs, path@, v0, fuel) == (
                            seq![link] + chain_of(types, strs, p2@, v0.push((t, fname)), (fuel - 1) as nat).0,
                            chain_of(types, strs, p2@, v0.push((t, fname)), (fuel - 1) as nat).1,
                        ));
                    }
                },
                None => {
                    proof {
                        assert(r@.map_values(|l: MappingLink| link_view(l)) =~= seq![link]);
                        assert(field_named(types[t as int].fields@, fname, 0) == Some(j as int));
                        assert(chain_of(types, strs, path@, v0, fuel) == (seq![link], Seq::<Seq<char>>::empty()));
                        assert(diag@ == d0);
                    }
                },
            }
        },
        None => {
            proof {
                assert(r@.map_values(|l: MappingLink| link_view(l)) =~= seq![link]);
                assert(field_named(types[t as int].fields@, fname, 0) is None);
                assert(chain_of(types, strs, path@, v0, fuel) == (seq![link], Seq::<Seq<char>>::empty()));
                assert(diag@ == d0);
            }
        },
    }
    r
}


// ── The pass over all mapped fields ────────────────────────────────────

/// The chain that a mapping whose first link has path `p` resolves to,
/// reading the types `a`.
pub open spec fn top_chain(a: Seq<TypeDef>, strs: Seq<Seq<char>>, p: Seq<Sym>) -> (Seq<LinkView>, Seq<Seq<char>>) {
    chain_of(a, strs, p, Seq::empty(), field_count(a) + 1)
}

/// `m2` is mapping `m` resolved: a mapping with a first link gets the
/// chain that link's path resolves to; any other stays as it was.
pub open spec fn mapping_resolved(a: Seq<TypeDef>, strs: Seq<Seq<char>>, m: Option<FieldMapping>, m2: Option<FieldMapping>) -> bool {
    match first_path(m) {
        Some(p) => m2 matches Some(fm) && fm.chain@.map_values(|l: MappingLink| link_view(l)) == top_chain(a, strs, p).0,
        None => m2 == m,
    }
}

/// The errors that resolving mapping `m` reports.
pub open spec fn mapping_msgs(a: Seq<TypeDef>, strs: Seq<Seq<char>>, m: Option<FieldMapping>) -> Seq<Seq<char>> {
    match first_path(m) {
        Some(p) => top_chain(a, strs, p).1,
        None => Seq::empty(),
    }
}

/// Field `g` is field `f` with its mapping resolved.
pub open spec fn field_resolved(a: Seq<TypeDef>, strs: Seq<Seq<char>>, f: FieldDef, g: FieldDef) -> bool {
    &&& g == FieldDef { mapping: g.mapping, ..f }
    &&& mapping_resolved(a, strs, f.mapping, g.mapping)
}

/// Oneof field `g` is oneof field `f` with its mapping resolved.
pub open spec fn ofield_resolved(a: Seq<TypeDef>, strs: Seq<Seq<char>>, f: OneofFieldDef, g: OneofFieldDef) -> bool {
    &&& g == OneofFieldDef { mapping: g.mapping, ..f }
    &&& mapping_resolved(a, strs, f.mapping, g.mapping)
}

/// Oneof `y` is oneof `x` with the mappings of its first `n` fields resolved.
pub open spec fn oneof_resolved(a: Seq<TypeDef>, strs: Seq<Seq<char>>, x: OneofDef, y: OneofDef, n: int) -> bool {
    &&& y == OneofDef { fields: y.fields, ..x }
    &&& y.fields@.len() == x.fields@.len()
    &&& forall|k: int| 0 <= k < n ==> ofield_resolved(a, strs, x.fields@[k], #[trigger] y.fields@[k])
    &&& forall|k: int| n <= k < x.fields@.len() ==> #[trigger] y.fields@[k] == x.fields@[k]
}

/// Type `y` is type `x` with the mappings of its first `n` fields resolved.
pub open spec fn fields_resolved(a: Seq<TypeDef>, strs: Seq<Seq<char>>, x: TypeDef, y: TypeDef, n: int) -> bool {
    &&& y == TypeDef { fields: y.fields, ..x }
    &&& y.fields@.len() == x.fields@.len()
    &&& forall|k: int| 0 <= k < n ==> field_resolved(a, strs, x.fields@[k], #[trigger] y.fields@[k])
    &&& forall|k: int| n <= k < x.fields@.len() ==> #[trigger] y.fields@[k] == x.fields@[k]
}

/// Type `y` is type `x` with all its field mappings resolved, those of its
/// first `o` oneofs, and those of the first `n` fields of oneof `o`.
pub open spec fn oneofs_resolved(a: Seq<TypeDef>, strs: Seq<Seq<char>>, x: TypeDef, y: TypeDef, o: int, n: int) -> bool {
    &&& y == TypeDef { fields: y.fields, oneofs: y.oneofs, ..x }
    &&& y.fields@.len() == x.fields@.len()
    &&& forall|k: int| 0 <= k < x.fields@.len() ==> field_resolved(a, strs, x.fields@[k], #[trigger] y.fields@[k])
    &&& y.oneofs@.len() == x.oneofs@.len()
    &&& forall|k: int| 0 <= k < o ==> oneof_resolved(a, strs, x.oneofs@[k], #[trigger] y.oneofs@[k], x.oneofs@[k].fields@.len() as int)
    &&& o < x.oneofs@.len() ==> oneof_resolved(a, strs, x.oneofs@[o], y.oneofs@[o], n)
    &&& forall|k: int| o < k < x.oneofs@.len() ==> #[trigger] y.oneofs@[k] == x.oneofs@[k]
}

/// Type `y` is type `x` with every field mapping, oneof fields too, resolved.
pub open spec fn type_resolved(a: Seq<TypeDef>, strs: Seq<Seq<char>>, x: TypeDef, y: TypeDef) -> bool {
    oneofs_resolved(a, strs, x, y, x.oneofs@.len() as int, 0)
}

/// The errors of resolving the mappings of the first `n` fields of `fs`.
pub open spec fn fields_msgs(a: Seq<TypeDef>, strs: Seq<Seq<char>>, fs: Seq<FieldDef>, n: int) -> Seq<Seq<char>>
    decreases n,
{
    if n <= 0 {
        Seq::empty()
    } else {
        fields_msgs(a, strs, fs, n - 1) + mapping_msgs(a, strs, fs[n - 1].mapping)
    }
}

/// The errors of resolving the mappings of the first `n` oneof fields of `fs`.
pub open spec fn ofields_msgs(a: Seq<TypeDef>, strs: Seq<Seq<char>>, fs: Seq<OneofFieldDef>, n: int) -> Seq<Seq<char>>
    decreases n,
{
    if n <= 0 {
        Seq::empty()
    } else {
        ofields_msgs(a, strs, fs, n - 1) + mapping_msgs(a, strs, fs[n - 1].mapping)
    }
}

/// The errors of resolving the mappings of the fields of the first `n` oneofs.
pub open spec fn oneofs_msgs(a: Seq<TypeDef>, strs: Seq<Seq<char>>, os: Seq<OneofDef>, n: int) -> Seq<Seq<char>>
    decreases n,
{
    if n <= 0 {
        Seq::empty()
    } else {
        oneofs_msgs(a, strs, os, n - 1) + ofields_msgs(a, strs, os[n - 1].fields@, os[n - 1].fields@.len() as int)
    }
}

/// The errors of resolving the mappings of type `x`: its fields', then its oneofs'.
pub open spec fn type_msgs(a: Seq<TypeDef>, strs: Seq<Seq<char>>, x: TypeDef) -> Seq<Seq<char>> {
    fields_msgs(a, strs, x.fields@, x.fields@.len() as int) + oneofs_msgs(a, strs, x.oneofs@, x.oneofs@.len() as int)
}

/// The errors of resolving the mappings of the first `n` types of `a`, in order.
pub open spec fn types_msgs(a: Seq<TypeDef>, strs: Seq<Seq<char>>, n: int) -> Seq<Seq<char>>
    decreases n,
{
    if n <= 0 {
        Seq::empty()
    } else {
        types_msgs(a, strs, n - 1) + type_msgs(a, strs, a[n - 1])
    }
}

/// The names and the chain-relevant paths of `y` are those of `x`.
pub open spec fn same_paths(x: Seq<TypeDef>, y: Seq<TypeDef>) -> bool {
    &&& x.len() == y.len()
    &&& forall|t: int|
        0 <= t < x.len() ==> {
            &&& (#[trigger] y[t]).name == x[t].name
            &&& y[t].fields@.len() == x[t].fields@.len()
            &&& forall|j: int|
                0 <= j < x[t].fields@.len() ==> (#[trigger] y[t].fields@[j]).name == x[t].fields@[j].name && eff_path(
                    y[t].fields@[j].mapping,
                ) == eff_path(x[t].fields@[j].mapping)
        }
}

proof fn lemma_type_named_same(x: Seq<TypeDef>, y: Seq<TypeDef>, strs: Seq<Seq<char>>, text: Seq<char>, k: int)
    requires
        same_paths(x, y),
    ensures
        type_named(x, strs, text, k) == type_named(y, strs, text, k),
    decreases x.len() - k,
{
    if 0 <= k < x.len() {
        assert(y[k].name == x[k].name);
        lemma_type_named_same(x, y, strs, text, k + 1);
    }
}

proof fn lemma_field_named_same(x: Seq<FieldDef>, y: Seq<FieldDef>, name: Sym, k: int)
    requires
        x.len() == y.len(),
        forall|j: int| 0 <= j < x.len() ==> (#[trigger] y[j]).name == x[j].name,
    ensures
        field_named(x, name, k) == field_named(y, name, k),
    decreases x.len() - k,
{
    if 0 <= k < x.len() {
        assert(y[k].name == x[k].name);
        lemma_field_named_same(x, y, name, k + 1);
    }
}

proof fn lemma_fields_before_same(x: Seq<TypeDef>, y: Seq<TypeDef>, t: int)
    requires
        same_paths(x, y),
        t <= x.len(),
    ensures
        fields_before(x, t) == fields_before(y, t),
    decreases t,
{
    if t > 0 {
        lemma_fields_before_same(x, y, t - 1);
        assert(y[t - 1].fields@.len() == x[t - 1].fields@.len());
    }
}

/// Chains read only what `same_paths` keeps.
proof fn lemma_chain_same(x: Seq<TypeDef>, y: Seq<TypeDef>, strs: Seq<Seq<char>>, p: Seq<Sym>, v: Seq<(u32, Sym)>, fuel: nat)
    requires
        same_paths(x, y),
    ensures
        chain_of(x, strs, p, v, fuel) == chain_of(y, strs, p, v, fuel),
    decreases fuel,
{
    if p.len() > 0 && fuel > 0 {
        let tn = strs[p[0] as int];
        lemma_type_named_same(x, y, strs, tn, 0);
        lemma_type_named(x, strs, tn, 0);
        if let Some(t) = type_named(x, strs, tn, 0) {
            let fname = p.last();
            assert(y[t].name == x[t].name);
            assert forall|j: int| 0 <= j < x[t].fields@.len() implies (#[trigger] y[t].fields@[j]).name == x[t].fields@[j].name by {}
            lemma_field_named_same(x[t].fields@, y[t].fields@, fname, 0);
            lemma_field_named(x[t].fields@, fname, 0);
            if let Some(j) = field_named(x[t].fields@, fname, 0) {
                assert(eff_path(y[t].fields@[j].mapping) == eff_path(x[t].fields@[j].mapping));
                if let Some(p2) = eff_path(x[t].fields@[j].mapping) {
                    lemma_chain_same(x, y, strs, p2, v.push((t as u32, fname)), (fuel - 1) as nat);
                }
            }
        }
    }
}

/// A chain for a non-empty path starts with a link of that path.
proof fn lemma_chain_first(types: Seq<TypeDef>, strs: Seq<Seq<char>>, p: Seq<Sym>, fuel: nat)
    requires
        p.len() > 0,
        fuel > 0,
    ensures
        chain_of(types, strs, p, Seq::empty(), fuel).0.len() > 0,
        chain_of(types, strs, p, Seq::empty(), fuel).0[0].2 == p,
{
    let tn = strs[p[0] as int];
    if let Some(t) = type_named(types, strs, tn, 0) {
        assert(!Seq::<(u32, Sym)>::empty().contains((t as u32, p.last())));
    }
}


/// The path of a mapping's first link, where it has one.
fn first_path_of(m: &Option<FieldMapping>) -> (r: Option<Vec<Sym>>)
    ensures
        match first_path(*m) {
            Some(p) => r matches Some(v) && v@ == p,
            None => r is None,
        },
{
    match m {
        Some(fm) => if fm.chain.len() > 0 {
            Some(copy_syms(&fm.chain[0].path))
        } else {
            None
        },
        None => None,
    }
}

/// What one resolution of a mapping keeps: the paths chains read and
/// what they need interned.
spec fn still_ok(a: Seq<TypeDef>, cur: Seq<TypeDef>, strs: Seq<Seq<char>>) -> bool {
    &&& same_paths(a, cur)
    &&& mappings_interned(cur, strs)
    &&& cur.len() <= u32::MAX
}

/// Resolve the mapping of field `j` of type `t`, if it has one.
fn resolve_field_at(
    t: u32,
    j: usize,
    interner: &Interner,
    arenas: &mut Arenas,
    diag: &mut Diagnostics,
    Ghost(a): Ghost<Seq<TypeDef>>,
)
    requires
        still_ok(a, type_defs(old(arenas).types), interned(*interner)),
        t < a.len(),
        j < a[t as int].fields@.len(),
        type_defs(old(arenas).types)[t as int].fields@[j as int] == a[t as int].fields@[j as int],
    ensures
        still_ok(a, type_defs(final(arenas).types), interned(*interner)),
        ({
            let c = type_defs(old(arenas).types);
            let d = type_defs(final(arenas).types);
            &&& d.len() == c.len()
            &&& forall|u: int| 0 <= u < c.len() && u != t ==> d[u] == c[u]
            &&& d[t as int] == TypeDef { fields: d[t as int].fields, ..c[t as int] }
            &&& d[t as int].fields@.len() == c[t as int].fields@.len()
            &&& forall|k: int| 0 <= k < c[t as int].fields@.len() && k != j ==> d[t as int].fields@[k] == c[t as int].fields@[k]
            &&& field_resolved(a, interned(*interner), a[t as int].fields@[j as int], d[t as int].fields@[j as int])
        }),
        final(arenas).enums == old(arenas).enums,
        final(arenas).services == old(arenas).services,
        final(arenas).shapes == old(arenas).shapes,
        final(arenas).annotation_defs == old(arenas).annotation_defs,
        grows(old(diag)@, final(diag)@),
        errors_reported(
            final(diag)@.skip(old(diag)@.len() as int),
            mapping_msgs(a, interned(*interner), a[t as int].fields@[j as int].mapping),
        ),
{
    let ghost c = type_defs(arenas.types);
    let ghost strs = interned(*interner);
    let ghost f0 = a[t as int].fields@[j as int];
    let ghost d0 = diag@;
    proof {
        assert(d0.skip(d0.len() as int) =~= Seq::<crate::diagnostics::Diagnostic>::empty());
        assert forall|k: int| 0 <= k < d0.len() implies #[trigger] d0[k] == d0[k] by {}
        assert(c[t as int].fields@.len() == a[t as int].fields@.len());
    }
    let po = first_path_of(&type_def_at(&arenas.types, t).fields[j].mapping);
    let p = match po {
        Some(p) => p,
        None => {
            proof {
                assert(c[t as int].fields@[j as int] == f0);
            }
            return;
        },
    };
    proof {
        lemma_fields_before_same(a, c, a.len() as int);
        lemma_chain_same(a, c, strs, p@, Seq::empty(), field_count(a) + 1);
        assert(0 <= t < c.len() && 0 <= j < c[t as int].fields@.len());
        let cf = c[t as int].fields@[j as int];
        assert(cf.name < strs.len());
        assert(first_path(cf.mapping) == Some(p@));
        assert forall|k: int| 0 <= k < p@.len() implies #[trigger] p@[k] < strs.len() by {
            assert(match first_path(cf.mapping) {
                Some(q) => forall|i: int| 0 <= i < q.len() ==> #[trigger] q[i] < strs.len(),
                None => true,
            });
        }
        assert(keys_valid(c, Seq::empty()));
        assert(Seq::<(u32, Sym)>::empty().no_duplicates());
    }
    let mut visited: Vec<(u32, Sym)> = Vec::new();
    proof {
        assert(visited@ =~= Seq::<(u32, Sym)>::empty());
    }
    let chain = resolve_mapping_chain(&p, interner, arenas, diag, &mut visited, Ghost(field_count(a) + 1));
    let ghost cv = chain@.map_values(|l: MappingLink| link_view(l));
    proof {
        if p@.len() > 0 {
            lemma_chain_first(a, strs, p@, field_count(a) + 1);
            assert(chain@[0].path@ == cv[0].2);
        } else {
            assert(cv.len() == 0);
        }
    }
    let def = type_def_mut(&mut arenas.types, t);
    let mut f = def.fields.remove(j);
    f.mapping = Some(FieldMapping { chain });
    def.fields.insert(j, f);
    proof {
        let dd = type_defs(arenas.types);
        assert(dd[t as int].fields@ =~= c[t as int].fields@.update(j as int, dd[t as int].fields@[j as int]));
        let g = dd[t as int].fields@[j as int];
        assert(g == FieldDef { mapping: g.mapping, ..f0 });
        assert(eff_path(g.mapping) == eff_path(f0.mapping));
        assert(same_paths(a, dd)) by {
            assert forall|u: int| 0 <= u < a.len() implies {
                &&& (#[trigger] dd[u]).name == a[u].name
                &&& dd[u].fields@.len() == a[u].fields@.len()
                &&& forall|k: int|
                    0 <= k < a[u].fields@.len() ==> (#[trigger] dd[u].fields@[k]).name == a[u].fields@[k].name && eff_path(
                        dd[u].fields@[k].mapping,
                    ) == eff_path(a[u].fields@[k].mapping)
            } by {
                assert(c[u].name == a[u].name);
                if u != t {
                    assert(dd[u] == c[u]);
                }
                assert forall|k: int| 0 <= k < a[u].fields@.len() implies (#[trigger] dd[u].fields@[k]).name == a[u].fields@[k].name
                    && eff_path(dd[u].fields@[k].mapping) == eff_path(a[u].fields@[k].mapping) by {
                    assert(c[u].fields@[k].name == a[u].fields@[k].name);
                }
            }
        }
        assert(mappings_interned(dd, strs)) by {
            assert forall|u: int| 0 <= u < dd.len() implies (#[trigger] dd[u]).name < strs.len() by {
                assert(c[u].name < strs.len());
            }
            assert forall|u: int, k: int| 0 <= u < dd.len() && 0 <= k < dd[u].fields@.len() implies {
                &&& (#[trigger] dd[u].fields@[k]).name < strs.len()
                &&& match first_path(dd[u].fields@[k].mapping) {
                    Some(q) => forall|i: int| 0 <= i < q.len() ==> #[trigger] q[i] < strs.len(),
                    None => true,
                }
            } by {
                let ck = c[u].fields@[k];
                assert(ck.name < strs.len());
                assert(match first_path(ck.mapping) {
                    Some(q) => forall|i: int| 0 <= i < q.len() ==> #[trigger] q[i] < strs.len(),
                    None => true,
                });
            }
            assert forall|u: int, o: int, k: int|
                0 <= u < dd.len() && 0 <= o < dd[u].oneofs@.len() && 0 <= k < dd[u].oneofs@[o].fields@.len() implies match first_path(
                    (#[trigger] dd[u].oneofs@[o].fields@[k]).mapping,
                ) {
                    Some(q) => forall|i: int| 0 <= i < q.len() ==> #[trigger] q[i] < strs.len(),
                    None => true,
                } by {
                assert(dd[u].oneofs == c[u].oneofs);
                let ck = c[u].oneofs@[o].fields@[k];
                assert(match first_path(ck.mapping) {
                    Some(q) => forall|i: int| 0 <= i < q.len() ==> #[trigger] q[i] < strs.len(),
                    None => true,
                });
            }
        }
    }
}


/// Resolve the mapping of field `j` of oneof `o` of type `t`, if it has one.
fn resolve_ofield_at(
    t: u32,
    o: usize,
    j: usize,
    interner: &Interner,
    arenas: &mut Arenas,
    diag: &mut Diagnostics,
    Ghost(a): Ghost<Seq<TypeDef>>,
)
    requires
        still_ok(a, type_defs(old(arenas).types), interned(*interner)),
        t < a.len(),
        o < a[t as int].oneofs@.len(),
        type_defs(old(arenas).types)[t as int].oneofs@.len() == a[t as int].oneofs@.len(),
        j < a[t as int].oneofs@[o as int].fields@.len(),
        type_defs(old(arenas).types)[t as int].oneofs@[o as int].fields@.len() == a[t as int].oneofs@[o as int].fields@.len(),
        type_defs(old(arenas).types)[t as int].oneofs@[o as int].fields@[j as int] == a[t as int].oneofs@[o as int].fields@[j as int],
    ensures
        still_ok(a, type_defs(final(arenas).types), interned(*interner)),
        ({
            let c = type_defs(old(arenas).types);
            let d = type_defs(final(arenas).types);
            let co = c[t as int].oneofs@[o as int];
            let dn = d[t as int].oneofs@[o as int];
            &&& d.len() == c.len()
            &&& forall|u: int| 0 <= u < c.len() && u != t ==> d[u] == c[u]
            &&& d[t as int] == TypeDef { oneofs: d[t as int].oneofs, ..c[t as int] }
            &&& d[t as int].oneofs@.len() == c[t as int].oneofs@.len()
            &&& forall|k: int| 0 <= k < c[t as int].oneofs@.len() && k != o ==> d[t as int].oneofs@[k] == c[t as int].oneofs@[k]
            &&& dn == OneofDef { fields: dn.fields, ..co }
            &&& dn.fields@.len() == co.fields@.len()
            &&& forall|k: int| 0 <= k < co.fields@.len() && k != j ==> dn.fields@[k] == co.fields@[k]
            &&& ofield_resolved(a, interned(*interner), a[t as int].oneofs@[o as int].fields@[j as int], dn.fields@[j as int])
        }),
        final(arenas).enums == old(arenas).enums,
        final(arenas).services == old(arenas).services,
        final(arenas).shapes == old(arenas).shapes,
        final(arenas).annotation_defs == old(arenas).annotation_defs,
        grows(old(diag)@, final(diag)@),
        errors_reported(
            final(diag)@.skip(old(diag)@.len() as int),
            mapping_msgs(a, interned(*interner), a[t as int].oneofs@[o as int].fields@[j as int].mapping),
        ),
{
    let ghost c = type_defs(arenas.types);
    let ghost strs = interned(*interner);
    let ghost f0 = a[t as int].oneofs@[o as int].fields@[j as int];
    let ghost d0 = diag@;
    proof {
        assert(d0.skip(d0.len() as int) =~= Seq::<crate::diagnostics::Diagnostic>::empty());
        assert forall|k: int| 0 <= k < d0.len() implies #[trigger] d0[k] == d0[k] by {}
    }
    let po = first_path_of(&type_def_at(&arenas.types, t).oneofs[o].fields[j].mapping);
    let p = match po {
        Some(p) => p,
        None => {
            return;
        },
    };
    proof {
        lemma_fields_before_same(a, c, a.len() as int);
        lemma_chain_same(a, c, strs, p@, Seq::empty(), field_count(a) + 1);
        let cf = c[t as int].oneofs@[o as int].fields@[j as int];
        assert(first_path(cf.mapping) == Some(p@));
        assert forall|k: int| 0 <= k < p@.len() implies #[trigger] p@[k] < strs.len() by {
            assert(match first_path(cf.mapping) {
                Some(q) => forall|i: int| 0 <= i < q.len() ==> #[trigger] q[i] < strs.len(),
                None => true,
            });
        }
        assert(keys_valid(c, Seq::empty()));
        assert(Seq::<(u32, Sym)>::empty().no_duplicates());
    }
    let mut visited: Vec<(u32, Sym)> = Vec::new();
    proof {
        assert(visited@ =~= Seq::<(u32, Sym)>::empty());
    }
    let chain = resolve_mapping_chain(&p, interner, arenas, diag, &mut visited, Ghost(field_count(a) + 1));
    let ghost cv = chain@.map_values(|l: MappingLink| link_view(l));
    proof {
        if p@.len() > 0 {
            lemma_chain_first(a, strs, p@, field_count(a) + 1);
            assert(chain@[0].path@ == cv[0].2);
        } else {
            assert(cv.len() == 0);
        }
    }
    let def = type_def_mut(&mut arenas.types, t);
    let mut od = def.oneofs.remove(o);
    let mut f = od.fields.remove(j);
    f.mapping = Some(FieldMapping { chain });
    od.fields.insert(j, f);
    def.oneofs.insert(o, od);
    proof {
        let dd = type_defs(arenas.types);
        assert(dd[t as int].oneofs@ =~= c[t as int].oneofs@.update(o as int, dd[t as int].oneofs@[o as int]));
        let dn = dd[t as int].oneofs@[o as int];
        let co = c[t as int].oneofs@[o as int];
        assert(dn.fields@ =~= co.fields@.update(j as int, dn.fields@[j as int]));
        assert(dd[t as int].fields == c[t as int].fields);
        assert(same_paths(a, dd)) by {
            assert forall|u: int| 0 <= u < a.len() implies {
                &&& (#[trigger] dd[u]).name == a[u].name
                &&& dd[u].fields@.len() == a[u].fields@.len()
                &&& forall|k: int|
                    0 <= k < a[u].fields@.len() ==> (#[trigger] dd[u].fields@[k]).name == a[u].fields@[k].name && eff_path(
                        dd[u].fields@[k].mapping,
                    ) == eff_path(a[u].fields@[k].mapping)
            } by {
                assert(c[u].name == a[u].name);
                if u != t {
                    assert(dd[u] == c[u]);
                }
                assert forall|k: int| 0 <= k < a[u].fields@.len() implies (#[trigger] dd[u].fields@[k]).name == a[u].fields@[k].name
                    && eff_path(dd[u].fields@[k].mapping) == eff_path(a[u].fields@[k].mapping) by {
                    assert(c[u].fields@[k].name == a[u].fields@[k].name);
                }
            }
        }
        assert(mappings_interned(dd, strs)) by {
            assert forall|u: int| 0 <= u < dd.len() implies (#[trigger] dd[u]).name < strs.len() by {
                assert(c[u].name < strs.len());
            }
            assert forall|u: int, k: int| 0 <= u < dd.len() && 0 <= k < dd[u].fields@.len() implies {
                &&& (#[trigger] dd[u].fields@[k]).name < strs.len()
                &&& match first_path(dd[u].fields@[k].mapping) {
                    Some(q) => forall|i: int| 0 <= i < q.len() ==> #[trigger] q[i] < strs.len(),
                    None => true,
                }
            } by {
                let ck = c[u].fields@[k];
                assert(dd[u].fields == c[u].fields);
                assert(ck.name < strs.len());
                assert(match first_path(ck.mapping) {
                    Some(q) => forall|i: int| 0 <= i < q.len() ==> #[trigger] q[i] < strs.len(),
                    None => true,
                });
            }
            assert forall|u: int, w: int, k: int|
                0 <= u < dd.len() && 0 <= w < dd[u].oneofs@.len() && 0 <= k < dd[u].oneofs@[w].fields@.len() implies match first_path(
                    (#[trigger] dd[u].oneofs@[w].fields@[k]).mapping,
                ) {
                    Some(q) => forall|i: int| 0 <= i < q.len() ==> #[trigger] q[i] < strs.len(),
                    None => true,
                } by {
                let ck = c[u].oneofs@[w].fields@[k];
                assert(match first_path(ck.mapping) {
                    Some(q) => forall|i: int| 0 <= i < q.len() ==> #[trigger] q[i] < strs.len(),
                    None => true,
                });
                if u == t && w == o && k == j {
                    assert(first_path(dd[u].oneofs@[w].fields@[k].mapping) == Some(cv[0].2) || first_path(dd[u].oneofs@[w].fields@[k].mapping) is None);
                } else if u == t && w == o {
                    assert(dd[u].oneofs@[w].fields@[k] == ck);
                } else if u == t {
                    assert(dd[u].oneofs@[w] == c[u].oneofs@[w]);
                } else {
                    assert(dd[u] == c[u]);
                }
            }
        }
    }
}


/// Resolve the projection mappings of every type: each field (oneof fields
/// too) whose mapping has a first link gets the chain that link's path
/// resolves to, read from the types as they were, and the errors met are
/// reported, type by type, fields before oneofs.
pub fn resolve_projections(interner: &mut Interner, arenas: &mut Arenas, symbols: &SymbolTable, diag: &mut Diagnostics)
    requires
        mappings_interned(type_defs(old(arenas).types), interned(*old(interner))),
        type_defs(old(arenas).types).len() <= u32::MAX,
    ensures
        *final(interner) == *old(interner),
        type_defs(final(arenas).types).len() == type_defs(old(arenas).types).len(),
        forall|t: int|
            0 <= t < type_defs(old(arenas).types).len() ==> type_resolved(
                type_defs(old(arenas).types),
                interned(*old(interner)),
                type_defs(old(arenas).types)[t],
                #[trigger] type_defs(final(arenas).types)[t],
            ),
        final(arenas).enums == old(arenas).enums,
        final(arenas).services == old(arenas).services,
        final(arenas).shapes == old(arenas).shapes,
        final(arenas).annotation_defs == old(arenas).annotation_defs,
        grows(old(diag)@, final(diag)@),
        errors_reported(
            final(diag)@.skip(old(diag)@.len() as int),
            types_msgs(type_defs(old(arenas).types), interned(*old(interner)), type_defs(old(arenas).types).len() as int),
        ),
{
    let ghost a = type_defs(arenas.types);
    let ghost strs = interned(*interner);
    let ghost d0 = diag@;
    proof {
        assert(d0.skip(d0.len() as int) =~= Seq::<crate::diagnostics::Diagnostic>::empty());
        assert forall|k: int| 0 <= k < d0.len() implies #[trigger] d0[k] == d0[k] by {}
        assert(same_paths(a, a));
    }
    let n = arena_lens(arenas).0;
    let mut t: usize = 0;
    while t < n
        invariant
            n == a.len(),
            strs == interned(*interner),
            *interner == *old(interner),
            a == type_defs(old(arenas).types),
            d0 == old(diag)@,
            t <= n,
            still_ok(a, type_defs(arenas.types), strs),
            type_defs(arenas.types).len() == a.len(),
            forall|u: int| 0 <= u < t ==> type_resolved(a, strs, a[u], #[trigger] type_defs(arenas.types)[u]),
            forall|u: int| t <= u < a.len() ==> #[trigger] type_defs(arenas.types)[u] == a[u],
            arenas.enums == old(arenas).enums,
            arenas.services == old(arenas).services,
            arenas.shapes == old(arenas).shapes,
            arenas.annotation_defs == old(arenas).annotation_defs,
            grows(d0, diag@),
            errors_reported(diag@.skip(d0.len() as int), types_msgs(a, strs, t as int)),
        decreases n - t,
    {
        let ghost at = a[t as int];
        let nf = type_def_at(&arenas.types, t as TypeId).fields.len();
        let mut j: usize = 0;
        while j < nf
            invariant
                n == a.len(),
                strs == interned(*interner),
                a == type_defs(old(arenas).types),
                t < n,
                at == a[t as int],
                nf == at.fields@.len(),
                j <= nf,
                still_ok(a, type_defs(arenas.types), strs),
                type_defs(arenas.types).len() == a.len(),
                forall|u: int| 0 <= u < t ==> type_resolved(a, strs, a[u], #[trigger] type_defs(arenas.types)[u]),
                forall|u: int| t < u < a.len() ==> #[trigger] type_defs(arenas.types)[u] == a[u],
                fields_resolved(a, strs, at, type_defs(arenas.types)[t as int], j as int),
                arenas.enums == old(arenas).enums,
                arenas.services == old(arenas).services,
                arenas.shapes == old(arenas).shapes,
                arenas.annotation_defs == old(arenas).annotation_defs,
                grows(d0, diag@),
                errors_reported(diag@.skip(d0.len() as int), types_msgs(a, strs, t as int) + fields_msgs(a, strs, at.fields@, j as int)),
            decreases nf - j,
        {
            let ghost d1 = diag@;
            let ghost c = type_defs(arenas.types);
            resolve_field_at(t as u32, j, interner, arenas, diag, Ghost(a));
            proof {
                let d = type_defs(arenas.types);
                let e1 = types_msgs(a, strs, t as int) + fields_msgs(a, strs, at.fields@, j as int);
                let e2 = mapping_msgs(a, strs, at.fields@[j as int].mapping);
                lemma_errors_append(d0, d1, diag@, e1, e2);
                assert(e1 + e2 =~= types_msgs(a, strs, t as int) + fields_msgs(a, strs, at.fields@, j + 1));
                assert forall|u: int| 0 <= u < t implies type_resolved(a, strs, a[u], #[trigger] d[u]) by {
                    assert(d[u] == c[u]);
                }
                assert forall|u: int| t < u < a.len() implies #[trigger] d[u] == a[u] by {
                    assert(d[u] == c[u]);
                }
                assert(fields_resolved(a, strs, at, d[t as int], j + 1)) by {
                    assert forall|k: int| 0 <= k < j + 1 implies field_resolved(a, strs, at.fields@[k], #[trigger] d[t as int].fields@[k]) by {
                        if k < j {
                            assert(d[t as int].fields@[k] == c[t as int].fields@[k]);
                        }
                    }
                    assert forall|k: int| j + 1 <= k < at.fields@.len() implies #[trigger] d[t as int].fields@[k] == at.fields@[k] by {
                        assert(d[t as int].fields@[k] == c[t as int].fields@[k]);
                    }
                }
            }
            j += 1;
        }
        let no = type_def_at(&arenas.types, t as TypeId).oneofs.len();
        let mut o: usize = 0;
        proof {
            let c = type_defs(arenas.types);
            assert(oneofs_msgs(a, strs, at.oneofs@, 0) =~= Seq::<Seq<char>>::empty());
            assert(types_msgs(a, strs, t as int) + fields_msgs(a, strs, at.fields@, nf as int) =~= types_msgs(a, strs, t as int)
                + fields_msgs(a, strs, at.fields@, nf as int) + oneofs_msgs(a, strs, at.oneofs@, 0) + ofields_msgs(a, strs, if 0 < at.oneofs@.len() { at.oneofs@[0].fields@ } else { Seq::empty() }, 0));
            assert(c[t as int].oneofs == at.oneofs);
            assert(oneofs_resolved(a, strs, at, c[t as int], 0, 0));
        }
        while o < no
            invariant
                n == a.len(),
                strs == interned(*interner),
                a == type_defs(old(arenas).types),
                t < n,
                at == a[t as int],
                nf == at.fields@.len(),
                no == at.oneofs@.len(),
                o <= no,
                still_ok(a, type_defs(arenas.types), strs),
                type_defs(arenas.types).len() == a.len(),
                forall|u: int| 0 <= u < t ==> type_resolved(a, strs, a[u], #[trigger] type_defs(arenas.types)[u]),
                forall|u: int| t < u < a.len() ==> #[trigger] type_defs(arenas.types)[u] == a[u],
                oneofs_resolved(a, strs, at, type_defs(arenas.types)[t as int], o as int, 0),
                arenas.enums == old(arenas).enums,
                arenas.services == old(arenas).services,
                arenas.shapes == old(arenas).shapes,
                arenas.annotation_defs == old(arenas).annotation_defs,
                grows(d0, diag@),
                errors_reported(
                    diag@.skip(d0.len() as int),
                    types_msgs(a, strs, t as int) + fields_msgs(a, strs, at.fields@, nf as int) + oneofs_msgs(a, strs, at.oneofs@, o as int),
                ),
            decreases no - o,
        {
            let ghost ao = at.oneofs@[o as int];
            let nk = type_def_at(&arenas.types, t as TypeId).oneofs[o].fields.len();
            let mut j: usize = 0;
            proof {
                assert(ofields_msgs(a, strs, ao.fields@, 0) =~= Seq::<Seq<char>>::empty());
                let e = types_msgs(a, strs, t as int) + fields_msgs(a, strs, at.fields@, nf as int) + oneofs_msgs(a, strs, at.oneofs@, o as int);
                assert(e + Seq::<Seq<char>>::empty() =~= e);
            }
            while j < nk
                invariant
                    n == a.len(),
                    strs == interned(*interner),
                    a == type_defs(old(arenas).types),
                    t < n,
                    at == a[t as int],
                    nf == at.fields@.len(),
                    no == at.oneofs@.len(),
                    o < no,
                    ao == at.oneofs@[o as int],
                    nk == ao.fields@.len(),
                    j <= nk,
                    still_ok(a, type_defs(arenas.types), strs),
                    type_defs(arenas.types).len() == a.len(),
                    forall|u: int| 0 <= u < t ==> type_resolved(a, strs, a[u], #[trigger] type_defs(arenas.types)[u]),
                    forall|u: int| t < u < a.len() ==> #[trigger] type_defs(arenas.types)[u] == a[u],
                    oneofs_resolved(a, strs, at, type_defs(arenas.types)[t as int], o as int, j as int),
                    arenas.enums == old(arenas).enums,
                    arenas.services == old(arenas).services,
                    arenas.shapes == old(arenas).shapes,
                    arenas.annotation_defs == old(arenas).annotation_defs,
                    grows(d0, diag@),
                    errors_reported(
                        diag@.skip(d0.len() as int),
                        types_msgs(a, strs, t as int) + fields_msgs(a, strs, at.fields@, nf as int) + oneofs_msgs(a, strs, at.oneofs@, o as int)
                            + ofields_msgs(a, strs, ao.fields@, j as int),
                    ),
                decreases nk - j,
            {
                let ghost d1 = diag@;
                let ghost c = type_defs(arenas.types);
                proof {
                    assert(c[t as int].oneofs@[o as int].fields@[j as int] == ao.fields@[j as int]);
                }
                resolve_ofield_at(t as u32, o, j, interner, arenas, diag, Ghost(a));
                proof {
                    let d = type_defs(arenas.types);
                    let e1 = types_msgs(a, strs, t as int) + fields_msgs(a, strs, at.fields@, nf as int) + oneofs_msgs(a, strs, at.oneofs@, o as int)
                        + ofields_msgs(a, strs, ao.fields@, j as int);
                    let e2 = mapping_msgs(a, strs, ao.fields@[j as int].mapping);
                    lemma_errors_append(d0, d1, diag@, e1, e2);
                    assert(e1 + e2 =~= types_msgs(a, strs, t as int) + fields_msgs(a, strs, at.fields@, nf as int) + oneofs_msgs(
                        a,
                        strs,
                        at.oneofs@,
                        o as int,
                    ) + ofields_msgs(a, strs, ao.fields@, j + 1));
                    assert forall|u: int| 0 <= u < t implies type_resolved(a, strs, a[u], #[trigger] d[u]) by {
                        assert(d[u] == c[u]);
                    }
                    assert forall|u: int| t < u < a.len() implies #[trigger] d[u] == a[u] by {
                        assert(d[u] == c[u]);
                    }
                    let ct = c[t as int];
                    let dt = d[t as int];
                    assert(dt.fields == ct.fields);
                    assert(oneofs_resolved(a, strs, at, dt, o as int, j + 1)) by {
                        assert forall|k: int| 0 <= k < at.fields@.len() implies field_resolved(a, strs, at.fields@[k], #[trigger] dt.fields@[k]) by {
                            assert(field_resolved(a, strs, at.fields@[k], ct.fields@[k]));
                        }
                        assert forall|k: int| 0 <= k < o implies oneof_resolved(a, strs, at.oneofs@[k], #[trigger] dt.oneofs@[k], at.oneofs@[k].fields@.len() as int) by {
                            assert(dt.oneofs@[k] == ct.oneofs@[k]);
                        }
                        assert forall|k: int| o < k < at.oneofs@.len() implies #[trigger] dt.oneofs@[k] == at.oneofs@[k] by {
                            assert(dt.oneofs@[k] == ct.oneofs@[k]);
                        }
                        let dn = dt.oneofs@[o as int];
                        let cn = ct.oneofs@[o as int];
                        assert forall|k: int| 0 <= k < j + 1 implies ofield_resolved(a, strs, ao.fields@[k], #[trigger] dn.fields@[k]) by {
                            if k < j {
                                assert(dn.fields@[k] == cn.fields@[k]);
                            }
                        }
                        assert forall|k: int| j + 1 <= k < ao.fields@.len() implies #[trigger] dn.fields@[k] == ao.fields@[k] by {
                            assert(dn.fields@[k] == cn.fields@[k]);
                        }
                    }
                }
                j += 1;
            }
            proof {
                let e = types_msgs(a, strs, t as int) + fields_msgs(a, strs, at.fields@, nf as int);
                assert(e + oneofs_msgs(a, strs, at.oneofs@, o as int) + ofields_msgs(a, strs, ao.fields@, nk as int) =~= e
                    + oneofs_msgs(a, strs, at.oneofs@, o + 1));
                let dt = type_defs(arenas.types)[t as int];
                assert(oneofs_resolved(a, strs, at, dt, o + 1, 0)) by {
                    assert forall|k: int| 0 <= k < o + 1 implies oneof_resolved(a, strs, at.oneofs@[k], #[trigger] dt.oneofs@[k], at.oneofs@[k].fields@.len() as int) by {
                    }
                    if o + 1 < at.oneofs@.len() {
                        assert(dt.oneofs@[o + 1] == at.oneofs@[o + 1]);
                    }
                }
            }
            o += 1;
        }
        proof {
            let d = type_defs(arenas.types);
            assert(types_msgs(a, strs, t + 1) =~= types_msgs(a, strs, t as int) + fields_msgs(a, strs, at.fields@, nf as int)
                + oneofs_msgs(a, strs, at.oneofs@, no as int));
            assert(type_resolved(a, strs, at, d[t as int]));
        }
        t += 1;
    }
}

} // verus!
