//! Import validation: names that two imports of a file share, imports of
//! standard library packages that do not exist, and imports of packages of
//! the module that no file declares.

use vstd::prelude::*;
use crate::ast::{AstNode, ImportDecl, Root, alias_slot};
use crate::diagnostics::{Diagnostic, Diagnostics, Severity, simple};
use crate::index::{ParsedFile, child_nodes, grows, lemma_children_nodes, lemma_first_child, node_range};
use crate::pipeline::import_path;
use crate::syntax_kind::SyntaxKind;
use crate::tree::{SyntaxNode, same_text, text_of};

verus! {

/// Whether `p` begins with `q`.
pub open spec fn starts_with(p: Seq<char>, q: Seq<char>) -> bool {
    p.len() >= q.len() && p.subrange(0, q.len() as int) == q
}

/// The part of `p` after its last `/` (all of `p` when it has none).
pub open spec fn last_part(p: Seq<char>) -> Seq<char>
    decreases p.len(),
{
    if p.len() == 0 {
        p
    } else if p.last() == '/' {
        Seq::empty()
    } else {
        last_part(p.drop_last()).push(p.last())
    }
}

/// Lexicographic order of character sequences, by code point.
pub open spec fn text_lt(a: Seq<char>, b: Seq<char>) -> bool
    decreases a.len(),
{
    if a.len() == 0 {
        b.len() > 0
    } else if b.len() == 0 {
        false
    } else if a[0] != b[0] {
        (a[0] as int) < (b[0] as int)
    } else {
        text_lt(a.skip(1), b.skip(1))
    }
}

/// `ks` with `x` put in its place by `text_lt`, unless it is already there.
pub open spec fn sorted_insert(ks: Seq<Seq<char>>, x: Seq<char>) -> Seq<Seq<char>>
    decreases ks.len(),
{
    if ks.len() == 0 {
        seq![x]
    } else if x == ks[0] {
        ks
    } else if text_lt(x, ks[0]) {
        seq![x] + ks
    } else {
        seq![ks[0]] + sorted_insert(ks.skip(1), x)
    }
}

/// The packages of `files`, each once, in `text_lt` order.
pub open spec fn package_list(files: Seq<ParsedFile>) -> Seq<Seq<char>>
    decreases files.len(),
{
    if files.len() == 0 {
        Seq::empty()
    } else {
        sorted_insert(package_list(files.drop_last()), files.last().package@)
    }
}

/// `ks` joined by `", "`.
pub open spec fn joined_list(ks: Seq<Seq<char>>) -> Seq<char>
    decreases ks.len(),
{
    if ks.len() == 0 {
        Seq::empty()
    } else if ks.len() == 1 {
        ks[0]
    } else {
        joined_list(ks.drop_last()) + ", "@ + ks.last()
    }
}

/// The text of import `imp`'s alias, if it has one.
pub open spec fn alias_text(imp: SyntaxNode) -> Option<Seq<char>> {
    match alias_slot(imp) {
        Some(s) => Some(text_of(imp.tree().tokens_view()[imp.elements()[s]->Token_0 as int].text@)),
        None => None,
    }
}

/// The name import `imp` with path `p` is known by: its alias, or the last
/// part of its path.
pub open spec fn known_as(imp: SyntaxNode, p: Seq<char>) -> Seq<char> {
    match alias_text(imp) {
        Some(a) => a,
        None => last_part(p),
    }
}

/// What is reported of an import whose name was taken by another path.
pub open spec fn collision_message(short: Seq<char>, existing: Seq<char>, p: Seq<char>) -> Seq<char> {
    "import name collision: '"@ + short + "' already imported from '"@ + existing + "' — use an alias: import "@ + p
        + " as <alias>;"@
}

/// The names taken by the imports `imps` of one file, each with the path
/// that took it last, and the collisions found on the way, in order.
pub open spec fn collisions(imps: Seq<SyntaxNode>) -> (Map<Seq<char>, Seq<char>>, Seq<(SyntaxNode, Seq<char>)>)
    decreases imps.len(),
{
    if imps.len() == 0 {
        (Map::empty(), Seq::empty())
    } else {
        let prev = collisions(imps.drop_last());
        let imp = imps.last();
        match import_path(imp) {
            None => prev,
            Some(p) => {
                let short = known_as(imp, p);
                let out = if prev.0.contains_key(short) && prev.0[short] != p {
                    prev.1.push((imp, collision_message(short, prev.0[short], p)))
                } else {
                    prev.1
                };
                (prev.0.insert(short, p), out)
            },
        }
    }
}

/// Imports under this prefix name packages of the standard library.
pub open spec fn std_prefix() -> Seq<char> {
    "github.com/oghamlang/std/"@
}

/// What is reported of an import with path `p`, if anything: an unknown
/// standard library package, or a package of the module (`module`) that
/// no file declares (`known`: the packages of the files, in order).
pub open spec fn import_problem(
    p: Seq<char>,
    module: Option<Seq<char>>,
    std_paths: Seq<Seq<char>>,
    known: Seq<Seq<char>>,
) -> Option<Seq<char>> {
    if starts_with(p, std_prefix()) {
        if std_paths.contains(p) {
            None
        } else {
            Some("unknown standard library package: "@ + p)
        }
    } else if module matches Some(mp) && starts_with(p, mp) {
        if known.contains(last_part(p)) {
            None
        } else {
            Some(
                "local package '"@ + last_part(p) + "' not found in module — available packages: "@ + joined_list(
                    known,
                ),
            )
        }
    } else {
        None
    }
}

/// The problems of the imports `imps`, in order.
pub open spec fn problems(
    imps: Seq<SyntaxNode>,
    module: Option<Seq<char>>,
    std_paths: Seq<Seq<char>>,
    known: Seq<Seq<char>>,
) -> Seq<(SyntaxNode, Seq<char>)>
    decreases imps.len(),
{
    if imps.len() == 0 {
        Seq::empty()
    } else {
        let prev = problems(imps.drop_last(), module, std_paths, known);
        match import_path(imps.last()) {
            Some(p) => match import_problem(p, module, std_paths, known) {
                Some(m) => prev.push((imps.last(), m)),
                None => prev,
            },
            None => prev,
        }
    }
}

/// The reports `xs`, each with the name of file `name`.
pub open spec fn named(name: Seq<char>, xs: Seq<(SyntaxNode, Seq<char>)>) -> Seq<(Seq<char>, SyntaxNode, Seq<char>)> {
    xs.map_values(|x: (SyntaxNode, Seq<char>)| (name, x.0, x.1))
}

/// What is reported of file `f`: the collisions of its imports, then their
/// problems; nothing when its tree is not a file root.
pub open spec fn file_reports(
    f: ParsedFile,
    module: Option<Seq<char>>,
    std_paths: Seq<Seq<char>>,
    known: Seq<Seq<char>>,
) -> Seq<(Seq<char>, SyntaxNode, Seq<char>)> {
    if f.root.spec_kind() == SyntaxKind::Root {
        let imps = child_nodes(f.root, SyntaxKind::ImportDecl);
        named(f.file_name@, collisions(imps).1 + problems(imps, module, std_paths, known))
    } else {
        Seq::empty()
    }
}

/// What is reported of `files`, file by file, `known` being the packages
/// of all the files of the module.
pub open spec fn import_reports(
    files: Seq<ParsedFile>,
    module: Option<Seq<char>>,
    std_paths: Seq<Seq<char>>,
    known: Seq<Seq<char>>,
) -> Seq<(Seq<char>, SyntaxNode, Seq<char>)>
    decreases files.len(),
{
    if files.len() == 0 {
        Seq::empty()
    } else {
        import_reports(files.drop_last(), module, std_paths, known) + file_reports(
            files.last(),
            module,
            std_paths,
            known,
        )
    }
}

/// `ds` are errors that report `rs`, in order.
pub open spec fn reports_made(ds: Seq<Diagnostic>, rs: Seq<(Seq<char>, SyntaxNode, Seq<char>)>) -> bool {
    &&& ds.len() == rs.len()
    &&& forall|k: int|
        0 <= k < ds.len() ==> simple(Severity::Error, rs[k].0, node_range(rs[k].1), rs[k].2, #[trigger] ds[k])
}

/// The map that a list of (name, path) pairs builds, later pairs winning.
pub open spec fn pairs_map(v: Seq<(Seq<char>, Seq<char>)>) -> Map<Seq<char>, Seq<char>>
    decreases v.len(),
{
    if v.len() == 0 {
        Map::empty()
    } else {
        pairs_map(v.drop_last()).insert(v.last().0, v.last().1)
    }
}

/// The part of `p` after its last `/`.
fn last_part_of(p: &str) -> (r: String)
    ensures
        r@ == last_part(p@),
{
    let n = p.unicode_len();
    let mut j = n;
    proof {
        assert(p@.take(n as int) =~= p@);
        assert(last_part(p@) + p@.subrange(n as int, n as int) =~= last_part(p@));
    }
    while j > 0 && p.get_char(j - 1) != '/'
        invariant
            j <= n == p@.len(),
            last_part(p@) == last_part(p@.take(j as int)) + p@.subrange(j as int, n as int),
        decreases j,
    {
        proof {
            assert(p@.take(j as int).drop_last() =~= p@.take(j - 1));
            assert(p@.subrange(j - 1, n as int) =~= seq![p@[j - 1]] + p@.subrange(j as int, n as int));
            assert(last_part(p@.take(j - 1)).push(p@[j - 1]) + p@.subrange(j as int, n as int) =~= last_part(
                p@.take(j - 1),
            ) + p@.subrange(j - 1, n as int));
        }
        j -= 1;
    }
    proof {
        if j == 0 {
            assert(p@.take(0) =~= Seq::<char>::empty());
        } else {
            assert(p@.take(j as int).last() == '/');
        }
        assert(last_part(p@.take(j as int)) =~= Seq::<char>::empty());
        assert(last_part(p@) =~= p@.subrange(j as int, n as int));
    }
    String::from_str(p.substring_char(j, n))
}

/// Whether `p` begins with `q`.
fn begins_with(p: &str, q: &str) -> (r: bool)
    ensures
        r == starts_with(p@, q@),
{
    let n = p.unicode_len();
    let m = q.unicode_len();
    if n < m {
        return false;
    }
    same_text(p.substring_char(0, m), q)
}

proof fn lemma_text_lt_skip(a: Seq<char>, b: Seq<char>, i: int)
    requires
        0 <= i < a.len(),
        i < b.len(),
        a[i] == b[i],
    ensures
        text_lt(a.skip(i), b.skip(i)) == text_lt(a.skip(i + 1), b.skip(i + 1)),
{
    assert(a.skip(i).skip(1) =~= a.skip(i + 1));
    assert(b.skip(i).skip(1) =~= b.skip(i + 1));
}

/// Whether `a` comes before `b` in `text_lt` order.
fn text_less(a: &str, b: &str) -> (r: bool)
    ensures
        r == text_lt(a@, b@),
{
    let n = a.unicode_len();
    let m = b.unicode_len();
    let mut i: usize = 0;
    proof {
        assert(a@.skip(0) =~= a@);
        assert(b@.skip(0) =~= b@);
    }
    while i < n && i < m && a.get_char(i) == b.get_char(i)
        invariant
            i <= n == a@.len(),
            i <= m == b@.len(),
            text_lt(a@, b@) == text_lt(a@.skip(i as int), b@.skip(i as int)),
        decreases n - i,
    {
        proof {
            lemma_text_lt_skip(a@, b@, i as int);
        }
        i += 1;
    }
    if i == n {
        proof {
            assert(a@.skip(i as int).len() == 0);
        }
        i < m
    } else if i == m {
        false
    } else {
        proof {
            assert(a@.skip(i as int)[0] == a@[i as int]);
            assert(b@.skip(i as int)[0] == b@[i as int]);
        }
        (a.get_char(i) as u32) < (b.get_char(i) as u32)
    }
}

proof fn lemma_sorted_insert_step(ks: Seq<Seq<char>>, x: Seq<char>, i: int)
    requires
        0 <= i < ks.len(),
        ks[i] != x,
        !text_lt(x, ks[i]),
    ensures
        ks.take(i) + sorted_insert(ks.skip(i), x) == ks.take(i + 1) + sorted_insert(ks.skip(i + 1), x),
{
    assert(ks.skip(i)[0] == ks[i]);
    assert(ks.skip(i).skip(1) =~= ks.skip(i + 1));
    assert(ks.take(i + 1) =~= ks.take(i).push(ks[i]));
    assert(ks.take(i) + (seq![ks[i]] + sorted_insert(ks.skip(i + 1), x)) =~= ks.take(i + 1) + sorted_insert(
        ks.skip(i + 1),
        x,
    ));
}

/// Put `x` in its place in the sorted list `ks`, unless it is there.
fn insert_sorted(ks: &mut Vec<String>, x: &str)
    ensures
        texts(final(ks)@) == sorted_insert(texts(old(ks)@), x@),
{
    let ghost v = texts(old(ks)@);
    let mut i: usize = 0;
    proof {
        assert(v.take(0) + sorted_insert(v.skip(0), x@) =~= sorted_insert(v, x@)) by {
            assert(v.skip(0) =~= v);
        }
    }
    while i < ks.len()
        invariant
            i <= ks.len() == v.len(),
            *ks == *old(ks),
            v == texts(old(ks)@),
            v.take(i as int) + sorted_insert(v.skip(i as int), x@) == sorted_insert(v, x@),
        decreases ks.len() - i,
    {
        assert(v.skip(i as int)[0] == v[i as int]);
        if same_text(ks[i].as_str(), x) {
            proof {
                assert(v.take(i as int) + v.skip(i as int) =~= v);
            }
            return;
        }
        if text_less(x, ks[i].as_str()) {
            let ghost before = ks@;
            ks.insert(i, String::from_str(x));
            proof {
                assert(texts(ks@) =~= v.take(i as int) + (seq![x@] + v.skip(i as int)));
            }
            return;
        }
        proof {
            lemma_sorted_insert_step(v, x@, i as int);
        }
        i += 1;
    }
    ks.push(String::from_str(x));
    proof {
        assert(v.skip(i as int).len() == 0);
        assert(texts(ks@) =~= v.take(i as int) + seq![x@]);
    }
}

/// `ks` joined by `", "`.
fn join_list(ks: &Vec<String>) -> (r: String)
    ensures
        r@ == joined_list(texts(ks@)),
{
    let ghost v = texts(ks@);
    let mut r = String::new();
    let mut i: usize = 0;
    while i < ks.len()
        invariant
            i <= ks.len() == v.len(),
            v == texts(ks@),
            r@ == joined_list(v.take(i as int)),
        decreases ks.len() - i,
    {
        proof {
            assert(v.take(i + 1).drop_last() =~= v.take(i as int));
        }
        if i > 0 {
            r.append(", ");
        } else {
            proof {
                assert(v.take(1) =~= seq![v[0]]);
            }
        }
        r.append(ks[i].as_str());
        i += 1;
    }
    proof {
        assert(v.take(i as int) =~= v);
    }
    r
}

/// Whether `ks` holds `x`.
fn holds_text(ks: &Vec<String>, x: &str) -> (r: bool)
    ensures
        r == texts(ks@).contains(x@),
{
    let ghost v = texts(ks@);
    let mut i: usize = 0;
    while i < ks.len()
        invariant
            i <= ks.len() == v.len(),
            v == texts(ks@),
            forall|j: int| 0 <= j < i ==> v[j] != x@,
        decreases ks.len() - i,
    {
        if same_text(ks[i].as_str(), x) {
            assert(v[i as int] == x@);
            return true;
        }
        i += 1;
    }
    false
}

/// The texts of `v`.
pub open spec fn texts(v: Seq<String>) -> Seq<Seq<char>> {
    v.map_values(|s: String| s@)
}

/// The text of `m`, if any.
pub open spec fn opt_text(m: Option<&str>) -> Option<Seq<char>> {
    match m {
        Some(x) => Some(x@),
        None => None,
    }
}

/// The (name, path) pairs of `v` as character sequences.
pub open spec fn pair_views(v: Seq<(String, String)>) -> Seq<(Seq<char>, Seq<char>)> {
    v.map_values(|x: (String, String)| (x.0@, x.1@))
}

proof fn lemma_pairs_map_take(v: Seq<(Seq<char>, Seq<char>)>, j: int, k: Seq<char>)
    requires
        0 < j <= v.len(),
    ensures
        v[j - 1].0 == k ==> pairs_map(v.take(j)).contains_key(k) && pairs_map(v.take(j))[k] == v[j - 1].1,
        v[j - 1].0 != k ==> pairs_map(v.take(j)).contains_key(k) == pairs_map(v.take(j - 1)).contains_key(k)
            && pairs_map(v.take(j))[k] == pairs_map(v.take(j - 1))[k],
{
    assert(v.take(j).drop_last() =~= v.take(j - 1));
}

/// The path last paired with `key` in `seen`, if any.
fn seen_path(seen: &Vec<(String, String)>, key: &str) -> (r: Option<usize>)
    ensures
        match r {
            Some(j) => j < seen@.len() && pairs_map(pair_views(seen@)).contains_key(key@) && pairs_map(
                pair_views(seen@),
            )[key@] == seen@[j as int].1@,
            None => !pairs_map(pair_views(seen@)).contains_key(key@),
        },
{
    let ghost v = pair_views(seen@);
    let mut j = seen.len();
    proof {
        assert(v.take(j as int) =~= v);
    }
    while j > 0
        invariant
            j <= seen@.len() == v.len(),
            v == pair_views(seen@),
            pairs_map(v).contains_key(key@) == pairs_map(v.take(j as int)).contains_key(key@),
            pairs_map(v)[key@] == pairs_map(v.take(j as int))[key@],
        decreases j,
    {
        proof {
            lemma_pairs_map_take(v, j as int, key@);
        }
        if same_text(seen[j - 1].0.as_str(), key) {
            return Some(j - 1);
        }
        j -= 1;
    }
    proof {
        assert(v.take(0) =~= Seq::<(Seq<char>, Seq<char>)>::empty());
    }
    None
}

/// `ds` gained one error that reports `r`.
proof fn lemma_report_push(
    d0: Seq<Diagnostic>,
    before: Seq<Diagnostic>,
    after: Seq<Diagnostic>,
    rs: Seq<(Seq<char>, SyntaxNode, Seq<char>)>,
    r: (Seq<char>, SyntaxNode, Seq<char>),
)
    requires
        grows(d0, before),
        reports_made(before.skip(d0.len() as int), rs),
        after.len() == before.len() + 1,
        after.take(before.len() as int) == before,
        simple(Severity::Error, r.0, node_range(r.1), r.2, after.last()),
    ensures
        grows(d0, after),
        reports_made(after.skip(d0.len() as int), rs.push(r)),
{
    assert forall|k: int| 0 <= k < d0.len() implies #[trigger] after[k] == d0[k] by {
        assert(after.take(before.len() as int)[k] == after[k]);
    }
    let ds = after.skip(d0.len() as int);
    assert forall|k: int| 0 <= k < ds.len() implies simple(
        Severity::Error,
        rs.push(r)[k].0,
        node_range(rs.push(r)[k].1),
        rs.push(r)[k].2,
        #[trigger] ds[k],
    ) by {
        if k < ds.len() - 1 {
            assert(ds[k] == before.skip(d0.len() as int)[k]);
            assert(after.take(before.len() as int)[d0.len() + k] == after[d0.len() + k]);
        }
    }
}

proof fn lemma_collisions_step(imps: Seq<SyntaxNode>, k: int)
    requires
        0 <= k < imps.len(),
    ensures
        collisions(imps.take(k + 1)) == ({
            let prev = collisions(imps.take(k));
            let imp = imps[k];
            match import_path(imp) {
                None => prev,
                Some(p) => {
                    let short = known_as(imp, p);
                    let out = if prev.0.contains_key(short) && prev.0[short] != p {
                        prev.1.push((imp, collision_message(short, prev.0[short], p)))
                    } else {
                        prev.1
                    };
                    (prev.0.insert(short, p), out)
                },
            }
        }),
{
    assert(imps.take(k + 1).drop_last() =~= imps.take(k));
}

proof fn lemma_problems_step(imps: Seq<SyntaxNode>, k: int, module: Option<Seq<char>>, sp: Seq<Seq<char>>, known: Seq<Seq<char>>)
    requires
        0 <= k < imps.len(),
    ensures
        problems(imps.take(k + 1), module, sp, known) == ({
            let prev = problems(imps.take(k), module, sp, known);
            match import_path(imps[k]) {
                Some(p) => match import_problem(p, module, sp, known) {
                    Some(m) => prev.push((imps[k], m)),
                    None => prev,
                },
                None => prev,
            }
        }),
{
    assert(imps.take(k + 1).drop_last() =~= imps.take(k));
}

/// The name `imp` (path `p`) is known by.
fn known_name(imp: &ImportDecl, p: &str) -> (r: String)
    ensures
        r@ == known_as(imp.node(), p@),
{
    match imp.alias() {
        Some(t) => t.text(),
        None => last_part_of(p),
    }
}

fn collision_text(short: &str, existing: &str, p: &str) -> (r: String)
    ensures
        r@ == collision_message(short@, existing@, p@),
{
    let mut m = String::from_str("import name collision: '");
    m.append(short);
    m.append("' already imported from '");
    m.append(existing);
    m.append("' — use an alias: import ");
    m.append(p);
    m.append(" as <alias>;");
    m
}

/// What is reported of the import with path `p`, if anything.
fn problem_of(p: &str, module: Option<&str>, std_paths: &[String], known: &Vec<String>) -> (r: Option<String>)
    ensures
        match r {
            Some(m) => import_problem(
                p@,
                opt_text(module),
                texts(std_paths@),
                texts(known@),
            ) == Some(m@),
            None => import_problem(
                p@,
                opt_text(module),
                texts(std_paths@),
                texts(known@),
            ) is None,
        },
{
    proof {
        reveal_strlit("github.com/oghamlang/std/");
    }
    if begins_with(p, "github.com/oghamlang/std/") {
        let ghost sv = texts(std_paths@);
        let mut i: usize = 0;
        while i < std_paths.len()
            invariant
                i <= std_paths.len() == sv.len(),
                sv == texts(std_paths@),
                forall|j: int| 0 <= j < i ==> sv[j] != p@,
                starts_with(p@, std_prefix()),
            decreases std_paths.len() - i,
        {
            if same_text(std_paths[i].as_str(), p) {
                assert(sv[i as int] == p@);
                assert(sv.contains(p@));
                return None;
            }
            i += 1;
        }
        let mut m = String::from_str("unknown standard library package: ");
        m.append(p);
        return Some(m);
    }
    match module {
        Some(mp) => {
            if begins_with(p, mp) {
                let short = last_part_of(p);
                if holds_text(known, short.as_str()) {
                    None
                } else {
                    let mut m = String::from_str("local package '");
                    m.append(short.as_str());
                    m.append("' not found in module — available packages: ");
                    let all = join_list(known);
                    m.append(all.as_str());
                    Some(m)
                }
            } else {
                None
            }
        },
        None => None,
    }
}

/// Check the imports of `files`, file by file: an import whose name (its
/// alias, or the last part of its path) another import of the file took
/// with another path; an import of a standard library package that is not
/// among `std_paths`, the import paths of the standard library; an import
/// of a package of the module (`module`) that no file declares. Each
/// is reported as an error, in that order.
pub fn validate_imports(files: &[ParsedFile], module: Option<&str>, std_paths: &[String], diag: &mut Diagnostics)
    ensures
        grows(old(diag)@, final(diag)@),
        reports_made(
            final(diag)@.skip(old(diag)@.len() as int),
            import_reports(files@, opt_text(module), texts(std_paths@), package_list(files@)),
        ),
{
    let mut known: Vec<String> = Vec::new();
    let mut i: usize = 0;
    proof {
        assert(files@.take(0) =~= Seq::<ParsedFile>::empty());
        assert(texts(known@) =~= Seq::<Seq<char>>::empty());
    }
    while i < files.len()
        invariant
            i <= files.len(),
            texts(known@) == package_list(files@.take(i as int)),
        decreases files.len() - i,
    {
        proof {
            assert(files@.take(i + 1).drop_last() =~= files@.take(i as int));
        }
        insert_sorted(&mut known, files[i].package.as_str());
        i += 1;
    }
    proof {
        assert(files@.take(files.len() as int) =~= files@);
    }
    let ghost kv = texts(known@);
    let ghost mv = opt_text(module);
    let ghost sv = texts(std_paths@);
    let ghost d0 = diag@;
    proof {
        assert(diag@.skip(d0.len() as int) =~= Seq::<Diagnostic>::empty());
        assert(files@.take(0) =~= Seq::<ParsedFile>::empty());
    }
    let mut f: usize = 0;
    while f < files.len()
        invariant
            f <= files.len(),
            kv == texts(known@),
            kv == package_list(files@),
            mv == opt_text(module),
            sv == texts(std_paths@),
            grows(d0, diag@),
            reports_made(diag@.skip(d0.len() as int), import_reports(files@.take(f as int), mv, sv, kv)),
        decreases files.len() - f,
    {
        let file = &files[f];
        let ghost rs0 = import_reports(files@.take(f as int), mv, sv, kv);
        let ghost fname = file.file_name@;
        proof {
            assert(files@.take(f + 1).drop_last() =~= files@.take(f as int));
        }
        let r = Root::cast(file.root.clone());
        match r {
            None => {
                proof {
                    assert(file_reports(*file, mv, sv, kv) =~= Seq::empty());
                    assert(rs0 + file_reports(*file, mv, sv, kv) =~= rs0);
                }
            },
            Some(root) => {
                let imports = root.imports();
                let ghost imps = child_nodes(file.root, SyntaxKind::ImportDecl);
                proof {
                    lemma_children_nodes(file.root, imports@, SyntaxKind::ImportDecl);
                    assert(imps.take(0) =~= Seq::<SyntaxNode>::empty());
                    assert(rs0 + named(fname, Seq::empty()) =~= rs0);
                }
                let mut seen: Vec<(String, String)> = Vec::new();
                proof {
                    assert(pair_views(seen@) =~= Seq::<(Seq<char>, Seq<char>)>::empty());
                    assert(pairs_map(pair_views(seen@)) =~= Map::<Seq<char>, Seq<char>>::empty());
                }
                let mut k: usize = 0;
                while k < imports.len()
                    invariant
                        k <= imports@.len() == imps.len(),
                        forall|j: int| 0 <= j < imports@.len() ==> (#[trigger] imports@[j]).node() == imps[j],
                        fname == file.file_name@,
                        grows(d0, diag@),
                        pairs_map(pair_views(seen@)) == collisions(imps.take(k as int)).0,
                        reports_made(diag@.skip(d0.len() as int), rs0 + named(fname, collisions(imps.take(k as int)).1)),
                    decreases imports.len() - k,
                {
                    let imp = &imports[k];
                    let ghost node = imps[k as int];
                    let ghost c0 = collisions(imps.take(k as int));
                    proof {
                        lemma_collisions_step(imps, k as int);
                    }
                    let path = imp.path();
                    proof {
                        lemma_first_child(node, path, SyntaxKind::ImportPath);
                    }
                    match path {
                        Some(pn) => {
                            let text = pn.text();
                            let short = known_name(imp, text.as_str());
                            match seen_path(&seen, short.as_str()) {
                                Some(j) => {
                                    if !same_text(seen[j].1.as_str(), text.as_str()) {
                                        let msg = collision_text(short.as_str(), seen[j].1.as_str(), text.as_str());
                                        let range = imp.syntax().text_range();
                                        let ghost before = diag@;
                                        diag.error(file.file_name.as_str(), range, msg.as_str());
                                        proof {
                                            lemma_report_push(d0, before, diag@, rs0 + named(fname, c0.1), (fname, node, msg@));
                                            assert((rs0 + named(fname, c0.1)).push((fname, node, msg@)) =~= rs0 + named(
                                                fname,
                                                c0.1.push((node, msg@)),
                                            ));
                                        }
                                    }
                                },
                                None => {},
                            }
                            let ghost sv0 = seen@;
                            seen.push((short, text));
                            proof {
                                assert(pair_views(seen@).drop_last() =~= pair_views(sv0));
                            }
                        },
                        None => {},
                    }
                    k += 1;
                }
                proof {
                    assert(imps.take(imps.len() as int) =~= imps);
                }
                let ghost coll = collisions(imps).1;
                let mut k: usize = 0;
                proof {
                    assert(coll + problems(imps.take(0), mv, sv, kv) =~= coll);
                }
                while k < imports.len()
                    invariant
                        k <= imports@.len() == imps.len(),
                        forall|j: int| 0 <= j < imports@.len() ==> (#[trigger] imports@[j]).node() == imps[j],
                        fname == file.file_name@,
                        kv == texts(known@),
                        mv == opt_text(module),
                        sv == texts(std_paths@),
                        grows(d0, diag@),
                        reports_made(diag@.skip(d0.len() as int), rs0 + named(fname, coll + problems(imps.take(k as int), mv, sv, kv))),
                    decreases imports.len() - k,
                {
                    let imp = &imports[k];
                    let ghost node = imps[k as int];
                    let ghost p0 = problems(imps.take(k as int), mv, sv, kv);
                    proof {
                        lemma_problems_step(imps, k as int, mv, sv, kv);
                    }
                    let path = imp.path();
                    proof {
                        lemma_first_child(node, path, SyntaxKind::ImportPath);
                    }
                    match path {
                        Some(pn) => {
                            let text = pn.text();
                            match problem_of(text.as_str(), module, std_paths, &known) {
                                Some(msg) => {
                                    let range = imp.syntax().text_range();
                                    let ghost before = diag@;
                                    diag.error(file.file_name.as_str(), range, msg.as_str());
                                    proof {
                                        lemma_report_push(d0, before, diag@, rs0 + named(fname, coll + p0), (fname, node, msg@));
                                        assert((rs0 + named(fname, coll + p0)).push((fname, node, msg@)) =~= rs0 + named(
                                            fname,
                                            coll + p0.push((node, msg@)),
                                        ));
                                    }
                                },
                                None => {},
                            }
                        },
                        None => {},
                    }
                    k += 1;
                }
                proof {
                    assert(imps.take(imps.len() as int) =~= imps);
                }
            },
        }
        f += 1;
    }
    proof {
        assert(files@.take(files.len() as int) =~= files@);
    }
}

/// An import of a path under `github.com/oghamlang/std/` is reported as an
/// unknown standard library package exactly when the path is not among
/// `std_paths`, whatever the module path and the packages of the module are.
pub proof fn lemma_std_import_checked(
    p: Seq<char>,
    module: Option<Seq<char>>,
    std_paths: Seq<Seq<char>>,
    known: Seq<Seq<char>>,
)
    requires
        starts_with(p, "github.com/oghamlang/std/"@),
    ensures
        !std_paths.contains(p) ==> import_problem(p, module, std_paths, known) == Some(
            "unknown standard library package: "@ + p,
        ),
        std_paths.contains(p) ==> import_problem(p, module, std_paths, known) is None,
{
}

proof fn lemma_problems_has(
    imps: Seq<SyntaxNode>,
    k: int,
    module: Option<Seq<char>>,
    std_paths: Seq<Seq<char>>,
    known: Seq<Seq<char>>,
    m: Seq<char>,
)
    requires
        0 <= k < imps.len(),
        import_path(imps[k]) matches Some(p) && import_problem(p, module, std_paths, known) == Some(m),
    ensures
        problems(imps, module, std_paths, known).contains((imps[k], m)),
    decreases imps.len(),
{
    let prev = problems(imps.drop_last(), module, std_paths, known);
    if k == imps.len() - 1 {
        let all = problems(imps, module, std_paths, known);
        assert(all == prev.push((imps[k], m)));
        assert(all[prev.len() as int] == (imps[k], m));
    } else {
        assert(imps.drop_last()[k] == imps[k]);
        lemma_problems_has(imps.drop_last(), k, module, std_paths, known, m);
        let j = choose|j: int| 0 <= j < prev.len() && prev[j] == (imps[k], m);
        let all = problems(imps, module, std_paths, known);
        assert(all[j] == prev[j]);
    }
}

proof fn lemma_reports_has(
    files: Seq<ParsedFile>,
    i: int,
    module: Option<Seq<char>>,
    std_paths: Seq<Seq<char>>,
    known: Seq<Seq<char>>,
    r: (Seq<char>, SyntaxNode, Seq<char>),
)
    requires
        0 <= i < files.len(),
        file_reports(files[i], module, std_paths, known).contains(r),
    ensures
        import_reports(files, module, std_paths, known).contains(r),
    decreases files.len(),
{
    let prev = import_reports(files.drop_last(), module, std_paths, known);
    let all = import_reports(files, module, std_paths, known);
    if i == files.len() - 1 {
        let fr = file_reports(files[i], module, std_paths, known);
        let j = choose|j: int| 0 <= j < fr.len() && fr[j] == r;
        assert(all[prev.len() + j] == fr[j]);
    } else {
        assert(files.drop_last()[i] == files[i]);
        lemma_reports_has(files.drop_last(), i, module, std_paths, known, r);
        let j = choose|j: int| 0 <= j < prev.len() && prev[j] == r;
        assert(all[j] == prev[j]);
    }
}

/// Every import of a file that names a standard library path missing from
/// `std_paths` is reported, with its file, as an unknown standard library
/// package, whatever the module path is.
pub proof fn lemma_unknown_std_import_reported(
    files: Seq<ParsedFile>,
    i: int,
    k: int,
    module: Option<Seq<char>>,
    std_paths: Seq<Seq<char>>,
    known: Seq<Seq<char>>,
    p: Seq<char>,
)
    requires
        0 <= i < files.len(),
        files[i].root.spec_kind() == SyntaxKind::Root,
        0 <= k < child_nodes(files[i].root, SyntaxKind::ImportDecl).len(),
        import_path(child_nodes(files[i].root, SyntaxKind::ImportDecl)[k]) == Some(p),
        starts_with(p, "github.com/oghamlang/std/"@),
        !std_paths.contains(p),
    ensures
        import_reports(files, module, std_paths, known).contains(
            (
                files[i].file_name@,
                child_nodes(files[i].root, SyntaxKind::ImportDecl)[k],
                "unknown standard library package: "@ + p,
            ),
        ),
{
    let f = files[i];
    let imps = child_nodes(f.root, SyntaxKind::ImportDecl);
    let m = "unknown standard library package: "@ + p;
    lemma_std_import_checked(p, module, std_paths, known);
    lemma_problems_has(imps, k, module, std_paths, known, m);
    let c = collisions(imps).1;
    let pr = problems(imps, module, std_paths, known);
    let j = choose|j: int| 0 <= j < pr.len() && pr[j] == (imps[k], m);
    let fr = file_reports(f, module, std_paths, known);
    assert((c + pr)[c.len() + j] == pr[j]);
    assert(fr[c.len() + j] == (f.file_name@, imps[k], m));
    lemma_reports_has(files, i, module, std_paths, known, (f.file_name@, imps[k], m));
}

} // verus!
