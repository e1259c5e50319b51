//! The front of the compiler pipeline: source files, parsed and checked
//! one by one, ready for indexing.

use vstd::prelude::*;
use crate::ast::{AstNode, Root, first_child_is, joined, nth_token_is, selected_bytes};
use crate::diagnostics::{Diagnostics, Severity, simple};
use crate::index::{ParsedFile, child_nodes, first_child, grows, lemma_children_nodes, name_bytes, node_range};
use crate::lexer::lex_spec;
use crate::parser::{ParseError, err_v, errors_match, item_kind, lex_error_spans, node_v, parse};
use crate::grammar::{parse_errors, tree_nodes};
use crate::syntax_kind::SyntaxKind;
use crate::tree::{NodeData, SyntaxNode, TokenSelect, node_slots, text_of};
use crate::lexer::LexItem;
use vstd::utf8::encode_utf8;

verus! {

/// A source file to compile.
pub struct SourceFile {
    pub name: String,
    pub content: String,
}

/// Options for compilation.
#[derive(Debug)]
pub struct CompileOptions {
    /// The module path of the project, such as `github.com/oghamlang/examples/golden`.
    pub module: Option<String>,
}

impl Default for CompileOptions {
    fn default() -> (r: Self)
        ensures
            r.module is None,
    {
        CompileOptions { module: None }
    }
}

/// `root` is the root of the tree that parsing `content` gives: it spells
/// `content`, its tokens are the lexer's, and it is a file root.
pub open spec fn parsed_root(root: SyntaxNode, content: Seq<u8>) -> bool {
    &&& root.tree().text() == content
    &&& root.tree().token_kinds() == lex_spec(content).map_values(|it: LexItem| item_kind(it))
    &&& root.tree().root_kind() == SyntaxKind::Root
    &&& root.id() == root.tree().root_id()
    &&& root.parent_slot() is None
    &&& root.tree().nodes_view().map_values(|n: NodeData| node_v(n)) == tree_nodes(content)
}

/// The package of file root `root`: the name of its package declaration,
/// or `default`.
pub open spec fn package_of(root: SyntaxNode) -> Seq<char> {
    match first_child(root, SyntaxKind::PackageDecl) {
        Some(p) => match name_bytes(p) {
            Some(b) => text_of(b),
            None => "default"@,
        },
        None => "default"@,
    }
}

/// The path that import declaration `imp` names, if any.
pub open spec fn import_path(imp: SyntaxNode) -> Option<Seq<char>> {
    match first_child(imp, SyntaxKind::ImportPath) {
        Some(p) => Some(text_of(joined(selected_bytes(p, TokenSelect::NonTrivia), Seq::empty()))),
        None => None,
    }
}

/// An import of a bare name: one whose path has no `/`.
pub open spec fn is_short_import(imp: SyntaxNode) -> bool {
    import_path(imp) matches Some(p) && !p.contains('/')
}

/// The imports among `imps` that name a bare package name, in order.
pub open spec fn short_imports(imps: Seq<SyntaxNode>) -> Seq<SyntaxNode>
    decreases imps.len(),
{
    if imps.len() == 0 {
        Seq::empty()
    } else if is_short_import(imps.last()) {
        short_imports(imps.drop_last()).push(imps.last())
    } else {
        short_imports(imps.drop_last())
    }
}

/// What is reported of an import of the bare name `p`.
pub open spec fn short_import_message(p: Seq<char>) -> Seq<char> {
    "short name import '"@ + p + "' is not allowed — use full module path (e.g., github.com/oghamlang/std/"@ + p
        + ")"@
}

/// `ds` report the parse errors `errs` of file `file`, in order.
pub open spec fn parse_errors_reported(ds: Seq<crate::diagnostics::Diagnostic>, errs: Seq<ParseError>, file: Seq<char>) -> bool {
    &&& ds.len() == errs.len()
    &&& forall|k: int|
        0 <= k < ds.len() ==> simple(Severity::Error, file, errs[k].range, errs[k].message@, #[trigger] ds[k])
}

/// `ds` report the bare-name imports `imps` of file `file`, in order.
pub open spec fn short_imports_reported(ds: Seq<crate::diagnostics::Diagnostic>, imps: Seq<SyntaxNode>, file: Seq<char>) -> bool {
    &&& ds.len() == imps.len()
    &&& forall|k: int|
        0 <= k < ds.len() ==> simple(
            Severity::Error,
            file,
            node_range(imps[k]),
            short_import_message(import_path(imps[k])->0),
            #[trigger] ds[k],
        )
}

/// Whether `s` holds a `/`.
fn has_slash(s: &str) -> (r: bool)
    ensures
        r == s@.contains('/'),
{
    let n = s.unicode_len();
    let mut i: usize = 0;
    while i < n
        invariant
            i <= n == s@.len(),
            forall|j: int| 0 <= j < i ==> s@[j] != '/',
        decreases n - i,
    {
        if s.get_char(i) == '/' {
            return true;
        }
        i += 1;
    }
    false
}

/// The message for an import of the bare name `p`.
fn short_import_text(p: &str) -> (r: String)
    ensures
        r@ == short_import_message(p@),
{
    let mut m = String::from_str("short name import '");
    m.append(p);
    m.append("' is not allowed — use full module path (e.g., github.com/oghamlang/std/");
    m.append(p);
    m.append(")");
    m
}

proof fn lemma_short_step(imps: Seq<SyntaxNode>, i: int)
    requires
        0 <= i < imps.len(),
    ensures
        is_short_import(imps[i]) ==> short_imports(imps.take(i + 1)) == short_imports(imps.take(i)).push(imps[i]),
        !is_short_import(imps[i]) ==> short_imports(imps.take(i + 1)) == short_imports(imps.take(i)),
{
    assert(imps.take(i + 1).drop_last() =~= imps.take(i));
}

/// Parse one source file: report its parse errors, then its imports of bare
/// package names, and give the file with its tree and package name.
pub fn parse_source(source: &SourceFile, diag: &mut Diagnostics) -> (r: ParsedFile)
    ensures
        r.file_name@ == source.name@,
        parsed_root(r.root, encode_utf8(source.content@)),
        r.package@ == package_of(r.root),
        grows(old(diag)@, final(diag)@),
        exists|errs: Seq<ParseError>|
            {
                let n = old(diag)@.len() + errs.len();
                &&& #[trigger] errors_match(errs, lex_error_spans(lex_spec(encode_utf8(source.content@))))
                &&& errs.map_values(|e: ParseError| err_v(e)) == parse_errors(encode_utf8(source.content@))
                &&& parse_errors_reported(final(diag)@.subrange(old(diag)@.len() as int, n as int), errs, source.name@)
                &&& short_imports_reported(
                    final(diag)@.skip(n as int),
                    short_imports(child_nodes(r.root, SyntaxKind::ImportDecl)),
                    source.name@,
                )
            },
{
    let ghost d0 = diag@;
    let ghost fname = source.name@;
    let p = parse(source.content.as_str());
    let k = p.errors.len();
    let mut e: usize = 0;
    while e < k
        invariant
            e <= k == p.errors@.len(),
            fname == source.name@,
            grows(d0, diag@),
            diag@.len() == d0.len() + e,
            parse_errors_reported(diag@.skip(d0.len() as int), p.errors@.take(e as int), fname),
        decreases k - e,
    {
        let ghost before = diag@;
        let err = &p.errors[e];
        diag.error(source.name.as_str(), err.range.start..err.range.end, err.message.as_str());
        proof {
            assert forall|j: int| 0 <= j < d0.len() implies #[trigger] diag@[j] == d0[j] by {
                assert(diag@.take(before.len() as int)[j] == diag@[j]);
            }
            let ds = diag@.skip(d0.len() as int);
            let es = p.errors@.take(e + 1);
            assert forall|j: int| 0 <= j < ds.len() implies simple(
                Severity::Error,
                fname,
                es[j].range,
                es[j].message@,
                #[trigger] ds[j],
            ) by {
                if j < e {
                    assert(ds[j] == before.skip(d0.len() as int)[j]);
                    assert(es[j] == p.errors@.take(e as int)[j]);
                }
            }
        }
        e += 1;
    }
    let ghost d1 = diag@;
    let root = p.syntax();
    let ghost rn = root;
    let r = Root::cast(root.clone());
    let r = match r {
        Some(x) => x,
        None => {
            proof {
                assert(false);
            }
            return ParsedFile { file_name: source.name.clone(), root, package: String::from_str("default") };
        },
    };
    let pkg_decl = r.package_decl();
    proof {
        crate::index::lemma_first_child(rn, pkg_decl, SyntaxKind::PackageDecl);
    }
    let package = match pkg_decl {
        Some(pd) => {
            let nm = pd.name();
            proof {
                crate::index::lemma_name_token(pd.node(), nm);
            }
            match nm {
                Some(t) => t.text(),
                None => String::from_str("default"),
            }
        },
        None => String::from_str("default"),
    };
    let imports = r.imports();
    let ghost imps = child_nodes(rn, SyntaxKind::ImportDecl);
    proof {
        lemma_children_nodes(rn, imports@, SyntaxKind::ImportDecl);
        assert(imps.take(0) =~= Seq::<SyntaxNode>::empty());
        assert(diag@.skip(d1.len() as int) =~= Seq::<crate::diagnostics::Diagnostic>::empty());
    }
    let mut i: usize = 0;
    while i < imports.len()
        invariant
            i <= imports@.len() == imps.len(),
            forall|j: int| 0 <= j < imports@.len() ==> (#[trigger] imports@[j]).node() == imps[j],
            imps == child_nodes(rn, SyntaxKind::ImportDecl),
            fname == source.name@,
            grows(d1, diag@),
            short_imports_reported(diag@.skip(d1.len() as int), short_imports(imps.take(i as int)), fname),
        decreases imports.len() - i,
    {
        let imp = &imports[i];
        let ghost node = imps[i as int];
        proof {
            lemma_short_step(imps, i as int);
        }
        let path = imp.path();
        proof {
            crate::index::lemma_first_child(node, path, SyntaxKind::ImportPath);
        }
        match path {
            Some(pn) => {
                let text = pn.text();
                if !has_slash(text.as_str()) {
                    let ghost before = diag@;
                    let range = imp.syntax().text_range();
                    let msg = short_import_text(text.as_str());
                    diag.error(source.name.as_str(), range, msg.as_str());
                    proof {
                        assert forall|j: int| 0 <= j < d1.len() implies #[trigger] diag@[j] == d1[j] by {
                            assert(diag@.take(before.len() as int)[j] == diag@[j]);
                        }
                        let ds = diag@.skip(d1.len() as int);
                        let ss = short_imports(imps.take(i + 1));
                        assert forall|j: int| 0 <= j < ds.len() implies simple(
                            Severity::Error,
                            fname,
                            node_range(ss[j]),
                            short_import_message(import_path(ss[j])->0),
                            #[trigger] ds[j],
                        ) by {
                            if j < ds.len() - 1 {
                                assert(ds[j] == before.skip(d1.len() as int)[j]);
                            }
                        }
                    }
                }
            },
            None => {},
        }
        i += 1;
    }
    proof {
        assert(imps.take(imps.len() as int) =~= imps);
        assert(p.errors@.take(k as int) =~= p.errors@);
        let errs = p.errors@;
        let n = d0.len() + errs.len();
        assert(diag@.subrange(d0.len() as int, n as int) =~= d1.skip(d0.len() as int));
        assert(diag@.skip(n as int) =~= diag@.skip(d1.len() as int));
        assert forall|j: int| 0 <= j < d0.len() implies #[trigger] diag@[j] == d0[j] by {
            assert(diag@[j] == d1[j]);
        }
    }
    ParsedFile { file_name: source.name.clone(), root, package }
}

} // verus!
