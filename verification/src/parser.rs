//! Hand-written recursive descent parser for Ogham.
//!
//! Produces a lossless syntax tree. The parser never fails: it always
//! produces a tree, wrapping unexpected tokens in `Error` nodes, and
//! records what went wrong in a list of errors.

use vstd::prelude::*;
use vstd::string::StringSliceAdditionalSpecFns;
use crate::lexer::{self, LexItem, LexedToken, Span, item_of, lex_spec, lemma_lex_spec_tiles};
use crate::syntax_kind::{SyntaxKind, kind_name, token_kind};
use std::rc::Rc;
use vstd::utf8::{encode_utf8_decode_utf8, encode_utf8_valid_utf8};
use crate::grammar::{
    Body, ErrV, FrameV, NodeV, PCtx, PState, g_alias, g_annotation_decl, g_annotation_field,
    g_annotation_member, g_annotation_parts, g_arg, g_arg_parts, g_args, g_body_parts, g_braced_loop, g_bump,
    g_call, g_calls, g_close, g_composition, g_decls, g_dots, g_eat, g_eats, g_entries, g_entry,
    g_entry_parts, g_enum, g_enum_value, g_err, g_expect, g_field, g_field_calls, g_field_or_injection,
    g_ident, g_ident_list, g_import, g_import_path, g_injection, g_inline_annotation_body,
    g_inline_annotation_member, g_inline_parts, g_inline_type, g_int, g_list_parts, g_lit_or_value, g_mapping,
    g_nested_enum, g_nested_type, g_oneof, g_open, g_package, g_path_parts, g_progress, g_qname, g_recover,
    g_reserved, g_root, g_rpc, g_rpc_param, g_selection, g_sep_idents, g_service, g_shape, g_shape_field,
    g_shape_incl, g_shape_plain, g_targets, g_targs_parts, g_top_level, g_trivia, g_type_args, g_type_body,
    g_type_decl, g_type_member, g_type_params, g_type_ref, g_value, g_wild_parts, lemma_trivia_idem, lex_ctx,
    lex_errors, parse_errors, start_state, tree_nodes,
};
use crate::tree::{text_of, tokens_tile, Child, NodeData, SyntaxNode, SyntaxTree, TokenData, children_ok, nodes_ok, tokens_text};

verus! {

/// A parse error with its byte range in source.
#[derive(Debug, PartialEq, Eq)]
pub struct ParseError {
    pub message: String,
    pub range: std::ops::Range<usize>,
}

impl Clone for ParseError {
    fn clone(&self) -> (r: Self)
        ensures
            r.message@ == self.message@,
            r.range == self.range,
    {
        ParseError { message: self.message.clone(), range: self.range.start..self.range.end }
    }
}

/// Result of parsing an Ogham source file.
pub struct Parse {
    pub green: Rc<SyntaxTree>,
    pub errors: Vec<ParseError>,
}

impl Parse {
    /// The root node of the tree.
    pub fn syntax(&self) -> (n: SyntaxNode)
        ensures
            n.tree() == *self.green,
            n.id() == self.green.root_id(),
            n.parent_slot() is None,
            n.node_bytes() == self.green.text(),
    {
        SyntaxNode::new_root(self.green.clone())
    }
}

/// The syntax kind that a lexed item becomes in the tree: the token's own
/// kind, or `LexError` for bytes that start no token.
pub open spec fn item_kind(item: LexItem) -> SyntaxKind {
    match item.0 {
        Some(t) => token_kind(t),
        None => SyntaxKind::LexError,
    }
}

/// Index of the first non-trivia kind at or after `i` (`k.len()` if none).
pub open spec fn nt_index(k: Seq<SyntaxKind>, i: int) -> int
    decreases k.len() - i,
{
    if i >= k.len() {
        k.len() as int
    } else if !k[i].spec_is_trivia() {
        i
    } else {
        nt_index(k, i + 1)
    }
}

/// Index of the `n`-th non-trivia kind at or after `i` (`k.len()` if none).
pub open spec fn nth_nt_index(k: Seq<SyntaxKind>, i: int, n: nat) -> int
    decreases n,
{
    let j = nt_index(k, i);
    if n == 0 {
        j
    } else if j >= k.len() {
        k.len() as int
    } else {
        nth_nt_index(k, j + 1, (n - 1) as nat)
    }
}

proof fn lemma_nt_index_bounds(k: Seq<SyntaxKind>, i: int)
    requires
        0 <= i,
    ensures
        i <= nt_index(k, i) || i > k.len(),
        nt_index(k, i) <= k.len(),
        nt_index(k, i) < k.len() ==> !k[nt_index(k, i)].spec_is_trivia(),
        nt_index(k, nt_index(k, i)) == nt_index(k, i),
    decreases k.len() - i,
{
    if i < k.len() && k[i].spec_is_trivia() {
        lemma_nt_index_bounds(k, i + 1);
    }
}

proof fn lemma_nth_nt_index_bounds(k: Seq<SyntaxKind>, i: int, n: nat)
    requires
        0 <= i <= k.len(),
    ensures
        nth_nt_index(k, i, n) <= k.len(),
        nth_nt_index(k, i, n) >= k.len() || nth_nt_index(k, i, n) >= i + n,
    decreases n,
{
    lemma_nt_index_bounds(k, i);
    let j = nt_index(k, i);
    if n > 0 && j < k.len() {
        lemma_nth_nt_index_bounds(k, j + 1, (n - 1) as nat);
    }
}

/// The kind of the `n`-th non-trivia token at or after `p`, if there is one.
pub open spec fn kind_at(k: Seq<SyntaxKind>, p: int, n: nat) -> Option<SyntaxKind> {
    let j = nth_nt_index(k, p, n);
    if 0 <= j < k.len() {
        Some(k[j])
    } else {
        None
    }
}

/// Whether the next non-trivia token is an identifier or a keyword.
pub open spec fn ident_at(k: Seq<SyntaxKind>, p: int) -> bool {
    match kind_at(k, p, 0) {
        Some(t) => t == SyntaxKind::Ident || t.spec_is_keyword(),
        None => false,
    }
}

/// Skipping trivia does not change what lies ahead.
proof fn lemma_kind_at_skip(k: Seq<SyntaxKind>, p: int, n: nat)
    requires
        0 <= p,
    ensures
        kind_at(k, nt_index(k, p), n) == kind_at(k, p, n),
        ident_at(k, nt_index(k, p)) == ident_at(k, p),
{
    lemma_nt_index_bounds(k, p);
}

/// `@reserved` lies ahead.
pub open spec fn reserved_at(k: Seq<SyntaxKind>, p: int) -> bool {
    kind_at(k, p, 0) == Some(SyntaxKind::At) && kind_at(k, p, 1) == Some(SyntaxKind::KwReserved)
}

/// A shape include (`Name;` or `Name,`) lies ahead.
pub open spec fn shape_include_at(k: Seq<SyntaxKind>, p: int) -> bool {
    kind_at(k, p, 0) == Some(SyntaxKind::Ident) && (kind_at(k, p, 1) == Some(SyntaxKind::Semicolon) || kind_at(
        k,
        p,
        1,
    ) == Some(SyntaxKind::Comma))
}

/// An annotation composition (`lib::Name`) lies ahead.
pub open spec fn composition_at(k: Seq<SyntaxKind>, p: int) -> bool {
    kind_at(k, p, 0) == Some(SyntaxKind::Ident) && kind_at(k, p, 1) == Some(SyntaxKind::ColonColon)
}

/// An inline annotation type member (`name: {`) lies ahead.
pub open spec fn inline_annotation_type_at(k: Seq<SyntaxKind>, p: int) -> bool {
    kind_at(k, p, 0) == Some(SyntaxKind::Ident) && kind_at(k, p, 1) == Some(SyntaxKind::Colon)
}

/// From the `i`-th non-trivia token on: a dotted name, then `(`, an
/// integer and `..`.
pub open spec fn injection_from(k: Seq<SyntaxKind>, p: int, i: nat) -> bool
    decreases k.len() - i,
{
    if i >= k.len() {
        false
    } else {
        match kind_at(k, p, i) {
            Some(t) => if t == SyntaxKind::Ident || t.spec_is_keyword() {
                if kind_at(k, p, i + 1) == Some(SyntaxKind::Dot) {
                    if i + 2 <= k.len() {
                        injection_from(k, p, i + 2)
                    } else {
                        false
                    }
                } else if kind_at(k, p, i + 1) == Some(SyntaxKind::LParen) {
                    kind_at(k, p, i + 2) == Some(SyntaxKind::IntLiteral) && kind_at(k, p, i + 3) == Some(
                        SyntaxKind::DotDot,
                    )
                } else {
                    false
                }
            } else {
                false
            },
            None => false,
        }
    }
}

/// A shape injection (`Name(N..M)`, the name maybe dotted) lies ahead.
pub open spec fn shape_injection_at(k: Seq<SyntaxKind>, p: int) -> bool {
    injection_from(k, p, 0)
}

/// The kinds of node that a member of a type body becomes.
pub open spec fn type_member_kind(kind: SyntaxKind) -> bool {
    ||| kind == SyntaxKind::OneofDecl
    ||| kind == SyntaxKind::NestedTypeDecl
    ||| kind == SyntaxKind::NestedEnumDecl
    ||| kind == SyntaxKind::ShapeInjection
    ||| kind == SyntaxKind::FieldDecl
}

/// The tokens that stand alone as an annotation value.
pub open spec fn literal_kind(kind: SyntaxKind) -> bool {
    ||| kind == SyntaxKind::StringLiteral
    ||| kind == SyntaxKind::IntLiteral
    ||| kind == SyntaxKind::FloatLiteral
    ||| kind == SyntaxKind::KwTrue
    ||| kind == SyntaxKind::KwFalse
    ||| kind == SyntaxKind::KwNow
    ||| kind == SyntaxKind::Ident
}

proof fn lemma_injection_skip(k: Seq<SyntaxKind>, p: int, i: nat)
    requires
        0 <= p,
    ensures
        injection_from(k, nt_index(k, p), i) == injection_from(k, p, i),
    decreases k.len() - i,
{
    lemma_kind_at_skip(k, p, i);
    lemma_kind_at_skip(k, p, i + 1);
    lemma_kind_at_skip(k, p, i + 2);
    lemma_kind_at_skip(k, p, i + 3);
    if i < k.len() && i + 2 <= k.len() {
        lemma_injection_skip(k, p, i + 2);
    }
}

/// Skipping trivia changes none of the lookahead tests.
proof fn lemma_ahead_skip(k: Seq<SyntaxKind>, p: int)
    requires
        0 <= p,
    ensures
        kind_at(k, nt_index(k, p), 0) == kind_at(k, p, 0),
        ident_at(k, nt_index(k, p)) == ident_at(k, p),
        reserved_at(k, nt_index(k, p)) == reserved_at(k, p),
        shape_include_at(k, nt_index(k, p)) == shape_include_at(k, p),
        composition_at(k, nt_index(k, p)) == composition_at(k, p),
        inline_annotation_type_at(k, nt_index(k, p)) == inline_annotation_type_at(k, p),
        shape_injection_at(k, nt_index(k, p)) == shape_injection_at(k, p),
{
    lemma_kind_at_skip(k, p, 0);
    lemma_kind_at_skip(k, p, 1);
    lemma_injection_skip(k, p, 0);
}

/// A node that is still open while the parser runs.
struct Frame {
    kind: SyntaxKind,
    children: Vec<Child>,
    first: usize,
}

spec fn frame_ok(f: Frame, n_nodes: int, n_tokens: int) -> bool {
    &&& children_ok(f.children@, n_nodes, n_tokens)
    &&& f.first <= n_tokens
}

/// A closed node, as the grammar sees it.
pub open spec fn node_v(n: NodeData) -> NodeV {
    (n.kind, n.children@, n.first as int, n.end as int)
}

spec fn frame_v(f: Frame) -> FrameV {
    (f.kind, f.children@, f.first as int)
}

/// An error, as the grammar sees it.
pub open spec fn err_v(e: ParseError) -> ErrV {
    (e.message@, e.range.start as int, e.range.end as int)
}

/// Copy `s[start..end]`.
fn copy_range(s: &[u8], start: usize, end: usize) -> (r: Vec<u8>)
    requires
        start <= end <= s.len(),
    ensures
        r@ == s@.subrange(start as int, end as int),
{
    let mut r: Vec<u8> = Vec::new();
    let mut k = start;
    while k < end
        invariant
            start <= k <= end <= s.len(),
            r@ == s@.subrange(start as int, k as int),
        decreases end - k,
    {
        r.push(s[k]);
        assert(r@ =~= s@.subrange(start as int, k + 1));
        k += 1;
    }
    r
}

struct Parser<'s> {
    src: &'s [u8],
    kinds: Vec<SyntaxKind>,
    starts: Vec<usize>,
    ends: Vec<usize>,
    pos: usize,
    out: Vec<TokenData>,
    nodes: Vec<NodeData>,
    stack: Vec<Frame>,
    errors: Vec<ParseError>,
}

impl<'s> Parser<'s> {
    /// What the parser reads.
    spec fn ctx(&self) -> PCtx {
        (
            self.kinds@,
            self.starts@.map_values(|u: usize| u as int),
            self.ends@.map_values(|u: usize| u as int),
            self.src@.len() as int,
        )
    }

    /// The parser's state, as the grammar sees it.
    spec fn st(&self) -> PState {
        (
            self.pos as int,
            self.nodes@.map_values(|n: NodeData| node_v(n)),
            self.stack@.map_values(|f: Frame| frame_v(f)),
            self.errors@.map_values(|e: ParseError| err_v(e)),
        )
    }

    spec fn token_ok(&self, t: int) -> bool {
        &&& self.out@[t].kind == self.kinds@[t]
        &&& self.out@[t].text@ == self.src@.subrange(self.starts@[t] as int, self.ends@[t] as int)
        &&& self.out@[t].offset == self.starts@[t]
    }

    spec fn inv(&self) -> bool {
        &&& self.kinds.len() == self.starts.len()
        &&& self.kinds.len() == self.ends.len()
        &&& forall|t: int|
            0 <= t < self.kinds.len() ==> self.starts@[t] <= #[trigger] self.ends@[t]
                <= self.src.len()
        &&& self.pos <= self.kinds.len()
        &&& self.out.len() == self.pos
        &&& forall|t: int|
            0 <= t < self.pos ==> {
                &&& (#[trigger] self.out@[t]).kind == self.kinds@[t]
                &&& self.out@[t].text@ == self.src@.subrange(self.starts@[t] as int, self.ends@[t] as int)
                &&& self.out@[t].offset == self.starts@[t]
            }
        &&& nodes_ok(self.nodes@, self.out.len() as int)
        &&& forall|f: int|
            0 <= f < self.stack.len() ==> frame_ok(
                #[trigger] self.stack@[f],
                self.nodes.len() as int,
                self.out.len() as int,
            )
    }

    /// The input is unchanged, the position only grows, the open nodes
    /// below the given depth keep their kind and their first token.
    spec fn grown(&self, old: Parser<'s>, depth: int) -> bool {
        &&& self.inv()
        &&& self.src == old.src
        &&& self.kinds == old.kinds
        &&& self.starts == old.starts
        &&& self.ends == old.ends
        &&& old.pos <= self.pos
        &&& self.nodes.len() >= old.nodes.len()
        &&& old.errors@.len() <= self.errors@.len()
        &&& forall|e: int| 0 <= e < old.errors@.len() ==> #[trigger] self.errors@[e] == old.errors@[e]
        &&& forall|f: int|
            0 <= f < depth ==> (#[trigger] self.stack@[f]).first == old.stack@[f].first
                && self.stack@[f].kind == old.stack@[f].kind
    }

    /// `grown`, with as many open nodes as before.
    spec fn kept(&self, old: Parser<'s>) -> bool {
        &&& self.grown(old, old.stack.len() as int)
        &&& self.stack.len() == old.stack.len()
    }

    /// The last node closed is one of kind `kind`; it starts at or after the
    /// old position and ends at or before the current one.
    spec fn ends_with(&self, old: Parser<'s>, kind: SyntaxKind) -> bool {
        &&& self.nodes.len() > old.nodes.len()
        &&& self.nodes@.last().kind == kind
        &&& old.pos <= self.nodes@.last().first
        &&& self.nodes@.last().end <= self.pos
    }

    /// The tokens consumed since `old` end in one node of kind `kind`, which
    /// ends at the current position and is the last child of the open node.
    spec fn wraps(&self, old: Parser<'s>, kind: SyntaxKind) -> bool {
        &&& self.ends_with(old, kind)
        &&& self.nodes@.last().end == self.pos
        &&& self.stack@.last().children@.len() > 0
        &&& self.stack@.last().children@.last() == Child::Node((self.nodes.len() - 1) as usize)
    }

    fn current(&self) -> (r: Option<SyntaxKind>)
        requires
            self.inv(),
        ensures
            r == if self.pos < self.kinds.len() {
                Some(self.kinds@[self.pos as int])
            } else {
                None::<SyntaxKind>
            },
    {
        if self.pos < self.kinds.len() {
            Some(self.kinds[self.pos])
        } else {
            None
        }
    }

    /// Whether the current token (trivia included) has the given kind.
    fn at(&self, kind: SyntaxKind) -> (r: bool)
        requires
            self.inv(),
        ensures
            r == (self.pos < self.kinds.len() && self.kinds@[self.pos as int] == kind),
    {
        self.pos < self.kinds.len() && self.kinds[self.pos] == kind
    }

    /// Index of the first non-trivia token at or after `from`.
    fn nt_from(&self, from: usize) -> (j: usize)
        requires
            self.inv(),
            from <= self.kinds.len(),
        ensures
            j == nt_index(self.kinds@, from as int),
    {
        let mut j = from;
        while j < self.kinds.len() && self.kinds[j].is_trivia()
            invariant
                from <= j <= self.kinds.len(),
                nt_index(self.kinds@, j as int) == nt_index(self.kinds@, from as int),
            decreases self.kinds.len() - j,
        {
            j += 1;
        }
        j
    }

    /// Whether the first non-trivia token from the current position has the given kind.
    fn nt_is(&self, kind: SyntaxKind) -> (r: bool)
        requires
            self.inv(),
        ensures
            r == (nt_index(self.kinds@, self.pos as int) < self.kinds.len() && self.kinds@[nt_index(
                self.kinds@,
                self.pos as int,
            )] == kind),
    {
        let j = self.nt_from(self.pos);
        j < self.kinds.len() && self.kinds[j] == kind
    }

    /// The kind of the `n`-th non-trivia token ahead (0 = current non-trivia).
    fn peek_non_trivia(&self, n: usize) -> (r: Option<SyntaxKind>)
        requires
            self.inv(),
        ensures
            ({
                let j = nth_nt_index(self.kinds@, self.pos as int, n as nat);
                r == if 0 <= j < self.kinds.len() {
                    Some(self.kinds@[j])
                } else {
                    None::<SyntaxKind>
                }
            }),
            n >= self.kinds.len() - self.pos ==> r is None,
            r == kind_at(self.kinds@, self.pos as int, n as nat),
    {
        proof {
            lemma_nth_nt_index_bounds(self.kinds@, self.pos as int, n as nat);
        }
        let mut j = self.pos;
        let mut c: usize = 0;
        loop
            invariant
                self.inv(),
                j <= self.kinds.len(),
                c <= n,
                self.pos <= j,
                c <= j - self.pos,
                nth_nt_index(self.kinds@, j as int, (n - c) as nat) == nth_nt_index(
                    self.kinds@,
                    self.pos as int,
                    n as nat,
                ),
            decreases self.kinds.len() - j,
        {
            let k = self.nt_from(j);
            proof {
                lemma_nt_index_bounds(self.kinds@, j as int);
            }
            if k >= self.kinds.len() {
                return None;
            }
            if c == n {
                return Some(self.kinds[k]);
            }
            c += 1;
            j = k + 1;
        }
    }

    fn peek_is(&self, n: usize, kind: SyntaxKind) -> (r: bool)
        requires
            self.inv(),
        ensures
            r == (nth_nt_index(self.kinds@, self.pos as int, n as nat) < self.kinds.len()
                && self.kinds@[nth_nt_index(self.kinds@, self.pos as int, n as nat)] == kind),
            r == (kind_at(self.kinds@, self.pos as int, n as nat) == Some(kind)),
    {
        proof {
            lemma_nth_nt_index_bounds(self.kinds@, self.pos as int, n as nat);
        }
        match self.peek_non_trivia(n) {
            Some(k) => k == kind,
            None => false,
        }
    }

    /// Byte offset of the current token, or the end of the source.
    fn current_offset(&self) -> (r: usize)
        requires
            self.inv(),
        ensures
            r <= self.src.len(),
            r == if self.pos < self.kinds.len() {
                self.starts@[self.pos as int]
            } else {
                self.src.len()
            },
    {
        if self.pos < self.kinds.len() {
            assert(self.starts@[self.pos as int] <= self.ends@[self.pos as int]);
            self.starts[self.pos]
        } else {
            self.src.len()
        }
    }

    fn error_at(&mut self, start: usize, end: usize, msg: &str)
        requires
            old(self).inv(),
        ensures
            final(self).st() == g_err(old(self).st(), start as int, end as int, msg@),
            final(self).kept(*old(self)),
            final(self).stack == old(self).stack,
            final(self).pos == old(self).pos,
            final(self).nodes == old(self).nodes,
            final(self).errors@.len() == old(self).errors@.len() + 1,
            final(self).errors@.last().message@ == msg@,
            final(self).errors@.last().range == (start..end),
    {
        let message = msg.to_string();
        proof {
            vstd::string::to_string_from_display_ensures_for_str(msg, message);
        }
        self.errors.push(ParseError { message, range: start..end });
        proof {
            assert(self.errors@.map_values(|e: ParseError| err_v(e)) =~= old(self).errors@.map_values(
                |e: ParseError| err_v(e),
            ).push((msg@, start as int, end as int)));
        }
    }

    fn open_node(&mut self, kind: SyntaxKind)
        requires
            old(self).inv(),
        ensures
            final(self).st() == g_open(old(self).st(), kind),
            final(self).grown(*old(self), old(self).stack.len() as int),
            final(self).stack.len() == old(self).stack.len() + 1,
            final(self).stack@.last().kind == kind,
            final(self).errors@ == old(self).errors@,
            final(self).stack@.last().first == old(self).pos,
            final(self).pos == old(self).pos,
    {
        self.stack.push(Frame { kind, children: Vec::new(), first: self.out.len() });
        assert(frame_ok(self.stack@.last(), self.nodes.len() as int, self.out.len() as int));
        proof {
            assert(self.stack@.map_values(|f: Frame| frame_v(f)) =~= g_open(old(self).st(), kind).2);
        }
    }

    fn start_node(&mut self, kind: SyntaxKind)
        requires
            old(self).inv(),
        ensures
            final(self).st() == g_open(old(self).st(), kind),
            final(self).grown(*old(self), old(self).stack.len() as int),
            final(self).stack.len() == old(self).stack.len() + 1,
            final(self).stack@.last().kind == kind,
            final(self).errors@ == old(self).errors@,
            final(self).stack@.last().first == old(self).pos,
            final(self).pos == old(self).pos,
    {
        self.open_node(kind);
    }

    /// Close the innermost open node and attach it to its parent.
    fn finish_node(&mut self)
        requires
            old(self).inv(),
            old(self).stack.len() >= 2,
        ensures
            final(self).st() == g_close(old(self).st()),
            final(self).grown(*old(self), old(self).stack.len() - 1),
            final(self).stack.len() == old(self).stack.len() - 1,
            final(self).pos == old(self).pos,
            final(self).nodes.len() == old(self).nodes.len() + 1,
            final(self).nodes@.last().kind == old(self).stack@.last().kind,
            final(self).nodes@.last().first == old(self).stack@.last().first,
            final(self).nodes@.last().end == old(self).pos,
            final(self).errors@ == old(self).errors@,
            final(self).stack@.last().children@.len() > 0,
            final(self).stack@.last().children@.last() == Child::Node(old(self).nodes.len()),
    {
        proof {
            reveal(g_close);
        }
        let f = self.stack.pop().unwrap();
        let id = self.nodes.len();
        self.nodes.push(NodeData { kind: f.kind, children: f.children, first: f.first, end: self.out.len() });
        let mut parent = self.stack.pop().unwrap();
        parent.children.push(Child::Node(id));
        self.stack.push(parent);
        assert(frame_ok(self.stack@.last(), self.nodes.len() as int, self.out.len() as int));
        proof {
            assert(self.nodes@.map_values(|n: NodeData| node_v(n)) =~= g_close(old(self).st()).1);
            assert(self.stack@.map_values(|f: Frame| frame_v(f)) =~= g_close(old(self).st()).2);
        }
    }

    /// Consume and emit the current token.
    fn bump(&mut self)
        requires
            old(self).inv(),
            old(self).stack.len() >= 1,
        ensures
            final(self).st() == g_bump(old(self).ctx(), old(self).st()),
            final(self).kept(*old(self)),
            final(self).nodes == old(self).nodes,
            final(self).errors@ == old(self).errors@,
            final(self).pos == if old(self).pos < old(self).kinds.len() {
                old(self).pos + 1
            } else {
                old(self).pos as int
            },
    {
        if self.pos < self.kinds.len() {
            let start = self.starts[self.pos];
            let end = self.ends[self.pos];
            let text = copy_range(self.src, start, end);
            let idx = self.out.len();
            self.out.push(TokenData { kind: self.kinds[self.pos], text, offset: start });
            let mut f = self.stack.pop().unwrap();
            f.children.push(Child::Token(idx));
            self.stack.push(f);
            self.pos = self.pos + 1;
            assert(self.token_ok(idx as int));
            assert(frame_ok(self.stack@.last(), self.nodes.len() as int, self.out.len() as int));
            assert(self.stack@.map_values(|f: Frame| frame_v(f)) =~= g_bump(old(self).ctx(), old(self).st()).2);
        }
    }

    /// Consume and emit all trivia at the current position.
    fn eat_trivia(&mut self)
        requires
            old(self).inv(),
            old(self).stack.len() >= 1,
        ensures
            final(self).st() == g_trivia(old(self).ctx(), old(self).st()),
            final(self).kept(*old(self)),
            final(self).pos == nt_index(old(self).kinds@, old(self).pos as int),
            final(self).nodes == old(self).nodes,
            final(self).errors@ == old(self).errors@,
    {
        let ghost start = *self;
        while self.pos < self.kinds.len() && self.kinds[self.pos].is_trivia()
            invariant
                self.kept(start),
                self.nodes == start.nodes,
                self.errors@ == start.errors@,
                start.stack.len() >= 1,
                start.kinds == old(self).kinds,
                old(self).pos <= start.pos,
                nt_index(self.kinds@, self.pos as int) == nt_index(start.kinds@, start.pos as int),
                start == *old(self),
                g_trivia(start.ctx(), self.st()) == g_trivia(start.ctx(), start.st()),
            decreases self.kinds.len() - self.pos,
        {
            self.bump();
        }
    }

    /// Expect a specific token kind; record an error if it is not there.
    fn expect(&mut self, kind: SyntaxKind)
        requires
            old(self).inv(),
            old(self).stack.len() >= 1,
        ensures
            final(self).st() == g_expect(old(self).ctx(), old(self).st(), kind),
            final(self).kept(*old(self)),
            final(self).nodes == old(self).nodes,
            kind_at(old(self).kinds@, old(self).pos as int, 0) == Some(kind) ==> final(self).pos == nt_index(
                old(self).kinds@,
                old(self).pos as int,
            ) + 1 && final(self).errors@ == old(self).errors@,
            kind_at(old(self).kinds@, old(self).pos as int, 0) != Some(kind) ==> final(self).pos == nt_index(
                old(self).kinds@,
                old(self).pos as int,
            ) && final(self).errors@.len() == old(self).errors@.len() + 1 && final(self).errors@.last().message@
                == "expected "@ + kind_name(kind),
    {
        proof {
            reveal(g_expect);
        }
        self.eat_trivia();
        if self.at(kind) {
            self.bump();
        } else {
            let offset = self.current_offset();
            let mut msg = "expected ".to_string();
            proof {
                vstd::string::to_string_from_display_ensures_for_str("expected ", msg);
            }
            msg.append(kind.name());
            let ghost before = *self;
            self.errors.push(ParseError { message: msg, range: offset..offset });
            proof {
                assert(self.errors@.map_values(|e: ParseError| err_v(e)) =~= before.errors@.map_values(
                    |e: ParseError| err_v(e),
                ).push(("expected "@ + kind_name(kind), offset as int, offset as int)));
            }
        }
    }

    /// If the next non-trivia token has `kind`, consume trivia and it, and return true.
    fn eat(&mut self, kind: SyntaxKind) -> (r: bool)
        requires
            old(self).inv(),
            old(self).stack.len() >= 1,
        ensures
            final(self).st() == g_eat(old(self).ctx(), old(self).st(), kind),
            r == g_eats(old(self).ctx(), old(self).st(), kind),
            !r ==> g_eat(final(self).ctx(), final(self).st(), kind) == final(self).st() && !g_eats(final(self).ctx(), final(self).st(), kind),
            final(self).kept(*old(self)),
            r ==> old(self).pos < final(self).pos,
            r == (kind_at(old(self).kinds@, old(self).pos as int, 0) == Some(kind)),
            final(self).nodes == old(self).nodes,
            final(self).errors@ == old(self).errors@,
    {
        proof {
            reveal(g_eat);
        }
        let ghost before = self.st();
        self.eat_trivia();
        if self.at(kind) {
            self.bump();
            true
        } else {
            proof {
                lemma_trivia_idem(self.ctx(), before);
            }
            false
        }
    }

    /// Wrap the current token in an `Error` node and advance.
    fn error_recover(&mut self, msg: &str)
        requires
            old(self).inv(),
            old(self).stack.len() >= 1,
        ensures
            final(self).st() == g_recover(old(self).ctx(), old(self).st(), msg@),
            final(self).kept(*old(self)),
            old(self).pos < old(self).kinds.len() ==> final(self).pos == old(self).pos + 1,
            final(self).wraps(*old(self), SyntaxKind::Error),
            final(self).errors@.len() == old(self).errors@.len() + 1,
            final(self).errors@.last().message@ == msg@,
    {
        proof {
            reveal(g_recover);
        }
        let offset = self.current_offset();
        let end = if self.pos < self.kinds.len() {
            let e = self.ends[self.pos];
            e
        } else {
            offset
        };
        self.error_at(offset, end, msg);
        self.start_node(SyntaxKind::Error);
        self.bump();
        self.finish_node();
    }

    /// If no token was consumed since `saved`, force-consume one in an `Error` node.
    fn check_progress(&mut self, saved: usize) -> (stuck: bool)
        requires
            old(self).inv(),
            old(self).stack.len() >= 1,
        ensures
            final(self).st() == g_progress(old(self).ctx(), old(self).st(), saved as int),
            final(self).kept(*old(self)),
            saved <= old(self).pos && saved < old(self).kinds.len() ==> saved < final(self).pos,
            stuck == (old(self).pos == saved && saved < old(self).kinds.len()),
            stuck ==> final(self).wraps(*old(self), SyntaxKind::Error),
            !stuck ==> *final(self) == *old(self),
    {
        proof {
            reveal(g_progress);
        }
        if self.pos == saved && self.pos < self.kinds.len() {
            self.error_recover("unexpected token");
            true
        } else {
            false
        }
    }

    /// Accept an identifier or any keyword in identifier position.
    fn expect_ident(&mut self)
        requires
            old(self).inv(),
            old(self).stack.len() >= 1,
        ensures
            final(self).st() == g_ident(old(self).ctx(), old(self).st()),
            final(self).kept(*old(self)),
            final(self).nodes == old(self).nodes,
            ident_at(old(self).kinds@, old(self).pos as int) ==> final(self).pos == nt_index(
                old(self).kinds@,
                old(self).pos as int,
            ) + 1 && final(self).errors@ == old(self).errors@,
            !ident_at(old(self).kinds@, old(self).pos as int) ==> final(self).pos == nt_index(
                old(self).kinds@,
                old(self).pos as int,
            ) && final(self).errors@.len() == old(self).errors@.len() + 1 && final(self).errors@.last().message@
                == "expected identifier"@,
    {
        proof {
            reveal(g_ident);
        }
        self.eat_trivia();
        if self.pos < self.kinds.len() {
            let k = self.kinds[self.pos];
            if k == SyntaxKind::Ident || k.is_keyword() {
                self.bump();
                return;
            }
        }
        let offset = self.current_offset();
        self.error_at(offset, offset, "expected identifier");
    }

    fn expect_int(&mut self)
        requires
            old(self).inv(),
            old(self).stack.len() >= 1,
        ensures
            final(self).st() == g_int(old(self).ctx(), old(self).st()),
            final(self).kept(*old(self)),
            final(self).nodes == old(self).nodes,
            kind_at(old(self).kinds@, old(self).pos as int, 0) == Some(SyntaxKind::IntLiteral) ==> final(self).pos
                == nt_index(old(self).kinds@, old(self).pos as int) + 1 && final(self).errors@ == old(self).errors@,
            kind_at(old(self).kinds@, old(self).pos as int, 0) != Some(SyntaxKind::IntLiteral) ==> final(self).pos
                == nt_index(old(self).kinds@, old(self).pos as int) && final(self).errors@.len()
                == old(self).errors@.len() + 1 && final(self).errors@.last().message@ == "expected integer"@,
    {
        proof {
            reveal(g_int);
        }
        self.eat_trivia();
        if self.at(SyntaxKind::IntLiteral) {
            self.bump();
        } else {
            let offset = self.current_offset();
            self.error_at(offset, offset, "expected integer");
        }
    }

    fn is_reserved_decl(&self) -> (r: bool)
        requires
            self.inv(),
        ensures
            r == reserved_at(self.kinds@, self.pos as int),
    {
        self.peek_is(0, SyntaxKind::At) && self.peek_is(1, SyntaxKind::KwReserved)
    }

    /// Shape injection: `Name(N..M)`, or a dotted name before the parenthesis.
    fn is_shape_injection(&self) -> (r: bool)
        requires
            self.inv(),
        ensures
            r == shape_injection_at(self.kinds@, self.pos as int),
    {
        let mut i: usize = 0;
        loop
            invariant
                self.inv(),
                i <= self.kinds.len() - self.pos,
                injection_from(self.kinds@, self.pos as int, i as nat) == shape_injection_at(
                    self.kinds@,
                    self.pos as int,
                ),
            decreases self.kinds.len() - self.pos - i,
        {
            let t = self.peek_non_trivia(i);
            let is_name = match t {
                Some(k) => k == SyntaxKind::Ident || k.is_keyword(),
                None => false,
            };
            if !is_name {
                return false;
            }
            i += 1;
            if self.peek_is(i, SyntaxKind::Dot) {
                proof {
                    lemma_nth_nt_index_bounds(self.kinds@, self.pos as int, i as nat);
                }
                i += 1;
                continue;
            }
            if self.peek_is(i, SyntaxKind::LParen) {
                proof {
                    lemma_nth_nt_index_bounds(self.kinds@, self.pos as int, i as nat);
                }
                if !self.peek_is(i + 1, SyntaxKind::IntLiteral) {
                    return false;
                }
                proof {
                    lemma_nth_nt_index_bounds(self.kinds@, self.pos as int, (i + 1) as nat);
                }
                return self.peek_is(i + 2, SyntaxKind::DotDot);
            }
            return false;
        }
    }

    /// Shape include: `Name;` or `Name, Other;`.
    fn is_shape_include(&self) -> (r: bool)
        requires
            self.inv(),
        ensures
            r == shape_include_at(self.kinds@, self.pos as int),
    {
        self.peek_is(0, SyntaxKind::Ident) && (self.peek_is(1, SyntaxKind::Semicolon)
            || self.peek_is(1, SyntaxKind::Comma))
    }

    fn is_annotation_composition(&self) -> (r: bool)
        requires
            self.inv(),
        ensures
            r == composition_at(self.kinds@, self.pos as int),
    {
        self.peek_is(0, SyntaxKind::Ident) && self.peek_is(1, SyntaxKind::ColonColon)
    }

    fn is_inline_annotation_type(&self) -> (r: bool)
        requires
            self.inv(),
        ensures
            r ==> nt_index(self.kinds@, self.pos as int) < self.kinds.len() && self.kinds@[nt_index(
                self.kinds@,
                self.pos as int,
            )] == SyntaxKind::Ident,
            r == inline_annotation_type_at(self.kinds@, self.pos as int),
    {
        self.peek_is(0, SyntaxKind::Ident) && self.peek_is(1, SyntaxKind::Colon)
    }

    fn parse_root(&mut self)
        requires
            old(self).inv(),
            old(self).stack.len() >= 1,
        ensures
            final(self).st() == g_root(old(self).ctx(), old(self).st()),
            final(self).kept(*old(self)),
            final(self).pos == final(self).kinds.len(),
    {
        proof {
            reveal(g_root);
        }
        let ghost start = *self;
        self.eat_trivia();
        if self.nt_is(SyntaxKind::KwPackage) {
            self.parse_package_decl();
        }
        let ghost entry = *self;
        loop
            invariant
                g_decls(entry.ctx(), self.st()) == g_decls(entry.ctx(), entry.st()),
                self.ctx() == entry.ctx(),
                self.kept(start),
                start.stack.len() >= 1,
                start.kinds == old(self).kinds,
                old(self).pos <= start.pos,
            ensures
                g_decls(entry.ctx(), self.st()) == g_decls(entry.ctx(), entry.st()),
                self.ctx() == entry.ctx(),
                self.kept(start),
                start.stack.len() >= 1,
                start.kinds == old(self).kinds,
                old(self).pos <= start.pos,
                self.pos == self.kinds.len(),
            decreases self.kinds.len() - self.pos,
        {
            self.eat_trivia();
            if self.pos >= self.kinds.len() {
                break;
            }
            let saved = self.pos;
            let k = self.kinds[self.pos];
            if k == SyntaxKind::KwImport {
                self.parse_import_decl();
            } else if k == SyntaxKind::KwType || k == SyntaxKind::At || k == SyntaxKind::KwAnnotation
                || k == SyntaxKind::KwShape || k == SyntaxKind::KwEnum || k == SyntaxKind::KwService {
                self.parse_top_level_decl();
            } else {
                self.error_recover("expected top-level declaration");
            }
            self.check_progress(saved);
        }
        self.eat_trivia();
    }

    fn parse_package_decl(&mut self)
        requires
            old(self).inv(),
            old(self).stack.len() >= 1,
        ensures
            final(self).st() == g_package(old(self).ctx(), old(self).st()),
            final(self).nodes@.last().first == old(self).pos,
            nt_index(old(self).kinds@, old(self).pos as int) < old(self).kinds.len() ==> nt_index(old(self).kinds@, old(self).pos as int) < final(self).pos,
            final(self).wraps(*old(self), SyntaxKind::PackageDecl),
            final(self).kept(*old(self)),
    {
        proof {
            reveal(g_package);
        }
        self.start_node(SyntaxKind::PackageDecl);
        self.eat_trivia();
        self.bump();
        self.eat_trivia();
        self.expect_ident();
        self.expect(SyntaxKind::Semicolon);
        self.finish_node();
    }

    fn parse_import_decl(&mut self)
        requires
            old(self).inv(),
            old(self).stack.len() >= 1,
        ensures
            final(self).st() == g_import(old(self).ctx(), old(self).st()),
            final(self).nodes@.last().first == old(self).pos,
            nt_index(old(self).kinds@, old(self).pos as int) < old(self).kinds.len() ==> nt_index(old(self).kinds@, old(self).pos as int) < final(self).pos,
            final(self).wraps(*old(self), SyntaxKind::ImportDecl),
            final(self).kept(*old(self)),
    {
        proof {
            reveal(g_import);
        }
        self.start_node(SyntaxKind::ImportDecl);
        self.eat_trivia();
        self.bump();
        self.eat_trivia();
        self.parse_import_path();
        self.eat_trivia();
        if self.at(SyntaxKind::KwAs) {
            self.bump();
            self.eat_trivia();
            self.expect_ident();
        }
        self.expect(SyntaxKind::Semicolon);
        self.finish_node();
    }

    fn parse_import_path(&mut self)
        requires
            old(self).inv(),
            old(self).stack.len() >= 1,
        ensures
            final(self).st() == g_import_path(old(self).ctx(), old(self).st()),
            final(self).nodes@.last().first == old(self).pos,
            final(self).wraps(*old(self), SyntaxKind::ImportPath),
            final(self).kept(*old(self)),
    {
        proof {
            reveal(g_import_path);
        }
        self.start_node(SyntaxKind::ImportPath);
        self.expect_ident();
        let ghost start = *self;
        let ghost entry = *self;
        while self.at(SyntaxKind::Dot) || self.at(SyntaxKind::Slash) || self.at(SyntaxKind::Minus)
            invariant
                g_path_parts(entry.ctx(), self.st()) == g_path_parts(entry.ctx(), entry.st()),
                self.ctx() == entry.ctx(),
                self.kept(start),
                start.stack.len() >= 1,
                start.kinds == old(self).kinds,
                old(self).pos <= start.pos,
            decreases self.kinds.len() - self.pos,
        {
            self.bump();
            self.expect_ident();
        }
        self.finish_node();
    }

    #[verifier::rlimit(80)]
    fn parse_top_level_decl(&mut self)
        requires
            old(self).inv(),
            old(self).stack.len() >= 1,
        ensures
            final(self).st() == g_top_level(old(self).ctx(), old(self).st()),
            kind_at(old(self).kinds@, old(self).pos as int, 0) == Some(SyntaxKind::KwType) ==> final(self).wraps(*old(self), SyntaxKind::TypeDecl),
            kind_at(old(self).kinds@, old(self).pos as int, 0) == Some(SyntaxKind::KwShape) ==> final(self).wraps(*old(self), SyntaxKind::ShapeDecl),
            kind_at(old(self).kinds@, old(self).pos as int, 0) == Some(SyntaxKind::KwEnum) ==> final(self).wraps(*old(self), SyntaxKind::EnumDecl),
            kind_at(old(self).kinds@, old(self).pos as int, 0) == Some(SyntaxKind::KwService) ==> final(self).wraps(*old(self), SyntaxKind::ServiceDecl),
            kind_at(old(self).kinds@, old(self).pos as int, 0) == Some(SyntaxKind::KwAnnotation) ==> final(self).wraps(*old(self), SyntaxKind::AnnotationDecl),
            kind_at(old(self).kinds@, old(self).pos as int, 0) == Some(SyntaxKind::At) ==> old(self).pos < final(self).pos,
            final(self).kept(*old(self)),
    {
        proof {
            reveal(g_top_level);
        }
        self.eat_trivia();
        proof {
            lemma_ahead_skip(old(self).kinds@, old(self).pos as int);
        }
        let mut has_annotations = false;
        let ghost start = *self;
        let ghost entry = *self;
        while self.nt_is(SyntaxKind::At)
            invariant
                g_calls(entry.ctx(), self.st()) == g_calls(entry.ctx(), entry.st()),
                self.ctx() == entry.ctx(),
                self.kept(start),
                start.stack.len() >= 1,
                start.kinds == old(self).kinds,
                old(self).pos <= start.pos,
                start.pos == nt_index(old(self).kinds@, old(self).pos as int),
                start.nodes == old(self).nodes,
                !has_annotations ==> self.pos == start.pos && self.nodes == start.nodes,
                has_annotations ==> old(self).pos < self.pos,
                has_annotations ==> kind_at(old(self).kinds@, old(self).pos as int, 0) == Some(SyntaxKind::At),
            decreases self.kinds.len() - self.pos,
        {
            proof {
                lemma_ahead_skip(old(self).kinds@, old(self).pos as int);
            }
            assert(nth_nt_index(self.kinds@, self.pos as int, 0) == nt_index(self.kinds@, self.pos as int));
            self.parse_annotation_call();
            has_annotations = true;
        }
        self.eat_trivia();
        proof {
            lemma_nt_index_bounds(old(self).kinds@, old(self).pos as int);
            assert(nth_nt_index(old(self).kinds@, old(self).pos as int, 0) == nt_index(
                old(self).kinds@,
                old(self).pos as int,
            ));
        }
        if self.at(SyntaxKind::KwType) {
            self.parse_type_decl();
        } else if self.at(SyntaxKind::KwShape) {
            self.parse_shape_decl();
        } else if self.at(SyntaxKind::KwEnum) {
            self.parse_enum_decl();
        } else if self.at(SyntaxKind::KwService) {
            self.parse_service_decl();
        } else if self.at(SyntaxKind::KwAnnotation) {
            self.parse_annotation_decl();
        } else if has_annotations {
            self.error_recover("expected declaration after annotation");
        }
    }

    fn parse_type_decl(&mut self)
        requires
            old(self).inv(),
            old(self).stack.len() >= 1,
            nt_index(old(self).kinds@, old(self).pos as int) < old(self).kinds.len(),
            old(self).kinds@[nt_index(old(self).kinds@, old(self).pos as int)] == SyntaxKind::KwType,
        ensures
            final(self).st() == g_type_decl(old(self).ctx(), old(self).st()),
            final(self).nodes@.last().first == old(self).pos,
            nt_index(old(self).kinds@, old(self).pos as int) < old(self).kinds.len() ==> nt_index(old(self).kinds@, old(self).pos as int) < final(self).pos,
            final(self).wraps(*old(self), SyntaxKind::TypeDecl),
            final(self).kept(*old(self)),
        decreases old(self).kinds.len() - old(self).pos, 1int,
    {
        self.start_node(SyntaxKind::TypeDecl);
        self.eat_trivia();
        self.bump();
        self.eat_trivia();
        self.expect_ident();
        self.eat_trivia();
        if self.at(SyntaxKind::LAngle) {
            self.parse_type_params();
            self.eat_trivia();
            self.parse_type_body();
        } else if self.at(SyntaxKind::Eq) {
            self.parse_type_alias();
        } else if self.at(SyntaxKind::LBrace) {
            self.parse_type_body();
        } else {
            let offset = self.current_offset();
            self.error_at(offset, offset, "expected '=', '<', or '{'");
        }
        self.finish_node();
    }

    fn parse_type_alias(&mut self)
        requires
            old(self).inv(),
            old(self).stack.len() >= 1,
        ensures
            final(self).st() == g_alias(old(self).ctx(), old(self).st()),
            final(self).nodes@.last().first == old(self).pos,
            old(self).pos < old(self).kinds.len() ==> old(self).pos < final(self).pos,
            final(self).wraps(*old(self), SyntaxKind::TypeAlias),
            final(self).kept(*old(self)),
    {
        proof {
            reveal(g_alias);
        }
        self.start_node(SyntaxKind::TypeAlias);
        self.bump();
        self.eat_trivia();
        if self.nt_is(SyntaxKind::KwPick) {
            self.parse_pick_type();
        } else if self.nt_is(SyntaxKind::KwOmit) {
            self.parse_omit_type();
        } else {
            self.parse_type_ref();
        }
        self.expect(SyntaxKind::Semicolon);
        self.finish_node();
    }

    fn parse_type_body(&mut self)
        requires
            old(self).inv(),
            old(self).stack.len() >= 1,
        ensures
            final(self).st() == g_type_body(old(self).ctx(), old(self).st()),
            final(self).nodes@.last().first == old(self).pos,
            final(self).wraps(*old(self), SyntaxKind::TypeBody),
            final(self).kept(*old(self)),
        decreases old(self).kinds.len() - old(self).pos, 4int,
    {
        self.start_node(SyntaxKind::TypeBody);
        self.expect(SyntaxKind::LBrace);
        let ghost start = *self;
        let ghost entry = *self;
        loop
            invariant_except_break
                g_body_parts(entry.ctx(), self.st()) == g_body_parts(entry.ctx(), entry.st()),
            invariant
                self.ctx() == entry.ctx(),
                self.kept(start),
                start.stack.len() >= 1,
                start.kinds == old(self).kinds,
                old(self).pos <= start.pos,
                self.pos <= self.kinds.len(),
                old(self).pos <= start.pos,
            ensures
                self.st() == g_body_parts(entry.ctx(), entry.st()),
            decreases self.kinds.len() - self.pos,
        {
            self.eat_trivia();
            let saved = self.pos;
            if self.pos >= self.kinds.len() || self.kinds[self.pos] == SyntaxKind::RBrace {
                break;
            }
            let k = self.kinds[self.pos];
            if k == SyntaxKind::At {
                self.parse_type_member();
            } else if k == SyntaxKind::KwOneof {
                self.parse_oneof_decl();
            } else if k == SyntaxKind::KwType {
                self.parse_nested_type_decl();
            } else if k == SyntaxKind::KwEnum {
                self.parse_nested_enum_decl();
            } else {
                self.parse_field_or_shape_injection();
            }
            self.check_progress(saved);
        }
        self.expect(SyntaxKind::RBrace);
        self.finish_node();
    }

    fn parse_type_member(&mut self)
        requires
            old(self).inv(),
            old(self).stack.len() >= 1,
        ensures
            final(self).st() == g_type_member(old(self).ctx(), old(self).st()),
            reserved_at(old(self).kinds@, old(self).pos as int) ==> final(self).wraps(*old(self), SyntaxKind::ReservedDecl),
            !reserved_at(old(self).kinds@, old(self).pos as int) ==> final(self).wraps(*old(self), final(self).nodes@.last().kind) && type_member_kind(final(self).nodes@.last().kind),
            final(self).kept(*old(self)),
        decreases old(self).kinds.len() - old(self).pos, 3int,
    {
        self.eat_trivia();
        proof {
            lemma_ahead_skip(old(self).kinds@, old(self).pos as int);
        }
        if self.is_reserved_decl() {
            self.parse_reserved_decl();
            return;
        }
        let ghost start = *self;
        let ghost entry = *self;
        while self.nt_is(SyntaxKind::At)
            invariant
                g_calls(entry.ctx(), self.st()) == g_calls(entry.ctx(), entry.st()),
                self.ctx() == entry.ctx(),
                self.kept(start),
                start.stack.len() >= 1,
                start.kinds == old(self).kinds,
                old(self).pos <= start.pos,
                old(self).pos <= start.pos,
            decreases self.kinds.len() - self.pos,
        {
            self.parse_annotation_call();
        }
        self.eat_trivia();
        if self.at(SyntaxKind::KwOneof) {
            self.parse_oneof_decl();
        } else if self.at(SyntaxKind::KwType) {
            self.parse_nested_type_decl();
        } else if self.at(SyntaxKind::KwEnum) {
            self.parse_nested_enum_decl();
        } else {
            self.parse_field_or_shape_injection();
        }
    }

    fn parse_reserved_decl(&mut self)
        requires
            old(self).inv(),
            old(self).stack.len() >= 1,
        ensures
            final(self).st() == g_reserved(old(self).ctx(), old(self).st()),
            final(self).nodes@.last().first == old(self).pos,
            nt_index(old(self).kinds@, old(self).pos as int) < old(self).kinds.len() ==> nt_index(old(self).kinds@, old(self).pos as int) < final(self).pos,
            final(self).wraps(*old(self), SyntaxKind::ReservedDecl),
            final(self).kept(*old(self)),
    {
        proof {
            reveal(g_reserved);
        }
        self.start_node(SyntaxKind::ReservedDecl);
        self.eat_trivia();
        self.bump();
        self.eat_trivia();
        self.bump();
        self.expect(SyntaxKind::LParen);
        self.eat_trivia();
        self.expect_int();
        self.expect(SyntaxKind::RParen);
        self.eat(SyntaxKind::Semicolon);
        self.finish_node();
    }

    fn parse_field_or_shape_injection(&mut self)
        requires
            old(self).inv(),
            old(self).stack.len() >= 1,
        ensures
            final(self).st() == g_field_or_injection(old(self).ctx(), old(self).st()),
            shape_injection_at(old(self).kinds@, old(self).pos as int) ==> final(self).wraps(*old(self), SyntaxKind::ShapeInjection),
            !shape_injection_at(old(self).kinds@, old(self).pos as int) ==> final(self).wraps(*old(self), SyntaxKind::FieldDecl),
            final(self).kept(*old(self)),
    {
        proof {
            reveal(g_field_or_injection);
        }
        self.eat_trivia();
        proof {
            lemma_ahead_skip(old(self).kinds@, old(self).pos as int);
        }
        if self.is_shape_injection() {
            self.parse_shape_injection();
        } else {
            self.parse_field_decl();
        }
    }

    fn parse_shape_injection(&mut self)
        requires
            old(self).inv(),
            old(self).stack.len() >= 1,
        ensures
            final(self).st() == g_injection(old(self).ctx(), old(self).st()),
            final(self).nodes@.last().first == old(self).pos,
            final(self).wraps(*old(self), SyntaxKind::ShapeInjection),
            final(self).kept(*old(self)),
    {
        proof {
            reveal(g_injection);
        }
        self.start_node(SyntaxKind::ShapeInjection);
        self.eat_trivia();
        self.parse_qualified_name();
        self.expect(SyntaxKind::LParen);
        self.eat_trivia();
        self.expect_int();
        self.expect(SyntaxKind::DotDot);
        self.eat_trivia();
        self.expect_int();
        self.expect(SyntaxKind::RParen);
        self.finish_node();
    }

    fn parse_field_decl(&mut self)
        requires
            old(self).inv(),
            old(self).stack.len() >= 1,
        ensures
            final(self).st() == g_field(old(self).ctx(), old(self).st(), SyntaxKind::FieldDecl),
            final(self).nodes@.last().first == old(self).pos,
            final(self).wraps(*old(self), SyntaxKind::FieldDecl),
            final(self).kept(*old(self)),
    {
        proof {
            reveal(g_field);
        }
        self.start_node(SyntaxKind::FieldDecl);
        self.eat_trivia();
        self.parse_type_ref();
        self.eat_trivia();
        self.expect_ident();
        self.expect(SyntaxKind::Eq);
        self.eat_trivia();
        self.expect_int();
        self.eat_trivia();
        if self.at(SyntaxKind::BackArrow) {
            self.parse_mapping_source();
        }
        self.expect(SyntaxKind::Semicolon);
        self.finish_node();
    }

    fn parse_mapping_source(&mut self)
        requires
            old(self).inv(),
            old(self).stack.len() >= 1,
        ensures
            final(self).st() == g_mapping(old(self).ctx(), old(self).st()),
            final(self).nodes@.last().first == old(self).pos,
            old(self).pos < old(self).kinds.len() ==> old(self).pos < final(self).pos,
            final(self).wraps(*old(self), SyntaxKind::MappingSource),
            final(self).kept(*old(self)),
    {
        proof {
            reveal(g_mapping);
        }
        self.start_node(SyntaxKind::MappingSource);
        self.bump();
        self.eat_trivia();
        self.parse_qualified_name_or_wildcard();
        self.finish_node();
    }

    fn parse_qualified_name_or_wildcard(&mut self)
        requires
            old(self).inv(),
            old(self).stack.len() >= 1,
        ensures
            final(self).st() == g_wild_parts(old(self).ctx(), g_ident(old(self).ctx(), old(self).st())),
            ident_at(old(self).kinds@, old(self).pos as int) ==> nt_index(old(self).kinds@, old(self).pos as int) < final(self).pos,
            !ident_at(old(self).kinds@, old(self).pos as int) ==> final(self).errors@.len() > old(self).errors@.len(),
            final(self).kept(*old(self)),
    {
        self.expect_ident();
        let ghost start = *self;
        let ghost entry = *self;
        while self.at(SyntaxKind::Dot)
            invariant
                g_wild_parts(entry.ctx(), self.st()) == g_wild_parts(entry.ctx(), entry.st()),
                self.ctx() == entry.ctx(),
                self.kept(start),
                start.stack.len() >= 1,
                start.kinds == old(self).kinds,
                old(self).pos <= start.pos,
            decreases self.kinds.len() - self.pos,
        {
            self.bump();
            if self.at(SyntaxKind::Star) {
                self.bump();
            } else {
                self.expect_ident();
            }
        }
    }

    fn parse_oneof_decl(&mut self)
        requires
            old(self).inv(),
            old(self).stack.len() >= 1,
        ensures
            final(self).st() == g_oneof(old(self).ctx(), old(self).st()),
            final(self).nodes@.last().first == old(self).pos,
            nt_index(old(self).kinds@, old(self).pos as int) < old(self).kinds.len() ==> nt_index(old(self).kinds@, old(self).pos as int) < final(self).pos,
            final(self).wraps(*old(self), SyntaxKind::OneofDecl),
            final(self).kept(*old(self)),
    {
        proof {
            reveal(g_oneof);
        }
        self.start_node(SyntaxKind::OneofDecl);
        self.eat_trivia();
        self.bump();
        self.eat_trivia();
        self.expect_ident();
        self.expect(SyntaxKind::LBrace);
        let ghost start = *self;
        let ghost entry = *self;
        loop
            invariant_except_break
                g_braced_loop(entry.ctx(), self.st(), Body::Oneof) == g_braced_loop(entry.ctx(), entry.st(), Body::Oneof),
            invariant
                self.ctx() == entry.ctx(),
                self.kept(start),
                start.stack.len() >= 1,
                start.kinds == old(self).kinds,
                old(self).pos <= start.pos,
            ensures
                self.st() == g_braced_loop(entry.ctx(), entry.st(), Body::Oneof),
            decreases self.kinds.len() - self.pos,
        {
            self.eat_trivia();
            let saved = self.pos;
            if self.pos >= self.kinds.len() || self.kinds[self.pos] == SyntaxKind::RBrace {
                break;
            }
            if self.kinds[self.pos] == SyntaxKind::At {
                self.parse_annotation_calls();
                self.parse_oneof_field();
            } else {
                self.parse_oneof_field();
            }
            self.check_progress(saved);
        }
        self.expect(SyntaxKind::RBrace);
        self.finish_node();
    }

    fn parse_oneof_field(&mut self)
        requires
            old(self).inv(),
            old(self).stack.len() >= 1,
        ensures
            final(self).st() == g_field(old(self).ctx(), old(self).st(), SyntaxKind::OneofField),
            final(self).nodes@.last().first == old(self).pos,
            final(self).wraps(*old(self), SyntaxKind::OneofField),
            final(self).kept(*old(self)),
    {
        proof {
            reveal(g_field);
        }
        self.start_node(SyntaxKind::OneofField);
        self.eat_trivia();
        self.parse_type_ref();
        self.eat_trivia();
        self.expect_ident();
        self.expect(SyntaxKind::Eq);
        self.eat_trivia();
        self.expect_int();
        self.eat_trivia();
        if self.at(SyntaxKind::BackArrow) {
            self.parse_mapping_source();
        }
        self.expect(SyntaxKind::Semicolon);
        self.finish_node();
    }

    fn parse_nested_type_decl(&mut self)
        requires
            old(self).inv(),
            old(self).stack.len() >= 1,
            nt_index(old(self).kinds@, old(self).pos as int) < old(self).kinds.len(),
            old(self).kinds@[nt_index(old(self).kinds@, old(self).pos as int)] == SyntaxKind::KwType,
        ensures
            final(self).st() == g_nested_type(old(self).ctx(), old(self).st()),
            final(self).nodes@.last().first == old(self).pos,
            final(self).wraps(*old(self), SyntaxKind::NestedTypeDecl),
            final(self).kept(*old(self)),
        decreases old(self).kinds.len() - old(self).pos, 2int,
    {
        self.start_node(SyntaxKind::NestedTypeDecl);
        self.parse_type_decl();
        self.finish_node();
    }

    fn parse_nested_enum_decl(&mut self)
        requires
            old(self).inv(),
            old(self).stack.len() >= 1,
        ensures
            final(self).st() == g_nested_enum(old(self).ctx(), old(self).st()),
            final(self).nodes@.last().first == old(self).pos,
            final(self).wraps(*old(self), SyntaxKind::NestedEnumDecl),
            final(self).kept(*old(self)),
    {
        proof {
            reveal(g_nested_enum);
        }
        self.start_node(SyntaxKind::NestedEnumDecl);
        self.parse_enum_decl();
        self.finish_node();
    }

    fn parse_shape_decl(&mut self)
        requires
            old(self).inv(),
            old(self).stack.len() >= 1,
        ensures
            final(self).st() == g_shape(old(self).ctx(), old(self).st()),
            final(self).nodes@.last().first == old(self).pos,
            nt_index(old(self).kinds@, old(self).pos as int) < old(self).kinds.len() ==> nt_index(old(self).kinds@, old(self).pos as int) < final(self).pos,
            final(self).wraps(*old(self), SyntaxKind::ShapeDecl),
            final(self).kept(*old(self)),
    {
        proof {
            reveal(g_shape);
        }
        self.start_node(SyntaxKind::ShapeDecl);
        self.eat_trivia();
        self.bump();
        self.eat_trivia();
        self.expect_ident();
        self.eat_trivia();
        if self.at(SyntaxKind::LAngle) {
            self.parse_type_params();
        }
        self.expect(SyntaxKind::LBrace);
        let ghost start = *self;
        let ghost entry = *self;
        loop
            invariant_except_break
                g_braced_loop(entry.ctx(), self.st(), Body::Shape) == g_braced_loop(entry.ctx(), entry.st(), Body::Shape),
            invariant
                self.ctx() == entry.ctx(),
                self.kept(start),
                start.stack.len() >= 1,
                start.kinds == old(self).kinds,
                old(self).pos <= start.pos,
            ensures
                self.st() == g_braced_loop(entry.ctx(), entry.st(), Body::Shape),
            decreases self.kinds.len() - self.pos,
        {
            self.eat_trivia();
            let saved = self.pos;
            if self.pos >= self.kinds.len() || self.kinds[self.pos] == SyntaxKind::RBrace {
                break;
            }
            if self.kinds[self.pos] == SyntaxKind::At {
                self.parse_annotation_calls();
                self.eat_trivia();
                self.parse_shape_field();
            } else {
                self.parse_shape_member();
            }
            self.check_progress(saved);
        }
        self.expect(SyntaxKind::RBrace);
        self.finish_node();
    }

    fn parse_shape_member(&mut self)
        requires
            old(self).inv(),
            old(self).stack.len() >= 1,
        ensures
            final(self).st() == g_shape_plain(old(self).ctx(), old(self).st()),
            shape_include_at(old(self).kinds@, old(self).pos as int) ==> final(self).wraps(*old(self), SyntaxKind::ShapeInclude),
            !shape_include_at(old(self).kinds@, old(self).pos as int) ==> final(self).wraps(*old(self), SyntaxKind::ShapeField),
            final(self).kept(*old(self)),
    {
        proof {
            reveal(g_shape_plain);
        }
        self.eat_trivia();
        proof {
            lemma_ahead_skip(old(self).kinds@, old(self).pos as int);
        }
        if self.is_shape_include() {
            self.parse_shape_include();
        } else {
            self.parse_shape_field();
        }
    }

    fn parse_shape_include(&mut self)
        requires
            old(self).inv(),
            old(self).stack.len() >= 1,
        ensures
            final(self).st() == g_shape_incl(old(self).ctx(), old(self).st()),
            final(self).nodes@.last().first == old(self).pos,
            nt_index(old(self).kinds@, old(self).pos as int) < old(self).kinds.len() ==> nt_index(old(self).kinds@, old(self).pos as int) < final(self).pos,
            final(self).wraps(*old(self), SyntaxKind::ShapeInclude),
            final(self).kept(*old(self)),
    {
        proof {
            reveal(g_eat);
            reveal(g_shape_incl);
        }
        self.start_node(SyntaxKind::ShapeInclude);
        self.eat_trivia();
        self.bump();
        let ghost start = *self;
        let ghost entry = *self;
        while self.eat(SyntaxKind::Comma)
            invariant
                g_sep_idents(entry.ctx(), self.st(), SyntaxKind::Comma) == g_sep_idents(entry.ctx(), entry.st(), SyntaxKind::Comma),
                self.ctx() == entry.ctx(),
                self.kept(start),
                start.stack.len() >= 1,
                start.kinds == old(self).kinds,
                old(self).pos <= start.pos,
            decreases self.kinds.len() - self.pos,
        {
            self.eat_trivia();
            self.expect_ident();
        }
        self.expect(SyntaxKind::Semicolon);
        self.finish_node();
    }

    fn parse_shape_field(&mut self)
        requires
            old(self).inv(),
            old(self).stack.len() >= 1,
        ensures
            final(self).st() == g_shape_field(old(self).ctx(), old(self).st()),
            final(self).nodes@.last().first == old(self).pos,
            final(self).wraps(*old(self), SyntaxKind::ShapeField),
            final(self).kept(*old(self)),
    {
        proof {
            reveal(g_shape_field);
        }
        self.start_node(SyntaxKind::ShapeField);
        self.eat_trivia();
        self.parse_type_ref();
        self.eat_trivia();
        self.expect_ident();
        self.eat_trivia();
        let ghost start = *self;
        let ghost entry = *self;
        while self.nt_is(SyntaxKind::At)
            invariant
                g_field_calls(entry.ctx(), self.st()) == g_field_calls(entry.ctx(), entry.st()),
                self.ctx() == entry.ctx(),
                self.kept(start),
                start.stack.len() >= 1,
                start.kinds == old(self).kinds,
                old(self).pos <= start.pos,
            decreases self.kinds.len() - self.pos,
        {
            self.parse_annotation_call();
            self.eat_trivia();
        }
        self.expect(SyntaxKind::Semicolon);
        self.finish_node();
    }

    fn parse_enum_decl(&mut self)
        requires
            old(self).inv(),
            old(self).stack.len() >= 1,
        ensures
            final(self).st() == g_enum(old(self).ctx(), old(self).st()),
            final(self).nodes@.last().first == old(self).pos,
            nt_index(old(self).kinds@, old(self).pos as int) < old(self).kinds.len() ==> nt_index(old(self).kinds@, old(self).pos as int) < final(self).pos,
            final(self).wraps(*old(self), SyntaxKind::EnumDecl),
            final(self).kept(*old(self)),
    {
        proof {
            reveal(g_enum);
        }
        self.start_node(SyntaxKind::EnumDecl);
        self.eat_trivia();
        self.bump();
        self.eat_trivia();
        self.expect_ident();
        self.expect(SyntaxKind::LBrace);
        let ghost start = *self;
        let ghost entry = *self;
        loop
            invariant_except_break
                g_braced_loop(entry.ctx(), self.st(), Body::Enum) == g_braced_loop(entry.ctx(), entry.st(), Body::Enum),
            invariant
                self.ctx() == entry.ctx(),
                self.kept(start),
                start.stack.len() >= 1,
                start.kinds == old(self).kinds,
                old(self).pos <= start.pos,
            ensures
                self.st() == g_braced_loop(entry.ctx(), entry.st(), Body::Enum),
            decreases self.kinds.len() - self.pos,
        {
            self.eat_trivia();
            let saved = self.pos;
            if self.pos >= self.kinds.len() || self.kinds[self.pos] == SyntaxKind::RBrace {
                break;
            }
            if self.kinds[self.pos] == SyntaxKind::At {
                self.parse_annotation_calls();
                self.eat_trivia();
                self.parse_enum_value_decl();
            } else {
                self.parse_enum_value_decl();
            }
            self.check_progress(saved);
        }
        self.expect(SyntaxKind::RBrace);
        self.finish_node();
    }

    fn parse_enum_value_decl(&mut self)
        requires
            old(self).inv(),
            old(self).stack.len() >= 1,
        ensures
            final(self).st() == g_enum_value(old(self).ctx(), old(self).st()),
            final(self).nodes@.last().first == old(self).pos,
            final(self).wraps(*old(self), SyntaxKind::EnumValueDecl),
            final(self).kept(*old(self)),
    {
        proof {
            reveal(g_enum_value);
        }
        self.start_node(SyntaxKind::EnumValueDecl);
        self.eat_trivia();
        self.expect_ident();
        self.expect(SyntaxKind::Eq);
        self.eat_trivia();
        self.expect_int();
        self.expect(SyntaxKind::Semicolon);
        self.finish_node();
    }

    fn parse_service_decl(&mut self)
        requires
            old(self).inv(),
            old(self).stack.len() >= 1,
        ensures
            final(self).st() == g_service(old(self).ctx(), old(self).st()),
            final(self).nodes@.last().first == old(self).pos,
            nt_index(old(self).kinds@, old(self).pos as int) < old(self).kinds.len() ==> nt_index(old(self).kinds@, old(self).pos as int) < final(self).pos,
            final(self).wraps(*old(self), SyntaxKind::ServiceDecl),
            final(self).kept(*old(self)),
    {
        proof {
            reveal(g_service);
        }
        self.start_node(SyntaxKind::ServiceDecl);
        self.eat_trivia();
        self.bump();
        self.eat_trivia();
        self.expect_ident();
        self.expect(SyntaxKind::LBrace);
        let ghost start = *self;
        let ghost entry = *self;
        loop
            invariant_except_break
                g_braced_loop(entry.ctx(), self.st(), Body::Service) == g_braced_loop(entry.ctx(), entry.st(), Body::Service),
            invariant
                self.ctx() == entry.ctx(),
                self.kept(start),
                start.stack.len() >= 1,
                start.kinds == old(self).kinds,
                old(self).pos <= start.pos,
            ensures
                self.st() == g_braced_loop(entry.ctx(), entry.st(), Body::Service),
            decreases self.kinds.len() - self.pos,
        {
            self.eat_trivia();
            let saved = self.pos;
            if self.pos >= self.kinds.len() || self.kinds[self.pos] == SyntaxKind::RBrace {
                break;
            }
            let k = self.kinds[self.pos];
            if k == SyntaxKind::At {
                self.parse_annotation_calls();
                self.eat_trivia();
                if self.nt_is(SyntaxKind::KwRpc) {
                    self.parse_rpc_decl();
                }
            } else if k == SyntaxKind::KwRpc {
                self.parse_rpc_decl();
            } else {
                self.error_recover("expected 'rpc' declaration");
            }
            self.check_progress(saved);
        }
        self.expect(SyntaxKind::RBrace);
        self.finish_node();
    }

    fn parse_rpc_decl(&mut self)
        requires
            old(self).inv(),
            old(self).stack.len() >= 1,
        ensures
            final(self).st() == g_rpc(old(self).ctx(), old(self).st()),
            final(self).nodes@.last().first == old(self).pos,
            nt_index(old(self).kinds@, old(self).pos as int) < old(self).kinds.len() ==> nt_index(old(self).kinds@, old(self).pos as int) < final(self).pos,
            final(self).wraps(*old(self), SyntaxKind::RpcDecl),
            final(self).kept(*old(self)),
    {
        proof {
            reveal(g_rpc);
        }
        self.start_node(SyntaxKind::RpcDecl);
        self.eat_trivia();
        self.bump();
        self.eat_trivia();
        self.expect_ident();
        self.expect(SyntaxKind::LParen);
        self.parse_rpc_param();
        self.expect(SyntaxKind::RParen);
        self.expect(SyntaxKind::Arrow);
        self.parse_rpc_param();
        self.expect(SyntaxKind::Semicolon);
        self.finish_node();
    }

    fn parse_rpc_param(&mut self)
        requires
            old(self).inv(),
            old(self).stack.len() >= 1,
        ensures
            final(self).st() == g_rpc_param(old(self).ctx(), old(self).st()),
            final(self).nodes@.last().first == old(self).pos,
            final(self).wraps(*old(self), SyntaxKind::RpcParam),
            final(self).kept(*old(self)),
    {
        proof {
            reveal(g_rpc_param);
        }
        self.start_node(SyntaxKind::RpcParam);
        self.eat_trivia();
        if self.at(SyntaxKind::KwVoid) {
            self.bump();
        } else if self.at(SyntaxKind::KwStream) {
            self.bump();
            self.eat_trivia();
            if self.at(SyntaxKind::LBrace) {
                self.parse_inline_type();
            } else {
                self.parse_type_ref();
            }
        } else if self.at(SyntaxKind::LBrace) {
            self.parse_inline_type();
        } else {
            self.parse_type_ref();
        }
        self.finish_node();
    }

    fn parse_inline_type(&mut self)
        requires
            old(self).inv(),
            old(self).stack.len() >= 1,
        ensures
            final(self).st() == g_inline_type(old(self).ctx(), old(self).st()),
            final(self).nodes@.last().first == old(self).pos,
            final(self).wraps(*old(self), SyntaxKind::InlineType),
            final(self).kept(*old(self)),
    {
        proof {
            reveal(g_inline_type);
        }
        self.start_node(SyntaxKind::InlineType);
        self.expect(SyntaxKind::LBrace);
        let ghost start = *self;
        let ghost entry = *self;
        loop
            invariant_except_break
                g_inline_parts(entry.ctx(), self.st()) == g_inline_parts(entry.ctx(), entry.st()),
            invariant
                self.ctx() == entry.ctx(),
                self.kept(start),
                start.stack.len() >= 1,
                start.kinds == old(self).kinds,
                old(self).pos <= start.pos,
            ensures
                self.st() == g_inline_parts(entry.ctx(), entry.st()),
            decreases self.kinds.len() - self.pos,
        {
            self.eat_trivia();
            let saved = self.pos;
            if self.pos >= self.kinds.len() || self.kinds[self.pos] == SyntaxKind::RBrace {
                break;
            }
            if self.kinds[self.pos] == SyntaxKind::At {
                self.parse_annotation_calls();
                self.parse_field_or_shape_injection();
            } else {
                self.parse_field_or_shape_injection();
            }
            self.check_progress(saved);
        }
        self.expect(SyntaxKind::RBrace);
        self.finish_node();
    }

    #[verifier::rlimit(80)]
    fn parse_annotation_decl(&mut self)
        requires
            old(self).inv(),
            old(self).stack.len() >= 1,
        ensures
            final(self).st() == g_annotation_decl(old(self).ctx(), old(self).st()),
            final(self).nodes@.last().first == old(self).pos,
            nt_index(old(self).kinds@, old(self).pos as int) < old(self).kinds.len() ==> nt_index(old(self).kinds@, old(self).pos as int) < final(self).pos,
            final(self).wraps(*old(self), SyntaxKind::AnnotationDecl),
            final(self).kept(*old(self)),
    {
        proof {
            reveal(g_annotation_decl);
        }
        self.start_node(SyntaxKind::AnnotationDecl);
        self.eat_trivia();
        self.bump();
        self.eat_trivia();
        self.expect_ident();
        self.eat_trivia();
        self.expect(SyntaxKind::KwFor);
        self.parse_annotation_targets();
        self.expect(SyntaxKind::LBrace);
        let ghost start = *self;
        let ghost entry = *self;
        loop
            invariant_except_break
                g_braced_loop(entry.ctx(), self.st(), Body::Annotation) == g_braced_loop(entry.ctx(), entry.st(), Body::Annotation),
            invariant
                self.ctx() == entry.ctx(),
                self.kept(start),
                start.stack.len() >= 1,
                start.kinds == old(self).kinds,
                old(self).pos <= start.pos,
            ensures
                self.st() == g_braced_loop(entry.ctx(), entry.st(), Body::Annotation),
            decreases self.kinds.len() - self.pos,
        {
            self.eat_trivia();
            let saved = self.pos;
            if self.pos >= self.kinds.len() || self.kinds[self.pos] == SyntaxKind::RBrace {
                break;
            }
            self.parse_annotation_member();
            self.check_progress(saved);
        }
        self.expect(SyntaxKind::RBrace);
        self.finish_node();
    }

    fn parse_annotation_targets(&mut self)
        requires
            old(self).inv(),
            old(self).stack.len() >= 1,
        ensures
            final(self).st() == g_targets(old(self).ctx(), old(self).st()),
            final(self).nodes@.last().first == old(self).pos,
            final(self).wraps(*old(self), SyntaxKind::AnnotationTargets),
            final(self).kept(*old(self)),
    {
        proof {
            reveal(g_eat);
            reveal(g_targets);
        }
        self.start_node(SyntaxKind::AnnotationTargets);
        self.eat_trivia();
        self.expect_ident();
        let ghost start = *self;
        let ghost entry = *self;
        while self.eat(SyntaxKind::Pipe)
            invariant
                g_sep_idents(entry.ctx(), self.st(), SyntaxKind::Pipe) == g_sep_idents(entry.ctx(), entry.st(), SyntaxKind::Pipe),
                self.ctx() == entry.ctx(),
                self.kept(start),
                start.stack.len() >= 1,
                start.kinds == old(self).kinds,
                old(self).pos <= start.pos,
            decreases self.kinds.len() - self.pos,
        {
            self.eat_trivia();
            self.expect_ident();
        }
        self.finish_node();
    }

    fn parse_annotation_member(&mut self)
        requires
            old(self).inv(),
            old(self).stack.len() >= 1,
        ensures
            final(self).st() == g_annotation_member(old(self).ctx(), old(self).st()),
            composition_at(old(self).kinds@, old(self).pos as int) ==> final(self).wraps(*old(self), SyntaxKind::AnnotationComposition),
            !composition_at(old(self).kinds@, old(self).pos as int) ==> final(self).wraps(*old(self), SyntaxKind::AnnotationField),
            final(self).kept(*old(self)),
        decreases old(self).kinds.len() - old(self).pos, 2int,
    {
        self.eat_trivia();
        proof {
            lemma_ahead_skip(old(self).kinds@, old(self).pos as int);
        }
        if self.is_annotation_composition() {
            self.parse_annotation_composition();
            return;
        }
        if self.is_inline_annotation_type() {
            self.parse_inline_annotation_type_member();
            return;
        }
        self.parse_annotation_field();
    }

    fn parse_annotation_composition(&mut self)
        requires
            old(self).inv(),
            old(self).stack.len() >= 1,
        ensures
            final(self).st() == g_composition(old(self).ctx(), old(self).st()),
            final(self).nodes@.last().first == old(self).pos,
            nt_index(old(self).kinds@, old(self).pos as int) < old(self).kinds.len() ==> nt_index(old(self).kinds@, old(self).pos as int) < final(self).pos,
            final(self).wraps(*old(self), SyntaxKind::AnnotationComposition),
            final(self).kept(*old(self)),
    {
        proof {
            reveal(g_composition);
        }
        self.start_node(SyntaxKind::AnnotationComposition);
        self.eat_trivia();
        self.bump();
        self.eat_trivia();
        self.bump();
        self.eat_trivia();
        self.expect_ident();
        self.eat_trivia();
        if self.at(SyntaxKind::LParen) {
            self.bump();
            self.eat_trivia();
            if !self.nt_is(SyntaxKind::RParen) {
                self.parse_annotation_args_inner();
            }
            self.expect(SyntaxKind::RParen);
        }
        self.expect(SyntaxKind::Semicolon);
        self.finish_node();
    }

    fn parse_inline_annotation_type_member(&mut self)
        requires
            old(self).inv(),
            old(self).stack.len() >= 1,
            nt_index(old(self).kinds@, old(self).pos as int) < old(self).kinds.len(),
            old(self).kinds@[nt_index(old(self).kinds@, old(self).pos as int)] == SyntaxKind::Ident,
        ensures
            final(self).st() == g_inline_annotation_member(old(self).ctx(), old(self).st()),
            final(self).nodes@.last().first == old(self).pos,
            nt_index(old(self).kinds@, old(self).pos as int) < old(self).kinds.len() ==> nt_index(old(self).kinds@, old(self).pos as int) < final(self).pos,
            final(self).wraps(*old(self), SyntaxKind::AnnotationField),
            final(self).kept(*old(self)),
        decreases old(self).kinds.len() - old(self).pos, 1int,
    {
        self.start_node(SyntaxKind::AnnotationField);
        self.eat_trivia();
        self.bump();
        self.eat_trivia();
        self.bump();
        self.parse_inline_annotation_type_body();
        self.finish_node();
    }

    #[verifier::rlimit(80)]
    fn parse_inline_annotation_type_body(&mut self)
        requires
            old(self).inv(),
            old(self).stack.len() >= 1,
        ensures
            final(self).st() == g_inline_annotation_body(old(self).ctx(), old(self).st()),
            final(self).nodes@.last().first == old(self).pos,
            final(self).wraps(*old(self), SyntaxKind::InlineAnnotationType),
            final(self).kept(*old(self)),
        decreases old(self).kinds.len() - old(self).pos, 3int,
    {
        self.start_node(SyntaxKind::InlineAnnotationType);
        self.expect(SyntaxKind::LBrace);
        let ghost start = *self;
        let ghost entry = *self;
        loop
            invariant_except_break
                g_annotation_parts(entry.ctx(), self.st()) == g_annotation_parts(entry.ctx(), entry.st()),
            invariant
                self.ctx() == entry.ctx(),
                self.kept(start),
                start.stack.len() >= 1,
                start.kinds == old(self).kinds,
                old(self).pos <= start.pos,
                old(self).pos <= start.pos,
            ensures
                self.st() == g_annotation_parts(entry.ctx(), entry.st()),
            decreases self.kinds.len() - self.pos,
        {
            self.eat_trivia();
            let saved = self.pos;
            if self.pos >= self.kinds.len() || self.kinds[self.pos] == SyntaxKind::RBrace {
                break;
            }
            self.parse_annotation_member();
            self.check_progress(saved);
        }
        self.expect(SyntaxKind::RBrace);
        self.finish_node();
    }

    fn parse_annotation_field(&mut self)
        requires
            old(self).inv(),
            old(self).stack.len() >= 1,
        ensures
            final(self).st() == g_annotation_field(old(self).ctx(), old(self).st()),
            final(self).nodes@.last().first == old(self).pos,
            final(self).wraps(*old(self), SyntaxKind::AnnotationField),
            final(self).kept(*old(self)),
    {
        proof {
            reveal(g_annotation_field);
        }
        self.start_node(SyntaxKind::AnnotationField);
        self.eat_trivia();
        self.parse_type_ref();
        self.eat_trivia();
        if self.at(SyntaxKind::Question) {
            self.bump();
            self.eat_trivia();
        }
        self.expect_ident();
        self.eat_trivia();
        if self.at(SyntaxKind::Eq) {
            self.bump();
            self.eat_trivia();
            self.parse_literal_or_annotation_value();
        }
        self.expect(SyntaxKind::Semicolon);
        self.finish_node();
    }

    fn parse_annotation_calls(&mut self)
        requires
            old(self).inv(),
            old(self).stack.len() >= 1,
        ensures
            final(self).st() == g_calls(old(self).ctx(), old(self).st()),
            kind_at(final(self).kinds@, final(self).pos as int, 0) != Some(SyntaxKind::At),
            kind_at(old(self).kinds@, old(self).pos as int, 0) == Some(SyntaxKind::At) ==> final(self).wraps(*old(self), SyntaxKind::AnnotationCall),
            final(self).kept(*old(self)),
    {
        let ghost start = *self;
        let ghost mut ran = false;
        let ghost entry = *self;
        while self.nt_is(SyntaxKind::At)
            invariant
                g_calls(entry.ctx(), self.st()) == g_calls(entry.ctx(), entry.st()),
                self.ctx() == entry.ctx(),
                self.kept(start),
                start.stack.len() >= 1,
                start.kinds == old(self).kinds,
                old(self).pos <= start.pos,
                start == *old(self),
                !ran ==> self.pos == start.pos,
                ran ==> self.wraps(start, SyntaxKind::AnnotationCall),
            decreases self.kinds.len() - self.pos,
        {
            self.parse_annotation_call();
            proof {
                ran = true;
            }
        }
    }

    #[verifier::rlimit(80)]
    fn parse_annotation_call(&mut self)
        requires
            old(self).inv(),
            old(self).stack.len() >= 1,
        ensures
            final(self).st() == g_call(old(self).ctx(), old(self).st()),
            final(self).nodes@.last().first == old(self).pos,
            nt_index(old(self).kinds@, old(self).pos as int) < old(self).kinds.len() ==> nt_index(old(self).kinds@, old(self).pos as int) < final(self).pos,
            final(self).wraps(*old(self), SyntaxKind::AnnotationCall),
            final(self).kept(*old(self)),
            nt_index(old(self).kinds@, old(self).pos as int) < old(self).kinds.len() ==> old(self).pos < final(self).pos,
    {
        proof {
            reveal(g_eat);
            reveal(g_call);
        }
        self.start_node(SyntaxKind::AnnotationCall);
        self.eat_trivia();
        self.bump();
        self.eat_trivia();
        if self.at(SyntaxKind::KwDefault) || self.at(SyntaxKind::KwCast) || self.at(SyntaxKind::KwRemoved)
            || self.at(SyntaxKind::KwReserved) {
            self.bump();
            if self.eat(SyntaxKind::LParen) {
                self.eat_trivia();
                if !self.nt_is(SyntaxKind::RParen) {
                    self.parse_annotation_args_inner();
                }
                self.expect(SyntaxKind::RParen);
            }
        } else {
            self.expect_ident();
            self.expect(SyntaxKind::ColonColon);
            self.eat_trivia();
            self.expect_ident();
            self.eat_trivia();
            if self.at(SyntaxKind::LParen) {
                self.bump();
                self.eat_trivia();
                if !self.nt_is(SyntaxKind::RParen) {
                    self.parse_annotation_args_inner();
                }
                self.expect(SyntaxKind::RParen);
            }
        }
        self.finish_node();
    }

    fn parse_annotation_args_inner(&mut self)
        requires
            old(self).inv(),
            old(self).stack.len() >= 1,
        ensures
            final(self).st() == g_args(old(self).ctx(), old(self).st()),
            final(self).nodes@.last().first == old(self).pos,
            final(self).wraps(*old(self), SyntaxKind::AnnotationArgs),
            final(self).kept(*old(self)),
    {
        proof {
            reveal(g_eat);
            reveal(g_args);
        }
        self.start_node(SyntaxKind::AnnotationArgs);
        self.parse_annotation_arg();
        let ghost start = *self;
        let ghost entry = *self;
        while self.eat(SyntaxKind::Comma)
            invariant_except_break
                g_arg_parts(entry.ctx(), self.st()) == g_arg_parts(entry.ctx(), entry.st()),
            invariant
                self.ctx() == entry.ctx(),
                self.kept(start),
                start.stack.len() >= 1,
                start.kinds == old(self).kinds,
                old(self).pos <= start.pos,
            ensures
                self.st() == g_arg_parts(entry.ctx(), entry.st()),
            decreases self.kinds.len() - self.pos,
        {
            self.eat_trivia();
            if self.nt_is(SyntaxKind::RParen) {
                break;
            }
            self.parse_annotation_arg();
        }
        self.finish_node();
    }

    fn parse_annotation_arg(&mut self)
        requires
            old(self).inv(),
            old(self).stack.len() >= 1,
        ensures
            final(self).st() == g_arg(old(self).ctx(), old(self).st()),
            final(self).nodes@.last().first == old(self).pos,
            final(self).wraps(*old(self), SyntaxKind::AnnotationArg),
            final(self).kept(*old(self)),
    {
        proof {
            reveal(g_arg);
        }
        self.start_node(SyntaxKind::AnnotationArg);
        self.eat_trivia();
        if self.peek_is(1, SyntaxKind::Eq) {
            self.expect_ident();
            self.bump();
            self.eat_trivia();
        }
        self.parse_annotation_value();
        self.finish_node();
    }

    fn parse_annotation_value(&mut self)
        requires
            old(self).inv(),
            old(self).stack.len() >= 1,
        ensures
            final(self).st() == g_value(old(self).ctx(), old(self).st()),
            final(self).nodes@.last().first == old(self).pos,
            final(self).wraps(*old(self), SyntaxKind::AnnotationValue),
            final(self).kept(*old(self)),
        decreases old(self).kinds.len() - old(self).pos, 2int,
    {
        self.start_node(SyntaxKind::AnnotationValue);
        self.eat_trivia();
        if self.at(SyntaxKind::LBrace) {
            self.bump();
            self.eat_trivia();
            if !self.nt_is(SyntaxKind::RBrace) {
                self.parse_annotation_value_entries();
            }
            self.expect(SyntaxKind::RBrace);
        } else {
            self.parse_literal_or_annotation_value();
        }
        self.finish_node();
    }

    fn parse_annotation_value_entries(&mut self)
        requires
            old(self).inv(),
            old(self).stack.len() >= 1,
        ensures
            final(self).st() == g_entries(old(self).ctx(), old(self).st()),
            final(self).ends_with(*old(self), SyntaxKind::AnnotationValue),
            final(self).kept(*old(self)),
        decreases old(self).kinds.len() - old(self).pos, 4int,
    {
        proof {
            reveal(g_eat);
        }
        self.parse_annotation_value_entry();
        let ghost start = *self;
        let ghost entry = *self;
        while self.eat(SyntaxKind::Comma)
            invariant_except_break
                g_entry_parts(entry.ctx(), self.st()) == g_entry_parts(entry.ctx(), entry.st()),
            invariant
                self.ctx() == entry.ctx(),
                self.kept(start),
                self.ends_with(*old(self), SyntaxKind::AnnotationValue),
                start.stack.len() >= 1,
                start.kinds == old(self).kinds,
                old(self).pos <= start.pos,
                old(self).pos <= start.pos,
            ensures
                self.st() == g_entry_parts(entry.ctx(), entry.st()),
            decreases self.kinds.len() - self.pos,
        {
            self.eat_trivia();
            if self.nt_is(SyntaxKind::RBrace) {
                break;
            }
            self.parse_annotation_value_entry();
        }
    }

    fn parse_annotation_value_entry(&mut self)
        requires
            old(self).inv(),
            old(self).stack.len() >= 1,
        ensures
            final(self).st() == g_entry(old(self).ctx(), old(self).st()),
            final(self).wraps(*old(self), SyntaxKind::AnnotationValue),
            final(self).kept(*old(self)),
        decreases old(self).kinds.len() - old(self).pos, 3int,
    {
        self.eat_trivia();
        let has_key = self.peek_is(1, SyntaxKind::Eq) || self.peek_is(1, SyntaxKind::Colon);
        if has_key {
            self.bump();
            self.eat_trivia();
            self.bump();
            self.eat_trivia();
            self.parse_annotation_value();
        } else {
            self.parse_annotation_value();
        }
    }

    fn parse_literal_or_annotation_value(&mut self)
        requires
            old(self).inv(),
            old(self).stack.len() >= 1,
        ensures
            final(self).st() == g_lit_or_value(old(self).ctx(), old(self).st()),
            old(self).pos < old(self).kinds.len() && literal_kind(old(self).kinds@[old(self).pos as int]) ==> final(self).pos == old(self).pos + 1 && final(self).nodes == old(self).nodes && final(self).errors@ == old(self).errors@,
            old(self).pos < old(self).kinds.len() && old(self).kinds@[old(self).pos as int] == SyntaxKind::Minus ==> old(self).pos < final(self).pos <= old(self).pos + 2 && final(self).nodes == old(self).nodes && final(self).errors@ == old(self).errors@,
            old(self).pos < old(self).kinds.len() && old(self).kinds@[old(self).pos as int] == SyntaxKind::LBrace ==> old(self).pos < final(self).pos,
            !(old(self).pos < old(self).kinds.len() && (literal_kind(old(self).kinds@[old(self).pos as int]) || old(self).kinds@[old(self).pos as int] == SyntaxKind::Minus || old(self).kinds@[old(self).pos as int] == SyntaxKind::LBrace)) ==> final(self).wraps(*old(self), SyntaxKind::Error) && final(self).errors@.len() == old(self).errors@.len() + 1 && final(self).errors@.last().message@ == "expected value"@,
            final(self).kept(*old(self)),
        decreases old(self).kinds.len() - old(self).pos, 1int,
    {
        if self.at(SyntaxKind::StringLiteral) || self.at(SyntaxKind::IntLiteral)
            || self.at(SyntaxKind::FloatLiteral) || self.at(SyntaxKind::KwTrue)
            || self.at(SyntaxKind::KwFalse) || self.at(SyntaxKind::KwNow)
            || self.at(SyntaxKind::Ident) {
            self.bump();
        } else if self.at(SyntaxKind::Minus) {
            self.bump();
            if self.at(SyntaxKind::IntLiteral) || self.at(SyntaxKind::FloatLiteral) {
                self.bump();
            }
        } else if self.at(SyntaxKind::LBrace) {
            self.bump();
            self.eat_trivia();
            if !self.nt_is(SyntaxKind::RBrace) {
                self.parse_annotation_value_entries();
            }
            self.expect(SyntaxKind::RBrace);
        } else {
            self.error_recover("expected value");
        }
    }

    fn parse_type_ref(&mut self)
        requires
            old(self).inv(),
            old(self).stack.len() >= 1,
        ensures
            final(self).st() == g_type_ref(old(self).ctx(), old(self).st()),
            final(self).nodes@.last().first == old(self).pos,
            final(self).wraps(*old(self), SyntaxKind::TypeRef),
            final(self).kept(*old(self)),
        decreases old(self).kinds.len() - old(self).pos, 2int,
    {
        self.start_node(SyntaxKind::TypeRef);
        self.eat_trivia();
        if self.at(SyntaxKind::Brackets) {
            self.start_node(SyntaxKind::ArrayType);
            self.bump();
            self.parse_type_ref();
            self.finish_node();
        } else if self.at(SyntaxKind::KwMap) {
            self.start_node(SyntaxKind::MapType);
            self.bump();
            self.expect(SyntaxKind::LAngle);
            self.parse_type_ref();
            self.expect(SyntaxKind::Comma);
            self.parse_type_ref();
            self.expect(SyntaxKind::RAngle);
            self.finish_node();
        } else if self.at(SyntaxKind::KwPick) {
            self.parse_pick_type();
        } else if self.at(SyntaxKind::KwOmit) {
            self.parse_omit_type();
        } else {
            self.parse_qualified_name();
            self.eat_trivia();
            if self.at(SyntaxKind::LAngle) {
                self.parse_type_args();
            }
        }
        self.eat_trivia();
        if self.at(SyntaxKind::Question) {
            self.start_node(SyntaxKind::OptionalMarker);
            self.bump();
            self.finish_node();
        }
        self.finish_node();
    }

    fn parse_type_args(&mut self)
        requires
            old(self).inv(),
            old(self).stack.len() >= 1,
            old(self).pos < old(self).kinds.len(),
            old(self).kinds@[old(self).pos as int] == SyntaxKind::LAngle,
        ensures
            final(self).st() == g_type_args(old(self).ctx(), old(self).st()),
            old(self).pos < final(self).pos,
            final(self).ends_with(*old(self), SyntaxKind::TypeRef),
            final(self).kept(*old(self)),
        decreases old(self).kinds.len() - old(self).pos, 1int,
    {
        proof {
            reveal(g_eat);
        }
        self.bump();
        self.parse_type_ref();
        let ghost start = *self;
        let ghost entry = *self;
        while self.eat(SyntaxKind::Comma)
            invariant
                g_targs_parts(entry.ctx(), self.st()) == g_targs_parts(entry.ctx(), entry.st()),
                self.ctx() == entry.ctx(),
                self.kept(start),
                self.ends_with(*old(self), SyntaxKind::TypeRef),
                start.stack.len() >= 1,
                start.kinds == old(self).kinds,
                old(self).pos <= start.pos,
                old(self).pos < start.pos,
            decreases self.kinds.len() - self.pos,
        {
            self.parse_type_ref();
        }
        self.expect(SyntaxKind::RAngle);
    }

    fn parse_qualified_name(&mut self)
        requires
            old(self).inv(),
            old(self).stack.len() >= 1,
        ensures
            final(self).st() == g_qname(old(self).ctx(), old(self).st()),
            final(self).nodes@.last().first == old(self).pos,
            final(self).wraps(*old(self), SyntaxKind::QualifiedName),
            final(self).kept(*old(self)),
    {
        proof {
            reveal(g_qname);
        }
        self.start_node(SyntaxKind::QualifiedName);
        self.eat_trivia();
        self.expect_ident();
        let ghost start = *self;
        let ghost entry = *self;
        while self.at(SyntaxKind::Dot)
            invariant
                g_dots(entry.ctx(), self.st()) == g_dots(entry.ctx(), entry.st()),
                self.ctx() == entry.ctx(),
                self.kept(start),
                start.stack.len() >= 1,
                start.kinds == old(self).kinds,
                old(self).pos <= start.pos,
            decreases self.kinds.len() - self.pos,
        {
            self.bump();
            self.expect_ident();
        }
        self.finish_node();
    }

    fn parse_pick_type(&mut self)
        requires
            old(self).inv(),
            old(self).stack.len() >= 1,
            nt_index(old(self).kinds@, old(self).pos as int) < old(self).kinds.len(),
            old(self).kinds@[nt_index(old(self).kinds@, old(self).pos as int)] == SyntaxKind::KwPick,
        ensures
            final(self).st() == g_selection(old(self).ctx(), old(self).st(), SyntaxKind::PickType),
            final(self).nodes@.last().first == old(self).pos,
            nt_index(old(self).kinds@, old(self).pos as int) < old(self).kinds.len() ==> nt_index(old(self).kinds@, old(self).pos as int) < final(self).pos,
            final(self).wraps(*old(self), SyntaxKind::PickType),
            final(self).kept(*old(self)),
        decreases old(self).kinds.len() - old(self).pos, 1int,
    {
        self.start_node(SyntaxKind::PickType);
        self.eat_trivia();
        self.bump();
        self.expect(SyntaxKind::LAngle);
        self.parse_type_ref();
        self.expect(SyntaxKind::Comma);
        self.parse_ident_list();
        self.expect(SyntaxKind::RAngle);
        self.finish_node();
    }

    fn parse_omit_type(&mut self)
        requires
            old(self).inv(),
            old(self).stack.len() >= 1,
            nt_index(old(self).kinds@, old(self).pos as int) < old(self).kinds.len(),
            old(self).kinds@[nt_index(old(self).kinds@, old(self).pos as int)] == SyntaxKind::KwOmit,
        ensures
            final(self).st() == g_selection(old(self).ctx(), old(self).st(), SyntaxKind::OmitType),
            final(self).nodes@.last().first == old(self).pos,
            nt_index(old(self).kinds@, old(self).pos as int) < old(self).kinds.len() ==> nt_index(old(self).kinds@, old(self).pos as int) < final(self).pos,
            final(self).wraps(*old(self), SyntaxKind::OmitType),
            final(self).kept(*old(self)),
        decreases old(self).kinds.len() - old(self).pos, 1int,
    {
        self.start_node(SyntaxKind::OmitType);
        self.eat_trivia();
        self.bump();
        self.expect(SyntaxKind::LAngle);
        self.parse_type_ref();
        self.expect(SyntaxKind::Comma);
        self.parse_ident_list();
        self.expect(SyntaxKind::RAngle);
        self.finish_node();
    }

    fn parse_ident_list(&mut self)
        requires
            old(self).inv(),
            old(self).stack.len() >= 1,
        ensures
            final(self).st() == g_ident_list(old(self).ctx(), old(self).st()),
            final(self).nodes@.last().first == old(self).pos,
            final(self).wraps(*old(self), SyntaxKind::IdentList),
            final(self).kept(*old(self)),
    {
        proof {
            reveal(g_eat);
            reveal(g_ident_list);
        }
        self.start_node(SyntaxKind::IdentList);
        self.eat_trivia();
        self.expect_ident();
        let ghost start = *self;
        let ghost entry = *self;
        while self.eat(SyntaxKind::Comma)
            invariant_except_break
                g_list_parts(entry.ctx(), self.st()) == g_list_parts(entry.ctx(), entry.st()),
            invariant
                self.ctx() == entry.ctx(),
                self.kept(start),
                start.stack.len() >= 1,
                start.kinds == old(self).kinds,
                old(self).pos <= start.pos,
            ensures
                self.st() == g_list_parts(entry.ctx(), entry.st()),
            decreases self.kinds.len() - self.pos,
        {
            self.eat_trivia();
            if self.nt_is(SyntaxKind::RAngle) {
                break;
            }
            self.expect_ident();
        }
        self.finish_node();
    }

    fn parse_type_params(&mut self)
        requires
            old(self).inv(),
            old(self).stack.len() >= 1,
        ensures
            final(self).st() == g_type_params(old(self).ctx(), old(self).st()),
            final(self).nodes@.last().first == old(self).pos,
            old(self).pos < old(self).kinds.len() ==> old(self).pos < final(self).pos,
            final(self).wraps(*old(self), SyntaxKind::TypeParams),
            final(self).kept(*old(self)),
    {
        proof {
            reveal(g_eat);
            reveal(g_type_params);
        }
        self.start_node(SyntaxKind::TypeParams);
        self.bump();
        self.eat_trivia();
        self.expect_ident();
        let ghost start = *self;
        let ghost entry = *self;
        while self.eat(SyntaxKind::Comma)
            invariant
                g_sep_idents(entry.ctx(), self.st(), SyntaxKind::Comma) == g_sep_idents(entry.ctx(), entry.st(), SyntaxKind::Comma),
                self.ctx() == entry.ctx(),
                self.kept(start),
                start.stack.len() >= 1,
                start.kinds == old(self).kinds,
                old(self).pos <= start.pos,
            decreases self.kinds.len() - self.pos,
        {
            self.eat_trivia();
            self.expect_ident();
        }
        self.expect(SyntaxKind::RAngle);
        self.finish_node();
    }
}

/// The spans of the lexed items that start no token, in source order.
pub open spec fn lex_error_spans(l: Seq<LexItem>) -> Seq<(int, int)>
    decreases l.len(),
{
    if l.len() == 0 {
        Seq::empty()
    } else {
        let rest = lex_error_spans(l.drop_last());
        if l.last().0 is None {
            rest.push((l.last().1, l.last().2))
        } else {
            rest
        }
    }
}

/// When token `t` holds `src[starts[t]..ends[t]]` and the ranges tile `src`
/// from byte 0, the text of the first `n` tokens is the prefix of `src` up
/// to the end of token `n - 1`.
proof fn lemma_text_prefix(
    out: Seq<TokenData>,
    src: Seq<u8>,
    starts: Seq<usize>,
    ends: Seq<usize>,
    n: int,
)
    requires
        0 <= n <= out.len(),
        out.len() == starts.len(),
        out.len() == ends.len(),
        forall|t: int|
            0 <= t < out.len() ==> starts[t] <= #[trigger] ends[t] <= src.len()
                && out[t].text@ == src.subrange(starts[t] as int, ends[t] as int),
        out.len() > 0 ==> starts[0] == 0,
        forall|t: int| 0 <= t < out.len() - 1 ==> #[trigger] ends[t] == starts[t + 1],
    ensures
        tokens_text(out.take(n)) == src.subrange(
            0,
            if n == 0 {
                0
            } else {
                ends[n - 1] as int
            },
        ),
    decreases n,
{
    if n > 0 {
        lemma_text_prefix(out, src, starts, ends, n - 1);
        assert(out.take(n).drop_last() =~= out.take(n - 1));
        let prev: int = if n - 1 == 0 {
            0
        } else {
            ends[n - 2] as int
        };
        assert(prev == starts[n - 1]);
        assert(src.subrange(0, prev) + src.subrange(prev, ends[n - 1] as int) =~= src.subrange(
            0,
            ends[n - 1] as int,
        ));
    }
}

/// Every lexed item of `s` lies within `s`.
proof fn lemma_lex_items_bounded(s: Seq<u8>, k: int)
    requires
        0 <= k < lex_spec(s).len(),
    ensures
        0 <= lex_spec(s)[k].1 < lex_spec(s)[k].2 <= s.len(),
    decreases lex_spec(s).len() - k,
{
    lemma_lex_spec_tiles(s);
    let l = lex_spec(s);
    if k < l.len() - 1 {
        lemma_lex_items_bounded(s, k + 1);
        assert(l[k].2 == l[k + 1].1);
    }
    if k == 0 {
    } else {
        lemma_lex_items_bounded_below(s, k);
    }
}

/// Every lexed item of `s` starts at or after byte 0.
proof fn lemma_lex_items_bounded_below(s: Seq<u8>, k: int)
    requires
        0 <= k < lex_spec(s).len(),
    ensures
        0 <= lex_spec(s)[k].1,
    decreases k,
{
    lemma_lex_spec_tiles(s);
    let l = lex_spec(s);
    if k > 0 {
        lemma_lex_items_bounded_below(s, k - 1);
        assert(l[k - 1].2 == l[k].1);
    }
}

/// What parsing starts from: the kind and byte span of each lexed item,
/// and an "unexpected character" error for each item that starts no token.
struct Lexed {
    kinds: Vec<SyntaxKind>,
    starts: Vec<usize>,
    ends: Vec<usize>,
    errors: Vec<ParseError>,
}

spec fn lexed_ok(x: Lexed, s: Seq<u8>) -> bool {
    let l = lex_spec(s);
    &&& x.kinds.len() == l.len()
    &&& x.starts.len() == l.len()
    &&& x.ends.len() == l.len()
    &&& forall|t: int|
        0 <= t < l.len() ==> #[trigger] x.kinds@[t] == item_kind(l[t]) && x.starts@[t] == l[t].1
            && x.ends@[t] == l[t].2
    &&& forall|t: int| 0 <= t < l.len() ==> x.starts@[t] <= #[trigger] x.ends@[t] <= s.len()
    &&& l.len() > 0 ==> x.starts@[0] == 0
    &&& forall|t: int| 0 <= t < l.len() - 1 ==> #[trigger] x.ends@[t] == x.starts@[t + 1]
    &&& l.len() > 0 ==> x.ends@[l.len() - 1] == s.len()
    &&& errors_match(x.errors@, lex_error_spans(l))
}

/// The first errors are "unexpected character" over the given spans, in order.
pub open spec fn errors_match(errors: Seq<ParseError>, spans: Seq<(int, int)>) -> bool {
    &&& errors.len() >= spans.len()
    &&& forall|i: int|
        0 <= i < spans.len() ==> {
            &&& (#[trigger] errors[i]).range.start == spans[i].0
            &&& errors[i].range.end == spans[i].1
            &&& errors[i].message@ == "unexpected character"@
        }
}

fn lex_for_parse(source: &str) -> (x: Lexed)
    ensures
        lexed_ok(x, source.spec_bytes()),
        x.errors@.len() == lex_error_spans(lex_spec(source.spec_bytes())).len(),
{
    let raw = lexer::lex(source);
    let ghost l = lex_spec(source.spec_bytes());
    proof {
        lemma_lex_spec_tiles(source.spec_bytes());
        assert(raw@.len() == l.len());
    }
    let mut kinds: Vec<SyntaxKind> = Vec::new();
    let mut starts: Vec<usize> = Vec::new();
    let mut ends: Vec<usize> = Vec::new();
    let mut errors: Vec<ParseError> = Vec::new();
    let mut i: usize = 0;
    while i < raw.len()
        invariant
            i <= raw.len(),
            raw@.len() == l.len(),
            l == lex_spec(source.spec_bytes()),
            raw@.map_values(|r: Result<LexedToken, Span>| item_of(r)) == l,
            kinds.len() == i,
            starts.len() == i,
            ends.len() == i,
            forall|t: int|
                0 <= t < i ==> #[trigger] kinds@[t] == item_kind(l[t]) && starts@[t] == l[t].1
                    && ends@[t] == l[t].2,
            errors@.len() == lex_error_spans(l.take(i as int)).len(),
            errors_match(errors@, lex_error_spans(l.take(i as int))),
        decreases raw.len() - i,
    {
        proof {
            assert(raw@.map_values(|r: Result<LexedToken, Span>| item_of(r))[i as int] == l[i as int]);
            lemma_error_spans_step(l, i as int);
        }
        match &raw[i] {
            Ok(t) => {
                kinds.push(SyntaxKind::from(t.kind));
                starts.push(t.span.start);
                ends.push(t.span.end);
            },
            Err(sp) => {
                errors.push(
                    ParseError { message: "unexpected character".to_owned(), range: sp.start..sp.end },
                );
                kinds.push(SyntaxKind::LexError);
                starts.push(sp.start);
                ends.push(sp.end);
            },
        }
        i += 1;
    }
    proof {
        assert(l.take(l.len() as int) =~= l);
    }
    let x = Lexed { kinds, starts, ends, errors };
    proof {
        lemma_lexed_spans(x, source.spec_bytes());
    }
    x
}

proof fn lemma_error_spans_step(l: Seq<LexItem>, i: int)
    requires
        0 <= i < l.len(),
    ensures
        lex_error_spans(l.take(i + 1)) == if l[i].0 is None {
            lex_error_spans(l.take(i)).push((l[i].1, l[i].2))
        } else {
            lex_error_spans(l.take(i))
        },
{
    assert(l.take(i + 1).drop_last() =~= l.take(i));
    assert(l.take(i + 1).last() == l[i]);
}

/// The spans that the lexer gives tile the source.
proof fn lemma_lexed_spans(x: Lexed, s: Seq<u8>)
    requires
        x.starts.len() == lex_spec(s).len(),
        x.ends.len() == lex_spec(s).len(),
        forall|t: int|
            0 <= t < lex_spec(s).len() ==> #[trigger] x.kinds@[t] == item_kind(lex_spec(s)[t])
                && x.starts@[t] == lex_spec(s)[t].1 && x.ends@[t] == lex_spec(s)[t].2,
    ensures
        forall|t: int| 0 <= t < lex_spec(s).len() ==> x.starts@[t] <= #[trigger] x.ends@[t] <= s.len(),
        lex_spec(s).len() > 0 ==> x.starts@[0] == 0,
        forall|t: int| 0 <= t < lex_spec(s).len() - 1 ==> #[trigger] x.ends@[t] == x.starts@[t + 1],
        lex_spec(s).len() > 0 ==> x.ends@[lex_spec(s).len() - 1] == s.len(),
{
    let l = lex_spec(s);
    lemma_lex_spec_tiles(s);
    assert forall|t: int| 0 <= t < l.len() implies x.starts@[t] <= #[trigger] x.ends@[t] <= s.len() by {
        assert(x.kinds@[t] == item_kind(l[t]));
        lemma_lex_items_bounded(s, t);
    }
    assert forall|t: int| 0 <= t < l.len() - 1 implies #[trigger] x.ends@[t] == x.starts@[t + 1] by {
        assert(x.kinds@[t] == item_kind(l[t]));
        assert(x.kinds@[t + 1] == item_kind(l[t + 1]));
    }
    if l.len() > 0 {
        assert(x.kinds@[0] == item_kind(l[0]));
        assert(x.kinds@[l.len() - 1] == item_kind(l[l.len() - 1]));
    }
}

/// Tokens that hold consecutive ranges of the source, from byte 0, tile it.
proof fn lemma_out_tiles(out: Seq<TokenData>, src: Seq<u8>, starts: Seq<usize>, ends: Seq<usize>)
    requires
        out.len() == starts.len(),
        out.len() == ends.len(),
        forall|t: int|
            0 <= t < out.len() ==> starts[t] <= #[trigger] ends[t] <= src.len()
                && out[t].text@ == src.subrange(starts[t] as int, ends[t] as int) && out[t].offset
                == starts[t],
        out.len() > 0 ==> starts[0] == 0,
        forall|t: int| 0 <= t < out.len() - 1 ==> #[trigger] ends[t] == starts[t + 1],
        src.len() <= usize::MAX,
    ensures
        tokens_tile(out),
{
    assert forall|k: int, j: int| 0 <= k && j == k + 1 && j < out.len() implies out[j].offset
        == out[k].offset + out[k].text@.len() by {
        assert(ends[k] == starts[k + 1]);
        assert(starts[k + 1] <= ends[k + 1]);
    }
    if out.len() > 0 {
        let last = out.len() - 1;
        assert(starts[0] <= ends[0]);
        assert(starts[last] <= ends[last] <= src.len());
        assert(out[last].text@.len() == ends[last] - starts[last]);
        assert(out.last() == out[last]);
    }
}

/// Parse an Ogham source file into a lossless syntax tree.
///
/// The tree's tokens are the lexed items of the source, in order, each with
/// its kind (`LexError` for bytes that start no token), and together they
/// spell the source exactly. Each such byte run is reported first among the
/// errors, as "unexpected character" with its span. The tree's nodes, and
/// the syntax errors after the lexer's, are those that the grammar
/// (`crate::grammar`) gives for the source's tokens.
#[verifier::rlimit(40)]
pub fn parse(source: &str) -> (p: Parse)
    ensures
        p.green.text() == source.spec_bytes(),
        text_of(p.green.text()) == source@,
        p.green.token_kinds() == lex_spec(source.spec_bytes()).map_values(
            |it: LexItem| item_kind(it),
        ),
        p.green.root_kind() == SyntaxKind::Root,
        errors_match(p.errors@, lex_error_spans(lex_spec(source.spec_bytes()))),
        p.green.nodes_view().map_values(|n: NodeData| node_v(n)) == tree_nodes(source.spec_bytes()),
        p.errors@.map_values(|e: ParseError| err_v(e)) == parse_errors(source.spec_bytes()),
{
    let x = lex_for_parse(source);
    let src = source.as_bytes();
    let ghost l = lex_spec(source.spec_bytes());
    let mut p = Parser {
        src,
        kinds: x.kinds,
        starts: x.starts,
        ends: x.ends,
        pos: 0,
        out: Vec::new(),
        nodes: Vec::new(),
        stack: Vec::new(),
        errors: x.errors,
    };
    proof {
        let bytes = source.spec_bytes();
        assert(p.ctx() =~= lex_ctx(bytes)) by {
            assert(p.kinds@ =~= lex_ctx(bytes).0);
            assert forall|t: int| 0 <= t < p.kinds@.len() implies p.starts@[t] as int == (#[trigger] lex_spec(
                bytes,
            )[t]).1 && p.ends@[t] as int == lex_spec(bytes)[t].2 by {
                assert(p.kinds@[t] == item_kind(lex_spec(bytes)[t]));
            }
            assert(p.starts@.map_values(|u: usize| u as int) =~= lex_ctx(bytes).1);
            assert(p.ends@.map_values(|u: usize| u as int) =~= lex_ctx(bytes).2);
        }
        assert(p.errors@.map_values(|e: ParseError| err_v(e)) =~= lex_errors(bytes));
        assert(p.nodes@.map_values(|n: NodeData| node_v(n)) =~= Seq::<NodeV>::empty());
        assert(p.stack@.map_values(|f: Frame| frame_v(f)) =~= Seq::<FrameV>::empty());
    }
    p.open_node(SyntaxKind::Root);
    proof {
        assert(p.st() =~= start_state(source.spec_bytes()));
    }
    p.parse_root();
    let ghost fin = p.st();
    let root = p.stack.pop().unwrap();
    let n_tokens = p.out.len();
    let ghost old_nodes = p.nodes@;
    assert(frame_ok(root, old_nodes.len() as int, n_tokens as int));
    p.nodes.push(NodeData { kind: root.kind, children: root.children, first: root.first, end: n_tokens });
    proof {
        assert(p.out@.len() == l.len());
        assert(nodes_ok(p.nodes@, p.out@.len() as int)) by {
            assert forall|n: int| 0 <= n < p.nodes@.len() implies {
                &&& children_ok((#[trigger] p.nodes@[n]).children@, n, p.out@.len() as int)
                &&& p.nodes@[n].first <= p.nodes@[n].end <= p.out@.len()
            } by {
                if n < p.nodes@.len() - 1 {
                    assert(p.nodes@[n] == old_nodes[n]);
                }
            }
        }
        assert(tokens_text(p.out@) == p.src@) by {
            lemma_text_prefix(p.out@, p.src@, p.starts@, p.ends@, p.out@.len() as int);
            assert(p.out@.take(p.out@.len() as int) =~= p.out@);
            assert(p.src@.subrange(0, p.src@.len() as int) =~= p.src@);
        }
        assert(p.out@.map_values(|t: TokenData| t.kind) =~= l.map_values(|it: LexItem| item_kind(it)));
        assert(text_of(source.spec_bytes()) == source@) by {
            encode_utf8_valid_utf8(source@);
            encode_utf8_decode_utf8(source@);
        }
        assert(tokens_tile(p.out@)) by {
            lemma_out_tiles(p.out@, p.src@, p.starts@, p.ends@);
        }
    }
    proof {
        assert(p.nodes@.map_values(|n: NodeData| node_v(n)) =~= tree_nodes(source.spec_bytes()));
    }
    let green = SyntaxTree::from_parts(p.out, p.nodes);
    Parse { green: Rc::new(green), errors: p.errors }
}

} // verus!
