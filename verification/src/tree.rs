//! The lossless syntax tree that the parser builds.
//!
//! Tokens are stored in source order; nodes are stored in the order in which
//! they are finished, so a node's child nodes always come before it. A node
//! refers to its children by index.

use vstd::prelude::*;
use vstd::utf8::{decode_utf8, encode_utf8, valid_utf8};
use vstd::string::StringSliceAdditionalSpecFns;
use std::rc::Rc;
use crate::syntax_kind::SyntaxKind;

verus! {

broadcast use vstd::utf8::encode_utf8_decode_utf8;

/// A child of a node: another node, or a token, by index.
#[derive(Debug, Clone, Copy, PartialEq, Eq, Structural)]
pub enum Child {
    Node(usize),
    Token(usize),
}

/// A token of the tree: its kind, its bytes and its byte offset in the source.
#[derive(Debug)]
pub struct TokenData {
    pub kind: SyntaxKind,
    pub text: Vec<u8>,
    pub offset: usize,
}

/// A node of the tree: its kind, its children, and the range of tokens it spans.
#[derive(Debug)]
pub struct NodeData {
    pub kind: SyntaxKind,
    pub children: Vec<Child>,
    pub first: usize,
    pub end: usize,
}

/// The concatenated bytes of a sequence of tokens.
pub open spec fn tokens_text(toks: Seq<TokenData>) -> Seq<u8>
    decreases toks.len(),
{
    if toks.len() == 0 {
        Seq::empty()
    } else {
        tokens_text(toks.drop_last()) + toks.last().text@
    }
}

/// Every child of node `n` refers to an earlier node or to an existing token.
pub open spec fn children_ok(children: Seq<Child>, n: int, n_tokens: int) -> bool {
    forall|c: int|
        0 <= c < children.len() ==> match #[trigger] children[c] {
            Child::Node(j) => j < n,
            Child::Token(t) => t < n_tokens,
        }
}

pub open spec fn nodes_ok(nodes: Seq<NodeData>, n_tokens: int) -> bool {
    forall|n: int|
        0 <= n < nodes.len() ==> {
            &&& children_ok((#[trigger] nodes[n]).children@, n, n_tokens)
            &&& nodes[n].first <= nodes[n].end <= n_tokens
        }
}

/// Each token starts where the one before it ends, the first at byte 0, and
/// the last ends within `usize`.
pub open spec fn tokens_tile(toks: Seq<TokenData>) -> bool {
    &&& toks.len() > 0 ==> toks[0].offset == 0
    &&& forall|k: int, j: int|
        #![trigger toks[k], toks[j]]
        0 <= k && j == k + 1 && j < toks.len() ==> toks[j].offset == toks[k].offset
            + toks[k].text@.len()
    &&& toks.len() > 0 ==> toks.last().offset + toks.last().text@.len() <= usize::MAX
}

/// A syntax tree: tokens in source order, nodes in the order they were finished.
#[derive(Debug)]
pub struct SyntaxTree {
    tokens: Vec<TokenData>,
    nodes: Vec<NodeData>,
}

impl SyntaxTree {
    pub closed spec fn tokens_view(&self) -> Seq<TokenData> {
        self.tokens@
    }

    pub closed spec fn nodes_view(&self) -> Seq<NodeData> {
        self.nodes@
    }

    /// The root is the last node, spans every token, and every node refers
    /// only to earlier nodes and to existing tokens.
    pub open spec fn wf(&self) -> bool {
        &&& self.nodes_view().len() > 0
        &&& nodes_ok(self.nodes_view(), self.tokens_view().len() as int)
        &&& self.nodes_view().last().first == 0
        &&& self.nodes_view().last().end == self.tokens_view().len()
        &&& tokens_tile(self.tokens_view())
    }

    #[verifier::type_invariant]
    closed spec fn inv(self) -> bool {
        self.wf()
    }

    /// Index of the root node.
    pub open spec fn root_id(&self) -> int {
        self.nodes_view().len() - 1
    }

    /// The text of the whole tree.
    pub open spec fn text(&self) -> Seq<u8> {
        tokens_text(self.tokens_view())
    }

    /// The kinds of the tokens, in source order.
    pub open spec fn token_kinds(&self) -> Seq<SyntaxKind> {
        self.tokens_view().map_values(|t: TokenData| t.kind)
    }

    /// The kind of the root node.
    pub open spec fn root_kind(&self) -> SyntaxKind {
        self.nodes_view().last().kind
    }

    /// Assemble a tree from its tokens and its nodes; the last node is the root.
    pub fn from_parts(tokens: Vec<TokenData>, nodes: Vec<NodeData>) -> (t: SyntaxTree)
        requires
            nodes.len() > 0,
            nodes_ok(nodes@, tokens.len() as int),
            nodes@.last().first == 0,
            nodes@.last().end == tokens.len(),
            tokens_tile(tokens@),
        ensures
            t.tokens_view() == tokens@,
            t.nodes_view() == nodes@,
    {
        SyntaxTree { tokens, nodes }
    }
}

/// `String::from_utf8`: the string that the bytes encode, or `None` where
/// they are not valid UTF-8.
#[verifier::external_body]
fn string_from_utf8(bytes: Vec<u8>) -> (r: Option<String>)
    ensures
        r is Some <==> valid_utf8(bytes@),
        r matches Some(s) ==> s@ == decode_utf8(bytes@),
{
    match String::from_utf8(bytes) {
        Ok(s) => Some(s),
        Err(_) => None,
    }
}

/// The text of some bytes: what they encode where they are valid UTF-8,
/// and the empty string where they are not.
pub open spec fn text_of(bytes: Seq<u8>) -> Seq<char> {
    if valid_utf8(bytes) {
        decode_utf8(bytes)
    } else {
        Seq::empty()
    }
}

/// Decode bytes of the tree as text.
pub fn bytes_to_string(bytes: Vec<u8>) -> (r: String)
    ensures
        r@ == text_of(bytes@),
{
    match string_from_utf8(bytes) {
        Some(s) => s,
        None => String::new(),
    }
}

/// Whether two strings are the same text.
pub fn same_text(a: &str, b: &str) -> (r: bool)
    ensures
        r == (a@ == b@),
{
    let x = a.as_bytes();
    let y = b.as_bytes();
    proof {
        assert(decode_utf8(encode_utf8(a@)) == a@);
        assert(decode_utf8(encode_utf8(b@)) == b@);
    }
    if x.len() != y.len() {
        return false;
    }
    let mut i: usize = 0;
    while i < x.len()
        invariant
            i <= x.len(),
            x.len() == y.len(),
            x@ == a.spec_bytes(),
            y@ == b.spec_bytes(),
            forall|j: int| 0 <= j < i ==> x@[j] == y@[j],
        decreases x.len() - i,
    {
        if x[i] != y[i] {
            return false;
        }
        i += 1;
    }
    assert(x@ =~= y@);
    true
}

/// Which tokens a search selects, by kind.
#[derive(Debug, Clone, Copy, PartialEq, Eq, Structural)]
pub enum TokenSelect {
    /// Tokens of one kind.
    Kind(SyntaxKind),
    /// Identifiers, and keywords that do not introduce a declaration.
    IdentLike,
    /// Identifiers and any keyword.
    IdentOrKeyword,
    /// Identifiers and any keyword but `as`.
    AliasName,
    /// Every token that is not trivia.
    NonTrivia,
    /// Identifiers and `*`.
    IdentOrStar,
    /// The words that may name an annotation target.
    Target,
    /// The keywords of the built-in annotations.
    Builtin,
}

impl TokenSelect {
    pub open spec fn spec_selects(self, k: SyntaxKind) -> bool {
        match self {
            TokenSelect::Kind(kind) => k == kind,
            TokenSelect::IdentLike => k == SyntaxKind::Ident || (k.spec_is_keyword()
                && !k.spec_is_structural_keyword()),
            TokenSelect::IdentOrKeyword => k == SyntaxKind::Ident || k.spec_is_keyword(),
            TokenSelect::AliasName => k != SyntaxKind::KwAs && (k == SyntaxKind::Ident
                || k.spec_is_keyword()),
            TokenSelect::NonTrivia => !k.spec_is_trivia(),
            TokenSelect::IdentOrStar => k == SyntaxKind::Ident || k == SyntaxKind::Star,
            TokenSelect::Target => k == SyntaxKind::Ident || k == SyntaxKind::KwType || k
                == SyntaxKind::KwShape || k == SyntaxKind::KwEnum || k == SyntaxKind::KwService
                || k == SyntaxKind::KwRpc || k == SyntaxKind::KwOneof,
            TokenSelect::Builtin => k == SyntaxKind::KwDefault || k == SyntaxKind::KwCast || k
                == SyntaxKind::KwRemoved || k == SyntaxKind::KwReserved,
        }
    }

    /// Whether a token of kind `k` is selected.
    #[verifier::when_used_as_spec(spec_selects)]
    pub fn selects(self, k: SyntaxKind) -> (r: bool)
        ensures
            r == self.spec_selects(k),
    {
        match self {
            TokenSelect::Kind(kind) => k == kind,
            TokenSelect::IdentLike => k == SyntaxKind::Ident || (k.is_keyword()
                && !k.is_structural_keyword()),
            TokenSelect::IdentOrKeyword => k == SyntaxKind::Ident || k.is_keyword(),
            TokenSelect::AliasName => k != SyntaxKind::KwAs && (k == SyntaxKind::Ident
                || k.is_keyword()),
            TokenSelect::NonTrivia => !k.is_trivia(),
            TokenSelect::IdentOrStar => k == SyntaxKind::Ident || k == SyntaxKind::Star,
            TokenSelect::Target => k == SyntaxKind::Ident || k == SyntaxKind::KwType || k
                == SyntaxKind::KwShape || k == SyntaxKind::KwEnum || k == SyntaxKind::KwService
                || k == SyntaxKind::KwRpc || k == SyntaxKind::KwOneof,
            TokenSelect::Builtin => k == SyntaxKind::KwDefault || k == SyntaxKind::KwCast || k
                == SyntaxKind::KwRemoved || k == SyntaxKind::KwReserved,
        }
    }
}

/// Whether a child is a token that `sel` selects.
pub open spec fn child_selected(t: SyntaxTree, c: Child, sel: TokenSelect) -> bool {
    match c {
        Child::Token(i) => sel.spec_selects(t.tokens_view()[i as int].kind),
        Child::Node(_) => false,
    }
}

/// The positions, among the children `cs`, of the tokens that `sel` selects.
pub open spec fn token_slots(t: SyntaxTree, cs: Seq<Child>, sel: TokenSelect) -> Seq<int>
    decreases cs.len(),
{
    if cs.len() == 0 {
        Seq::empty()
    } else {
        let rest = token_slots(t, cs.drop_last(), sel);
        if child_selected(t, cs.last(), sel) {
            rest.push(cs.len() - 1)
        } else {
            rest
        }
    }
}

/// Each position that `token_slots` gives is that of a selected token,
/// and the positions increase.
pub proof fn lemma_token_slots(t: SyntaxTree, cs: Seq<Child>, sel: TokenSelect)
    ensures
        forall|i: int|
            0 <= i < token_slots(t, cs, sel).len() ==> 0 <= #[trigger] token_slots(t, cs, sel)[i]
                < cs.len() && child_selected(t, cs[token_slots(t, cs, sel)[i]], sel),
        forall|i: int, j: int|
            0 <= i < j < token_slots(t, cs, sel).len() ==> token_slots(t, cs, sel)[i]
                < token_slots(t, cs, sel)[j],
    decreases cs.len(),
{
    if cs.len() > 0 {
        lemma_token_slots(t, cs.drop_last(), sel);
        assert forall|i: int|
            0 <= i < token_slots(t, cs.drop_last(), sel).len() implies cs.drop_last()[token_slots(t, cs.drop_last(), sel)[i]]
                == cs[token_slots(t, cs.drop_last(), sel)[i]] by {}
    }
}

/// Whether a child is a node of kind `k`.
pub open spec fn child_is_node_of(t: SyntaxTree, c: Child, k: SyntaxKind) -> bool {
    match c {
        Child::Node(j) => t.nodes_view()[j as int].kind == k,
        Child::Token(_) => false,
    }
}

/// The positions, among the children `cs`, of the nodes of kind `k`.
pub open spec fn node_slots(t: SyntaxTree, cs: Seq<Child>, k: SyntaxKind) -> Seq<int>
    decreases cs.len(),
{
    if cs.len() == 0 {
        Seq::empty()
    } else {
        let rest = node_slots(t, cs.drop_last(), k);
        if child_is_node_of(t, cs.last(), k) {
            rest.push(cs.len() - 1)
        } else {
            rest
        }
    }
}

/// Each position that `node_slots` gives is that of a node of kind `k`.
pub proof fn lemma_node_slots(t: SyntaxTree, cs: Seq<Child>, k: SyntaxKind)
    ensures
        forall|i: int|
            0 <= i < node_slots(t, cs, k).len() ==> 0 <= #[trigger] node_slots(t, cs, k)[i] < cs.len()
                && child_is_node_of(t, cs[node_slots(t, cs, k)[i]], k),
    decreases cs.len(),
{
    if cs.len() > 0 {
        lemma_node_slots(t, cs.drop_last(), k);
        assert forall|i: int|
            0 <= i < node_slots(t, cs.drop_last(), k).len() implies cs.drop_last()[node_slots(t, cs.drop_last(), k)[i]]
                == cs[node_slots(t, cs.drop_last(), k)[i]] by {}
    }
}

/// `n` is a node of a well-formed tree.
pub open spec fn node_ok(n: SyntaxNode) -> bool {
    &&& n.tree().wf()
    &&& 0 <= n.id() < n.tree().nodes_view().len()
}

/// The first element of a sequence, if any.
pub open spec fn first_of(s: Seq<int>) -> Option<int> {
    if s.len() > 0 {
        Some(s[0])
    } else {
        None
    }
}

/// A node of a syntax tree, with the place among its parent's children
/// where it was reached, if it was reached from a parent.
#[derive(Debug)]
pub struct SyntaxNode {
    tree: Rc<SyntaxTree>,
    id: usize,
    parent: Option<(usize, usize)>,
}

/// A token of a syntax tree.
#[derive(Debug)]
pub struct SyntaxToken {
    tree: Rc<SyntaxTree>,
    idx: usize,
}

/// `n` is a node of `t`; where `parent` is `(p, k)`, `n` is the `k`-th child of node `p`.
pub open spec fn node_place_ok(t: SyntaxTree, n: int, parent: Option<(int, int)>) -> bool {
    &&& t.wf()
    &&& 0 <= n < t.nodes_view().len()
    &&& parent matches Some((p, k)) ==> {
        &&& 0 <= p < t.nodes_view().len()
        &&& 0 <= k < t.nodes_view()[p].children@.len()
        &&& t.nodes_view()[p].children@[k] == Child::Node(n as usize)
    }
}

impl SyntaxNode {
    pub closed spec fn tree(&self) -> SyntaxTree {
        *self.tree
    }

    pub closed spec fn id(&self) -> usize {
        self.id
    }

    pub closed spec fn parent_slot(&self) -> Option<(int, int)> {
        match self.parent {
            Some((p, k)) => Some((p as int, k as int)),
            None => None,
        }
    }

    #[verifier::type_invariant]
    closed spec fn inv(self) -> bool {
        node_place_ok(*self.tree, self.id as int, self.parent_slot())
    }

    pub open spec fn spec_kind(&self) -> SyntaxKind {
        self.tree().nodes_view()[self.id() as int].kind
    }

    /// The children of this node, nodes and tokens, in order.
    pub open spec fn elements(&self) -> Seq<Child> {
        self.tree().nodes_view()[self.id() as int].children@
    }

    /// Whether `c` is this node's child at position `slot`.
    pub open spec fn has_child_at(&self, c: SyntaxNode, slot: int) -> bool {
        &&& c.tree() == self.tree()
        &&& 0 <= slot < self.elements().len()
        &&& self.elements()[slot] == Child::Node(c.id())
        &&& c.parent_slot() == Some((self.id() as int, slot))
    }

    /// Whether `t` is the token of this node's child at position `slot`.
    pub open spec fn has_token_at(&self, t: SyntaxToken, slot: int) -> bool {
        &&& t.tree() == self.tree()
        &&& 0 <= slot < self.elements().len()
        &&& self.elements()[slot] == Child::Token(t.index())
    }

    /// The child node of this node at position `slot`.
    pub open spec fn child_node_at(&self, slot: int) -> SyntaxNode {
        choose|c: SyntaxNode| self.has_child_at(c, slot)
    }

    /// A node has at most one child node at each position.
    pub proof fn lemma_child_node_at(&self, c: SyntaxNode, slot: int)
        requires
            self.has_child_at(c, slot),
        ensures
            self.child_node_at(slot) == c,
    {
        let d = self.child_node_at(slot);
        assert(self.has_child_at(d, slot));
        assert(d.tree == c.tree);
        assert(d.parent == c.parent);
    }

    /// The child node at a position that holds a node exists, and it comes
    /// earlier in the tree than this node.
    pub proof fn lemma_child_node_below(&self, slot: int)
        requires
            node_ok(*self),
            0 <= slot < self.elements().len(),
            self.elements()[slot] is Node,
        ensures
            self.has_child_at(self.child_node_at(slot), slot),
            self.child_node_at(slot).id() < self.id(),
            node_ok(self.child_node_at(slot)),
    {
        let j = self.elements()[slot]->Node_0;
        assert(self.tree().nodes_view()[self.id() as int].children.len() == self.elements().len());
        let w = SyntaxNode { tree: self.tree, id: j, parent: Some((self.id, slot as usize)) };
        assert(self.has_child_at(w, slot));
        self.lemma_child_node_at(w, slot);
        assert(children_ok(self.tree().nodes_view()[self.id() as int].children@, self.id() as int, self.tree().tokens_view().len() as int));
        assert(self.elements()[slot] == Child::Node(j));
    }

    /// Whether `c` is the child at position `slot` of the parent this node
    /// was reached from.
    pub open spec fn has_sibling_at(&self, c: SyntaxNode, slot: int) -> bool {
        &&& c.tree() == self.tree()
        &&& 0 <= slot < self.parent_elements().len()
        &&& self.parent_elements()[slot] == Child::Node(c.id())
        &&& c.parent_slot() == Some((self.parent_id(), slot))
    }

    /// The node at position `slot` among the children of this node's parent.
    pub open spec fn sibling_node_at(&self, slot: int) -> SyntaxNode {
        choose|c: SyntaxNode| self.has_sibling_at(c, slot)
    }

    /// A parent has at most one child node at each position.
    pub proof fn lemma_sibling_node_at(&self, c: SyntaxNode, slot: int)
        requires
            self.has_sibling_at(c, slot),
        ensures
            self.sibling_node_at(slot) == c,
    {
        let d = self.sibling_node_at(slot);
        assert(self.has_sibling_at(d, slot));
        assert(d.tree == c.tree);
        assert(d.parent == c.parent);
    }

    /// This node is a node of a well-formed tree.
    pub fn check_ok(&self)
        ensures
            node_ok(*self),
    {
        proof {
            use_type_invariant(self);
            use_type_invariant(&*self.tree);
        }
    }

    /// The root of a tree.
    pub fn new_root(tree: Rc<SyntaxTree>) -> (n: SyntaxNode)
        ensures
            n.tree() == *tree,
            n.id() == tree.root_id(),
            n.parent_slot() is None,
            n.node_bytes() == tree.text(),
    {
        proof {
            use_type_invariant(&*tree);
            assert(tree.tokens_view().subrange(0, tree.tokens_view().len() as int) =~= tree.tokens_view());
        }
        let id = tree.nodes.len() - 1;
        SyntaxNode { tree, id, parent: None }
    }

    /// The kind of this node.
    #[verifier::when_used_as_spec(spec_kind)]
    pub fn kind(&self) -> (k: SyntaxKind)
        ensures
            k == self.spec_kind(),
    {
        proof {
            use_type_invariant(self);
        }
        self.tree.nodes[self.id].kind
    }

    /// The number of children, nodes and tokens.
    pub fn num_elements(&self) -> (n: usize)
        ensures
            n == self.elements().len(),
    {
        proof {
            use_type_invariant(self);
        }
        self.tree.nodes[self.id].children.len()
    }

    /// The child at position `slot`.
    pub fn element(&self, slot: usize) -> (c: Child)
        requires
            slot < self.elements().len(),
        ensures
            c == self.elements()[slot as int],
    {
        proof {
            use_type_invariant(self);
        }
        self.tree.nodes[self.id].children[slot]
    }

    /// The child node at position `slot`.
    pub fn child_node(&self, slot: usize) -> (c: SyntaxNode)
        requires
            slot < self.elements().len(),
            self.elements()[slot as int] is Node,
        ensures
            self.has_child_at(c, slot as int),
    {
        proof {
            use_type_invariant(self);
        }
        let j = match self.tree.nodes[self.id].children[slot] {
            Child::Node(j) => j,
            Child::Token(_) => 0,
        };
        proof {
            assert(children_ok(self.tree.nodes@[self.id as int].children@, self.id as int, self.tree.tokens@.len() as int));
        }
        SyntaxNode { tree: self.tree.clone(), id: j, parent: Some((self.id, slot)) }
    }

    /// The token child at position `slot`.
    pub fn child_token(&self, slot: usize) -> (t: SyntaxToken)
        requires
            slot < self.elements().len(),
            self.elements()[slot as int] is Token,
        ensures
            self.has_token_at(t, slot as int),
    {
        proof {
            use_type_invariant(self);
        }
        let i = match self.tree.nodes[self.id].children[slot] {
            Child::Token(i) => i,
            Child::Node(_) => 0,
        };
        proof {
            assert(children_ok(self.tree.nodes@[self.id as int].children@, self.id as int, self.tree.tokens@.len() as int));
        }
        SyntaxToken { tree: self.tree.clone(), idx: i }
    }

    /// Whether the child at position `slot` is a token that `sel` selects.
    pub fn selects_at(&self, slot: usize, sel: TokenSelect) -> (r: bool)
        requires
            slot < self.elements().len(),
        ensures
            r == child_selected(self.tree(), self.elements()[slot as int], sel),
    {
        proof {
            use_type_invariant(self);
        }
        match self.tree.nodes[self.id].children[slot] {
            Child::Token(i) => {
                proof {
                    assert(children_ok(self.tree.nodes@[self.id as int].children@, self.id as int, self.tree.tokens@.len() as int));
                }
                sel.selects(self.tree.tokens[i].kind)
            },
            Child::Node(_) => false,
        }
    }

    /// The tokens among the children that `sel` selects, in order.
    pub fn tokens_selected(&self, sel: TokenSelect) -> (r: Vec<SyntaxToken>)
        ensures
            r.len() == token_slots(self.tree(), self.elements(), sel).len(),
            forall|i: int|
                0 <= i < r.len() ==> self.has_token_at(
                    #[trigger] r@[i],
                    token_slots(self.tree(), self.elements(), sel)[i],
                ),
    {
        let n = self.num_elements();
        let mut r: Vec<SyntaxToken> = Vec::new();
        let mut k: usize = 0;
        while k < n
            invariant
                k <= n,
                n == self.elements().len(),
                r.len() == token_slots(self.tree(), self.elements().take(k as int), sel).len(),
                forall|i: int|
                    0 <= i < r.len() ==> self.has_token_at(
                        #[trigger] r@[i],
                        token_slots(self.tree(), self.elements().take(k as int), sel)[i],
                    ),
            decreases n - k,
        {
            proof {
                assert(self.elements().take(k + 1).drop_last() =~= self.elements().take(k as int));
            }
            if self.selects_at(k, sel) {
                let t = self.child_token(k);
                r.push(t);
            }
            k += 1;
        }
        proof {
            assert(self.elements().take(n as int) =~= self.elements());
        }
        r
    }

    /// The first token among the children that `sel` selects.
    pub fn first_token_selected(&self, sel: TokenSelect) -> (r: Option<SyntaxToken>)
        ensures
            r is Some <==> first_of(token_slots(self.tree(), self.elements(), sel)) is Some,
            r matches Some(t) ==> self.has_token_at(t, first_of(token_slots(self.tree(), self.elements(), sel))->0),
    {
        let mut v = self.tokens_selected(sel);
        if v.len() > 0 {
            Some(v.swap_remove(0))
        } else {
            None
        }
    }
}

impl SyntaxNode {
    /// The positions of the tokens among the children that `sel` selects.
    pub fn token_slot_list(&self, sel: TokenSelect) -> (r: Vec<usize>)
        ensures
            r.len() == token_slots(self.tree(), self.elements(), sel).len(),
            forall|i: int|
                0 <= i < r.len() ==> #[trigger] r@[i] == token_slots(self.tree(), self.elements(), sel)[i],
    {
        let n = self.num_elements();
        let mut r: Vec<usize> = Vec::new();
        let mut k: usize = 0;
        while k < n
            invariant
                k <= n,
                n == self.elements().len(),
                r.len() == token_slots(self.tree(), self.elements().take(k as int), sel).len(),
                forall|i: int|
                    0 <= i < r.len() ==> #[trigger] r@[i] == token_slots(
                        self.tree(),
                        self.elements().take(k as int),
                        sel,
                    )[i],
            decreases n - k,
        {
            proof {
                assert(self.elements().take(k + 1).drop_last() =~= self.elements().take(k as int));
            }
            if self.selects_at(k, sel) {
                r.push(k);
            }
            k += 1;
        }
        proof {
            assert(self.elements().take(n as int) =~= self.elements());
        }
        r
    }

    /// The parent this node was reached from (-1 if none).
    pub open spec fn parent_id(&self) -> int {
        match self.parent_slot() {
            Some((p, _)) => p,
            None => -1,
        }
    }

    /// This node's position among its parent's children (-1 if none).
    pub open spec fn slot_in_parent(&self) -> int {
        match self.parent_slot() {
            Some((_, k)) => k,
            None => -1,
        }
    }

    /// The children of the parent this node was reached from.
    pub open spec fn parent_elements(&self) -> Seq<Child> {
        match self.parent_slot() {
            Some((p, _)) => self.tree().nodes_view()[p].children@,
            None => Seq::empty(),
        }
    }

    /// This node's position among its parent's children, if it was reached from a parent.
    pub fn position(&self) -> (r: Option<usize>)
        ensures
            r is Some <==> self.parent_slot() is Some,
            r matches Some(k) ==> self.slot_in_parent() == k,
            r matches Some(k) ==> k < self.parent_elements().len(),
    {
        proof {
            use_type_invariant(self);
        }
        match self.parent {
            Some((_, k)) => Some(k),
            None => None,
        }
    }

    /// The child of this node's parent at position `slot`.
    pub fn sibling_element(&self, slot: usize) -> (c: Child)
        requires
            self.parent_slot() is Some,
            slot < self.parent_elements().len(),
        ensures
            c == self.parent_elements()[slot as int],
    {
        proof {
            use_type_invariant(self);
        }
        let p = match self.parent {
            Some((p, _)) => p,
            None => 0,
        };
        self.tree.nodes[p].children[slot]
    }

    /// The node that is the child of this node's parent at position `slot`.
    pub fn sibling_node(&self, slot: usize) -> (c: SyntaxNode)
        requires
            self.parent_slot() is Some,
            slot < self.parent_elements().len(),
            self.parent_elements()[slot as int] is Node,
        ensures
            c.tree() == self.tree(),
            self.parent_elements()[slot as int] == Child::Node(c.id()),
            c.parent_slot() == Some((self.parent_id(), slot as int)),
    {
        proof {
            use_type_invariant(self);
        }
        let p = match self.parent {
            Some((p, _)) => p,
            None => 0,
        };
        let j = match self.tree.nodes[p].children[slot] {
            Child::Node(j) => j,
            Child::Token(_) => 0,
        };
        proof {
            assert(children_ok(self.tree.nodes@[p as int].children@, p as int, self.tree.tokens@.len() as int));
        }
        SyntaxNode { tree: self.tree.clone(), id: j, parent: Some((p, slot)) }
    }
}

impl SyntaxNode {
    /// The bytes that this node spans: those of its tokens, in order.
    pub open spec fn node_bytes(&self) -> Seq<u8> {
        let nd = self.tree().nodes_view()[self.id() as int];
        tokens_text(self.tree().tokens_view().subrange(nd.first as int, nd.end as int))
    }

    /// The bytes that this node spans.
    pub fn text_bytes(&self) -> (b: Vec<u8>)
        ensures
            b@ == self.node_bytes(),
    {
        proof {
            use_type_invariant(self);
            use_type_invariant(&*self.tree);
        }
        let first = self.tree.nodes[self.id].first;
        let end = self.tree.nodes[self.id].end;
        let ghost toks = self.tree.tokens@;
        let mut b: Vec<u8> = Vec::new();
        let mut k = first;
        while k < end
            invariant
                first <= k <= end <= toks.len(),
                toks == self.tree().tokens_view(),
                first == self.tree().nodes_view()[self.id() as int].first,
                end == self.tree().nodes_view()[self.id() as int].end,
                b@ == tokens_text(toks.subrange(first as int, k as int)),
            decreases end - k,
        {
            let mut t = self.tree.tokens[k].text.clone();
            proof {
                assert(toks.subrange(first as int, k + 1).drop_last() =~= toks.subrange(first as int, k as int));
            }
            b.append(&mut t);
            k += 1;
        }
        b
    }

    /// The text that this node spans.
    pub fn text(&self) -> (s: String)
        ensures
            s@ == text_of(self.node_bytes()),
    {
        bytes_to_string(self.text_bytes())
    }
}

/// The byte offset at which token `k` starts; past the last token, the end
/// of the text.
pub open spec fn offset_at(toks: Seq<TokenData>, k: int) -> int {
    if 0 <= k < toks.len() {
        toks[k].offset as int
    } else if toks.len() > 0 {
        toks.last().offset + toks.last().text@.len()
    } else {
        0
    }
}

impl SyntaxNode {
    /// The byte range that this node spans in the source.
    pub fn text_range(&self) -> (r: std::ops::Range<usize>)
        ensures
            r.start == offset_at(self.tree().tokens_view(), self.tree().nodes_view()[self.id() as int].first as int),
            r.end == offset_at(self.tree().tokens_view(), self.tree().nodes_view()[self.id() as int].end as int),
    {
        proof {
            use_type_invariant(self);
            use_type_invariant(&*self.tree);
        }
        let first = self.tree.nodes[self.id].first;
        let end = self.tree.nodes[self.id].end;
        let start_off = self.tree.offset_of(first);
        let end_off = self.tree.offset_of(end);
        start_off..end_off
    }
}

impl SyntaxTree {
    fn offset_of(&self, k: usize) -> (r: usize)
        requires
            self.wf(),
        ensures
            r == offset_at(self.tokens_view(), k as int),
    {
        let n = self.tokens.len();
        if k < n {
            self.tokens[k].offset
        } else if n > 0 {
            self.tokens[n - 1].offset + self.tokens[n - 1].text.len()
        } else {
            0
        }
    }
}

impl Clone for SyntaxNode {
    fn clone(&self) -> (r: Self)
        ensures
            r == *self,
    {
        proof {
            use_type_invariant(self);
        }
        SyntaxNode { tree: self.tree.clone(), id: self.id, parent: self.parent }
    }
}

impl SyntaxToken {
    pub closed spec fn tree(&self) -> SyntaxTree {
        *self.tree
    }

    pub closed spec fn index(&self) -> usize {
        self.idx
    }

    #[verifier::type_invariant]
    closed spec fn inv(self) -> bool {
        &&& self.tree.wf()
        &&& self.idx < self.tree.tokens_view().len()
    }

    pub open spec fn spec_kind(&self) -> SyntaxKind {
        self.tree().tokens_view()[self.index() as int].kind
    }

    /// The bytes of this token.
    pub open spec fn bytes(&self) -> Seq<u8> {
        self.tree().tokens_view()[self.index() as int].text@
    }

    /// The byte offset of this token in the source.
    pub open spec fn spec_offset(&self) -> int {
        self.tree().tokens_view()[self.index() as int].offset as int
    }

    /// The kind of this token.
    #[verifier::when_used_as_spec(spec_kind)]
    pub fn kind(&self) -> (k: SyntaxKind)
        ensures
            k == self.spec_kind(),
    {
        proof {
            use_type_invariant(self);
        }
        self.tree.tokens[self.idx].kind
    }

    /// The bytes of this token, copied.
    pub fn text_bytes(&self) -> (b: Vec<u8>)
        ensures
            b@ == self.bytes(),
    {
        proof {
            use_type_invariant(self);
        }
        self.tree.tokens[self.idx].text.clone()
    }

    /// The text of this token.
    pub fn text(&self) -> (s: String)
        ensures
            s@ == text_of(self.bytes()),
    {
        bytes_to_string(self.text_bytes())
    }

    /// The byte range of this token in the source.
    pub fn text_range(&self) -> (r: std::ops::Range<usize>)
        requires
            self.spec_offset() + self.bytes().len() <= usize::MAX,
        ensures
            r.start == self.spec_offset(),
            r.end == self.spec_offset() + self.bytes().len(),
    {
        proof {
            use_type_invariant(self);
        }
        let t = &self.tree.tokens[self.idx];
        t.offset..t.offset + t.text.len()
    }
}

impl Clone for SyntaxToken {
    fn clone(&self) -> (r: Self)
        ensures
            r == *self,
    {
        proof {
            use_type_invariant(self);
        }
        SyntaxToken { tree: self.tree.clone(), idx: self.idx }
    }
}

} // verus!
