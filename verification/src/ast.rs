//! Typed layer over the lossless syntax tree.
//!
//! Each struct wraps a [`SyntaxNode`] of one [`SyntaxKind`] and gives typed
//! access to its children, so that later passes need no raw tree traversal.

use vstd::prelude::*;
use crate::syntax_kind::SyntaxKind;
use crate::tree::{
    Child, SyntaxNode, SyntaxToken, SyntaxTree, TokenSelect, bytes_to_string, lemma_token_slots, first_of, node_slots, text_of,
    token_slots,
};

verus! {

// ── The typed-node interface ───────────────────────────────────────────

/// Common interface for all typed nodes.
pub trait AstNode: Sized {
    /// The kind of node that this type wraps.
    spec fn wrapped_kind() -> SyntaxKind;

    /// The node that this value wraps.
    spec fn node(&self) -> SyntaxNode;

    fn can_cast(kind: SyntaxKind) -> (r: bool)
        ensures
            r == (kind == Self::wrapped_kind()),
    ;

    fn cast(node: SyntaxNode) -> (r: Option<Self>)
        ensures
            r is Some <==> node.spec_kind() == Self::wrapped_kind(),
            r matches Some(x) ==> x.node() == node,
    ;

    fn syntax(&self) -> (r: &SyntaxNode)
        ensures
            *r == self.node(),
    ;
}

// ── What the accessors return ──────────────────────────────────────────

/// `r` are the child nodes of `n` that have kind `k`, in order.
pub open spec fn children_are<T: AstNode>(n: SyntaxNode, r: Seq<T>, k: SyntaxKind) -> bool {
    let slots = node_slots(n.tree(), n.elements(), k);
    &&& r.len() == slots.len()
    &&& forall|i: int| 0 <= i < r.len() ==> n.has_child_at(#[trigger] r[i].node(), slots[i])
}

/// `r` is the `i`-th child node of `n` of kind `k`, or `None` if there are
/// fewer such children.
pub open spec fn nth_child_is<T: AstNode>(n: SyntaxNode, r: Option<T>, k: SyntaxKind, i: int) -> bool {
    let slots = node_slots(n.tree(), n.elements(), k);
    if 0 <= i < slots.len() {
        r matches Some(x) && n.has_child_at(x.node(), slots[i])
    } else {
        r is None
    }
}

/// `r` is the first child node of `n` of kind `k`, if any.
pub open spec fn first_child_is<T: AstNode>(n: SyntaxNode, r: Option<T>, k: SyntaxKind) -> bool {
    nth_child_is(n, r, k, 0)
}

/// `r` are the tokens among the children of `n` that `sel` selects, in order.
pub open spec fn tokens_are(n: SyntaxNode, r: Seq<SyntaxToken>, sel: TokenSelect) -> bool {
    let slots = token_slots(n.tree(), n.elements(), sel);
    &&& r.len() == slots.len()
    &&& forall|i: int| 0 <= i < r.len() ==> n.has_token_at(#[trigger] r[i], slots[i])
}

/// `r` is the `i`-th token among the children of `n` that `sel` selects, if any.
pub open spec fn nth_token_is(n: SyntaxNode, r: Option<SyntaxToken>, sel: TokenSelect, i: int) -> bool {
    let slots = token_slots(n.tree(), n.elements(), sel);
    if 0 <= i < slots.len() {
        r matches Some(t) && n.has_token_at(t, slots[i])
    } else {
        r is None
    }
}

/// The bytes of a child that is a token (empty for a node).
pub open spec fn child_bytes(t: SyntaxTree, c: Child) -> Seq<u8> {
    match c {
        Child::Token(i) => t.tokens_view()[i as int].text@,
        Child::Node(_) => Seq::empty(),
    }
}

/// The bytes of the token that is the child of `n` at position `slot`.
pub open spec fn slot_bytes(n: SyntaxNode, slot: int) -> Seq<u8> {
    child_bytes(n.tree(), n.elements()[slot])
}

/// The kind of the token that is the child of `n` at position `slot`
/// (`Error` for a node).
pub open spec fn slot_token_kind(n: SyntaxNode, slot: int) -> SyntaxKind {
    match n.elements()[slot] {
        Child::Token(i) => n.tree().tokens_view()[i as int].kind,
        Child::Node(_) => SyntaxKind::Error,
    }
}

/// The bytes of the tokens of node `id` of `t` that `sel` selects, in order.
pub open spec fn node_selected_bytes(t: SyntaxTree, id: int, sel: TokenSelect) -> Seq<Seq<u8>> {
    let cs = t.nodes_view()[id].children@;
    token_slots(t, cs, sel).map_values(|s: int| child_bytes(t, cs[s]))
}

/// The bytes of the tokens of `n` that `sel` selects, in order.
pub open spec fn selected_bytes(n: SyntaxNode, sel: TokenSelect) -> Seq<Seq<u8>> {
    node_selected_bytes(n.tree(), n.id() as int, sel)
}

/// `r` are the texts of the tokens of `n` that `sel` selects, in order.
pub open spec fn texts_are(n: SyntaxNode, r: Seq<String>, sel: TokenSelect) -> bool {
    let b = selected_bytes(n, sel);
    &&& r.len() == b.len()
    &&& forall|i: int| 0 <= i < r.len() ==> (#[trigger] r[i])@ == text_of(b[i])
}

/// Byte strings joined with a separator.
pub open spec fn joined(parts: Seq<Seq<u8>>, sep: Seq<u8>) -> Seq<u8>
    decreases parts.len(),
{
    if parts.len() == 0 {
        Seq::empty()
    } else if parts.len() == 1 {
        parts[0]
    } else {
        joined(parts.drop_last(), sep) + sep + parts.last()
    }
}

// ── Numbers ────────────────────────────────────────────────────────────

pub open spec fn is_digit_byte(b: u8) -> bool {
    48 <= b <= 57
}

pub open spec fn all_digits(d: Seq<u8>) -> bool {
    forall|k: int| 0 <= k < d.len() ==> is_digit_byte(#[trigger] d[k])
}

/// The value of a string of decimal digits.
pub open spec fn decimal(d: Seq<u8>) -> nat
    decreases d.len(),
{
    if d.len() == 0 {
        0
    } else {
        decimal(d.drop_last()) * 10 + (d.last() - 48) as nat
    }
}

/// What `u32::from_str` gives for these bytes: an optional `+`, then one or
/// more decimal digits whose value fits in a `u32`.
pub open spec fn u32_of(b: Seq<u8>) -> Option<u32> {
    let d = if b.len() > 1 && b[0] == 43 {
        b.drop_first()
    } else {
        b
    };
    if d.len() > 0 && all_digits(d) && decimal(d) <= u32::MAX {
        Some(decimal(d) as u32)
    } else {
        None
    }
}

proof fn lemma_decimal_prefix(d: Seq<u8>, m: int)
    requires
        0 <= m <= d.len(),
        all_digits(d),
    ensures
        decimal(d.take(m)) <= decimal(d),
    decreases d.len() - m,
{
    if m < d.len() {
        lemma_decimal_prefix(d, m + 1);
        assert(d.take(m + 1).drop_last() =~= d.take(m));
    } else {
        assert(d.take(m) =~= d);
    }
}

/// Parse bytes as `u32::from_str` does.
pub fn parse_u32(b: &[u8]) -> (r: Option<u32>)
    ensures
        r == u32_of(b@),
{
    let start: usize = if b.len() > 1 && b[0] == 43 {
        1
    } else {
        0
    };
    let ghost d = b@.subrange(start as int, b@.len() as int);
    proof {
        if b.len() > 1 && b[0] == 43 {
            assert(d =~= b@.drop_first());
        } else {
            assert(d =~= b@);
        }
    }
    if start >= b.len() {
        return None;
    }
    let mut v: u32 = 0;
    let mut i: usize = start;
    while i < b.len()
        invariant
            start <= i <= b.len(),
            d == b@.subrange(start as int, b@.len() as int),
            d == (if b@.len() > 1 && b@[0] == 43 {
                b@.drop_first()
            } else {
                b@
            }),
            all_digits(d.take(i - start)),
            v == decimal(d.take(i - start)),
        decreases b.len() - i,
    {
        let c = b[i];
        proof {
            assert(d.take(i - start + 1).drop_last() =~= d.take(i - start));
            assert(d[i - start] == c);
        }
        if c < 48 || c > 57 {
            assert(!is_digit_byte(d[i - start]));
            assert(!all_digits(d));
            return None;
        }
        let nv: u64 = v as u64 * 10 + (c - 48) as u64;
        if nv > 4294967295 {
            proof {
                if all_digits(d) {
                    lemma_decimal_prefix(d, i - start + 1);
                }
            }
            return None;
        }
        v = nv as u32;
        i += 1;
        proof {
            assert(all_digits(d.take(i - start)));
        }
    }
    proof {
        assert(d.take(i - start) =~= d);
    }
    Some(v)
}

// ── Generic helpers ────────────────────────────────────────────────────

/// The child nodes that cast to `T`, in order.
fn children_of_type<T: AstNode>(parent: &SyntaxNode) -> (r: Vec<T>)
    ensures
        children_are(*parent, r@, T::wrapped_kind()),
{
    let n = parent.num_elements();
    let mut r: Vec<T> = Vec::new();
    let mut k: usize = 0;
    while k < n
        invariant
            k <= n,
            n == parent.elements().len(),
            r.len() == node_slots(parent.tree(), parent.elements().take(k as int), T::wrapped_kind()).len(),
            forall|i: int|
                0 <= i < r.len() ==> parent.has_child_at(
                    #[trigger] r@[i].node(),
                    node_slots(parent.tree(), parent.elements().take(k as int), T::wrapped_kind())[i],
                ),
        decreases n - k,
    {
        proof {
            assert(parent.elements().take(k + 1).drop_last() =~= parent.elements().take(k as int));
        }
        match parent.element(k) {
            Child::Node(_) => {
                let c = parent.child_node(k);
                match T::cast(c) {
                    Some(x) => {
                        r.push(x);
                    },
                    None => {},
                }
            },
            Child::Token(_) => {},
        }
        k += 1;
    }
    proof {
        assert(parent.elements().take(n as int) =~= parent.elements());
    }
    r
}

/// The `i`-th child node that casts to `T`.
fn nth_child_of_type<T: AstNode>(parent: &SyntaxNode, i: usize) -> (r: Option<T>)
    ensures
        nth_child_is(*parent, r, T::wrapped_kind(), i as int),
{
    let mut v = children_of_type::<T>(parent);
    if i < v.len() {
        Some(v.swap_remove(i))
    } else {
        None
    }
}

/// The first child node that casts to `T`.
fn first_child_of_type<T: AstNode>(parent: &SyntaxNode) -> (r: Option<T>)
    ensures
        first_child_is(*parent, r, T::wrapped_kind()),
{
    nth_child_of_type(parent, 0)
}

/// The `i`-th token among the children that `sel` selects.
fn nth_token(parent: &SyntaxNode, sel: TokenSelect, i: usize) -> (r: Option<SyntaxToken>)
    ensures
        nth_token_is(*parent, r, sel, i as int),
{
    let mut v = parent.tokens_selected(sel);
    if i < v.len() {
        Some(v.swap_remove(i))
    } else {
        None
    }
}

/// The texts of the tokens among the children that `sel` selects.
fn token_texts(parent: &SyntaxNode, sel: TokenSelect) -> (r: Vec<String>)
    ensures
        texts_are(*parent, r@, sel),
{
    let toks = parent.tokens_selected(sel);
    let mut r: Vec<String> = Vec::new();
    let mut i: usize = 0;
    while i < toks.len()
        invariant
            i <= toks.len(),
            tokens_are(*parent, toks@, sel),
            r.len() == i,
            forall|j: int|
                0 <= j < i ==> (#[trigger] r@[j])@ == text_of(selected_bytes(*parent, sel)[j]),
        decreases toks.len() - i,
    {
        let s = toks[i].text();
        r.push(s);
        i += 1;
    }
    r
}

/// The bytes of the tokens among the children that `sel` selects, joined with `sep`.
fn joined_bytes(parent: &SyntaxNode, sel: TokenSelect, sep: &[u8]) -> (r: Vec<u8>)
    ensures
        r@ == joined(selected_bytes(*parent, sel), sep@),
{
    let toks = parent.tokens_selected(sel);
    let ghost b = selected_bytes(*parent, sel);
    let mut r: Vec<u8> = Vec::new();
    let mut i: usize = 0;
    while i < toks.len()
        invariant
            i <= toks.len(),
            tokens_are(*parent, toks@, sel),
            b == selected_bytes(*parent, sel),
            r@ == joined(b.take(i as int), sep@),
        decreases toks.len() - i,
    {
        proof {
            assert(b.take(i + 1).drop_last() =~= b.take(i as int));
        }
        if i > 0 {
            let mut k: usize = 0;
            let ghost before = r@;
            while k < sep.len()
                invariant
                    k <= sep.len(),
                    r@ == before + sep@.take(k as int),
                decreases sep.len() - k,
            {
                r.push(sep[k]);
                k += 1;
                proof {
                    assert(sep@.take(k as int).drop_last() =~= sep@.take(k - 1));
                }
            }
            proof {
                assert(sep@.take(sep.len() as int) =~= sep@);
            }
        }
        let t = toks[i].text_bytes();
        let mut k: usize = 0;
        let ghost before = r@;
        while k < t.len()
            invariant
                k <= t.len(),
                r@ == before + t@.take(k as int),
            decreases t.len() - k,
        {
            r.push(t[k]);
            k += 1;
            proof {
                assert(t@.take(k as int).drop_last() =~= t@.take(k - 1));
            }
        }
        proof {
            assert(t@.take(t.len() as int) =~= t@);
            assert(b[i as int] == t@);
            if i == 0 {
                assert(r@ =~= joined(b.take(1), sep@));
            } else {
                assert(r@ =~= joined(b.take(i + 1), sep@));
            }
        }
        i += 1;
    }
    proof {
        assert(b.take(toks.len() as int) =~= b);
    }
    r
}

/// The first element of `s` greater than `a`, if any.
pub open spec fn first_greater(s: Seq<int>, a: int) -> Option<int>
    decreases s.len(),
{
    if s.len() == 0 {
        None
    } else if s[0] > a {
        Some(s[0])
    } else {
        first_greater(s.drop_first(), a)
    }
}

proof fn lemma_first_after(s: Seq<int>, a: int, i: int)
    requires
        0 <= i < s.len(),
        s[i] > a,
        forall|j: int| 0 <= j < i ==> s[j] <= a,
    ensures
        first_greater(s, a) == Some(s[i]),
    decreases i,
{
    if i > 0 {
        lemma_first_after(s.drop_first(), a, i - 1);
    }
}

proof fn lemma_none_after(s: Seq<int>, a: int)
    requires
        forall|j: int| 0 <= j < s.len() ==> s[j] <= a,
    ensures
        first_greater(s, a) is None,
    decreases s.len(),
{
    if s.len() > 0 {
        lemma_none_after(s.drop_first(), a);
    }
}

/// The position of an import's alias: the first identifier or keyword
/// after the first `as`.
pub open spec fn alias_slot(n: SyntaxNode) -> Option<int> {
    let as_slots = token_slots(n.tree(), n.elements(), TokenSelect::Kind(SyntaxKind::KwAs));
    if as_slots.len() == 0 {
        None
    } else {
        first_greater(token_slots(n.tree(), n.elements(), TokenSelect::AliasName), as_slots[0])
    }
}

/// A shape injection's full name: its qualified name joined with dots if it
/// has one, else the text of its name, else nothing.
pub open spec fn full_name_text(n: SyntaxNode) -> Seq<char> {
    let q = node_slots(n.tree(), n.elements(), SyntaxKind::QualifiedName);
    if q.len() > 0 {
        text_of(
            joined(
                node_selected_bytes(n.tree(), (n.elements()[q[0]]->Node_0) as int, TokenSelect::Kind(SyntaxKind::Ident)),
                seq![46u8],
            ),
        )
    } else {
        let ts = selected_bytes(n, TokenSelect::IdentLike);
        if ts.len() > 0 {
            text_of(ts[0])
        } else {
            Seq::empty()
        }
    }
}

/// `r` holds the texts of the first two identifiers of `n`, if it has two.
pub open spec fn text_pair_is(n: SyntaxNode, r: Option<(String, String)>) -> bool {
    let b = selected_bytes(n, TokenSelect::Kind(SyntaxKind::Ident));
    if b.len() >= 2 {
        r matches Some((x, y)) && x@ == text_of(b[0]) && y@ == text_of(b[1])
    } else {
        r is None
    }
}

fn first_two_texts(parent: &SyntaxNode) -> (r: Option<(String, String)>)
    ensures
        text_pair_is(*parent, r),
{
    let mut v = token_texts(parent, TokenSelect::Kind(SyntaxKind::Ident));
    if v.len() >= 2 {
        let y = v.swap_remove(1);
        let x = v.swap_remove(0);
        Some((x, y))
    } else {
        None
    }
}

/// The `i`-th integer literal among the children of `n`, parsed as
/// `u32::from_str` does.
pub open spec fn int_literal_value(n: SyntaxNode, i: int) -> Option<u32> {
    let s = token_slots(n.tree(), n.elements(), TokenSelect::Kind(SyntaxKind::IntLiteral));
    if 0 <= i < s.len() {
        u32_of(slot_bytes(n, s[i]))
    } else {
        None
    }
}

fn int_literal(parent: &SyntaxNode, i: usize) -> (r: Option<u32>)
    ensures
        r == int_literal_value(*parent, i as int),
{
    match nth_token(parent, TokenSelect::Kind(SyntaxKind::IntLiteral), i) {
        Some(t) => {
            let b = t.text_bytes();
            parse_u32(b.as_slice())
        },
        None => None,
    }
}

/// The positions, before position `k` among the children `cs`, of the
/// annotation calls that run up to `k`, tokens between them skipped.
pub open spec fn annotation_run(t: SyntaxTree, cs: Seq<Child>, k: int) -> Seq<int>
    decreases k,
{
    if k <= 0 || k > cs.len() {
        Seq::empty()
    } else {
        match cs[k - 1] {
            Child::Token(_) => annotation_run(t, cs, k - 1),
            Child::Node(j) => if t.nodes_view()[j as int].kind == SyntaxKind::AnnotationCall {
                annotation_run(t, cs, k - 1).push(k - 1)
            } else {
                Seq::empty()
            },
        }
    }
}

/// `r` are the nodes at positions `run` among the children of `n`'s parent.
pub open spec fn siblings_are(n: SyntaxNode, r: Seq<AnnotationCall>, run: Seq<int>) -> bool {
    &&& r.len() == run.len()
    &&& forall|i: int|
        0 <= i < r.len() ==> {
            &&& (#[trigger] r[i]).node().tree() == n.tree()
            &&& 0 <= run[i] < n.parent_elements().len()
            &&& n.parent_elements()[run[i]] == Child::Node(r[i].node().id())
            &&& r[i].node().parent_slot() == Some((n.parent_id(), run[i]))
        }
}

/// `r` are the annotation calls written just before `n` among its parent's children.
pub open spec fn annotations_are(n: SyntaxNode, r: Seq<AnnotationCall>) -> bool {
    siblings_are(n, r, annotation_run(n.tree(), n.parent_elements(), n.slot_in_parent()))
}

/// The annotation call nodes written just before `n` among its parent's children.
pub open spec fn annotation_nodes(n: SyntaxNode) -> Seq<SyntaxNode> {
    annotation_run(n.tree(), n.parent_elements(), n.slot_in_parent()).map_values(|s: int| n.sibling_node_at(s))
}

/// The annotations that an accessor returns are the annotation call nodes.
pub proof fn lemma_annotation_nodes(n: SyntaxNode, r: Seq<AnnotationCall>)
    requires
        annotations_are(n, r),
    ensures
        r.len() == annotation_nodes(n).len(),
        forall|i: int| 0 <= i < r.len() ==> (#[trigger] r[i]).node() == annotation_nodes(n)[i],
{
    let run = annotation_run(n.tree(), n.parent_elements(), n.slot_in_parent());
    assert forall|i: int| 0 <= i < r.len() implies (#[trigger] r[i]).node() == annotation_nodes(n)[i] by {
        assert(n.has_sibling_at(r[i].node(), run[i]));
        n.lemma_sibling_node_at(r[i].node(), run[i]);
    }
}

fn annotation_run_before(node: &SyntaxNode, k: usize) -> (r: Vec<AnnotationCall>)
    requires
        node.parent_slot() is Some,
        k <= node.parent_elements().len(),
    ensures
        siblings_are(*node, r@, annotation_run(node.tree(), node.parent_elements(), k as int)),
    decreases k,
{
    if k == 0 {
        return Vec::new();
    }
    match node.sibling_element(k - 1) {
        Child::Token(_) => annotation_run_before(node, k - 1),
        Child::Node(_) => {
            let c = node.sibling_node(k - 1);
            match AnnotationCall::cast(c) {
                Some(a) => {
                    let mut r = annotation_run_before(node, k - 1);
                    r.push(a);
                    r
                },
                None => Vec::new(),
            }
        },
    }
}

/// The annotation calls that precede a node among its parent's children.
fn preceding_annotations(node: &SyntaxNode) -> (r: Vec<AnnotationCall>)
    ensures
        annotations_are(*node, r@),
{
    match node.position() {
        Some(k) => annotation_run_before(node, k),
        None => Vec::new(),
    }
}

// ── Root ──

/// The root of a file.
#[derive(Debug)]
pub struct Root {
    syntax: SyntaxNode,
}

impl Clone for Root {
    fn clone(&self) -> (r: Self)
        ensures
            r == *self,
    {
        Root { syntax: self.syntax.clone() }
    }
}

impl AstNode for Root {
    open spec fn wrapped_kind() -> SyntaxKind {
        SyntaxKind::Root
    }

    closed spec fn node(&self) -> SyntaxNode {
        self.syntax
    }

    fn can_cast(kind: SyntaxKind) -> (r: bool) {
        kind == SyntaxKind::Root
    }

    fn cast(node: SyntaxNode) -> (r: Option<Self>) {
        if Self::can_cast(node.kind()) {
            Some(Root { syntax: node })
        } else {
            None
        }
    }

    fn syntax(&self) -> (r: &SyntaxNode) {
        &self.syntax
    }
}

impl Root {
    pub fn package_decl(&self) -> (r: Option<PackageDecl>)
        ensures
            first_child_is(self.node(), r, SyntaxKind::PackageDecl),
    {
        first_child_of_type::<PackageDecl>(&self.syntax)
    }

    pub fn imports(&self) -> (r: Vec<ImportDecl>)
        ensures
            children_are(self.node(), r@, SyntaxKind::ImportDecl),
    {
        children_of_type::<ImportDecl>(&self.syntax)
    }

    pub fn type_decls(&self) -> (r: Vec<TypeDecl>)
        ensures
            children_are(self.node(), r@, SyntaxKind::TypeDecl),
    {
        children_of_type::<TypeDecl>(&self.syntax)
    }

    pub fn shape_decls(&self) -> (r: Vec<ShapeDecl>)
        ensures
            children_are(self.node(), r@, SyntaxKind::ShapeDecl),
    {
        children_of_type::<ShapeDecl>(&self.syntax)
    }

    pub fn enum_decls(&self) -> (r: Vec<EnumDecl>)
        ensures
            children_are(self.node(), r@, SyntaxKind::EnumDecl),
    {
        children_of_type::<EnumDecl>(&self.syntax)
    }

    pub fn service_decls(&self) -> (r: Vec<ServiceDecl>)
        ensures
            children_are(self.node(), r@, SyntaxKind::ServiceDecl),
    {
        children_of_type::<ServiceDecl>(&self.syntax)
    }

    pub fn annotation_decls(&self) -> (r: Vec<AnnotationDecl>)
        ensures
            children_are(self.node(), r@, SyntaxKind::AnnotationDecl),
    {
        children_of_type::<AnnotationDecl>(&self.syntax)
    }
}

// ── PackageDecl ──

/// `package name;`
#[derive(Debug)]
pub struct PackageDecl {
    syntax: SyntaxNode,
}

impl Clone for PackageDecl {
    fn clone(&self) -> (r: Self)
        ensures
            r == *self,
    {
        PackageDecl { syntax: self.syntax.clone() }
    }
}

impl AstNode for PackageDecl {
    open spec fn wrapped_kind() -> SyntaxKind {
        SyntaxKind::PackageDecl
    }

    closed spec fn node(&self) -> SyntaxNode {
        self.syntax
    }

    fn can_cast(kind: SyntaxKind) -> (r: bool) {
        kind == SyntaxKind::PackageDecl
    }

    fn cast(node: SyntaxNode) -> (r: Option<Self>) {
        if Self::can_cast(node.kind()) {
            Some(PackageDecl { syntax: node })
        } else {
            None
        }
    }

    fn syntax(&self) -> (r: &SyntaxNode) {
        &self.syntax
    }
}

impl PackageDecl {
    /// The package name.
    pub fn name(&self) -> (r: Option<SyntaxToken>)
        ensures
            nth_token_is(self.node(), r, TokenSelect::IdentLike, 0),
    {
        nth_token(&self.syntax, TokenSelect::IdentLike, 0)
    }
}

// ── ImportDecl ──

/// `import path [as alias];`
#[derive(Debug)]
pub struct ImportDecl {
    syntax: SyntaxNode,
}

impl Clone for ImportDecl {
    fn clone(&self) -> (r: Self)
        ensures
            r == *self,
    {
        ImportDecl { syntax: self.syntax.clone() }
    }
}

impl AstNode for ImportDecl {
    open spec fn wrapped_kind() -> SyntaxKind {
        SyntaxKind::ImportDecl
    }

    closed spec fn node(&self) -> SyntaxNode {
        self.syntax
    }

    fn can_cast(kind: SyntaxKind) -> (r: bool) {
        kind == SyntaxKind::ImportDecl
    }

    fn cast(node: SyntaxNode) -> (r: Option<Self>) {
        if Self::can_cast(node.kind()) {
            Some(ImportDecl { syntax: node })
        } else {
            None
        }
    }

    fn syntax(&self) -> (r: &SyntaxNode) {
        &self.syntax
    }
}

impl ImportDecl {
    pub fn path(&self) -> (r: Option<ImportPath>)
        ensures
            first_child_is(self.node(), r, SyntaxKind::ImportPath),
    {
        first_child_of_type::<ImportPath>(&self.syntax)
    }

    /// The alias after `as`, if present: the first identifier or keyword
    /// after the first `as`.
    pub fn alias(&self) -> (r: Option<SyntaxToken>)
        ensures
            r is Some <==> alias_slot(self.node()) is Some,
            r matches Some(t) ==> self.node().has_token_at(t, alias_slot(self.node())->0),
    {
        let as_slots = self.syntax.token_slot_list(TokenSelect::Kind(SyntaxKind::KwAs));
        if as_slots.len() == 0 {
            return None;
        }
        let a = as_slots[0];
        proof {
            assert(as_slots@[0] == token_slots(self.node().tree(), self.node().elements(), TokenSelect::Kind(SyntaxKind::KwAs))[0]);
            lemma_token_slots(self.node().tree(), self.node().elements(), TokenSelect::AliasName);
        }
        let names = self.syntax.token_slot_list(TokenSelect::AliasName);
        let mut i: usize = 0;
        while i < names.len()
            invariant
                i <= names.len(),
                names.len() == token_slots(self.node().tree(), self.node().elements(), TokenSelect::AliasName).len(),
                forall|j: int| 0 <= j < names.len() ==> #[trigger] names@[j] == token_slots(self.node().tree(), self.node().elements(), TokenSelect::AliasName)[j],
                forall|j: int| 0 <= j < i ==> token_slots(self.node().tree(), self.node().elements(), TokenSelect::AliasName)[j] <= a,
                token_slots(self.node().tree(), self.node().elements(), TokenSelect::Kind(SyntaxKind::KwAs)).len() > 0,
                a == token_slots(self.node().tree(), self.node().elements(), TokenSelect::Kind(SyntaxKind::KwAs))[0],
            decreases names.len() - i,
        {
            if names[i] > a {
                proof {
                    lemma_token_slots(self.node().tree(), self.node().elements(), TokenSelect::AliasName);
                    assert(names@[i as int] == token_slots(self.node().tree(), self.node().elements(), TokenSelect::AliasName)[i as int]);
                    lemma_first_after(token_slots(self.node().tree(), self.node().elements(), TokenSelect::AliasName), a as int, i as int);
                }
                return Some(self.syntax.child_token(names[i]));
            }
            i += 1;
        }
        proof {
            lemma_none_after(token_slots(self.node().tree(), self.node().elements(), TokenSelect::AliasName), a as int);
        }
        None
    }
}

// ── ImportPath ──

/// The path of an import.
#[derive(Debug)]
pub struct ImportPath {
    syntax: SyntaxNode,
}

impl Clone for ImportPath {
    fn clone(&self) -> (r: Self)
        ensures
            r == *self,
    {
        ImportPath { syntax: self.syntax.clone() }
    }
}

impl AstNode for ImportPath {
    open spec fn wrapped_kind() -> SyntaxKind {
        SyntaxKind::ImportPath
    }

    closed spec fn node(&self) -> SyntaxNode {
        self.syntax
    }

    fn can_cast(kind: SyntaxKind) -> (r: bool) {
        kind == SyntaxKind::ImportPath
    }

    fn cast(node: SyntaxNode) -> (r: Option<Self>) {
        if Self::can_cast(node.kind()) {
            Some(ImportPath { syntax: node })
        } else {
            None
        }
    }

    fn syntax(&self) -> (r: &SyntaxNode) {
        &self.syntax
    }
}

impl ImportPath {
    /// The full import path as text, such as `github.com/org/database`.
    pub fn text(&self) -> (r: String)
        ensures
            r@ == text_of(joined(selected_bytes(self.node(), TokenSelect::NonTrivia), Seq::empty())),
    {
        let sep: Vec<u8> = Vec::new();
        proof {
            assert(sep@ =~= Seq::<u8>::empty());
        }
        bytes_to_string(joined_bytes(&self.syntax, TokenSelect::NonTrivia, sep.as_slice()))
    }
}

// ── TypeDecl ──

/// `type Name ...`
#[derive(Debug)]
pub struct TypeDecl {
    syntax: SyntaxNode,
}

impl Clone for TypeDecl {
    fn clone(&self) -> (r: Self)
        ensures
            r == *self,
    {
        TypeDecl { syntax: self.syntax.clone() }
    }
}

impl AstNode for TypeDecl {
    open spec fn wrapped_kind() -> SyntaxKind {
        SyntaxKind::TypeDecl
    }

    closed spec fn node(&self) -> SyntaxNode {
        self.syntax
    }

    fn can_cast(kind: SyntaxKind) -> (r: bool) {
        kind == SyntaxKind::TypeDecl
    }

    fn cast(node: SyntaxNode) -> (r: Option<Self>) {
        if Self::can_cast(node.kind()) {
            Some(TypeDecl { syntax: node })
        } else {
            None
        }
    }

    fn syntax(&self) -> (r: &SyntaxNode) {
        &self.syntax
    }
}

impl TypeDecl {
    /// The name: the first identifier, or keyword that does not introduce a declaration.
    pub fn name(&self) -> (r: Option<SyntaxToken>)
        ensures
            nth_token_is(self.node(), r, TokenSelect::IdentLike, 0),
    {
        nth_token(&self.syntax, TokenSelect::IdentLike, 0)
    }

    pub fn type_params(&self) -> (r: Option<TypeParams>)
        ensures
            first_child_is(self.node(), r, SyntaxKind::TypeParams),
    {
        first_child_of_type::<TypeParams>(&self.syntax)
    }

    pub fn alias(&self) -> (r: Option<TypeAlias>)
        ensures
            first_child_is(self.node(), r, SyntaxKind::TypeAlias),
    {
        first_child_of_type::<TypeAlias>(&self.syntax)
    }

    pub fn body(&self) -> (r: Option<TypeBody>)
        ensures
            first_child_is(self.node(), r, SyntaxKind::TypeBody),
    {
        first_child_of_type::<TypeBody>(&self.syntax)
    }

    /// The annotation calls written just before this declaration, in order.
    pub fn annotations(&self) -> (r: Vec<AnnotationCall>)
        ensures
            annotations_are(self.node(), r@),
    {
        preceding_annotations(&self.syntax)
    }
}

// ── TypeAlias ──

/// `= Type;` after a type name.
#[derive(Debug)]
pub struct TypeAlias {
    syntax: SyntaxNode,
}

impl Clone for TypeAlias {
    fn clone(&self) -> (r: Self)
        ensures
            r == *self,
    {
        TypeAlias { syntax: self.syntax.clone() }
    }
}

impl AstNode for TypeAlias {
    open spec fn wrapped_kind() -> SyntaxKind {
        SyntaxKind::TypeAlias
    }

    closed spec fn node(&self) -> SyntaxNode {
        self.syntax
    }

    fn can_cast(kind: SyntaxKind) -> (r: bool) {
        kind == SyntaxKind::TypeAlias
    }

    fn cast(node: SyntaxNode) -> (r: Option<Self>) {
        if Self::can_cast(node.kind()) {
            Some(TypeAlias { syntax: node })
        } else {
            None
        }
    }

    fn syntax(&self) -> (r: &SyntaxNode) {
        &self.syntax
    }
}

impl TypeAlias {
    pub fn type_ref(&self) -> (r: Option<TypeRef>)
        ensures
            first_child_is(self.node(), r, SyntaxKind::TypeRef),
    {
        first_child_of_type::<TypeRef>(&self.syntax)
    }

    pub fn pick_type(&self) -> (r: Option<PickType>)
        ensures
            first_child_is(self.node(), r, SyntaxKind::PickType),
    {
        first_child_of_type::<PickType>(&self.syntax)
    }

    pub fn omit_type(&self) -> (r: Option<OmitType>)
        ensures
            first_child_is(self.node(), r, SyntaxKind::OmitType),
    {
        first_child_of_type::<OmitType>(&self.syntax)
    }
}

// ── TypeBody ──

/// The braces of a type declaration.
#[derive(Debug)]
pub struct TypeBody {
    syntax: SyntaxNode,
}

impl Clone for TypeBody {
    fn clone(&self) -> (r: Self)
        ensures
            r == *self,
    {
        TypeBody { syntax: self.syntax.clone() }
    }
}

impl AstNode for TypeBody {
    open spec fn wrapped_kind() -> SyntaxKind {
        SyntaxKind::TypeBody
    }

    closed spec fn node(&self) -> SyntaxNode {
        self.syntax
    }

    fn can_cast(kind: SyntaxKind) -> (r: bool) {
        kind == SyntaxKind::TypeBody
    }

    fn cast(node: SyntaxNode) -> (r: Option<Self>) {
        if Self::can_cast(node.kind()) {
            Some(TypeBody { syntax: node })
        } else {
            None
        }
    }

    fn syntax(&self) -> (r: &SyntaxNode) {
        &self.syntax
    }
}

impl TypeBody {
    pub fn fields(&self) -> (r: Vec<FieldDecl>)
        ensures
            children_are(self.node(), r@, SyntaxKind::FieldDecl),
    {
        children_of_type::<FieldDecl>(&self.syntax)
    }

    pub fn shape_injections(&self) -> (r: Vec<ShapeInjection>)
        ensures
            children_are(self.node(), r@, SyntaxKind::ShapeInjection),
    {
        children_of_type::<ShapeInjection>(&self.syntax)
    }

    pub fn oneofs(&self) -> (r: Vec<OneofDecl>)
        ensures
            children_are(self.node(), r@, SyntaxKind::OneofDecl),
    {
        children_of_type::<OneofDecl>(&self.syntax)
    }

    pub fn nested_types(&self) -> (r: Vec<NestedTypeDecl>)
        ensures
            children_are(self.node(), r@, SyntaxKind::NestedTypeDecl),
    {
        children_of_type::<NestedTypeDecl>(&self.syntax)
    }

    pub fn nested_enums(&self) -> (r: Vec<NestedEnumDecl>)
        ensures
            children_are(self.node(), r@, SyntaxKind::NestedEnumDecl),
    {
        children_of_type::<NestedEnumDecl>(&self.syntax)
    }

    pub fn reserved_decls(&self) -> (r: Vec<ReservedDecl>)
        ensures
            children_are(self.node(), r@, SyntaxKind::ReservedDecl),
    {
        children_of_type::<ReservedDecl>(&self.syntax)
    }
}

// ── TypeParams ──

/// `<T, U>` after a type or shape name.
#[derive(Debug)]
pub struct TypeParams {
    syntax: SyntaxNode,
}

impl Clone for TypeParams {
    fn clone(&self) -> (r: Self)
        ensures
            r == *self,
    {
        TypeParams { syntax: self.syntax.clone() }
    }
}

impl AstNode for TypeParams {
    open spec fn wrapped_kind() -> SyntaxKind {
        SyntaxKind::TypeParams
    }

    closed spec fn node(&self) -> SyntaxNode {
        self.syntax
    }

    fn can_cast(kind: SyntaxKind) -> (r: bool) {
        kind == SyntaxKind::TypeParams
    }

    fn cast(node: SyntaxNode) -> (r: Option<Self>) {
        if Self::can_cast(node.kind()) {
            Some(TypeParams { syntax: node })
        } else {
            None
        }
    }

    fn syntax(&self) -> (r: &SyntaxNode) {
        &self.syntax
    }
}

impl TypeParams {
    /// All type parameter names.
    pub fn params(&self) -> (r: Vec<SyntaxToken>)
        ensures
            tokens_are(self.node(), r@, TokenSelect::Kind(SyntaxKind::Ident)),
    {
        self.syntax.tokens_selected(TokenSelect::Kind(SyntaxKind::Ident))
    }
}

// ── FieldDecl ──

/// `Type name = N [<- source];`
#[derive(Debug)]
pub struct FieldDecl {
    syntax: SyntaxNode,
}

impl Clone for FieldDecl {
    fn clone(&self) -> (r: Self)
        ensures
            r == *self,
    {
        FieldDecl { syntax: self.syntax.clone() }
    }
}

impl AstNode for FieldDecl {
    open spec fn wrapped_kind() -> SyntaxKind {
        SyntaxKind::FieldDecl
    }

    closed spec fn node(&self) -> SyntaxNode {
        self.syntax
    }

    fn can_cast(kind: SyntaxKind) -> (r: bool) {
        kind == SyntaxKind::FieldDecl
    }

    fn cast(node: SyntaxNode) -> (r: Option<Self>) {
        if Self::can_cast(node.kind()) {
            Some(FieldDecl { syntax: node })
        } else {
            None
        }
    }

    fn syntax(&self) -> (r: &SyntaxNode) {
        &self.syntax
    }
}

impl FieldDecl {
    pub fn type_ref(&self) -> (r: Option<TypeRef>)
        ensures
            first_child_is(self.node(), r, SyntaxKind::TypeRef),
    {
        first_child_of_type::<TypeRef>(&self.syntax)
    }

    /// The field name.
    pub fn name(&self) -> (r: Option<SyntaxToken>)
        ensures
            nth_token_is(self.node(), r, TokenSelect::IdentLike, 0),
    {
        nth_token(&self.syntax, TokenSelect::IdentLike, 0)
    }

    /// The field number.
    pub fn field_number(&self) -> (r: Option<u32>)
        ensures
            r == int_literal_value(self.node(), 0),
    {
        int_literal(&self.syntax, 0)
    }

    pub fn mapping(&self) -> (r: Option<MappingSource>)
        ensures
            first_child_is(self.node(), r, SyntaxKind::MappingSource),
    {
        first_child_of_type::<MappingSource>(&self.syntax)
    }

    /// The annotation calls written just before this declaration, in order.
    pub fn annotations(&self) -> (r: Vec<AnnotationCall>)
        ensures
            annotations_are(self.node(), r@),
    {
        preceding_annotations(&self.syntax)
    }
}

// ── MappingSource ──

/// `<- Type.path` after a field number.
#[derive(Debug)]
pub struct MappingSource {
    syntax: SyntaxNode,
}

impl Clone for MappingSource {
    fn clone(&self) -> (r: Self)
        ensures
            r == *self,
    {
        MappingSource { syntax: self.syntax.clone() }
    }
}

impl AstNode for MappingSource {
    open spec fn wrapped_kind() -> SyntaxKind {
        SyntaxKind::MappingSource
    }

    closed spec fn node(&self) -> SyntaxNode {
        self.syntax
    }

    fn can_cast(kind: SyntaxKind) -> (r: bool) {
        kind == SyntaxKind::MappingSource
    }

    fn cast(node: SyntaxNode) -> (r: Option<Self>) {
        if Self::can_cast(node.kind()) {
            Some(MappingSource { syntax: node })
        } else {
            None
        }
    }

    fn syntax(&self) -> (r: &SyntaxNode) {
        &self.syntax
    }
}

impl MappingSource {
    /// The mapping path as segments, such as `["User", "id"]`.
    pub fn segments(&self) -> (r: Vec<String>)
        ensures
            texts_are(self.node(), r@, TokenSelect::IdentOrStar),
    {
        token_texts(&self.syntax, TokenSelect::IdentOrStar)
    }
}

// ── ShapeDecl ──

/// `shape Name { ... }`
#[derive(Debug)]
pub struct ShapeDecl {
    syntax: SyntaxNode,
}

impl Clone for ShapeDecl {
    fn clone(&self) -> (r: Self)
        ensures
            r == *self,
    {
        ShapeDecl { syntax: self.syntax.clone() }
    }
}

impl AstNode for ShapeDecl {
    open spec fn wrapped_kind() -> SyntaxKind {
        SyntaxKind::ShapeDecl
    }

    closed spec fn node(&self) -> SyntaxNode {
        self.syntax
    }

    fn can_cast(kind: SyntaxKind) -> (r: bool) {
        kind == SyntaxKind::ShapeDecl
    }

    fn cast(node: SyntaxNode) -> (r: Option<Self>) {
        if Self::can_cast(node.kind()) {
            Some(ShapeDecl { syntax: node })
        } else {
            None
        }
    }

    fn syntax(&self) -> (r: &SyntaxNode) {
        &self.syntax
    }
}

impl ShapeDecl {
    /// The name: the first identifier, or keyword that does not introduce a declaration.
    pub fn name(&self) -> (r: Option<SyntaxToken>)
        ensures
            nth_token_is(self.node(), r, TokenSelect::IdentLike, 0),
    {
        nth_token(&self.syntax, TokenSelect::IdentLike, 0)
    }

    pub fn type_params(&self) -> (r: Option<TypeParams>)
        ensures
            first_child_is(self.node(), r, SyntaxKind::TypeParams),
    {
        first_child_of_type::<TypeParams>(&self.syntax)
    }

    pub fn fields(&self) -> (r: Vec<ShapeField>)
        ensures
            children_are(self.node(), r@, SyntaxKind::ShapeField),
    {
        children_of_type::<ShapeField>(&self.syntax)
    }

    pub fn includes(&self) -> (r: Vec<ShapeInclude>)
        ensures
            children_are(self.node(), r@, SyntaxKind::ShapeInclude),
    {
        children_of_type::<ShapeInclude>(&self.syntax)
    }

    /// The annotation calls written just before this declaration, in order.
    pub fn annotations(&self) -> (r: Vec<AnnotationCall>)
        ensures
            annotations_are(self.node(), r@),
    {
        preceding_annotations(&self.syntax)
    }
}

// ── ShapeField ──

/// A field of a shape.
#[derive(Debug)]
pub struct ShapeField {
    syntax: SyntaxNode,
}

impl Clone for ShapeField {
    fn clone(&self) -> (r: Self)
        ensures
            r == *self,
    {
        ShapeField { syntax: self.syntax.clone() }
    }
}

impl AstNode for ShapeField {
    open spec fn wrapped_kind() -> SyntaxKind {
        SyntaxKind::ShapeField
    }

    closed spec fn node(&self) -> SyntaxNode {
        self.syntax
    }

    fn can_cast(kind: SyntaxKind) -> (r: bool) {
        kind == SyntaxKind::ShapeField
    }

    fn cast(node: SyntaxNode) -> (r: Option<Self>) {
        if Self::can_cast(node.kind()) {
            Some(ShapeField { syntax: node })
        } else {
            None
        }
    }

    fn syntax(&self) -> (r: &SyntaxNode) {
        &self.syntax
    }
}

impl ShapeField {
    pub fn type_ref(&self) -> (r: Option<TypeRef>)
        ensures
            first_child_is(self.node(), r, SyntaxKind::TypeRef),
    {
        first_child_of_type::<TypeRef>(&self.syntax)
    }

    /// The name: the first identifier, or keyword that does not introduce a declaration.
    pub fn name(&self) -> (r: Option<SyntaxToken>)
        ensures
            nth_token_is(self.node(), r, TokenSelect::IdentLike, 0),
    {
        nth_token(&self.syntax, TokenSelect::IdentLike, 0)
    }

    /// Trailing annotations, such as `@default(now)` after the field name.
    pub fn annotations(&self) -> (r: Vec<AnnotationCall>)
        ensures
            children_are(self.node(), r@, SyntaxKind::AnnotationCall),
    {
        children_of_type::<AnnotationCall>(&self.syntax)
    }
}

// ── ShapeInclude ──

/// `ShapeA, ShapeB;` inside a shape.
#[derive(Debug)]
pub struct ShapeInclude {
    syntax: SyntaxNode,
}

impl Clone for ShapeInclude {
    fn clone(&self) -> (r: Self)
        ensures
            r == *self,
    {
        ShapeInclude { syntax: self.syntax.clone() }
    }
}

impl AstNode for ShapeInclude {
    open spec fn wrapped_kind() -> SyntaxKind {
        SyntaxKind::ShapeInclude
    }

    closed spec fn node(&self) -> SyntaxNode {
        self.syntax
    }

    fn can_cast(kind: SyntaxKind) -> (r: bool) {
        kind == SyntaxKind::ShapeInclude
    }

    fn cast(node: SyntaxNode) -> (r: Option<Self>) {
        if Self::can_cast(node.kind()) {
            Some(ShapeInclude { syntax: node })
        } else {
            None
        }
    }

    fn syntax(&self) -> (r: &SyntaxNode) {
        &self.syntax
    }
}

impl ShapeInclude {
    /// Names of the included shapes.
    pub fn names(&self) -> (r: Vec<SyntaxToken>)
        ensures
            tokens_are(self.node(), r@, TokenSelect::Kind(SyntaxKind::Ident)),
    {
        self.syntax.tokens_selected(TokenSelect::Kind(SyntaxKind::Ident))
    }
}

// ── ShapeInjection ──

/// `Shape(N..M)` inside a type.
#[derive(Debug)]
pub struct ShapeInjection {
    syntax: SyntaxNode,
}

impl Clone for ShapeInjection {
    fn clone(&self) -> (r: Self)
        ensures
            r == *self,
    {
        ShapeInjection { syntax: self.syntax.clone() }
    }
}

impl AstNode for ShapeInjection {
    open spec fn wrapped_kind() -> SyntaxKind {
        SyntaxKind::ShapeInjection
    }

    closed spec fn node(&self) -> SyntaxNode {
        self.syntax
    }

    fn can_cast(kind: SyntaxKind) -> (r: bool) {
        kind == SyntaxKind::ShapeInjection
    }

    fn cast(node: SyntaxNode) -> (r: Option<Self>) {
        if Self::can_cast(node.kind()) {
            Some(ShapeInjection { syntax: node })
        } else {
            None
        }
    }

    fn syntax(&self) -> (r: &SyntaxNode) {
        &self.syntax
    }
}

impl ShapeInjection {
    /// The injected shape's name.
    pub fn name(&self) -> (r: Option<SyntaxToken>)
        ensures
            nth_token_is(self.node(), r, TokenSelect::IdentLike, 0),
    {
        nth_token(&self.syntax, TokenSelect::IdentLike, 0)
    }

    /// The shape's qualified name.
    pub fn qualified_name(&self) -> (r: Option<QualifiedName>)
        ensures
            first_child_is(self.node(), r, SyntaxKind::QualifiedName),
    {
        first_child_of_type::<QualifiedName>(&self.syntax)
    }

    /// The full shape name, package qualifier included: the qualified name
    /// if there is one, else the plain name, else the empty string.
    pub fn full_name(&self) -> (r: String)
        ensures
            r@ == full_name_text(self.node()),
    {
        match self.qualified_name() {
            Some(q) => q.text(),
            None => match self.name() {
                Some(t) => t.text(),
                None => String::new(),
            },
        }
    }

    /// Range start.
    pub fn range_start(&self) -> (r: Option<u32>)
        ensures
            r == int_literal_value(self.node(), 0),
    {
        int_literal(&self.syntax, 0)
    }

    /// Range end.
    pub fn range_end(&self) -> (r: Option<u32>)
        ensures
            r == int_literal_value(self.node(), 1),
    {
        int_literal(&self.syntax, 1)
    }
}

// ── EnumDecl ──

/// `enum Name { ... }`
#[derive(Debug)]
pub struct EnumDecl {
    syntax: SyntaxNode,
}

impl Clone for EnumDecl {
    fn clone(&self) -> (r: Self)
        ensures
            r == *self,
    {
        EnumDecl { syntax: self.syntax.clone() }
    }
}

impl AstNode for EnumDecl {
    open spec fn wrapped_kind() -> SyntaxKind {
        SyntaxKind::EnumDecl
    }

    closed spec fn node(&self) -> SyntaxNode {
        self.syntax
    }

    fn can_cast(kind: SyntaxKind) -> (r: bool) {
        kind == SyntaxKind::EnumDecl
    }

    fn cast(node: SyntaxNode) -> (r: Option<Self>) {
        if Self::can_cast(node.kind()) {
            Some(EnumDecl { syntax: node })
        } else {
            None
        }
    }

    fn syntax(&self) -> (r: &SyntaxNode) {
        &self.syntax
    }
}

impl EnumDecl {
    /// The name: the first identifier, or keyword that does not introduce a declaration.
    pub fn name(&self) -> (r: Option<SyntaxToken>)
        ensures
            nth_token_is(self.node(), r, TokenSelect::IdentLike, 0),
    {
        nth_token(&self.syntax, TokenSelect::IdentLike, 0)
    }

    pub fn values(&self) -> (r: Vec<EnumValueDecl>)
        ensures
            children_are(self.node(), r@, SyntaxKind::EnumValueDecl),
    {
        children_of_type::<EnumValueDecl>(&self.syntax)
    }

    /// The annotation calls written just before this declaration, in order.
    pub fn annotations(&self) -> (r: Vec<AnnotationCall>)
        ensures
            annotations_are(self.node(), r@),
    {
        preceding_annotations(&self.syntax)
    }
}

// ── EnumValueDecl ──

/// `Name = N;` inside an enum.
#[derive(Debug)]
pub struct EnumValueDecl {
    syntax: SyntaxNode,
}

impl Clone for EnumValueDecl {
    fn clone(&self) -> (r: Self)
        ensures
            r == *self,
    {
        EnumValueDecl { syntax: self.syntax.clone() }
    }
}

impl AstNode for EnumValueDecl {
    open spec fn wrapped_kind() -> SyntaxKind {
        SyntaxKind::EnumValueDecl
    }

    closed spec fn node(&self) -> SyntaxNode {
        self.syntax
    }

    fn can_cast(kind: SyntaxKind) -> (r: bool) {
        kind == SyntaxKind::EnumValueDecl
    }

    fn cast(node: SyntaxNode) -> (r: Option<Self>) {
        if Self::can_cast(node.kind()) {
            Some(EnumValueDecl { syntax: node })
        } else {
            None
        }
    }

    fn syntax(&self) -> (r: &SyntaxNode) {
        &self.syntax
    }
}

impl EnumValueDecl {
    /// The name: the first identifier, or keyword that does not introduce a declaration.
    pub fn name(&self) -> (r: Option<SyntaxToken>)
        ensures
            nth_token_is(self.node(), r, TokenSelect::IdentLike, 0),
    {
        nth_token(&self.syntax, TokenSelect::IdentLike, 0)
    }

    pub fn value(&self) -> (r: Option<u32>)
        ensures
            r == int_literal_value(self.node(), 0),
    {
        int_literal(&self.syntax, 0)
    }

    /// The annotation calls written just before this declaration, in order.
    pub fn annotations(&self) -> (r: Vec<AnnotationCall>)
        ensures
            annotations_are(self.node(), r@),
    {
        preceding_annotations(&self.syntax)
    }
}

// ── OneofDecl ──

/// `oneof name { ... }`
#[derive(Debug)]
pub struct OneofDecl {
    syntax: SyntaxNode,
}

impl Clone for OneofDecl {
    fn clone(&self) -> (r: Self)
        ensures
            r == *self,
    {
        OneofDecl { syntax: self.syntax.clone() }
    }
}

impl AstNode for OneofDecl {
    open spec fn wrapped_kind() -> SyntaxKind {
        SyntaxKind::OneofDecl
    }

    closed spec fn node(&self) -> SyntaxNode {
        self.syntax
    }

    fn can_cast(kind: SyntaxKind) -> (r: bool) {
        kind == SyntaxKind::OneofDecl
    }

    fn cast(node: SyntaxNode) -> (r: Option<Self>) {
        if Self::can_cast(node.kind()) {
            Some(OneofDecl { syntax: node })
        } else {
            None
        }
    }

    fn syntax(&self) -> (r: &SyntaxNode) {
        &self.syntax
    }
}

impl OneofDecl {
    /// The name: the first identifier, or keyword that does not introduce a declaration.
    pub fn name(&self) -> (r: Option<SyntaxToken>)
        ensures
            nth_token_is(self.node(), r, TokenSelect::IdentLike, 0),
    {
        nth_token(&self.syntax, TokenSelect::IdentLike, 0)
    }

    pub fn fields(&self) -> (r: Vec<OneofField>)
        ensures
            children_are(self.node(), r@, SyntaxKind::OneofField),
    {
        children_of_type::<OneofField>(&self.syntax)
    }

    /// The annotation calls written just before this declaration, in order.
    pub fn annotations(&self) -> (r: Vec<AnnotationCall>)
        ensures
            annotations_are(self.node(), r@),
    {
        preceding_annotations(&self.syntax)
    }
}

// ── OneofField ──

/// A field of a oneof.
#[derive(Debug)]
pub struct OneofField {
    syntax: SyntaxNode,
}

impl Clone for OneofField {
    fn clone(&self) -> (r: Self)
        ensures
            r == *self,
    {
        OneofField { syntax: self.syntax.clone() }
    }
}

impl AstNode for OneofField {
    open spec fn wrapped_kind() -> SyntaxKind {
        SyntaxKind::OneofField
    }

    closed spec fn node(&self) -> SyntaxNode {
        self.syntax
    }

    fn can_cast(kind: SyntaxKind) -> (r: bool) {
        kind == SyntaxKind::OneofField
    }

    fn cast(node: SyntaxNode) -> (r: Option<Self>) {
        if Self::can_cast(node.kind()) {
            Some(OneofField { syntax: node })
        } else {
            None
        }
    }

    fn syntax(&self) -> (r: &SyntaxNode) {
        &self.syntax
    }
}

impl OneofField {
    pub fn type_ref(&self) -> (r: Option<TypeRef>)
        ensures
            first_child_is(self.node(), r, SyntaxKind::TypeRef),
    {
        first_child_of_type::<TypeRef>(&self.syntax)
    }

    /// The name: the first identifier, or keyword that does not introduce a declaration.
    pub fn name(&self) -> (r: Option<SyntaxToken>)
        ensures
            nth_token_is(self.node(), r, TokenSelect::IdentLike, 0),
    {
        nth_token(&self.syntax, TokenSelect::IdentLike, 0)
    }

    pub fn field_number(&self) -> (r: Option<u32>)
        ensures
            r == int_literal_value(self.node(), 0),
    {
        int_literal(&self.syntax, 0)
    }

    pub fn mapping(&self) -> (r: Option<MappingSource>)
        ensures
            first_child_is(self.node(), r, SyntaxKind::MappingSource),
    {
        first_child_of_type::<MappingSource>(&self.syntax)
    }

    /// The annotation calls written just before this declaration, in order.
    pub fn annotations(&self) -> (r: Vec<AnnotationCall>)
        ensures
            annotations_are(self.node(), r@),
    {
        preceding_annotations(&self.syntax)
    }
}

// ── ServiceDecl ──

/// `service Name { ... }`
#[derive(Debug)]
pub struct ServiceDecl {
    syntax: SyntaxNode,
}

impl Clone for ServiceDecl {
    fn clone(&self) -> (r: Self)
        ensures
            r == *self,
    {
        ServiceDecl { syntax: self.syntax.clone() }
    }
}

impl AstNode for ServiceDecl {
    open spec fn wrapped_kind() -> SyntaxKind {
        SyntaxKind::ServiceDecl
    }

    closed spec fn node(&self) -> SyntaxNode {
        self.syntax
    }

    fn can_cast(kind: SyntaxKind) -> (r: bool) {
        kind == SyntaxKind::ServiceDecl
    }

    fn cast(node: SyntaxNode) -> (r: Option<Self>) {
        if Self::can_cast(node.kind()) {
            Some(ServiceDecl { syntax: node })
        } else {
            None
        }
    }

    fn syntax(&self) -> (r: &SyntaxNode) {
        &self.syntax
    }
}

impl ServiceDecl {
    /// The name: the first identifier, or keyword that does not introduce a declaration.
    pub fn name(&self) -> (r: Option<SyntaxToken>)
        ensures
            nth_token_is(self.node(), r, TokenSelect::IdentLike, 0),
    {
        nth_token(&self.syntax, TokenSelect::IdentLike, 0)
    }

    pub fn rpcs(&self) -> (r: Vec<RpcDecl>)
        ensures
            children_are(self.node(), r@, SyntaxKind::RpcDecl),
    {
        children_of_type::<RpcDecl>(&self.syntax)
    }

    /// The annotation calls written just before this declaration, in order.
    pub fn annotations(&self) -> (r: Vec<AnnotationCall>)
        ensures
            annotations_are(self.node(), r@),
    {
        preceding_annotations(&self.syntax)
    }
}

// ── RpcDecl ──

/// `rpc Name(Input) -> Output;`
#[derive(Debug)]
pub struct RpcDecl {
    syntax: SyntaxNode,
}

impl Clone for RpcDecl {
    fn clone(&self) -> (r: Self)
        ensures
            r == *self,
    {
        RpcDecl { syntax: self.syntax.clone() }
    }
}

impl AstNode for RpcDecl {
    open spec fn wrapped_kind() -> SyntaxKind {
        SyntaxKind::RpcDecl
    }

    closed spec fn node(&self) -> SyntaxNode {
        self.syntax
    }

    fn can_cast(kind: SyntaxKind) -> (r: bool) {
        kind == SyntaxKind::RpcDecl
    }

    fn cast(node: SyntaxNode) -> (r: Option<Self>) {
        if Self::can_cast(node.kind()) {
            Some(RpcDecl { syntax: node })
        } else {
            None
        }
    }

    fn syntax(&self) -> (r: &SyntaxNode) {
        &self.syntax
    }
}

impl RpcDecl {
    /// The name: the first identifier, or keyword that does not introduce a declaration.
    pub fn name(&self) -> (r: Option<SyntaxToken>)
        ensures
            nth_token_is(self.node(), r, TokenSelect::IdentLike, 0),
    {
        nth_token(&self.syntax, TokenSelect::IdentLike, 0)
    }

    /// Input and output parameters, in that order.
    pub fn params(&self) -> (r: Vec<RpcParam>)
        ensures
            children_are(self.node(), r@, SyntaxKind::RpcParam),
    {
        children_of_type::<RpcParam>(&self.syntax)
    }

    pub fn input(&self) -> (r: Option<RpcParam>)
        ensures
            nth_child_is(self.node(), r, SyntaxKind::RpcParam, 0),
    {
        nth_child_of_type::<RpcParam>(&self.syntax, 0)
    }

    pub fn output(&self) -> (r: Option<RpcParam>)
        ensures
            nth_child_is(self.node(), r, SyntaxKind::RpcParam, 1),
    {
        nth_child_of_type::<RpcParam>(&self.syntax, 1)
    }

    /// The annotation calls written just before this declaration, in order.
    pub fn annotations(&self) -> (r: Vec<AnnotationCall>)
        ensures
            annotations_are(self.node(), r@),
    {
        preceding_annotations(&self.syntax)
    }
}

// ── RpcParam ──

/// The input or output of an rpc.
#[derive(Debug)]
pub struct RpcParam {
    syntax: SyntaxNode,
}

impl Clone for RpcParam {
    fn clone(&self) -> (r: Self)
        ensures
            r == *self,
    {
        RpcParam { syntax: self.syntax.clone() }
    }
}

impl AstNode for RpcParam {
    open spec fn wrapped_kind() -> SyntaxKind {
        SyntaxKind::RpcParam
    }

    closed spec fn node(&self) -> SyntaxNode {
        self.syntax
    }

    fn can_cast(kind: SyntaxKind) -> (r: bool) {
        kind == SyntaxKind::RpcParam
    }

    fn cast(node: SyntaxNode) -> (r: Option<Self>) {
        if Self::can_cast(node.kind()) {
            Some(RpcParam { syntax: node })
        } else {
            None
        }
    }

    fn syntax(&self) -> (r: &SyntaxNode) {
        &self.syntax
    }
}

impl RpcParam {
    pub fn is_void(&self) -> (r: bool)
        ensures
            r == (token_slots(self.node().tree(), self.node().elements(), TokenSelect::Kind(SyntaxKind::KwVoid)).len() > 0),
    {
        self.syntax.token_slot_list(TokenSelect::Kind(SyntaxKind::KwVoid)).len() > 0
    }

    pub fn is_stream(&self) -> (r: bool)
        ensures
            r == (token_slots(self.node().tree(), self.node().elements(), TokenSelect::Kind(SyntaxKind::KwStream)).len() > 0),
    {
        self.syntax.token_slot_list(TokenSelect::Kind(SyntaxKind::KwStream)).len() > 0
    }

    pub fn type_ref(&self) -> (r: Option<TypeRef>)
        ensures
            first_child_is(self.node(), r, SyntaxKind::TypeRef),
    {
        first_child_of_type::<TypeRef>(&self.syntax)
    }

    pub fn inline_type(&self) -> (r: Option<InlineType>)
        ensures
            first_child_is(self.node(), r, SyntaxKind::InlineType),
    {
        first_child_of_type::<InlineType>(&self.syntax)
    }
}

// ── InlineType ──

/// A type written in place, in braces.
#[derive(Debug)]
pub struct InlineType {
    syntax: SyntaxNode,
}

impl Clone for InlineType {
    fn clone(&self) -> (r: Self)
        ensures
            r == *self,
    {
        InlineType { syntax: self.syntax.clone() }
    }
}

impl AstNode for InlineType {
    open spec fn wrapped_kind() -> SyntaxKind {
        SyntaxKind::InlineType
    }

    closed spec fn node(&self) -> SyntaxNode {
        self.syntax
    }

    fn can_cast(kind: SyntaxKind) -> (r: bool) {
        kind == SyntaxKind::InlineType
    }

    fn cast(node: SyntaxNode) -> (r: Option<Self>) {
        if Self::can_cast(node.kind()) {
            Some(InlineType { syntax: node })
        } else {
            None
        }
    }

    fn syntax(&self) -> (r: &SyntaxNode) {
        &self.syntax
    }
}

impl InlineType {
    pub fn fields(&self) -> (r: Vec<FieldDecl>)
        ensures
            children_are(self.node(), r@, SyntaxKind::FieldDecl),
    {
        children_of_type::<FieldDecl>(&self.syntax)
    }

    pub fn oneofs(&self) -> (r: Vec<OneofDecl>)
        ensures
            children_are(self.node(), r@, SyntaxKind::OneofDecl),
    {
        children_of_type::<OneofDecl>(&self.syntax)
    }

    pub fn shape_injections(&self) -> (r: Vec<ShapeInjection>)
        ensures
            children_are(self.node(), r@, SyntaxKind::ShapeInjection),
    {
        children_of_type::<ShapeInjection>(&self.syntax)
    }
}

// ── AnnotationDecl ──

/// `annotation Name for targets { ... }`
#[derive(Debug)]
pub struct AnnotationDecl {
    syntax: SyntaxNode,
}

impl Clone for AnnotationDecl {
    fn clone(&self) -> (r: Self)
        ensures
            r == *self,
    {
        AnnotationDecl { syntax: self.syntax.clone() }
    }
}

impl AstNode for AnnotationDecl {
    open spec fn wrapped_kind() -> SyntaxKind {
        SyntaxKind::AnnotationDecl
    }

    closed spec fn node(&self) -> SyntaxNode {
        self.syntax
    }

    fn can_cast(kind: SyntaxKind) -> (r: bool) {
        kind == SyntaxKind::AnnotationDecl
    }

    fn cast(node: SyntaxNode) -> (r: Option<Self>) {
        if Self::can_cast(node.kind()) {
            Some(AnnotationDecl { syntax: node })
        } else {
            None
        }
    }

    fn syntax(&self) -> (r: &SyntaxNode) {
        &self.syntax
    }
}

impl AnnotationDecl {
    /// The name: the first identifier, or keyword that does not introduce a declaration.
    pub fn name(&self) -> (r: Option<SyntaxToken>)
        ensures
            nth_token_is(self.node(), r, TokenSelect::IdentLike, 0),
    {
        nth_token(&self.syntax, TokenSelect::IdentLike, 0)
    }

    pub fn targets(&self) -> (r: Option<AnnotationTargets>)
        ensures
            first_child_is(self.node(), r, SyntaxKind::AnnotationTargets),
    {
        first_child_of_type::<AnnotationTargets>(&self.syntax)
    }

    pub fn fields(&self) -> (r: Vec<AnnotationField>)
        ensures
            children_are(self.node(), r@, SyntaxKind::AnnotationField),
    {
        children_of_type::<AnnotationField>(&self.syntax)
    }

    pub fn compositions(&self) -> (r: Vec<AnnotationComposition>)
        ensures
            children_are(self.node(), r@, SyntaxKind::AnnotationComposition),
    {
        children_of_type::<AnnotationComposition>(&self.syntax)
    }
}

// ── AnnotationTargets ──

/// `for type|field` in an annotation declaration.
#[derive(Debug)]
pub struct AnnotationTargets {
    syntax: SyntaxNode,
}

impl Clone for AnnotationTargets {
    fn clone(&self) -> (r: Self)
        ensures
            r == *self,
    {
        AnnotationTargets { syntax: self.syntax.clone() }
    }
}

impl AstNode for AnnotationTargets {
    open spec fn wrapped_kind() -> SyntaxKind {
        SyntaxKind::AnnotationTargets
    }

    closed spec fn node(&self) -> SyntaxNode {
        self.syntax
    }

    fn can_cast(kind: SyntaxKind) -> (r: bool) {
        kind == SyntaxKind::AnnotationTargets
    }

    fn cast(node: SyntaxNode) -> (r: Option<Self>) {
        if Self::can_cast(node.kind()) {
            Some(AnnotationTargets { syntax: node })
        } else {
            None
        }
    }

    fn syntax(&self) -> (r: &SyntaxNode) {
        &self.syntax
    }
}

impl AnnotationTargets {
    /// Target names as strings, such as `["type", "field"]`.
    pub fn targets(&self) -> (r: Vec<String>)
        ensures
            texts_are(self.node(), r@, TokenSelect::Target),
    {
        token_texts(&self.syntax, TokenSelect::Target)
    }
}

// ── AnnotationField ──

/// A parameter of an annotation declaration.
#[derive(Debug)]
pub struct AnnotationField {
    syntax: SyntaxNode,
}

impl Clone for AnnotationField {
    fn clone(&self) -> (r: Self)
        ensures
            r == *self,
    {
        AnnotationField { syntax: self.syntax.clone() }
    }
}

impl AstNode for AnnotationField {
    open spec fn wrapped_kind() -> SyntaxKind {
        SyntaxKind::AnnotationField
    }

    closed spec fn node(&self) -> SyntaxNode {
        self.syntax
    }

    fn can_cast(kind: SyntaxKind) -> (r: bool) {
        kind == SyntaxKind::AnnotationField
    }

    fn cast(node: SyntaxNode) -> (r: Option<Self>) {
        if Self::can_cast(node.kind()) {
            Some(AnnotationField { syntax: node })
        } else {
            None
        }
    }

    fn syntax(&self) -> (r: &SyntaxNode) {
        &self.syntax
    }
}

impl AnnotationField {
    pub fn type_ref(&self) -> (r: Option<TypeRef>)
        ensures
            first_child_is(self.node(), r, SyntaxKind::TypeRef),
    {
        first_child_of_type::<TypeRef>(&self.syntax)
    }

    /// The name: the first identifier, or keyword that does not introduce a declaration.
    pub fn name(&self) -> (r: Option<SyntaxToken>)
        ensures
            nth_token_is(self.node(), r, TokenSelect::IdentLike, 0),
    {
        nth_token(&self.syntax, TokenSelect::IdentLike, 0)
    }

    pub fn is_optional(&self) -> (r: bool)
        ensures
            r == (token_slots(self.node().tree(), self.node().elements(), TokenSelect::Kind(SyntaxKind::Question)).len() > 0),
    {
        self.syntax.token_slot_list(TokenSelect::Kind(SyntaxKind::Question)).len() > 0
    }

    pub fn inline_type(&self) -> (r: Option<InlineAnnotationType>)
        ensures
            first_child_is(self.node(), r, SyntaxKind::InlineAnnotationType),
    {
        first_child_of_type::<InlineAnnotationType>(&self.syntax)
    }
}

// ── AnnotationComposition ──

/// `lib::Name(args)` inside an annotation declaration.
#[derive(Debug)]
pub struct AnnotationComposition {
    syntax: SyntaxNode,
}

impl Clone for AnnotationComposition {
    fn clone(&self) -> (r: Self)
        ensures
            r == *self,
    {
        AnnotationComposition { syntax: self.syntax.clone() }
    }
}

impl AstNode for AnnotationComposition {
    open spec fn wrapped_kind() -> SyntaxKind {
        SyntaxKind::AnnotationComposition
    }

    closed spec fn node(&self) -> SyntaxNode {
        self.syntax
    }

    fn can_cast(kind: SyntaxKind) -> (r: bool) {
        kind == SyntaxKind::AnnotationComposition
    }

    fn cast(node: SyntaxNode) -> (r: Option<Self>) {
        if Self::can_cast(node.kind()) {
            Some(AnnotationComposition { syntax: node })
        } else {
            None
        }
    }

    fn syntax(&self) -> (r: &SyntaxNode) {
        &self.syntax
    }
}

impl AnnotationComposition {
    /// The library name and the annotation name, `(library, name)`.
    pub fn qualified_name(&self) -> (r: Option<(String, String)>)
        ensures
            text_pair_is(self.node(), r),
    {
        first_two_texts(&self.syntax)
    }

    pub fn args(&self) -> (r: Option<AnnotationArgs>)
        ensures
            first_child_is(self.node(), r, SyntaxKind::AnnotationArgs),
    {
        first_child_of_type::<AnnotationArgs>(&self.syntax)
    }
}

// ── InlineAnnotationType ──

/// An annotation parameter type written in place.
#[derive(Debug)]
pub struct InlineAnnotationType {
    syntax: SyntaxNode,
}

impl Clone for InlineAnnotationType {
    fn clone(&self) -> (r: Self)
        ensures
            r == *self,
    {
        InlineAnnotationType { syntax: self.syntax.clone() }
    }
}

impl AstNode for InlineAnnotationType {
    open spec fn wrapped_kind() -> SyntaxKind {
        SyntaxKind::InlineAnnotationType
    }

    closed spec fn node(&self) -> SyntaxNode {
        self.syntax
    }

    fn can_cast(kind: SyntaxKind) -> (r: bool) {
        kind == SyntaxKind::InlineAnnotationType
    }

    fn cast(node: SyntaxNode) -> (r: Option<Self>) {
        if Self::can_cast(node.kind()) {
            Some(InlineAnnotationType { syntax: node })
        } else {
            None
        }
    }

    fn syntax(&self) -> (r: &SyntaxNode) {
        &self.syntax
    }
}

impl InlineAnnotationType {
    pub fn fields(&self) -> (r: Vec<AnnotationField>)
        ensures
            children_are(self.node(), r@, SyntaxKind::AnnotationField),
    {
        children_of_type::<AnnotationField>(&self.syntax)
    }

    pub fn compositions(&self) -> (r: Vec<AnnotationComposition>)
        ensures
            children_are(self.node(), r@, SyntaxKind::AnnotationComposition),
    {
        children_of_type::<AnnotationComposition>(&self.syntax)
    }
}

// ── AnnotationCall ──

/// `@name(args)` or `@lib::Name(args)`.
#[derive(Debug)]
pub struct AnnotationCall {
    syntax: SyntaxNode,
}

impl Clone for AnnotationCall {
    fn clone(&self) -> (r: Self)
        ensures
            r == *self,
    {
        AnnotationCall { syntax: self.syntax.clone() }
    }
}

impl AstNode for AnnotationCall {
    open spec fn wrapped_kind() -> SyntaxKind {
        SyntaxKind::AnnotationCall
    }

    closed spec fn node(&self) -> SyntaxNode {
        self.syntax
    }

    fn can_cast(kind: SyntaxKind) -> (r: bool) {
        kind == SyntaxKind::AnnotationCall
    }

    fn cast(node: SyntaxNode) -> (r: Option<Self>) {
        if Self::can_cast(node.kind()) {
            Some(AnnotationCall { syntax: node })
        } else {
            None
        }
    }

    fn syntax(&self) -> (r: &SyntaxNode) {
        &self.syntax
    }
}

impl AnnotationCall {
    /// Whether this is a built-in annotation (`@default`, `@cast`, `@removed`, `@reserved`).
    pub fn is_builtin(&self) -> (r: bool)
        ensures
            r == (token_slots(self.node().tree(), self.node().elements(), TokenSelect::Builtin).len() > 0),
    {
        self.syntax.token_slot_list(TokenSelect::Builtin).len() > 0
    }

    /// For a built-in annotation, its keyword.
    pub fn builtin_name(&self) -> (r: Option<SyntaxToken>)
        ensures
            nth_token_is(self.node(), r, TokenSelect::Builtin, 0),
    {
        nth_token(&self.syntax, TokenSelect::Builtin, 0)
    }

    /// For a library annotation, `(library, name)`.
    pub fn library_name(&self) -> (r: Option<(String, String)>)
        ensures
            text_pair_is(self.node(), r),
    {
        first_two_texts(&self.syntax)
    }

    pub fn args(&self) -> (r: Option<AnnotationArgs>)
        ensures
            first_child_is(self.node(), r, SyntaxKind::AnnotationArgs),
    {
        first_child_of_type::<AnnotationArgs>(&self.syntax)
    }
}

// ── AnnotationArgs ──

/// The parenthesised arguments of an annotation call.
#[derive(Debug)]
pub struct AnnotationArgs {
    syntax: SyntaxNode,
}

impl Clone for AnnotationArgs {
    fn clone(&self) -> (r: Self)
        ensures
            r == *self,
    {
        AnnotationArgs { syntax: self.syntax.clone() }
    }
}

impl AstNode for AnnotationArgs {
    open spec fn wrapped_kind() -> SyntaxKind {
        SyntaxKind::AnnotationArgs
    }

    closed spec fn node(&self) -> SyntaxNode {
        self.syntax
    }

    fn can_cast(kind: SyntaxKind) -> (r: bool) {
        kind == SyntaxKind::AnnotationArgs
    }

    fn cast(node: SyntaxNode) -> (r: Option<Self>) {
        if Self::can_cast(node.kind()) {
            Some(AnnotationArgs { syntax: node })
        } else {
            None
        }
    }

    fn syntax(&self) -> (r: &SyntaxNode) {
        &self.syntax
    }
}

impl AnnotationArgs {
    pub fn args(&self) -> (r: Vec<AnnotationArg>)
        ensures
            children_are(self.node(), r@, SyntaxKind::AnnotationArg),
    {
        children_of_type::<AnnotationArg>(&self.syntax)
    }
}

// ── AnnotationArg ──

/// `[name =] value` in annotation arguments.
#[derive(Debug)]
pub struct AnnotationArg {
    syntax: SyntaxNode,
}

impl Clone for AnnotationArg {
    fn clone(&self) -> (r: Self)
        ensures
            r == *self,
    {
        AnnotationArg { syntax: self.syntax.clone() }
    }
}

impl AstNode for AnnotationArg {
    open spec fn wrapped_kind() -> SyntaxKind {
        SyntaxKind::AnnotationArg
    }

    closed spec fn node(&self) -> SyntaxNode {
        self.syntax
    }

    fn can_cast(kind: SyntaxKind) -> (r: bool) {
        kind == SyntaxKind::AnnotationArg
    }

    fn cast(node: SyntaxNode) -> (r: Option<Self>) {
        if Self::can_cast(node.kind()) {
            Some(AnnotationArg { syntax: node })
        } else {
            None
        }
    }

    fn syntax(&self) -> (r: &SyntaxNode) {
        &self.syntax
    }
}

impl AnnotationArg {
    /// The parameter name, in the `name = value` form.
    pub fn name(&self) -> (r: Option<SyntaxToken>)
        ensures
            ({
                let s = token_slots(self.node().tree(), self.node().elements(), TokenSelect::NonTrivia);
                if s.len() >= 2 && slot_token_kind(self.node(), s[1]) == SyntaxKind::Eq {
                    r matches Some(t) && self.node().has_token_at(t, s[0])
                } else {
                    r is None
                }
            }),
    {
        let mut toks = self.syntax.tokens_selected(TokenSelect::NonTrivia);
        if toks.len() >= 2 && toks[1].kind() == SyntaxKind::Eq {
            Some(toks.swap_remove(0))
        } else {
            None
        }
    }

    pub fn value(&self) -> (r: Option<AnnotationValue>)
        ensures
            first_child_is(self.node(), r, SyntaxKind::AnnotationValue),
    {
        first_child_of_type::<AnnotationValue>(&self.syntax)
    }
}

// ── AnnotationValue ──

/// The value of an annotation argument.
#[derive(Debug)]
pub struct AnnotationValue {
    syntax: SyntaxNode,
}

impl Clone for AnnotationValue {
    fn clone(&self) -> (r: Self)
        ensures
            r == *self,
    {
        AnnotationValue { syntax: self.syntax.clone() }
    }
}

impl AstNode for AnnotationValue {
    open spec fn wrapped_kind() -> SyntaxKind {
        SyntaxKind::AnnotationValue
    }

    closed spec fn node(&self) -> SyntaxNode {
        self.syntax
    }

    fn can_cast(kind: SyntaxKind) -> (r: bool) {
        kind == SyntaxKind::AnnotationValue
    }

    fn cast(node: SyntaxNode) -> (r: Option<Self>) {
        if Self::can_cast(node.kind()) {
            Some(AnnotationValue { syntax: node })
        } else {
            None
        }
    }

    fn syntax(&self) -> (r: &SyntaxNode) {
        &self.syntax
    }
}

// ── TypeRef ──

/// A reference to a type.
#[derive(Debug)]
pub struct TypeRef {
    syntax: SyntaxNode,
}

impl Clone for TypeRef {
    fn clone(&self) -> (r: Self)
        ensures
            r == *self,
    {
        TypeRef { syntax: self.syntax.clone() }
    }
}

impl AstNode for TypeRef {
    open spec fn wrapped_kind() -> SyntaxKind {
        SyntaxKind::TypeRef
    }

    closed spec fn node(&self) -> SyntaxNode {
        self.syntax
    }

    fn can_cast(kind: SyntaxKind) -> (r: bool) {
        kind == SyntaxKind::TypeRef
    }

    fn cast(node: SyntaxNode) -> (r: Option<Self>) {
        if Self::can_cast(node.kind()) {
            Some(TypeRef { syntax: node })
        } else {
            None
        }
    }

    fn syntax(&self) -> (r: &SyntaxNode) {
        &self.syntax
    }
}

impl TypeRef {
    pub fn is_optional(&self) -> (r: bool)
        ensures
            r == (node_slots(self.node().tree(), self.node().elements(), SyntaxKind::OptionalMarker).len() > 0),
    {
        first_child_of_type::<OptionalMarker>(&self.syntax).is_some()
    }

    pub fn array_type(&self) -> (r: Option<ArrayType>)
        ensures
            first_child_is(self.node(), r, SyntaxKind::ArrayType),
    {
        first_child_of_type::<ArrayType>(&self.syntax)
    }

    pub fn map_type(&self) -> (r: Option<MapType>)
        ensures
            first_child_is(self.node(), r, SyntaxKind::MapType),
    {
        first_child_of_type::<MapType>(&self.syntax)
    }

    pub fn pick_type(&self) -> (r: Option<PickType>)
        ensures
            first_child_is(self.node(), r, SyntaxKind::PickType),
    {
        first_child_of_type::<PickType>(&self.syntax)
    }

    pub fn omit_type(&self) -> (r: Option<OmitType>)
        ensures
            first_child_is(self.node(), r, SyntaxKind::OmitType),
    {
        first_child_of_type::<OmitType>(&self.syntax)
    }

    pub fn qualified_name(&self) -> (r: Option<QualifiedName>)
        ensures
            first_child_is(self.node(), r, SyntaxKind::QualifiedName),
    {
        first_child_of_type::<QualifiedName>(&self.syntax)
    }

    /// Type arguments of a generic instantiation, such as `[User]` in `Paginated<User>`.
    pub fn type_args(&self) -> (r: Vec<TypeRef>)
        ensures
            children_are(self.node(), r@, SyntaxKind::TypeRef),
    {
        children_of_type::<TypeRef>(&self.syntax)
    }
}

// ── ArrayType ──

/// `[]Type`
#[derive(Debug)]
pub struct ArrayType {
    syntax: SyntaxNode,
}

impl Clone for ArrayType {
    fn clone(&self) -> (r: Self)
        ensures
            r == *self,
    {
        ArrayType { syntax: self.syntax.clone() }
    }
}

impl AstNode for ArrayType {
    open spec fn wrapped_kind() -> SyntaxKind {
        SyntaxKind::ArrayType
    }

    closed spec fn node(&self) -> SyntaxNode {
        self.syntax
    }

    fn can_cast(kind: SyntaxKind) -> (r: bool) {
        kind == SyntaxKind::ArrayType
    }

    fn cast(node: SyntaxNode) -> (r: Option<Self>) {
        if Self::can_cast(node.kind()) {
            Some(ArrayType { syntax: node })
        } else {
            None
        }
    }

    fn syntax(&self) -> (r: &SyntaxNode) {
        &self.syntax
    }
}

impl ArrayType {
    /// The element type.
    pub fn element_type(&self) -> (r: Option<TypeRef>)
        ensures
            first_child_is(self.node(), r, SyntaxKind::TypeRef),
    {
        first_child_of_type::<TypeRef>(&self.syntax)
    }
}

// ── MapType ──

/// `map<K, V>`
#[derive(Debug)]
pub struct MapType {
    syntax: SyntaxNode,
}

impl Clone for MapType {
    fn clone(&self) -> (r: Self)
        ensures
            r == *self,
    {
        MapType { syntax: self.syntax.clone() }
    }
}

impl AstNode for MapType {
    open spec fn wrapped_kind() -> SyntaxKind {
        SyntaxKind::MapType
    }

    closed spec fn node(&self) -> SyntaxNode {
        self.syntax
    }

    fn can_cast(kind: SyntaxKind) -> (r: bool) {
        kind == SyntaxKind::MapType
    }

    fn cast(node: SyntaxNode) -> (r: Option<Self>) {
        if Self::can_cast(node.kind()) {
            Some(MapType { syntax: node })
        } else {
            None
        }
    }

    fn syntax(&self) -> (r: &SyntaxNode) {
        &self.syntax
    }
}

impl MapType {
    /// Key and value types.
    pub fn types(&self) -> (r: Vec<TypeRef>)
        ensures
            children_are(self.node(), r@, SyntaxKind::TypeRef),
    {
        children_of_type::<TypeRef>(&self.syntax)
    }

    pub fn key_type(&self) -> (r: Option<TypeRef>)
        ensures
            nth_child_is(self.node(), r, SyntaxKind::TypeRef, 0),
    {
        nth_child_of_type::<TypeRef>(&self.syntax, 0)
    }

    pub fn value_type(&self) -> (r: Option<TypeRef>)
        ensures
            nth_child_is(self.node(), r, SyntaxKind::TypeRef, 1),
    {
        nth_child_of_type::<TypeRef>(&self.syntax, 1)
    }
}

// ── OptionalMarker ──

/// `?` after a type.
#[derive(Debug)]
pub struct OptionalMarker {
    syntax: SyntaxNode,
}

impl Clone for OptionalMarker {
    fn clone(&self) -> (r: Self)
        ensures
            r == *self,
    {
        OptionalMarker { syntax: self.syntax.clone() }
    }
}

impl AstNode for OptionalMarker {
    open spec fn wrapped_kind() -> SyntaxKind {
        SyntaxKind::OptionalMarker
    }

    closed spec fn node(&self) -> SyntaxNode {
        self.syntax
    }

    fn can_cast(kind: SyntaxKind) -> (r: bool) {
        kind == SyntaxKind::OptionalMarker
    }

    fn cast(node: SyntaxNode) -> (r: Option<Self>) {
        if Self::can_cast(node.kind()) {
            Some(OptionalMarker { syntax: node })
        } else {
            None
        }
    }

    fn syntax(&self) -> (r: &SyntaxNode) {
        &self.syntax
    }
}

// ── PickType ──

/// `Pick<Type, a, b>`
#[derive(Debug)]
pub struct PickType {
    syntax: SyntaxNode,
}

impl Clone for PickType {
    fn clone(&self) -> (r: Self)
        ensures
            r == *self,
    {
        PickType { syntax: self.syntax.clone() }
    }
}

impl AstNode for PickType {
    open spec fn wrapped_kind() -> SyntaxKind {
        SyntaxKind::PickType
    }

    closed spec fn node(&self) -> SyntaxNode {
        self.syntax
    }

    fn can_cast(kind: SyntaxKind) -> (r: bool) {
        kind == SyntaxKind::PickType
    }

    fn cast(node: SyntaxNode) -> (r: Option<Self>) {
        if Self::can_cast(node.kind()) {
            Some(PickType { syntax: node })
        } else {
            None
        }
    }

    fn syntax(&self) -> (r: &SyntaxNode) {
        &self.syntax
    }
}

impl PickType {
    pub fn source_type(&self) -> (r: Option<TypeRef>)
        ensures
            first_child_is(self.node(), r, SyntaxKind::TypeRef),
    {
        first_child_of_type::<TypeRef>(&self.syntax)
    }

    pub fn fields(&self) -> (r: Option<IdentList>)
        ensures
            first_child_is(self.node(), r, SyntaxKind::IdentList),
    {
        first_child_of_type::<IdentList>(&self.syntax)
    }
}

// ── OmitType ──

/// `Omit<Type, a, b>`
#[derive(Debug)]
pub struct OmitType {
    syntax: SyntaxNode,
}

impl Clone for OmitType {
    fn clone(&self) -> (r: Self)
        ensures
            r == *self,
    {
        OmitType { syntax: self.syntax.clone() }
    }
}

impl AstNode for OmitType {
    open spec fn wrapped_kind() -> SyntaxKind {
        SyntaxKind::OmitType
    }

    closed spec fn node(&self) -> SyntaxNode {
        self.syntax
    }

    fn can_cast(kind: SyntaxKind) -> (r: bool) {
        kind == SyntaxKind::OmitType
    }

    fn cast(node: SyntaxNode) -> (r: Option<Self>) {
        if Self::can_cast(node.kind()) {
            Some(OmitType { syntax: node })
        } else {
            None
        }
    }

    fn syntax(&self) -> (r: &SyntaxNode) {
        &self.syntax
    }
}

impl OmitType {
    pub fn source_type(&self) -> (r: Option<TypeRef>)
        ensures
            first_child_is(self.node(), r, SyntaxKind::TypeRef),
    {
        first_child_of_type::<TypeRef>(&self.syntax)
    }

    pub fn fields(&self) -> (r: Option<IdentList>)
        ensures
            first_child_is(self.node(), r, SyntaxKind::IdentList),
    {
        first_child_of_type::<IdentList>(&self.syntax)
    }
}

// ── QualifiedName ──

/// A dotted name.
#[derive(Debug)]
pub struct QualifiedName {
    syntax: SyntaxNode,
}

impl Clone for QualifiedName {
    fn clone(&self) -> (r: Self)
        ensures
            r == *self,
    {
        QualifiedName { syntax: self.syntax.clone() }
    }
}

impl AstNode for QualifiedName {
    open spec fn wrapped_kind() -> SyntaxKind {
        SyntaxKind::QualifiedName
    }

    closed spec fn node(&self) -> SyntaxNode {
        self.syntax
    }

    fn can_cast(kind: SyntaxKind) -> (r: bool) {
        kind == SyntaxKind::QualifiedName
    }

    fn cast(node: SyntaxNode) -> (r: Option<Self>) {
        if Self::can_cast(node.kind()) {
            Some(QualifiedName { syntax: node })
        } else {
            None
        }
    }

    fn syntax(&self) -> (r: &SyntaxNode) {
        &self.syntax
    }
}

impl QualifiedName {
    /// All segments of the name, such as `["uuid", "UUID"]`.
    pub fn segments(&self) -> (r: Vec<String>)
        ensures
            texts_are(self.node(), r@, TokenSelect::Kind(SyntaxKind::Ident)),
    {
        token_texts(&self.syntax, TokenSelect::Kind(SyntaxKind::Ident))
    }

    /// The full dotted name.
    pub fn text(&self) -> (r: String)
        ensures
            r@ == text_of(joined(selected_bytes(self.node(), TokenSelect::Kind(SyntaxKind::Ident)), seq![46u8])),
    {
        let sep: Vec<u8> = vec![46u8];
        proof {
            assert(sep@ =~= seq![46u8]);
        }
        bytes_to_string(joined_bytes(&self.syntax, TokenSelect::Kind(SyntaxKind::Ident), sep.as_slice()))
    }
}

// ── IdentList ──

/// A comma-separated list of names.
#[derive(Debug)]
pub struct IdentList {
    syntax: SyntaxNode,
}

impl Clone for IdentList {
    fn clone(&self) -> (r: Self)
        ensures
            r == *self,
    {
        IdentList { syntax: self.syntax.clone() }
    }
}

impl AstNode for IdentList {
    open spec fn wrapped_kind() -> SyntaxKind {
        SyntaxKind::IdentList
    }

    closed spec fn node(&self) -> SyntaxNode {
        self.syntax
    }

    fn can_cast(kind: SyntaxKind) -> (r: bool) {
        kind == SyntaxKind::IdentList
    }

    fn cast(node: SyntaxNode) -> (r: Option<Self>) {
        if Self::can_cast(node.kind()) {
            Some(IdentList { syntax: node })
        } else {
            None
        }
    }

    fn syntax(&self) -> (r: &SyntaxNode) {
        &self.syntax
    }
}

impl IdentList {
    pub fn names(&self) -> (r: Vec<SyntaxToken>)
        ensures
            tokens_are(self.node(), r@, TokenSelect::Kind(SyntaxKind::Ident)),
    {
        self.syntax.tokens_selected(TokenSelect::Kind(SyntaxKind::Ident))
    }
}

// ── NestedTypeDecl ──

/// A type declared inside a type.
#[derive(Debug)]
pub struct NestedTypeDecl {
    syntax: SyntaxNode,
}

impl Clone for NestedTypeDecl {
    fn clone(&self) -> (r: Self)
        ensures
            r == *self,
    {
        NestedTypeDecl { syntax: self.syntax.clone() }
    }
}

impl AstNode for NestedTypeDecl {
    open spec fn wrapped_kind() -> SyntaxKind {
        SyntaxKind::NestedTypeDecl
    }

    closed spec fn node(&self) -> SyntaxNode {
        self.syntax
    }

    fn can_cast(kind: SyntaxKind) -> (r: bool) {
        kind == SyntaxKind::NestedTypeDecl
    }

    fn cast(node: SyntaxNode) -> (r: Option<Self>) {
        if Self::can_cast(node.kind()) {
            Some(NestedTypeDecl { syntax: node })
        } else {
            None
        }
    }

    fn syntax(&self) -> (r: &SyntaxNode) {
        &self.syntax
    }
}

impl NestedTypeDecl {
    pub fn type_decl(&self) -> (r: Option<TypeDecl>)
        ensures
            first_child_is(self.node(), r, SyntaxKind::TypeDecl),
    {
        first_child_of_type::<TypeDecl>(&self.syntax)
    }
}

// ── NestedEnumDecl ──

/// An enum declared inside a type.
#[derive(Debug)]
pub struct NestedEnumDecl {
    syntax: SyntaxNode,
}

impl Clone for NestedEnumDecl {
    fn clone(&self) -> (r: Self)
        ensures
            r == *self,
    {
        NestedEnumDecl { syntax: self.syntax.clone() }
    }
}

impl AstNode for NestedEnumDecl {
    open spec fn wrapped_kind() -> SyntaxKind {
        SyntaxKind::NestedEnumDecl
    }

    closed spec fn node(&self) -> SyntaxNode {
        self.syntax
    }

    fn can_cast(kind: SyntaxKind) -> (r: bool) {
        kind == SyntaxKind::NestedEnumDecl
    }

    fn cast(node: SyntaxNode) -> (r: Option<Self>) {
        if Self::can_cast(node.kind()) {
            Some(NestedEnumDecl { syntax: node })
        } else {
            None
        }
    }

    fn syntax(&self) -> (r: &SyntaxNode) {
        &self.syntax
    }
}

impl NestedEnumDecl {
    pub fn enum_decl(&self) -> (r: Option<EnumDecl>)
        ensures
            first_child_is(self.node(), r, SyntaxKind::EnumDecl),
    {
        first_child_of_type::<EnumDecl>(&self.syntax)
    }
}

// ── ReservedDecl ──

/// `@reserved(N)` inside a type.
#[derive(Debug)]
pub struct ReservedDecl {
    syntax: SyntaxNode,
}

impl Clone for ReservedDecl {
    fn clone(&self) -> (r: Self)
        ensures
            r == *self,
    {
        ReservedDecl { syntax: self.syntax.clone() }
    }
}

impl AstNode for ReservedDecl {
    open spec fn wrapped_kind() -> SyntaxKind {
        SyntaxKind::ReservedDecl
    }

    closed spec fn node(&self) -> SyntaxNode {
        self.syntax
    }

    fn can_cast(kind: SyntaxKind) -> (r: bool) {
        kind == SyntaxKind::ReservedDecl
    }

    fn cast(node: SyntaxNode) -> (r: Option<Self>) {
        if Self::can_cast(node.kind()) {
            Some(ReservedDecl { syntax: node })
        } else {
            None
        }
    }

    fn syntax(&self) -> (r: &SyntaxNode) {
        &self.syntax
    }
}

impl ReservedDecl {
    pub fn field_number(&self) -> (r: Option<u32>)
        ensures
            r == int_literal_value(self.node(), 0),
    {
        int_literal(&self.syntax, 0)
    }
}

} // verus!
