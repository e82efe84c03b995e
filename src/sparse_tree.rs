use vstd::prelude::*;

use crate::bytes::{
    bytes_eq, bytes_lt, key_lt, lemma_key_lt_asymmetric, lemma_key_lt_total, lemma_key_lt_transitive,
};
use crate::node::{clone_bytes, max_nat, opt_link_view, Link, LinkView, Node};

verus! {

/// Why a child could not be brought into memory.
#[derive(Debug, PartialEq, Eq, Structural)]
pub enum TreeError {
    /// The backing store has no node for the link.
    NodeNotFound,
    /// The fetched node's key, hash or height differs from the link.
    LinkMismatch,
    /// The fetched node's key lies outside the range its position allows.
    KeyOutOfOrder,
}

/// The backing store that children are fetched from when first visited.
pub trait NodeSource {
    fn get_node(&self, link: &Link) -> Option<Node>;
}

/// A selection of connected nodes of a tree: a node, and those of its
/// children that have been brought into memory.
pub struct SparseTree {
    pub node: Node,
    pub left: Option<Box<SparseTree>>,
    pub right: Option<Box<SparseTree>>,
}

/// Whether `k` lies strictly between the optional bounds.
pub open spec fn key_in(k: Seq<u8>, lo: Option<Seq<u8>>, hi: Option<Seq<u8>>) -> bool {
    &&& (lo.is_some() ==> key_lt(lo.unwrap(), k))
    &&& (hi.is_some() ==> key_lt(k, hi.unwrap()))
}

/// The key that an optional link names.
pub open spec fn link_key_set(l: Option<Link>) -> Set<Seq<u8>> {
    match l {
        Some(l) => set![l.key@],
        None => Set::empty(),
    }
}

/// A fetched node passes the checks against its link: it is there, its
/// child heights fit, and its key, hash and height are the link's.
pub open spec fn fetched_matches(link: LinkView, fetched: Option<Node>) -> bool {
    match fetched {
        None => false,
        Some(n) => {
            &&& n.child_height_spec(true) < 255
            &&& n.child_height_spec(false) < 255
            &&& n.key@ == link.key
            &&& n.hash_spec() == link.hash
            &&& n.height_spec() == link.height
        },
    }
}

pub open spec fn bound_view(b: Option<&[u8]>) -> Option<Seq<u8>> {
    match b {
        Some(s) => Some(s@),
        None => None,
    }
}

/// Bounds for the child on one side of a node with key `k` and bounds `lo`, `hi`.
pub open spec fn child_lo(left: bool, k: Seq<u8>, lo: Option<Seq<u8>>) -> Option<Seq<u8>> {
    if left { lo } else { Some(k) }
}

pub open spec fn child_hi(left: bool, k: Seq<u8>, hi: Option<Seq<u8>>) -> Option<Seq<u8>> {
    if left { Some(k) } else { hi }
}

/// The pairs of byte strings that a list of borrowed pairs holds.
pub open spec fn pairs_view(s: Seq<(&[u8], &[u8])>) -> Seq<(Seq<u8>, Seq<u8>)> {
    s.map_values(|p: (&[u8], &[u8])| (p.0@, p.1@))
}

/// Well-formedness of a subtree does not depend on its node's parent key.
proof fn lemma_wf_in_ignores_parent_key(a: SparseTree, b: SparseTree, lo: Option<Seq<u8>>, hi: Option<Seq<u8>>)
    requires
        a.node.key@ == b.node.key@,
        a.node.left == b.node.left,
        a.node.right == b.node.right,
        a.left == b.left,
        a.right == b.right,
    ensures
        a.wf_in(lo, hi) == b.wf_in(lo, hi),
{
    assert(a.child_ok(true, lo, hi) == b.child_ok(true, lo, hi));
    assert(a.child_ok(false, lo, hi) == b.child_ok(false, lo, hi));
}

/// Every key in memory in a subtree that is well formed within bounds lies
/// within those bounds.
pub proof fn lemma_contents_in(t: SparseTree, lo: Option<Seq<u8>>, hi: Option<Seq<u8>>)
    requires
        t.wf_in(lo, hi),
    ensures
        forall|p: (Seq<u8>, Seq<u8>)| t.contents().contains(p) ==> key_in(p.0, lo, hi),
    decreases t,
{
    let k = t.node.key@;
    assert(t.child_ok(true, lo, hi));
    assert(t.child_ok(false, lo, hi));
    if t.left.is_some() {
        lemma_contents_in(*t.left.unwrap(), lo, Some(k));
    }
    if t.right.is_some() {
        lemma_contents_in(*t.right.unwrap(), Some(k), hi);
    }
    assert forall|p: (Seq<u8>, Seq<u8>)| t.contents().contains(p) implies key_in(p.0, lo, hi) by {
        if t.side_contents(true).contains(p) {
            assert(t.left.unwrap().contents().contains(p));
            if hi.is_some() {
                lemma_key_lt_transitive(p.0, k, hi.unwrap());
            }
        } else if t.side_contents(false).contains(p) {
            assert(t.right.unwrap().contents().contains(p));
            if lo.is_some() {
                lemma_key_lt_transitive(lo.unwrap(), k, p.0);
            }
        }
    }
}

/// Keys strictly increase along the sequence.
pub open spec fn strictly_sorted(s: Seq<(Seq<u8>, Seq<u8>)>) -> bool {
    forall|i: int, j: int| 0 <= i < j < s.len() ==> key_lt(#[trigger] s[i].0, #[trigger] s[j].0)
}

proof fn lemma_entries_ordered_in(t: SparseTree, lo: Option<Seq<u8>>, hi: Option<Seq<u8>>)
    requires
        t.wf_in(lo, hi),
    ensures
        strictly_sorted(t.entries_spec()),
        forall|i: int| 0 <= i < t.entries_spec().len() ==> key_in(#[trigger] t.entries_spec()[i].0, lo, hi),
    decreases t,
{
    let k = t.node.key@;
    assert(t.child_ok(true, lo, hi));
    assert(t.child_ok(false, lo, hi));
    if t.left.is_some() {
        lemma_entries_ordered_in(*t.left.unwrap(), lo, Some(k));
    }
    if t.right.is_some() {
        lemma_entries_ordered_in(*t.right.unwrap(), Some(k), hi);
    }
    let l = t.side_entries(true);
    let r = t.side_entries(false);
    let e = t.entries_spec();
    assert(e == l.push((k, t.node.value@)) + r);
    let n = l.len() as int;
    assert forall|i: int| 0 <= i < n implies key_lt(#[trigger] l[i].0, k) && key_in(l[i].0, lo, hi) by {
        if hi.is_some() {
            lemma_key_lt_transitive(l[i].0, k, hi.unwrap());
        }
    }
    assert forall|i: int| 0 <= i < r.len() implies key_lt(k, #[trigger] r[i].0) && key_in(r[i].0, lo, hi) by {
        if lo.is_some() {
            lemma_key_lt_transitive(lo.unwrap(), k, r[i].0);
        }
    }
    assert forall|i: int| 0 <= i < e.len() implies key_in(#[trigger] e[i].0, lo, hi) by {
        if i < n {
            assert(e[i] == l[i]);
        } else if i > n {
            assert(e[i] == r[i - n - 1]);
        }
    }
    assert forall|i: int, j: int| 0 <= i < j < e.len() implies key_lt(#[trigger] e[i].0, #[trigger] e[j].0) by {
        if j < n {
            assert(e[i] == l[i] && e[j] == l[j]);
        } else if j == n {
            assert(e[i] == l[i]);
        } else if i > n {
            assert(e[i] == r[i - n - 1] && e[j] == r[j - n - 1]);
        } else if i == n {
            assert(e[j] == r[j - n - 1]);
        } else {
            assert(e[i] == l[i] && e[j] == r[j - n - 1]);
            lemma_key_lt_transitive(e[i].0, k, e[j].0);
        }
    }
}

/// In a well-formed tree the in-order traversal of the nodes in memory
/// yields strictly increasing keys, so no key appears twice.
pub proof fn lemma_entries_sorted(t: SparseTree)
    requires
        t.wf(),
    ensures
        strictly_sorted(t.entries_spec()),
{
    lemma_entries_ordered_in(t, None, None);
}

/// The in-order traversal holds exactly the pairs of the nodes in memory.
pub proof fn lemma_entries_contents(t: SparseTree)
    ensures
        forall|p: (Seq<u8>, Seq<u8>)| t.entries_spec().contains(p) <==> t.contents().contains(p),
    decreases t,
{
    if t.left.is_some() {
        lemma_entries_contents(*t.left.unwrap());
    }
    if t.right.is_some() {
        lemma_entries_contents(*t.right.unwrap());
    }
    let l = t.side_entries(true);
    let r = t.side_entries(false);
    let me = (t.node.key@, t.node.value@);
    let e = t.entries_spec();
    assert(e == l.push(me) + r);
    let n = l.len() as int;
    assert forall|p: (Seq<u8>, Seq<u8>)| e.contains(p) implies t.contents().contains(p) by {
        let i = choose|i: int| 0 <= i < e.len() && e[i] == p;
        if i < n {
            assert(t.left.is_some());
            assert(l[i] == p);
            assert(t.left.unwrap().entries_spec().contains(p));
            assert(t.left.unwrap().contents().contains(p));
        } else if i > n {
            assert(t.right.is_some());
            assert(r[i - n - 1] == p);
            assert(t.right.unwrap().entries_spec().contains(p));
            assert(t.right.unwrap().contents().contains(p));
        }
    }
    assert forall|p: (Seq<u8>, Seq<u8>)| t.contents().contains(p) implies e.contains(p) by {
        if p == me {
            assert(e[n] == me);
        } else if t.side_contents(true).contains(p) {
            assert(t.left.is_some());
            assert(t.left.unwrap().contents().contains(p));
            assert(l.contains(p));
            let i = choose|i: int| 0 <= i < l.len() && l[i] == p;
            assert(e[i] == p);
        } else {
            assert(t.side_contents(false).contains(p));
            assert(t.right.is_some());
            assert(t.right.unwrap().contents().contains(p));
            assert(r.contains(p));
            let i = choose|i: int| 0 <= i < r.len() && r[i] == p;
            assert(e[n + 1 + i] == p);
        }
    }
}

/// Putting `v1` and then `v2` under key `k` into a tree whose nodes are all
/// in memory leaves the same pairs as putting `v2` alone.
pub proof fn lemma_overwrite_twice(t: SparseTree, k: Seq<u8>, v1: Seq<u8>, v2: Seq<u8>)
    ensures
        t.contents().filter(|p: (Seq<u8>, Seq<u8>)| p.0 != k).insert((k, v1)).filter(
            |p: (Seq<u8>, Seq<u8>)| p.0 != k,
        ).insert((k, v2)) == t.contents().filter(|p: (Seq<u8>, Seq<u8>)| p.0 != k).insert((k, v2)),
{
    assert(t.contents().filter(|p: (Seq<u8>, Seq<u8>)| p.0 != k).insert((k, v1)).filter(
        |p: (Seq<u8>, Seq<u8>)| p.0 != k,
    ).insert((k, v2)) =~= t.contents().filter(|p: (Seq<u8>, Seq<u8>)| p.0 != k).insert((k, v2)));
}

/// The key and height that a link holds.
pub open spec fn link_shape(l: Option<Link>) -> Option<(Seq<u8>, u8)> {
    match l {
        Some(l) => Some((l.key@, l.height)),
        None => None,
    }
}

proof fn lemma_known_from_sides(a: SparseTree, b: SparseTree)
    requires
        a.node.key@ == b.node.key@,
        a.side_keys(true).union(a.side_linked(true)).subset_of(b.side_keys(true).union(b.side_linked(true))),
        a.side_keys(false).union(a.side_linked(false)).subset_of(b.side_keys(false).union(b.side_linked(false))),
    ensures
        a.known_keys().subset_of(b.known_keys()),
{
    assert forall|x: Seq<u8>| a.known_keys().contains(x) implies b.known_keys().contains(x) by {
        if a.side_keys(true).contains(x) || a.side_linked(true).contains(x) {
            assert(b.side_keys(true).union(b.side_linked(true)).contains(x));
        } else if a.side_keys(false).contains(x) || a.side_linked(false).contains(x) {
            assert(b.side_keys(false).union(b.side_linked(false)).contains(x));
        }
    }
}

/// The shape of a tree: keys in place, without values, hashes or links.
pub enum KeyTree {
    Empty,
    Node(Seq<u8>, Box<KeyTree>, Box<KeyTree>),
}

pub open spec fn kt_height(t: KeyTree) -> nat
    decreases t,
{
    match t {
        KeyTree::Empty => 0,
        KeyTree::Node(_, l, r) => 1 + max_nat(kt_height(*l), kt_height(*r)),
    }
}

pub open spec fn kt_side(t: KeyTree, left: bool) -> KeyTree {
    match t {
        KeyTree::Empty => KeyTree::Empty,
        KeyTree::Node(_, l, r) => if left { *l } else { *r },
    }
}

/// Right height minus left height.
pub open spec fn kt_bf(t: KeyTree) -> int {
    kt_height(kt_side(t, false)) - kt_height(kt_side(t, true))
}

/// Lifts the child on side `left` into the root's place; the root takes
/// the child's inner subtree on side `left`.
pub open spec fn kt_rotate(t: KeyTree, left: bool) -> KeyTree {
    match t {
        KeyTree::Node(n, l, r) => {
            match (if left { *l } else { *r }) {
                KeyTree::Node(c, cl, cr) => if left {
                    KeyTree::Node(c, cl, Box::new(KeyTree::Node(n, cr, r)))
                } else {
                    KeyTree::Node(c, Box::new(KeyTree::Node(n, l, cl)), cr)
                },
                KeyTree::Empty => t,
            }
        },
        KeyTree::Empty => t,
    }
}

/// Whether rebalancing a root that leans to side `left` rotates its child
/// first: the child leans the other way.
pub open spec fn kt_double(c: KeyTree, left: bool) -> bool {
    if left { kt_bf(c) > 0 } else { kt_bf(c) < 0 }
}

pub open spec fn kt_straighten(c: KeyTree, left: bool) -> KeyTree {
    if kt_double(c, left) { kt_rotate(c, !left) } else { c }
}

/// Where the sides differ in height by two or more, lifts the taller
/// child, after rotating it the other way if it leans inward.
pub open spec fn kt_rebalance(t: KeyTree) -> KeyTree {
    let bf = kt_bf(t);
    if -1 <= bf <= 1 {
        t
    } else {
        let left = bf < 0;
        match t {
            KeyTree::Node(n, l, r) => {
                let c2 = kt_straighten(if left { *l } else { *r }, left);
                kt_rotate(
                    if left { KeyTree::Node(n, Box::new(c2), r) } else { KeyTree::Node(n, l, Box::new(c2)) },
                    left,
                )
            },
            KeyTree::Empty => t,
        }
    }
}

/// The shape after putting key `k`: found keys stay where they are; a new
/// key becomes a leaf, and each node on the way back up is rebalanced.
pub open spec fn kt_insert(t: KeyTree, k: Seq<u8>) -> KeyTree
    decreases t,
{
    match t {
        KeyTree::Empty => KeyTree::Node(k, Box::new(KeyTree::Empty), Box::new(KeyTree::Empty)),
        KeyTree::Node(n, l, r) => if k == n {
            t
        } else if key_lt(k, n) {
            kt_rebalance(KeyTree::Node(n, Box::new(kt_insert(*l, k)), r))
        } else {
            kt_rebalance(KeyTree::Node(n, l, Box::new(kt_insert(*r, k))))
        },
    }
}

/// Heights in a well-formed tree whose children are all in memory are the
/// heights of its shape.
proof fn lemma_shape_heights(t: SparseTree, lo: Option<Seq<u8>>, hi: Option<Seq<u8>>)
    requires
        t.wf_in(lo, hi),
        t.complete(),
    ensures
        t.node.child_height_spec(true) == kt_height(t.side_shape(true)),
        t.node.child_height_spec(false) == kt_height(t.side_shape(false)),
        t.height_spec() == kt_height(t.shape()),
        t.node.balance_factor_spec() == kt_bf(t.shape()),
    decreases t,
{
    assert(t.child_ok(true, lo, hi));
    assert(t.child_ok(false, lo, hi));
    if t.left.is_some() {
        lemma_shape_heights(*t.left.unwrap(), lo, Some(t.node.key@));
    }
    if t.right.is_some() {
        lemma_shape_heights(*t.right.unwrap(), Some(t.node.key@), hi);
    }
}

/// Trees with the same shape, in the sense of `same_shape`, have equal
/// key shapes; so an overwrite of a present key, which keeps the shape,
/// leaves the shape that putting the key alone gives.
pub proof fn lemma_same_shape_keys(a: SparseTree, b: SparseTree)
    requires
        a.same_shape(b),
    ensures
        a.shape() == b.shape(),
    decreases a,
{
    assert(a.side_same_shape(b, true));
    assert(a.side_same_shape(b, false));
    if a.left.is_some() {
        lemma_same_shape_keys(*a.left.unwrap(), *b.left.unwrap());
    }
    if a.right.is_some() {
        lemma_same_shape_keys(*a.right.unwrap(), *b.right.unwrap());
    }
    assert(a.side_shape(true) == b.side_shape(true));
    assert(a.side_shape(false) == b.side_shape(false));
}

/// Every tree has its own shape.
pub proof fn lemma_same_shape_refl(t: SparseTree)
    ensures
        t.same_shape(t),
    decreases t,
{
    if t.left.is_some() {
        lemma_same_shape_refl(*t.left.unwrap());
    }
    if t.right.is_some() {
        lemma_same_shape_refl(*t.right.unwrap());
    }
    assert(t.side_same_shape(t, true));
    assert(t.side_same_shape(t, false));
}

/// The root node of a well-formed tree, stored and fetched back for the
/// tree's own link, passes every check of `from_fetched`: the tree that
/// comes back has the same root hash.
pub proof fn lemma_stored_root_rehydrates(t: SparseTree)
    requires
        t.wf(),
    ensures
        t.node.child_height_spec(true) < 255,
        t.node.child_height_spec(false) < 255,
        t.node.key@ == t.link_spec().key,
        t.node.hash_spec() == t.link_spec().hash,
        t.node.height_spec() == t.link_spec().height,
{
}

impl SparseTree {
    pub open spec fn child_spec(&self, left: bool) -> Option<Box<SparseTree>> {
        if left { self.left } else { self.right }
    }

    /// The link that a parent holds for this subtree.
    pub open spec fn link_spec(&self) -> LinkView {
        LinkView { key: self.node.key@, hash: self.node.hash_spec(), height: self.node.height_spec() }
    }

    pub open spec fn height_spec(&self) -> nat {
        self.node.height_spec()
    }

    /// The child on one side is consistent with this node: its link matches
    /// it, it points back here, and it is well formed within the bounds
    /// that this node's key leaves it.
    pub open spec fn child_ok(&self, left: bool, lo: Option<Seq<u8>>, hi: Option<Seq<u8>>) -> bool
        decreases self, 0nat,
    {
        match self.child_spec(left) {
            None => true,
            Some(c) => {
                &&& opt_link_view(self.node.child_link_spec(left)) == Some(c.link_spec())
                &&& c.node.parent_key.is_some()
                &&& c.node.parent_key.unwrap()@ == self.node.key@
                &&& c.wf_in(child_lo(left, self.node.key@, lo), child_hi(left, self.node.key@, hi))
            },
        }
    }

    /// Well formed, with every key in memory strictly between `lo` and `hi`.
    pub open spec fn wf_in(&self, lo: Option<Seq<u8>>, hi: Option<Seq<u8>>) -> bool
        decreases self, 1nat,
    {
        &&& key_in(self.node.key@, lo, hi)
        &&& self.node.child_height_spec(true) < 255
        &&& self.node.child_height_spec(false) < 255
        &&& self.child_ok(true, lo, hi)
        &&& self.child_ok(false, lo, hi)
    }

    /// The tree's invariant: ordered keys, links that match the children in
    /// memory, and children that point back to their parent.
    pub open spec fn wf(&self) -> bool {
        self.wf_in(None, None)
    }

    pub open spec fn side_balanced(&self, left: bool) -> bool
        decreases self, 0nat,
    {
        match self.child_spec(left) {
            Some(c) => c.balanced(),
            None => true,
        }
    }

    /// At every node in memory the heights of the two sides differ by at
    /// most one.
    pub open spec fn balanced(&self) -> bool
        decreases self, 1nat,
    {
        &&& -1 <= self.node.balance_factor_spec() <= 1
        &&& self.side_balanced(true)
        &&& self.side_balanced(false)
    }

    pub open spec fn side_same_shape(&self, other: SparseTree, left: bool) -> bool
        decreases self, 0nat,
    {
        match (self.child_spec(left), other.child_spec(left)) {
            (Some(a), Some(b)) => a.same_shape(*b),
            (None, None) => true,
            _ => false,
        }
    }

    /// The same keys in the same places, with links to the same keys and
    /// heights; values, hashes and parent keys may differ.
    pub open spec fn same_shape(&self, other: SparseTree) -> bool
        decreases self, 1nat,
    {
        &&& self.node.key@ == other.node.key@
        &&& link_shape(self.node.left) == link_shape(other.node.left)
        &&& link_shape(self.node.right) == link_shape(other.node.right)
        &&& self.side_same_shape(other, true)
        &&& self.side_same_shape(other, false)
    }

    /// Keys of the linked children out of memory below one side.
    pub open spec fn side_linked(&self, left: bool) -> Set<Seq<u8>>
        decreases self, 0nat,
    {
        match self.child_spec(left) {
            Some(c) => c.linked_keys(),
            None => link_key_set(self.node.child_link_spec(left)),
        }
    }

    /// Keys of the children that links name but that are not in memory,
    /// anywhere in the tree: the subtrees still held only by the store.
    pub open spec fn linked_keys(&self) -> Set<Seq<u8>>
        decreases self, 1nat,
    {
        self.side_linked(true).union(self.side_linked(false))
    }

    /// Keys of the nodes in memory below one side.
    pub open spec fn side_keys(&self, left: bool) -> Set<Seq<u8>>
        decreases self, 0nat,
    {
        match self.child_spec(left) {
            Some(c) => c.keys(),
            None => Set::empty(),
        }
    }

    /// Keys of the nodes in memory.
    pub open spec fn keys(&self) -> Set<Seq<u8>>
        decreases self, 1nat,
    {
        self.side_keys(true).union(self.side_keys(false)).insert(self.node.key@)
    }

    /// Keys of the nodes in memory and of the subtrees only linked.
    pub open spec fn known_keys(&self) -> Set<Seq<u8>> {
        self.keys().union(self.linked_keys())
    }

    pub open spec fn side_shape(&self, left: bool) -> KeyTree
        decreases self, 0nat,
    {
        match self.child_spec(left) {
            Some(c) => c.shape(),
            None => KeyTree::Empty,
        }
    }

    /// The shape of the nodes in memory.
    pub open spec fn shape(&self) -> KeyTree
        decreases self, 1nat,
    {
        KeyTree::Node(self.node.key@, Box::new(self.side_shape(true)), Box::new(self.side_shape(false)))
    }

    /// Every child that a link names is in memory.
    pub open spec fn complete(&self) -> bool
        decreases self,
    {
        &&& (self.node.left.is_some() <==> self.left.is_some())
        &&& (self.node.right.is_some() <==> self.right.is_some())
        &&& (match self.left { Some(c) => c.complete(), None => true })
        &&& (match self.right { Some(c) => c.complete(), None => true })
    }

    /// The (key, value) pairs of the nodes in memory under one side.
    pub open spec fn side_contents(&self, left: bool) -> Set<(Seq<u8>, Seq<u8>)>
        decreases self, 0nat,
    {
        match self.child_spec(left) {
            Some(c) => c.contents(),
            None => Set::empty(),
        }
    }

    /// The (key, value) pairs of the nodes in memory.
    pub open spec fn contents(&self) -> Set<(Seq<u8>, Seq<u8>)>
        decreases self, 1nat,
    {
        self.side_contents(true).union(self.side_contents(false)).insert((self.node.key@, self.node.value@))
    }

    /// The in-order (key, value) pairs of the nodes in memory under one side.
    pub open spec fn side_entries(&self, left: bool) -> Seq<(Seq<u8>, Seq<u8>)>
        decreases self, 0nat,
    {
        match self.child_spec(left) {
            Some(c) => c.entries_spec(),
            None => Seq::empty(),
        }
    }

    /// The (key, value) pairs of the nodes in memory, in order: left
    /// subtree, this node, right subtree.
    pub open spec fn entries_spec(&self) -> Seq<(Seq<u8>, Seq<u8>)>
        decreases self, 1nat,
    {
        self.side_entries(true).push((self.node.key@, self.node.value@)) + self.side_entries(false)
    }

    /// A tree made of the given node alone, with no child in memory.
    pub fn new(node: Node) -> (r: SparseTree)
        ensures
            r.node == node,
            r.left.is_none(),
            r.right.is_none(),
            node.child_height_spec(true) < 255 && node.child_height_spec(false) < 255 ==> r.wf(),
    {
        SparseTree { node, left: None, right: None }
    }

    /// Checks a node fetched for `link` and makes a tree of it alone: an
    /// absent node is `NodeNotFound`; one whose key, hash or height differs
    /// from the link (or whose child heights do not fit) is `LinkMismatch`.
    pub fn from_fetched(link: &Link, fetched: Option<Node>) -> (r: Result<SparseTree, TreeError>)
        ensures
            fetched.is_none() ==> r == Err::<SparseTree, TreeError>(TreeError::NodeNotFound),
            fetched.is_some() ==> {
                let n = fetched.unwrap();
                let fits = n.child_height_spec(true) < 255 && n.child_height_spec(false) < 255;
                if fits && n.key@ == link@.key && n.hash_spec() == link@.hash && n.height_spec() == link@.height {
                    r is Ok && r.unwrap().node == n && r.unwrap().left.is_none() && r.unwrap().right.is_none()
                } else {
                    r == Err::<SparseTree, TreeError>(TreeError::LinkMismatch)
                }
            },
            r is Ok ==> r.unwrap().wf() && r.unwrap().link_spec() == link@,
    {
        match fetched {
            None => Err(TreeError::NodeNotFound),
            Some(node) => {
                if node.child_height(true) >= 255 || node.child_height(false) >= 255 {
                    return Err(TreeError::LinkMismatch);
                }
                let h = node.hash();
                if !bytes_eq(node.key.as_slice(), link.key.as_slice()) || !bytes_eq(h.as_slice(), link.hash.as_slice())
                    || node.height() != link.height {
                    return Err(TreeError::LinkMismatch);
                }
                Ok(SparseTree::new(node))
            },
        }
    }

    /// Checks a node fetched for `link` as `from_fetched` does, and then
    /// that its key lies strictly between `lo` and `hi`, the bounds its
    /// position in the tree leaves it: one that passes the link checks but
    /// lies outside them is `KeyOutOfOrder`.
    pub fn from_fetched_in(link: &Link, fetched: Option<Node>, lo: Option<&[u8]>, hi: Option<&[u8]>) -> (r: Result<
        SparseTree,
        TreeError,
    >)
        ensures
            !fetched_matches(link@, fetched) ==> {
                &&& fetched.is_none() ==> r == Err::<SparseTree, TreeError>(TreeError::NodeNotFound)
                &&& fetched.is_some() ==> r == Err::<SparseTree, TreeError>(TreeError::LinkMismatch)
            },
            fetched_matches(link@, fetched) && !key_in(fetched.unwrap().key@, bound_view(lo), bound_view(hi))
                ==> r == Err::<SparseTree, TreeError>(TreeError::KeyOutOfOrder),
            fetched_matches(link@, fetched) && key_in(fetched.unwrap().key@, bound_view(lo), bound_view(hi)) ==> {
                &&& r is Ok
                &&& r.unwrap().node == fetched.unwrap()
                &&& r.unwrap().left.is_none()
                &&& r.unwrap().right.is_none()
            },
            r is Ok ==> r.unwrap().wf_in(bound_view(lo), bound_view(hi)) && r.unwrap().link_spec() == link@,
    {
        let tree = match SparseTree::from_fetched(link, fetched) {
            Err(e) => return Err(e),
            Ok(t) => t,
        };
        match lo {
            Some(b) => {
                if !bytes_lt(b, tree.node.key.as_slice()) {
                    return Err(TreeError::KeyOutOfOrder);
                }
            },
            None => {},
        }
        match hi {
            Some(b) => {
                if !bytes_lt(tree.node.key.as_slice(), b) {
                    return Err(TreeError::KeyOutOfOrder);
                }
            },
            None => {},
        }
        assert(tree.child_ok(true, bound_view(lo), bound_view(hi)));
        assert(tree.child_ok(false, bound_view(lo), bound_view(hi)));
        Ok(tree)
    }

    /// Fetches the node that `link` names from `source` and makes a tree of
    /// it alone, checked against the link.
    pub fn get<S: NodeSource>(link: &Link, source: &S) -> (r: Result<SparseTree, TreeError>)
        ensures
            r is Ok ==> r.unwrap().wf() && r.unwrap().link_spec() == link@ && r.unwrap().left.is_none()
                && r.unwrap().right.is_none(),
    {
        let fetched = source.get_node(link);
        SparseTree::from_fetched(link, fetched)
    }

    /// The child in memory on one side, if any.
    pub fn child_tree(&self, left: bool) -> (r: Option<&SparseTree>)
        ensures
            match self.child_spec(left) {
                Some(c) => r == Some(&*c),
                None => r.is_none(),
            },
    {
        let c = if left { &self.left } else { &self.right };
        match c {
            Some(b) => Some(&**b),
            None => None,
        }
    }

    /// Takes the child on one side out of memory, leaving the node's link.
    fn detach(&mut self, left: bool) -> (r: Option<Box<SparseTree>>)
        ensures
            r == old(self).child_spec(left),
            final(self).child_spec(left).is_none(),
            final(self).child_spec(!left) == old(self).child_spec(!left),
            final(self).node == old(self).node,
    {
        if left {
            let mut c = None;
            std::mem::swap(&mut c, &mut self.left);
            c
        } else {
            let mut c = None;
            std::mem::swap(&mut c, &mut self.right);
            c
        }
    }

    /// Puts `child` on one side: its link is taken from it and it is made
    /// to point back here. Where `child` is absent, `link` is stored as is,
    /// for a child that stays out of memory.
    fn attach(
        &mut self,
        left: bool,
        child: Option<Box<SparseTree>>,
        link: Option<Link>,
        Ghost(lo): Ghost<Option<Seq<u8>>>,
        Ghost(hi): Ghost<Option<Seq<u8>>>,
    )
        requires
            child.is_some() ==> child.unwrap().wf_in(
                child_lo(left, old(self).node.key@, lo),
                child_hi(left, old(self).node.key@, hi),
            ),
        ensures
            final(self).node.key == old(self).node.key,
            final(self).node.value == old(self).node.value,
            final(self).node.parent_key == old(self).node.parent_key,
            final(self).node.child_link_spec(!left) == old(self).node.child_link_spec(!left),
            final(self).child_spec(!left) == old(self).child_spec(!left),
            final(self).side_contents(!left) == old(self).side_contents(!left),
            final(self).side_entries(!left) == old(self).side_entries(!left),
            final(self).side_balanced(!left) == old(self).side_balanced(!left),
            final(self).side_linked(!left) == old(self).side_linked(!left),
            final(self).side_keys(!left) == old(self).side_keys(!left),
            final(self).side_shape(!left) == old(self).side_shape(!left),
            child.is_none() ==> final(self).side_shape(left) == KeyTree::Empty,
            child.is_some() ==> final(self).side_shape(left) == child.unwrap().shape(),
            child.is_none() ==> final(self).side_linked(left) == link_key_set(link)
                && final(self).side_keys(left) == Set::<Seq<u8>>::empty(),
            child.is_some() ==> final(self).side_linked(left) == child.unwrap().linked_keys()
                && final(self).side_keys(left) == child.unwrap().keys(),
            final(self).child_ok(left, lo, hi),
            child.is_none() ==> {
                    &&& final(self).child_spec(left).is_none()
                    &&& final(self).node.child_link_spec(left) == link
                    &&& final(self).side_contents(left) == Set::<(Seq<u8>, Seq<u8>)>::empty()
                    &&& final(self).side_entries(left) == Seq::<(Seq<u8>, Seq<u8>)>::empty()
                    &&& final(self).side_balanced(left)
                },
            child.is_some() ==> {
                    let c = child.unwrap();
                    &&& final(self).child_spec(left).is_some()
                    &&& final(self).child_spec(left).unwrap().contents() == c.contents()
                    &&& final(self).child_spec(left).unwrap().entries_spec() == c.entries_spec()
                    &&& final(self).side_contents(left) == c.contents()
                    &&& final(self).side_entries(left) == c.entries_spec()
                    &&& final(self).side_balanced(left) == c.balanced()
                    &&& final(self).child_spec(left).unwrap().complete() == c.complete()
                    &&& final(self).child_spec(left).unwrap().node.left == c.node.left
                    &&& final(self).child_spec(left).unwrap().node.right == c.node.right
                    &&& final(self).child_spec(left).unwrap().node.key == c.node.key
                    &&& final(self).child_spec(left).unwrap().left == c.left
                    &&& final(self).child_spec(left).unwrap().right == c.right
                    &&& final(self).node.child_link_spec(left).is_some()
                    &&& final(self).node.child_height_spec(left) == c.height_spec()
                },
    {
        if child.is_none() {
            {
                self.node.set_child(left, link);
                if left {
                    self.left = None;
                } else {
                    self.right = None;
                }
                assert(self.child_spec(left).is_none());
                assert(self.child_ok(left, lo, hi));
                assert(self.side_contents(left) == Set::<(Seq<u8>, Seq<u8>)>::empty());
                assert(self.side_entries(left) == Seq::<(Seq<u8>, Seq<u8>)>::empty());
                assert(self.side_contents(!left) == old(self).side_contents(!left));
                assert(self.side_entries(!left) == old(self).side_entries(!left));
            }
        } else {
            {
                let mut c = child.unwrap();
                let ghost c0 = *c;
                let pk = clone_bytes(&self.node.key);
                c.node.set_parent(Some(pk));
                proof {
                    lemma_wf_in_ignores_parent_key(*c, c0, child_lo(left, self.node.key@, lo), child_hi(left, self.node.key@, hi));
                }
                let l = c.as_link();
                self.node.set_child(left, Some(l));
                if left {
                    self.left = Some(c);
                } else {
                    self.right = Some(c);
                }
                let ghost c1 = *self.child_spec(left).unwrap();
                assert(c1.contents() =~= c0.contents());
                assert(c1.entries_spec() =~= c0.entries_spec());
                assert(c1.complete() == c0.complete());
                assert(self.side_contents(left) == c1.contents());
                assert(self.side_entries(left) == c1.entries_spec());
                assert(self.side_contents(!left) == old(self).side_contents(!left));
                assert(self.side_entries(!left) == old(self).side_entries(!left));
                assert(c1.balanced() == c0.balanced());
                assert(self.side_balanced(left) == c1.balanced());
                assert(self.side_balanced(!left) == old(self).side_balanced(!left));
                assert(c1.linked_keys() =~= c0.linked_keys());
                assert(c1.keys() =~= c0.keys());
                assert(c1.shape() == c0.shape());
                assert(self.side_shape(left) == c1.shape());
                assert(self.side_shape(!left) == old(self).side_shape(!left));
                assert(self.side_linked(left) == c1.linked_keys());
                assert(self.side_keys(left) == c1.keys());
                assert(self.side_linked(!left) == old(self).side_linked(!left));
                assert(self.side_keys(!left) == old(self).side_keys(!left));
            }
        }
    }

    /// Brings the child on one side into memory, fetching it from `source`
    /// if its link is set and it is not there yet. `lo` and `hi` are the
    /// bounds that the child's key must lie between. Returns whether a child
    /// is now in memory on that side.
    fn maybe_get_child<S: NodeSource>(
        &mut self,
        left: bool,
        lo: Option<&[u8]>,
        hi: Option<&[u8]>,
        source: &S,
        Ghost(slo): Ghost<Option<Seq<u8>>>,
        Ghost(shi): Ghost<Option<Seq<u8>>>,
    ) -> (r: Result<bool, TreeError>)
        requires
            old(self).wf_in(slo, shi),
            bound_view(lo) == child_lo(left, old(self).node.key@, slo),
            bound_view(hi) == child_hi(left, old(self).node.key@, shi),
        ensures
            final(self).wf_in(slo, shi),
            final(self).node == old(self).node,
            final(self).child_spec(!left) == old(self).child_spec(!left),
            old(self).child_spec(left).is_some() ==> *final(self) == *old(self) && r == Ok::<bool, TreeError>(true),
            old(self).node.child_link_spec(left).is_none() ==> *final(self) == *old(self) && r == Ok::<bool, TreeError>(false),
            r is Err ==> *final(self) == *old(self),
            r == Ok::<bool, TreeError>(true) ==> final(self).child_spec(left).is_some(),
            old(self).node.child_link_spec(left).is_some() && r is Ok ==> r == Ok::<bool, TreeError>(true),
            old(self).child_spec(left).is_none() && r == Ok::<bool, TreeError>(true) ==> {
                let c = final(self).child_spec(left).unwrap();
                &&& c.left.is_none()
                &&& c.right.is_none()
                &&& c.node.key@ == old(self).node.child_link_spec(left).unwrap().key@
            },
            old(self).contents().subset_of(final(self).contents()),
            old(self).known_keys().subset_of(final(self).known_keys()),
    {
        let present = if left { self.left.is_some() } else { self.right.is_some() };
        if present {
            return Ok(true);
        }
        let link = match self.node.child_link(left) {
            None => return Ok(false),
            Some(l) => l,
        };
        let fetched = source.get_node(&link);
        let mut tree = match SparseTree::from_fetched_in(&link, fetched, lo, hi) {
            Err(e) => return Err(e),
            Ok(t) => t,
        };
        let ghost t0 = tree;
        let pk = clone_bytes(&self.node.key);
        tree.node.set_parent(Some(pk));
        proof {
            lemma_wf_in_ignores_parent_key(tree, t0, bound_view(lo), bound_view(hi));
        }
        if left {
            self.left = Some(Box::new(tree));
        } else {
            self.right = Some(Box::new(tree));
        }
        assert(self.child_ok(left, slo, shi));
        assert(self.child_ok(!left, slo, shi));
        proof {
            let c = *self.child_spec(left).unwrap();
            assert(c.side_keys(true) == Set::<Seq<u8>>::empty());
            assert(c.side_keys(false) == Set::<Seq<u8>>::empty());
            assert(c.keys() =~= set![link@.key]);
            assert(self.side_keys(left) == c.keys());
            assert(self.side_keys(!left) == old(self).side_keys(!left));
            assert(self.side_linked(!left) == old(self).side_linked(!left));
            assert(old(self).side_linked(left) =~= set![link@.key]);
            assert(old(self).side_keys(left) == Set::<Seq<u8>>::empty());
            assert(old(self).known_keys().subset_of(self.known_keys()));
        }
        Ok(true)
    }

    /// Rotates the subtree towards the side opposite `left`: the child on
    /// side `left` takes this position, this node becomes its child on the
    /// other side, and the child's inner subtree (in memory or only linked)
    /// moves under this node.
    fn rotate(&mut self, left: bool, Ghost(lo): Ghost<Option<Seq<u8>>>, Ghost(hi): Ghost<Option<Seq<u8>>>)
        requires
            old(self).wf_in(lo, hi),
            old(self).child_spec(left).is_some(),
            old(self).child_spec(left).unwrap().node.child_height_spec(!left) < 254,
            old(self).node.child_height_spec(!left) < 254,
        ensures
            final(self).wf_in(lo, hi),
            final(self).contents() == old(self).contents(),
            final(self).entries_spec() == old(self).entries_spec(),
            final(self).linked_keys() == old(self).linked_keys(),
            final(self).keys() == old(self).keys(),
            final(self).shape() == kt_rotate(old(self).shape(), left),
            old(self).complete() ==> final(self).complete(),
            final(self).node.parent_key == old(self).node.parent_key,
            ({
                let c = old(self).child_spec(left).unwrap();
                let a = c.node.child_height_spec(left);
                let b = c.node.child_height_spec(!left);
                let d = old(self).node.child_height_spec(!left);
                &&& final(self).node.child_height_spec(left) == a
                &&& final(self).node.child_height_spec(!left) == 1 + max_nat(b, d)
                &&& final(self).side_balanced(left) == c.side_balanced(left)
                &&& (c.side_balanced(!left) && old(self).side_balanced(!left) && b <= d + 1 && d <= b + 1
                    ==> final(self).side_balanced(!left))
            }),
    {
        let ghost n0 = *self;
        let ghost c0 = *n0.child_spec(left).unwrap();
        let child = self.detach(left);
        let mut c = child.unwrap();
        let g_link = c.node.child_link(!left);
        let g = c.detach(!left);
        let mut top: SparseTree = *c;
        std::mem::swap(self, &mut top);
        std::mem::swap(&mut self.node.parent_key, &mut top.node.parent_key);
        assert(n0.child_ok(left, lo, hi));
        assert(c0.wf_in(child_lo(left, n0.node.key@, lo), child_hi(left, n0.node.key@, hi)));
        assert(c0.child_ok(!left, child_lo(left, n0.node.key@, lo), child_hi(left, n0.node.key@, hi)));
        proof {
            if left && hi.is_some() {
                lemma_key_lt_transitive(c0.node.key@, n0.node.key@, hi.unwrap());
            } else if !left && lo.is_some() {
                lemma_key_lt_transitive(lo.unwrap(), n0.node.key@, c0.node.key@);
            }
        }
        let ghost tlo = child_lo(!left, c0.node.key@, lo);
        let ghost thi = child_hi(!left, c0.node.key@, hi);
        top.attach(left, g, g_link, Ghost(tlo), Ghost(thi));
        assert(n0.child_ok(!left, lo, hi));
        assert(top.child_ok(!left, tlo, thi));
        assert(top.wf_in(tlo, thi));
        let ghost top1 = top;
        self.attach(!left, Some(Box::new(top)), None, Ghost(lo), Ghost(hi));
        assert(c0.child_ok(left, child_lo(left, n0.node.key@, lo), child_hi(left, n0.node.key@, hi)));
        assert(self.child_ok(left, lo, hi));
        assert(self.wf_in(lo, hi));
        proof {
            assert(n0.side_contents(left) == c0.contents());
            assert(n0.side_entries(left) == c0.entries_spec());
            assert(top1.side_contents(left) == c0.side_contents(!left));
            assert(top1.side_entries(left) == c0.side_entries(!left));
            assert(top1.side_contents(!left) == n0.side_contents(!left));
            assert(top1.side_entries(!left) == n0.side_entries(!left));
            assert(self.side_contents(left) == c0.side_contents(left));
            assert(self.side_entries(left) == c0.side_entries(left));
            assert(self.contents() =~= n0.contents());
            assert(self.entries_spec() =~= n0.entries_spec());
            assert(n0.side_linked(left) == c0.linked_keys());
            assert(n0.side_keys(left) == c0.keys());
            assert(top1.side_linked(left) == c0.side_linked(!left));
            assert(top1.side_keys(left) == c0.side_keys(!left));
            assert(top1.side_linked(!left) == n0.side_linked(!left));
            assert(top1.side_keys(!left) == n0.side_keys(!left));
            assert(self.side_linked(left) == c0.side_linked(left));
            assert(self.side_keys(left) == c0.side_keys(left));
            assert(self.linked_keys() =~= n0.linked_keys());
            assert(self.keys() =~= n0.keys());
            assert(n0.side_shape(left) == c0.shape());
            assert(top1.side_shape(left) == c0.side_shape(!left));
            assert(top1.side_shape(!left) == n0.side_shape(!left));
            assert(self.side_shape(left) == c0.side_shape(left));
            assert(self.side_shape(!left) == top1.shape());
            assert(self.shape() == kt_rotate(n0.shape(), left));
            if n0.complete() {
                assert(c0.complete());
                assert(top1.complete());
                assert(self.complete());
            }
        }
    }

    /// Prepares the tall child of an unbalanced node for the rotation that
    /// lifts it: where this subtree is taller on its inner side (the side
    /// opposite `left`), that side is rotated up first.
    fn straighten<S: NodeSource>(
        &mut self,
        left: bool,
        lo: Option<&[u8]>,
        hi: Option<&[u8]>,
        source: &S,
        Ghost(slo): Ghost<Option<Seq<u8>>>,
        Ghost(shi): Ghost<Option<Seq<u8>>>,
    ) -> (r: Result<(), TreeError>)
        requires
            old(self).wf_in(slo, shi),
            bound_view(lo) == slo,
            bound_view(hi) == shi,
            old(self).height_spec() < 255,
        ensures
            final(self).wf_in(slo, shi),
            final(self).node.parent_key == old(self).node.parent_key,
            final(self).height_spec() <= old(self).height_spec(),
            r is Ok ==> final(self).node.child_height_spec(left) < old(self).height_spec(),
            r is Ok ==> final(self).node.child_height_spec(!left) < old(self).height_spec() - 1
                || final(self).node.child_height_spec(!left) <= final(self).node.child_height_spec(left),
            r is Err ==> *final(self) == *old(self),
            old(self).contents().subset_of(final(self).contents()),
            old(self).known_keys().subset_of(final(self).known_keys()),
            old(self).complete() ==> {
                &&& r is Ok
                &&& final(self).complete()
                &&& final(self).contents() == old(self).contents()
                &&& final(self).entries_spec() == old(self).entries_spec()
            },
            old(self).complete() ==> final(self).shape() == kt_straighten(old(self).shape(), left),
            old(self).complete() && old(self).balanced() ==> {
                let h = old(self).height_spec() as int;
                let b = final(self).node.child_height_spec(!left) as int;
                &&& final(self).side_balanced(true)
                &&& final(self).side_balanced(false)
                &&& final(self).node.child_height_spec(left) == h - 1
                &&& h - 3 <= b <= h - 1
                &&& (old(self).node.balance_factor_spec() != 0 ==> b <= h - 2)
            },
    {
        let cbf = self.node.balance_factor();
        proof {
            if self.complete() {
                lemma_shape_heights(*self, slo, shi);
            }
        }
        let double = if left { cbf > 0 } else { cbf < 0 };
        if !double {
            return Ok(());
        }
        let key = clone_bytes(&self.node.key);
        let glo = if left { Some(key.as_slice()) } else { lo };
        let ghi = if left { hi } else { Some(key.as_slice()) };
        match self.maybe_get_child(!left, glo, ghi, source, Ghost(slo), Ghost(shi)) {
            Err(e) => return Err(e),
            Ok(_) => {},
        }
        let ghost c1 = *self;
        assert(c1.child_ok(!left, slo, shi));
        assert(c1.child_ok(left, slo, shi));
        proof {
            if c1.complete() && c1.balanced() {
                let g = *c1.child_spec(!left).unwrap();
                assert(c1.side_balanced(!left));
                assert(g.balanced());
                assert(g.side_balanced(true) && g.side_balanced(false));
            }
        }
        self.rotate(!left, Ghost(slo), Ghost(shi));
        Ok(())
    }

    /// Restores balance at this node: where one side is taller than the
    /// other by two or more, rotates the tall side up, first rotating the
    /// tall child the other way where its own inner side is the taller.
    #[verifier::rlimit(60)]
    fn maybe_rebalance<S: NodeSource>(
        &mut self,
        lo: Option<&[u8]>,
        hi: Option<&[u8]>,
        source: &S,
        Ghost(slo): Ghost<Option<Seq<u8>>>,
        Ghost(shi): Ghost<Option<Seq<u8>>>,
    ) -> (r: Result<(), TreeError>)
        requires
            old(self).wf_in(slo, shi),
            bound_view(lo) == slo,
            bound_view(hi) == shi,
        ensures
            final(self).wf_in(slo, shi),
            final(self).height_spec() <= old(self).height_spec(),
            final(self).node.parent_key == old(self).node.parent_key,
            old(self).contents().subset_of(final(self).contents()),
            old(self).known_keys().subset_of(final(self).known_keys()),
            old(self).complete() ==> {
                &&& r is Ok
                &&& final(self).complete()
                &&& final(self).contents() == old(self).contents()
                &&& final(self).entries_spec() == old(self).entries_spec()
            },
            -1 <= old(self).node.balance_factor_spec() <= 1 ==> *final(self) == *old(self),
            old(self).complete() ==> final(self).shape() == kt_rebalance(old(self).shape()),
            old(self).complete() && old(self).side_balanced(true) && old(self).side_balanced(false)
                && -2 <= old(self).node.balance_factor_spec() <= 2 ==> {
                &&& final(self).balanced()
                &&& (old(self).node.balance_factor_spec() == 2 || old(self).node.balance_factor_spec() == -2)
                    && old(self).child_spec(old(self).node.balance_factor_spec() < 0).unwrap().node.balance_factor_spec() != 0
                    ==> final(self).height_spec() == old(self).height_spec() - 1
            },
    {
        let bf = self.node.balance_factor();
        proof {
            if self.complete() {
                lemma_shape_heights(*self, slo, shi);
            }
        }
        if -1 <= bf && bf <= 1 {
            return Ok(());
        }
        let left = bf < 0;
        let key = clone_bytes(&self.node.key);
        let clo = if left { lo } else { Some(key.as_slice()) };
        let chi = if left { Some(key.as_slice()) } else { hi };
        match self.maybe_get_child(left, clo, chi, source, Ghost(slo), Ghost(shi)) {
            Err(e) => return Err(e),
            Ok(_) => {},
        }
        let ghost n1 = *self;
        assert(n1.child_ok(left, slo, shi));
        assert(n1.child_ok(!left, slo, shi));
        let mut child = self.detach(left).unwrap();
        let ghost nd = *self;
        let ghost c0 = *child;
        proof {
            if n1.complete() && n1.side_balanced(left) {
                assert(c0.balanced());
            }
        }
        let res = child.straighten(left, clo, chi, source, Ghost(bound_view(clo)), Ghost(bound_view(chi)));
        let ghost c2 = *child;
        self.attach(left, Some(child), None, Ghost(slo), Ghost(shi));
        proof {
            assert(n1.side_contents(left) == c0.contents());
            assert(n1.side_entries(left) == c0.entries_spec());
            assert(self.side_contents(left) == c2.contents());
            assert(self.side_entries(left) == c2.entries_spec());
            assert(n1.contents().subset_of(self.contents()));
            assert(n1.side_linked(left) == c0.linked_keys());
            assert(n1.side_keys(left) == c0.keys());
            assert(self.side_linked(left) == c2.linked_keys());
            assert(self.side_keys(left) == c2.keys());
            assert(c0.known_keys().subset_of(c2.known_keys()));
            assert(nd.side_keys(!left) == n1.side_keys(!left));
            assert(nd.side_linked(!left) == n1.side_linked(!left));
            lemma_known_from_sides(n1, *self);
            if n1.complete() {
                assert(c0.complete());
                assert(self.contents() =~= n1.contents());
                assert(self.entries_spec() =~= n1.entries_spec());
                assert(self.complete());
            }
        }
        match res {
            Err(e) => return Err(e),
            Ok(()) => {},
        }
        let ghost n3 = *self;
        proof {
            let x = *n3.child_spec(left).unwrap();
            assert(x.side_balanced(true) == c2.side_balanced(true));
            assert(x.side_balanced(false) == c2.side_balanced(false));
            assert(n3.side_balanced(!left) == n1.side_balanced(!left));
        }
        self.rotate(left, Ghost(slo), Ghost(shi));
        proof {
            if n1.complete() && n1.side_balanced(true) && n1.side_balanced(false) && -2 <= bf <= 2 {
                let x = *n3.child_spec(left).unwrap();
                let h = c0.height_spec() as int;
                let d = n1.node.child_height_spec(!left) as int;
                assert(n1.node.child_height_spec(left) == h);
                assert(d == h - 2);
                assert(x.node.child_height_spec(left) == c2.node.child_height_spec(left));
                assert(x.node.child_height_spec(!left) == c2.node.child_height_spec(!left));
                assert(n3.node.child_height_spec(!left) == d);
                assert(self.side_balanced(left));
                assert(self.side_balanced(!left));
                assert(self.side_balanced(true) && self.side_balanced(false));
                assert(self.balanced());
            }
        }
        Ok(())
    }

    /// Puts the pair into the subtree, whose keys lie between `lo` and `hi`.
    #[verifier::rlimit(100)]
    fn put_in<S: NodeSource>(
        &mut self,
        key: &[u8],
        value: &[u8],
        lo: Option<&[u8]>,
        hi: Option<&[u8]>,
        source: &S,
        Ghost(slo): Ghost<Option<Seq<u8>>>,
        Ghost(shi): Ghost<Option<Seq<u8>>>,
    ) -> (r: Result<(), TreeError>)
        requires
            old(self).wf_in(slo, shi),
            bound_view(lo) == slo,
            bound_view(hi) == shi,
            key_in(key@, slo, shi),
            old(self).height_spec() < 255,
        ensures
            final(self).wf_in(slo, shi),
            final(self).height_spec() <= old(self).height_spec() + 1,
            final(self).node.parent_key == old(self).node.parent_key,
            r is Ok ==> final(self).contents().contains((key@, value@)),
            forall|p: (Seq<u8>, Seq<u8>)|
                old(self).contents().contains(p) && p.0 != key@ ==> final(self).contents().contains(p),
            old(self).known_keys().subset_of(final(self).known_keys()),
            old(self).complete() ==> {
                &&& r is Ok
                &&& final(self).complete()
                &&& final(self).contents() == old(self).contents().filter(
                    |p: (Seq<u8>, Seq<u8>)| p.0 != key@,
                ).insert((key@, value@))
                &&& final(self).shape() == kt_insert(old(self).shape(), key@)
            },
            old(self).complete() && old(self).balanced() ==> {
                &&& final(self).balanced()
                &&& (final(self).height_spec() == old(self).height_spec() || (final(self).height_spec()
                    == old(self).height_spec() + 1 && final(self).node.balance_factor_spec() != 0))
            },
            old(self).complete() && old(self).balanced() && (exists|v: Seq<u8>|
                old(self).contents().contains((key@, v))) ==> final(self).same_shape(*old(self)),
        decreases old(self).height_spec(),
    {
        let ghost n0 = *self;
        proof {
            lemma_contents_in(n0, slo, shi);
            assert(n0.child_ok(true, slo, shi));
            assert(n0.child_ok(false, slo, shi));
            if n0.left.is_some() {
                lemma_contents_in(*n0.left.unwrap(), slo, Some(n0.node.key@));
            }
            if n0.right.is_some() {
                lemma_contents_in(*n0.right.unwrap(), Some(n0.node.key@), shi);
            }
        }
        if bytes_eq(self.node.key.as_slice(), key) {
            self.node.set_value(value);
            proof {
                lemma_wf_in_ignores_parent_key(*self, n0, slo, shi);
                assert(self.side_contents(true) == n0.side_contents(true));
                assert(self.side_contents(false) == n0.side_contents(false));
                assert forall|p: (Seq<u8>, Seq<u8>)| n0.side_contents(true).contains(p) implies p.0 != key@ by {
                    assert(n0.left.unwrap().contents().contains(p));
                    lemma_key_lt_asymmetric(p.0, key@);
                }
                assert forall|p: (Seq<u8>, Seq<u8>)| n0.side_contents(false).contains(p) implies p.0 != key@ by {
                    assert(n0.right.unwrap().contents().contains(p));
                    lemma_key_lt_asymmetric(key@, p.0);
                }
                if n0.complete() {
                    assert(self.complete());
                    assert(self.contents() =~= n0.contents().filter(|p: (Seq<u8>, Seq<u8>)| p.0 != key@).insert(
                        (key@, value@),
                    ));
                }
                assert(self.side_balanced(true) == n0.side_balanced(true));
                assert(self.side_balanced(false) == n0.side_balanced(false));
                assert(self.balanced() == n0.balanced());
                assert(self.linked_keys() =~= n0.linked_keys());
                assert(self.keys() =~= n0.keys());
                assert(self.side_shape(true) == n0.side_shape(true));
                assert(self.side_shape(false) == n0.side_shape(false));
                assert(self.shape() == n0.shape());
                lemma_same_shape_refl(n0);
                assert(self.side_same_shape(n0, true) == n0.side_same_shape(n0, true));
                assert(self.side_same_shape(n0, false) == n0.side_same_shape(n0, false));
                assert(self.same_shape(n0));
            }
            return Ok(());
        }
        let left = bytes_lt(key, self.node.key.as_slice());
        proof {
            if !left {
                lemma_key_lt_total(key@, n0.node.key@);
            }
        }
        let nkey = clone_bytes(&self.node.key);
        let clo = if left { lo } else { Some(nkey.as_slice()) };
        let chi = if left { Some(nkey.as_slice()) } else { hi };
        let got = self.maybe_get_child(left, clo, chi, source, Ghost(slo), Ghost(shi));
        let ghost n1 = *self;
        assert(n1.child_ok(left, slo, shi));
        assert(n1.child_ok(!left, slo, shi));
        match got {
            Err(e) => return Err(e),
            Ok(true) => {
                let mut child = self.detach(left).unwrap();
                let ghost c0 = *child;
                let res = child.put_in(key, value, clo, chi, source, Ghost(bound_view(clo)), Ghost(bound_view(chi)));
                let ghost c1 = *child;
                self.attach(left, Some(child), None, Ghost(slo), Ghost(shi));
                proof {
                    if n0.complete() && n0.balanced() && (exists|v: Seq<u8>| n0.contents().contains((key@, v))) {
                        let v = choose|v: Seq<u8>| n0.contents().contains((key@, v));
                        if !n0.side_contents(left).contains((key@, v)) {
                            assert(n0.side_contents(!left).contains((key@, v)));
                            if left {
                                assert(n0.right.unwrap().contents().contains((key@, v)));
                                lemma_key_lt_asymmetric(key@, n0.node.key@);
                            } else {
                                assert(n0.left.unwrap().contents().contains((key@, v)));
                                lemma_key_lt_asymmetric(n0.node.key@, key@);
                            }
                        }
                        assert(c0.contents().contains((key@, v)));
                        assert(c1.same_shape(c0));
                        let x = *self.child_spec(left).unwrap();
                        assert(x.side_same_shape(c0, true) == c1.side_same_shape(c0, true));
                        assert(x.side_same_shape(c0, false) == c1.side_same_shape(c0, false));
                        assert(x.same_shape(c0));
                        assert(c1.height_spec() == c0.height_spec());
                        lemma_same_shape_refl(n0);
                        assert(n0.side_same_shape(n0, !left));
                        assert(self.side_same_shape(n0, !left));
                        assert(self.side_same_shape(n0, left));
                        assert(self.same_shape(n0));
                    }
                    if n0.complete() && n0.balanced() {
                        assert(n0.side_balanced(left));
                        assert(c0.balanced());
                        assert(self.side_balanced(left) == c1.balanced());
                        assert(n0.node.child_height_spec(left) == c0.height_spec());
                        assert(self.node.child_height_spec(left) == c1.height_spec());
                        assert(c1.height_spec() > c0.height_spec() ==> c1.node.balance_factor_spec() != 0);
                    }
                    assert(n1.side_contents(left) == c0.contents());
                    assert(self.side_contents(left) == c1.contents());
                    assert(self.side_contents(!left) == n1.side_contents(!left));
                    assert(self.contents().contains((n0.node.key@, n0.node.value@)));
                    assert(n1.side_linked(left) == c0.linked_keys());
                    assert(n1.side_keys(left) == c0.keys());
                    assert(self.side_linked(left) == c1.linked_keys());
                    assert(self.side_keys(left) == c1.keys());
                    assert(self.side_linked(!left) == n1.side_linked(!left));
                    assert(self.side_keys(!left) == n1.side_keys(!left));
                    assert(c0.known_keys().subset_of(c1.known_keys()));
                    lemma_known_from_sides(n1, *self);
                    if n0.complete() {
                        assert(n1.side_shape(left) == c0.shape());
                        assert(self.side_shape(left) == c1.shape());
                        assert(self.side_shape(!left) == n1.side_shape(!left));
                    }
                }
                match res {
                    Err(e) => return Err(e),
                    Ok(()) => {},
                }
            },
            Ok(false) => {
                let child = SparseTree::new(Node::new(key, value));
                assert(child.child_ok(true, bound_view(clo), bound_view(chi)));
                assert(child.child_ok(false, bound_view(clo), bound_view(chi)));
                self.attach(left, Some(Box::new(child)), None, Ghost(slo), Ghost(shi));
                proof {
                    assert(child.side_contents(true) == Set::<(Seq<u8>, Seq<u8>)>::empty());
                    assert(child.side_contents(false) == Set::<(Seq<u8>, Seq<u8>)>::empty());
                    assert(child.contents() =~= set![(key@, value@)]);
                    assert(child.side_balanced(true) && child.side_balanced(false));
                    assert(child.balanced());
                    assert(n1.side_contents(left) == Set::<(Seq<u8>, Seq<u8>)>::empty());
                    assert(self.side_contents(left) == child.contents());
                    assert(self.side_contents(!left) == n1.side_contents(!left));
                    assert(n1.node.child_link_spec(left).is_none());
                    assert(n1.side_linked(left) == Set::<Seq<u8>>::empty());
                    assert(self.side_linked(!left) == n1.side_linked(!left));
                    assert(self.side_keys(!left) == n1.side_keys(!left));
                    assert(n1.side_keys(left) == Set::<Seq<u8>>::empty());
                    lemma_known_from_sides(n1, *self);
                    assert(child.side_shape(true) == KeyTree::Empty);
                    assert(child.side_shape(false) == KeyTree::Empty);
                    assert(self.side_shape(left) == child.shape());
                    assert(n1.side_shape(left) == KeyTree::Empty);
                    assert(self.side_shape(!left) == n1.side_shape(!left));
                }
            },
        }
        let ghost n2 = *self;
        proof {
            assert(n2.wf_in(slo, shi));
            assert forall|p: (Seq<u8>, Seq<u8>)| n0.contents().contains(p) && p.0 != key@ implies n2.contents().contains(p) by {
                assert(n1.contents().contains(p));
            }
            if n0.complete() {
                assert(n1 == n0);
                assert forall|p: (Seq<u8>, Seq<u8>)| n0.side_contents(!left).contains(p) implies p.0 != key@ by {
                    if left {
                        assert(n0.right.unwrap().contents().contains(p));
                        lemma_key_lt_transitive(key@, n0.node.key@, p.0);
                        lemma_key_lt_asymmetric(key@, p.0);
                    } else {
                        assert(n0.left.unwrap().contents().contains(p));
                        lemma_key_lt_transitive(p.0, n0.node.key@, key@);
                        lemma_key_lt_asymmetric(p.0, key@);
                    }
                }
                assert(n2.contents() =~= n0.contents().filter(|p: (Seq<u8>, Seq<u8>)| p.0 != key@).insert(
                    (key@, value@),
                ));
                assert(n2.complete());
                if left {
                    assert(n2.shape() == KeyTree::Node(n0.node.key@, Box::new(kt_insert(n0.side_shape(true), key@)), Box::new(n0.side_shape(false))));
                } else {
                    lemma_key_lt_asymmetric(n0.node.key@, key@);
                    assert(n2.shape() == KeyTree::Node(n0.node.key@, Box::new(n0.side_shape(true)), Box::new(kt_insert(n0.side_shape(false), key@))));
                }
            }
        }
        proof {
            if n0.complete() && n0.balanced() {
                assert(n1 == n0);
                assert(n2.side_balanced(!left) == n0.side_balanced(!left));
                assert(n2.node.child_height_spec(!left) == n0.node.child_height_spec(!left));
            }
        }
        let res = self.maybe_rebalance(lo, hi, source, Ghost(slo), Ghost(shi));
        res
    }

    /// Puts the key/value pair into the tree: an existing key has its value
    /// replaced, a new key becomes a new node, and the tree is rebalanced on
    /// the way back up. Children that are needed and not in memory are
    /// fetched from `source`; a fetch that fails or that does not match its
    /// link stops the insertion with an error and leaves a well-formed tree.
    pub fn put<S: NodeSource>(&mut self, key: &[u8], value: &[u8], source: &S) -> (r: Result<(), TreeError>)
        requires
            old(self).wf(),
            old(self).height_spec() < 255,
        ensures
            final(self).wf(),
            final(self).height_spec() <= old(self).height_spec() + 1,
            final(self).node.parent_key == old(self).node.parent_key,
            r is Ok ==> final(self).contents().contains((key@, value@)),
            forall|p: (Seq<u8>, Seq<u8>)|
                old(self).contents().contains(p) && p.0 != key@ ==> final(self).contents().contains(p),
            old(self).known_keys().subset_of(final(self).known_keys()),
            old(self).complete() ==> {
                &&& r is Ok
                &&& final(self).complete()
                &&& final(self).contents() == old(self).contents().filter(
                    |p: (Seq<u8>, Seq<u8>)| p.0 != key@,
                ).insert((key@, value@))
            },
            old(self).complete() ==> final(self).shape() == kt_insert(old(self).shape(), key@),
            old(self).complete() && old(self).balanced() ==> final(self).balanced(),
            old(self).complete() && old(self).balanced() && (exists|v: Seq<u8>|
                old(self).contents().contains((key@, v))) ==> final(self).same_shape(*old(self)),
    {
        self.put_in(key, value, None, None, source, Ghost(None), Ghost(None))
    }

    fn traverse<'a>(&'a self, out: &mut Vec<(&'a [u8], &'a [u8])>)
        ensures
            pairs_view(final(out)@) == pairs_view(old(out)@) + self.entries_spec(),
        decreases self,
    {
        let ghost o0 = out@;
        match &self.left {
            Some(c) => c.traverse(out),
            None => {},
        }
        let ghost o1 = out@;
        assert(pairs_view(o1) == pairs_view(o0) + self.side_entries(true));
        out.push((self.node.key.as_slice(), self.node.value.as_slice()));
        assert(pairs_view(out@) =~= pairs_view(o1).push((self.node.key@, self.node.value@)));
        let ghost o2 = out@;
        match &self.right {
            Some(c) => c.traverse(out),
            None => {},
        }
        assert(pairs_view(out@) == pairs_view(o2) + self.side_entries(false));
        assert(pairs_view(out@) =~= pairs_view(o0) + self.entries_spec());
    }

    /// The (key, value) pairs of every node in memory, in order: left
    /// subtree, node, right subtree. Nothing is fetched.
    pub fn entries<'a>(&'a self) -> (r: Vec<(&'a [u8], &'a [u8])>)
        ensures
            pairs_view(r@) == self.entries_spec(),
    {
        let mut out: Vec<(&'a [u8], &'a [u8])> = Vec::new();
        assert(pairs_view(out@) =~= Seq::<(Seq<u8>, Seq<u8>)>::empty());
        self.traverse(&mut out);
        assert(pairs_view(out@) =~= self.entries_spec());
        out
    }

    /// The link to this subtree: its key, hash and height.
    pub fn as_link(&self) -> (r: Link)
        requires
            self.node.child_height_spec(true) < 255,
            self.node.child_height_spec(false) < 255,
        ensures
            r@ == self.link_spec(),
    {
        Link { key: clone_bytes(&self.node.key), hash: self.node.hash(), height: self.node.height() }
    }
}

} // verus!
