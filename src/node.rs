use vstd::prelude::*;

verus! {

/// Length in bytes of every digest in the tree.
pub const HASH_LENGTH: usize = 20;

/// The unkeyed 20-byte BLAKE2b digest of a byte string.
pub uninterp spec fn blake2b_20(data: Seq<u8>) -> Seq<u8>;

/// Relies on blake2_rfc::blake2b::blake2b: called with an output length of
/// 20 and an empty key, it returns the BLAKE2b digest of `data`, whose
/// `as_bytes` holds exactly 20 bytes.
#[verifier::external_body]
fn digest(data: &[u8]) -> (r: Vec<u8>)
    ensures
        r@ == blake2b_20(data@),
        r@.len() == HASH_LENGTH,
{
    blake2_rfc::blake2b::blake2b(HASH_LENGTH, &[], data).as_bytes().to_vec()
}

/// The hash that stands for an absent child.
pub open spec fn null_hash() -> Seq<u8> {
    Seq::new(HASH_LENGTH as nat, |i: int| 0u8)
}

/// Commitment of a node to its key, its value and its children's hashes,
/// left before right.
pub open spec fn node_hash(key: Seq<u8>, value: Seq<u8>, left: Seq<u8>, right: Seq<u8>) -> Seq<u8> {
    blake2b_20(blake2b_20(key) + blake2b_20(value) + left + right)
}

/// A reference to a child subtree: its root key, its hash and its height.
#[derive(Clone, Debug, PartialEq, Eq)]
pub struct Link {
    pub key: Vec<u8>,
    pub hash: Vec<u8>,
    pub height: u8,
}

impl Link {
    /// A copy of the link.
    pub fn clone_link(&self) -> (r: Link)
        ensures
            r@ == self@,
    {
        Link { key: self.key.clone(), hash: self.hash.clone(), height: self.height }
    }
}

/// What a link holds, as plain values.
pub struct LinkView {
    pub key: Seq<u8>,
    pub hash: Seq<u8>,
    pub height: nat,
}

impl View for Link {
    type V = LinkView;

    open spec fn view(&self) -> LinkView {
        LinkView { key: self.key@, hash: self.hash@, height: self.height as nat }
    }
}

/// What an optional link holds, as plain values.
pub open spec fn opt_link_view(l: Option<Link>) -> Option<LinkView> {
    match l {
        Some(l) => Some(l@),
        None => None,
    }
}

/// The hash that a parent commits to for a side: the link's, or the null
/// hash where there is no child.
pub open spec fn link_hash(l: Option<Link>) -> Seq<u8> {
    match l {
        Some(l) => l.hash@,
        None => null_hash(),
    }
}

/// Height of the subtree behind an optional link, 0 where there is none.
pub open spec fn link_height(l: Option<Link>) -> nat {
    match l {
        Some(l) => l.height as nat,
        None => 0,
    }
}

pub open spec fn max_nat(a: nat, b: nat) -> nat {
    if a >= b { a } else { b }
}

/// A persistable tree node: key, value, the key of its parent and links to
/// its children.
#[derive(Clone, Debug, PartialEq, Eq)]
pub struct Node {
    pub key: Vec<u8>,
    pub value: Vec<u8>,
    pub parent_key: Option<Vec<u8>>,
    pub left: Option<Link>,
    pub right: Option<Link>,
}

fn copy_bytes(b: &[u8]) -> (r: Vec<u8>)
    ensures
        r@ == b@,
{
    let mut r: Vec<u8> = Vec::new();
    let mut i: usize = 0;
    while i < b.len()
        invariant
            0 <= i <= b@.len(),
            r@ == b@.subrange(0, i as int),
        decreases b@.len() - i,
    {
        r.push(b[i]);
        assert(b@.subrange(0, i + 1) =~= b@.subrange(0, i as int).push(b@[i as int]));
        i = i + 1;
    }
    assert(b@.subrange(0, b@.len() as int) =~= b@);
    r
}

/// A copy of a byte string.
pub fn clone_bytes(b: &Vec<u8>) -> (r: Vec<u8>)
    ensures
        r@ == b@,
{
    copy_bytes(b.as_slice())
}

impl Node {
    pub open spec fn child_link_spec(&self, left: bool) -> Option<Link> {
        if left { self.left } else { self.right }
    }

    pub open spec fn child_height_spec(&self, left: bool) -> nat {
        link_height(self.child_link_spec(left))
    }

    pub open spec fn height_spec(&self) -> nat {
        1 + max_nat(self.child_height_spec(true), self.child_height_spec(false))
    }

    pub open spec fn balance_factor_spec(&self) -> int {
        self.child_height_spec(false) - self.child_height_spec(true)
    }

    pub open spec fn hash_spec(&self) -> Seq<u8> {
        node_hash(self.key@, self.value@, link_hash(self.left), link_hash(self.right))
    }

    /// A node with the given key and value, no parent and no children.
    pub fn new(key: &[u8], value: &[u8]) -> (r: Node)
        ensures
            r.key@ == key@,
            r.value@ == value@,
            r.parent_key.is_none(),
            r.left.is_none(),
            r.right.is_none(),
    {
        Node { key: copy_bytes(key), value: copy_bytes(value), parent_key: None, left: None, right: None }
    }

    /// The node's hash: a digest over the digests of its key and value and
    /// the hashes of its left and right links.
    pub fn hash(&self) -> (r: Vec<u8>)
        ensures
            r@ == self.hash_spec(),
    {
        let mut buf = digest(self.key.as_slice());
        let mut vh = digest(self.value.as_slice());
        buf.append(&mut vh);
        let mut lh = match &self.left {
            Some(l) => clone_bytes(&l.hash),
            None => vec![0u8; HASH_LENGTH],
        };
        assert(self.left.is_none() ==> lh@ =~= null_hash());
        let mut rh = match &self.right {
            Some(l) => clone_bytes(&l.hash),
            None => vec![0u8; HASH_LENGTH],
        };
        assert(self.right.is_none() ==> rh@ =~= null_hash());
        buf.append(&mut lh);
        buf.append(&mut rh);
        digest(buf.as_slice())
    }

    /// A copy of the link on one side.
    pub fn child_link(&self, left: bool) -> (r: Option<Link>)
        ensures
            opt_link_view(r) == opt_link_view(self.child_link_spec(left)),
    {
        let l = if left { &self.left } else { &self.right };
        match l {
            Some(l) => Some(l.clone_link()),
            None => None,
        }
    }

    /// Height of the child subtree on one side, 0 where there is none.
    pub fn child_height(&self, left: bool) -> (r: u8)
        ensures
            r as nat == self.child_height_spec(left),
    {
        let l = if left { &self.left } else { &self.right };
        match l {
            Some(l) => l.height,
            None => 0,
        }
    }

    /// Height of the subtree rooted here: one more than its taller child.
    pub fn height(&self) -> (r: u8)
        requires
            self.child_height_spec(true) < 255,
            self.child_height_spec(false) < 255,
        ensures
            r as nat == self.height_spec(),
    {
        let l = self.child_height(true);
        let r = self.child_height(false);
        if l >= r { l + 1 } else { r + 1 }
    }

    /// Right height minus left height.
    pub fn balance_factor(&self) -> (r: i16)
        ensures
            r as int == self.balance_factor_spec(),
    {
        self.child_height(false) as i16 - self.child_height(true) as i16
    }

    /// Replaces the link on one side.
    pub fn set_child(&mut self, left: bool, link: Option<Link>)
        ensures
            final(self).key == old(self).key,
            final(self).value == old(self).value,
            final(self).parent_key == old(self).parent_key,
            final(self).child_link_spec(left) == link,
            final(self).child_link_spec(!left) == old(self).child_link_spec(!left),
    {
        if left {
            self.left = link;
        } else {
            self.right = link;
        }
    }

    /// Replaces the value.
    pub fn set_value(&mut self, value: &[u8])
        ensures
            final(self).value@ == value@,
            final(self).key == old(self).key,
            final(self).parent_key == old(self).parent_key,
            final(self).left == old(self).left,
            final(self).right == old(self).right,
    {
        self.value = copy_bytes(value);
    }

    /// Replaces the parent key.
    pub fn set_parent(&mut self, parent_key: Option<Vec<u8>>)
        ensures
            final(self).parent_key == parent_key,
            final(self).key == old(self).key,
            final(self).value == old(self).value,
            final(self).left == old(self).left,
            final(self).right == old(self).right,
    {
        self.parent_key = parent_key;
    }
}

} // verus!
