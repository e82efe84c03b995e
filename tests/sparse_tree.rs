use std::collections::HashMap;

use merk::bytes::{bytes_eq, bytes_lt};
use merk::{Link, Node, NodeSource, SparseTree, TreeError, HASH_LENGTH};

/// A store for trees built from scratch: nothing is ever fetched.
struct NoStore;

impl NodeSource for NoStore {
    fn get_node(&self, _link: &Link) -> Option<Node> {
        unreachable!()
    }
}

/// Nodes kept by key.
struct MemStore {
    nodes: HashMap<Vec<u8>, Node>,
}

impl NodeSource for MemStore {
    fn get_node(&self, link: &Link) -> Option<Node> {
        self.nodes.get(&link.key).cloned()
    }
}

fn export(tree: &SparseTree, store: &mut MemStore) {
    store.nodes.insert(tree.node.key.clone(), tree.node.clone());
    if let Some(c) = tree.child_tree(true) {
        export(c, store);
    }
    if let Some(c) = tree.child_tree(false) {
        export(c, store);
    }
}

/// Checks balance, ordering, back references and links at every node.
fn assert_tree_valid(tree: &SparseTree) {
    assert!(tree.node.balance_factor().abs() <= 1);
    for left in [true, false] {
        if let Some(child) = tree.child_tree(left) {
            assert_eq!(child.node.key < tree.node.key, left);
            assert_eq!(child.node.parent_key.as_ref().unwrap(), &tree.node.key);
            assert_eq!(tree.node.child_link(left).unwrap(), child.as_link());
            assert_tree_valid(child);
        }
    }
    let entries = tree.entries();
    for w in entries.windows(2) {
        assert!(w[0].0 < w[1].0);
    }
}

fn build(keys: &[&[u8]], value: &[u8]) -> SparseTree {
    let mut tree = SparseTree::new(Node::new(keys[0], value));
    for k in &keys[1..] {
        tree.put(k, value, &NoStore).unwrap();
    }
    tree
}

#[test]
fn simple_put() {
    let mut tree = SparseTree::new(Node::new(b"0", b"x"));
    assert_tree_valid(&tree);

    for i in 1..20 {
        tree.put(&i.to_string().into_bytes()[..], b"x", &NoStore).unwrap();
        assert_tree_valid(&tree);
    }

    assert_eq!(tree.node.key, b"3");
    assert_eq!(tree.node.height(), 5);
    assert_eq!(tree.node.child_height(true), 4);
    assert_eq!(tree.node.child_height(false), 3);
}

#[test]
fn sequential_root_hash_is_pinned() {
    let mut tree = SparseTree::new(Node::new(b"0", b"x"));
    for i in 1..20 {
        tree.put(&i.to_string().into_bytes()[..], b"x", &NoStore).unwrap();
    }
    assert_eq!(hex::encode(tree.node.hash()), "3b1f41b1112e5f9f5ea821681b2682956c37f795");
}

#[test]
fn merk_simple_put() {
    let tree = build(&[b"key", b"key2", b"key3"], b"value");
    assert_tree_valid(&tree);
    assert_eq!(tree.entries().len(), 3);
}

#[test]
fn merk_range_inclusive() {
    let mut tree = SparseTree::new(Node::new(b"key", b"value"));
    tree.put(b"key2", b"value2", &NoStore).unwrap();
    tree.put(b"key3", b"value3", &NoStore).unwrap();
    let batch: Vec<(&[u8], &[u8])> = vec![(b"key", b"value"), (b"key2", b"value2"), (b"key3", b"value3")];
    let mut i = 0;
    for (k, v) in tree.entries() {
        if k >= &b"key"[..] && k <= &b"key3"[..] {
            assert_eq!(k, batch[i].0);
            assert_eq!(v, batch[i].1);
            i += 1;
        }
    }
    assert_eq!(i, 3);
}

#[test]
fn entries_are_ordered_after_reverse_inserts() {
    let mut tree = SparseTree::new(Node::new(b"z", b"0"));
    for c in (b'a'..b'z').rev() {
        tree.put(&[c], &[c], &NoStore).unwrap();
        assert_tree_valid(&tree);
    }
    let keys: Vec<Vec<u8>> = tree.entries().iter().map(|(k, _)| k.to_vec()).collect();
    let expected: Vec<Vec<u8>> = (b'a'..=b'z').map(|c| vec![c]).collect();
    assert_eq!(keys, expected);
}

#[test]
fn update_keeps_shape_and_takes_new_value() {
    let keys: [&[u8]; 5] = [b"m", b"c", b"x", b"a", b"e"];
    let mut twice = build(&keys, b"v");
    let mut once = build(&keys, b"v");
    twice.put(b"e", b"v1", &NoStore).unwrap();
    twice.put(b"e", b"v2", &NoStore).unwrap();
    once.put(b"e", b"v2", &NoStore).unwrap();
    assert_eq!(twice.node.hash(), once.node.hash());
    assert_eq!(twice.node.key, once.node.key);
    assert_eq!(twice.node.height(), once.node.height());
    let e: Vec<(Vec<u8>, Vec<u8>)> = twice.entries().iter().map(|(k, v)| (k.to_vec(), v.to_vec())).collect();
    assert!(e.contains(&(b"e".to_vec(), b"v2".to_vec())));
    assert_eq!(e.len(), 5);
}

#[test]
fn same_inserts_give_same_root_hash() {
    let keys: [&[u8]; 6] = [b"q", b"b", b"k", b"zz", b"a", b"c"];
    let a = build(&keys, b"val");
    let b = build(&keys, b"val");
    assert_eq!(a.node.hash(), b.node.hash());
    let c = build(&keys, b"other");
    assert_ne!(a.node.hash(), c.node.hash());
}

#[test]
fn export_and_rehydrate_keeps_root_hash() {
    let mut tree = SparseTree::new(Node::new(b"10", b"a"));
    for i in 11..30 {
        tree.put(&i.to_string().into_bytes()[..], b"a", &NoStore).unwrap();
    }
    let mut store = MemStore { nodes: HashMap::new() };
    export(&tree, &mut store);
    let link = tree.as_link();
    let mut fresh = SparseTree::get(&link, &store).unwrap();
    assert_eq!(fresh.node.hash(), tree.node.hash());
    let pairs: Vec<(Vec<u8>, Vec<u8>)> = tree.entries().iter().map(|(k, v)| (k.to_vec(), v.to_vec())).collect();
    for (k, v) in &pairs {
        fresh.put(k, v, &store).unwrap();
        assert_tree_valid(&fresh);
    }
    assert_eq!(fresh.node.hash(), tree.node.hash());
    assert_eq!(fresh.entries().len(), pairs.len());
}

#[test]
fn put_into_hydrated_tree_fetches_path() {
    let keys: [&[u8]; 7] = [b"d", b"b", b"f", b"a", b"c", b"e", b"g"];
    let tree = build(&keys, b"v");
    let mut store = MemStore { nodes: HashMap::new() };
    export(&tree, &mut store);
    let mut fresh = SparseTree::get(&tree.as_link(), &store).unwrap();
    fresh.put(b"h", b"v", &store).unwrap();
    assert_tree_valid(&fresh);
    let mut full = build(&keys, b"v");
    full.put(b"h", b"v", &NoStore).unwrap();
    assert_eq!(fresh.node.hash(), full.node.hash());
}

#[test]
fn missing_node_is_not_found() {
    let tree = build(&[b"b", b"a", b"c"], b"v");
    let store = MemStore { nodes: HashMap::new() };
    assert_eq!(SparseTree::get(&tree.as_link(), &store).err(), Some(TreeError::NodeNotFound));
}

#[test]
fn mismatched_node_is_rejected() {
    let tree = build(&[b"b", b"a", b"c"], b"v");
    let mut store = MemStore { nodes: HashMap::new() };
    export(&tree, &mut store);
    store.nodes.get_mut(&b"b".to_vec()).unwrap().value = b"changed".to_vec();
    assert_eq!(SparseTree::get(&tree.as_link(), &store).err(), Some(TreeError::LinkMismatch));
}

#[test]
fn child_out_of_order_is_rejected() {
    let tree = build(&[b"b", b"a", b"c"], b"v");
    let mut store = MemStore { nodes: HashMap::new() };
    export(&tree, &mut store);
    // the root's left link names a node whose key sorts after the root
    let mut root = store.nodes.get(&b"b".to_vec()).unwrap().clone();
    let right = root.right.clone();
    root.left = right;
    let mut fresh = SparseTree::new(root);
    assert_eq!(fresh.put(b"a0", b"v", &store), Err(TreeError::KeyOutOfOrder));
}

#[test]
fn node_hash_is_a_digest() {
    let n = Node::new(b"key", b"value");
    let h = n.hash();
    assert_eq!(h.len(), HASH_LENGTH);
    assert_ne!(h, Node::new(b"key", b"value2").hash());
    assert_ne!(h, Node::new(b"value", b"key").hash());
}

#[test]
fn byte_order_is_lexicographic() {
    assert!(bytes_lt(b"a", b"ab"));
    assert!(bytes_lt(b"ab", b"b"));
    assert!(!bytes_lt(b"b", b"b"));
    assert!(bytes_lt(b"", b"a"));
    assert!(bytes_lt(b"10", b"9"));
    assert!(bytes_eq(b"key", b"key"));
    assert!(!bytes_eq(b"key", b"key2"));
}

#[test]
fn new_tree_is_a_single_entry() {
    let tree = SparseTree::new(Node::new(b"k", b"v"));
    assert_eq!(tree.entries(), vec![(&b"k"[..], &b"v"[..])]);
    assert_eq!(tree.node.height(), 1);
    assert_eq!(tree.node.balance_factor(), 0);
    let link = tree.as_link();
    assert_eq!(link.key, b"k".to_vec());
    assert_eq!(link.height, 1);
}

#[test]
fn dump_lines_follow_the_shape() {
    let tree = build(&[b"b", b"a", b"c", b"d"], b"v");
    let lines = tree.dump_lines();
    let keys: Vec<Vec<u8>> = lines.iter().map(|l| l.key.clone()).collect();
    assert_eq!(keys, vec![b"b".to_vec(), b"a".to_vec(), b"c".to_vec(), b"d".to_vec()]);
    assert_eq!(lines[0].joint, None);
    assert_eq!(lines[0].side, None);
    assert!(lines[0].bars.is_empty());
    assert_eq!(lines[1].side, Some(true));
    assert_eq!(lines[1].joint, Some(true));
    assert_eq!(lines[2].side, Some(false));
    assert_eq!(lines[2].joint, Some(false));
    assert_eq!(lines[3].side, Some(false));
    assert_eq!(lines[3].bars, vec![false]);
}

#[test]
fn from_fetched_in_checks_bounds() {
    let tree = build(&[b"b", b"a", b"c"], b"v");
    let right = tree.child_tree(false).unwrap();
    let link = right.as_link();
    let node = right.node.clone();
    assert!(SparseTree::from_fetched_in(&link, Some(node.clone()), Some(b"b"), None).is_ok());
    assert_eq!(
        SparseTree::from_fetched_in(&link, Some(node.clone()), None, Some(b"b")).err(),
        Some(TreeError::KeyOutOfOrder)
    );
    assert_eq!(SparseTree::from_fetched_in(&link, None, None, None).err(), Some(TreeError::NodeNotFound));
}
