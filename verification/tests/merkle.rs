use blake3::hazmat::HasherExt;
use ellipsis_hash::hash::HashValue;
use ellipsis_hash::tree::BinaryMerkleTree;

fn leaf(b: u8) -> HashValue {
    HashValue::new([b; 32])
}

#[test]
fn test_update_leaf_correctness() {
    let exp_leaves: Vec<HashValue> = vec![leaf(b'X'), leaf(b'B'), leaf(b'C'), leaf(b'S')];
    let exp_tree = BinaryMerkleTree::new_from_leaves(exp_leaves);

    let act_leaves: Vec<HashValue> = vec![leaf(b'A'), leaf(b'B'), leaf(b'C'), leaf(b'D')];
    let mut act_tree = BinaryMerkleTree::new_from_leaves(act_leaves);

    let index0: usize = 0;
    act_tree.update_leaf(index0, leaf(b'X'));
    let index3: usize = 3;
    act_tree.update_leaf(index3, leaf(b'S'));

    assert_eq!(exp_tree.root().bytes, act_tree.root().bytes);
}

#[test]
fn test_blake3_correctness() {
    // Four whole chunks hashed as one input...
    const CHUNK: usize = 1024;
    let exp_input = [[b'A'; CHUNK], [b'B'; CHUNK], [b'C'; CHUNK], [b'D'; CHUNK]].concat();
    let exp_hash = blake3::hash(&exp_input);

    // ... must equal the tree of the four chunk chaining values, finalized
    // at the root from the root's two children.
    let mut act_leaves: Vec<HashValue> = Vec::new();
    for (i, b) in [b'A', b'B', b'C', b'D'].iter().enumerate() {
        let mut hasher = blake3::Hasher::new();
        hasher.set_input_offset((i * CHUNK) as u64);
        hasher.update(&[*b; CHUNK]);
        act_leaves.push(HashValue::new(hasher.finalize_non_root()));
    }
    let act_tree = BinaryMerkleTree::new_from_leaves(act_leaves);

    let act_hash = blake3::hazmat::merge_subtrees_root(
        &act_tree.tree[2].bytes,
        &act_tree.tree[3].bytes,
        blake3::hazmat::Mode::Hash,
    );
    assert_eq!(exp_hash.as_bytes(), act_hash.as_bytes());
}

#[test]
fn root_is_pairwise_reduction() {
    // The root of [a, b, c, d] is combine(combine(a, b), combine(c, d)):
    // the same value a two-leaf tree of the two subtree roots produces.
    let a = leaf(1);
    let b = leaf(2);
    let c = leaf(3);
    let d = leaf(4);
    let left = BinaryMerkleTree::new_from_leaves(vec![a, b]).root();
    let right = BinaryMerkleTree::new_from_leaves(vec![c, d]).root();
    let outer = BinaryMerkleTree::new_from_leaves(vec![left, right]).root();
    let whole = BinaryMerkleTree::new_from_leaves(vec![a, b, c, d]).root();
    assert_eq!(outer.bytes, whole.bytes);
}

#[test]
fn update_leaf_is_idempotent() {
    let mut tree = BinaryMerkleTree::new_from_leaves(vec![leaf(9), leaf(8), leaf(7), leaf(6)]);
    tree.update_leaf(2, leaf(b'Z'));
    let after_first_root = tree.root().bytes;
    let after_first_tree: Vec<[u8; 32]> = tree.tree.iter().map(|h| h.bytes).collect();
    tree.update_leaf(2, leaf(b'Z'));
    assert_eq!(after_first_root, tree.root().bytes);
    let after_second_tree: Vec<[u8; 32]> = tree.tree.iter().map(|h| h.bytes).collect();
    assert_eq!(after_first_tree, after_second_tree);
}

#[test]
fn bulk_update_matches_sequential_updates() {
    let leaves = vec![leaf(1), leaf(2), leaf(3), leaf(4)];
    let mut bulk_tree = BinaryMerkleTree::new_from_leaves(leaves.clone());
    let mut seq_tree = BinaryMerkleTree::new_from_leaves(leaves);

    let r = bulk_tree.bulk_insert_leaves(vec![0, 3], vec![leaf(b'X'), leaf(b'S')]);
    assert!(r.is_some());
    seq_tree.update_leaf(0, leaf(b'X'));
    seq_tree.update_leaf(3, leaf(b'S'));

    assert_eq!(bulk_tree.root().bytes, seq_tree.root().bytes);
    for k in 0..bulk_tree.tree.len() {
        assert_eq!(bulk_tree.tree[k].bytes, seq_tree.tree[k].bytes);
    }
}

#[test]
fn bulk_update_coalesces_siblings_to_the_same_root() {
    // Both children of one parent in a single batch: the result still
    // matches the two single updates.
    let leaves = vec![leaf(1), leaf(2), leaf(3), leaf(4)];
    let mut bulk_tree = BinaryMerkleTree::new_from_leaves(leaves.clone());
    let mut seq_tree = BinaryMerkleTree::new_from_leaves(leaves);

    let r = bulk_tree.bulk_insert_leaves(vec![0, 1], vec![leaf(b'P'), leaf(b'Q')]);
    assert!(r.is_some());
    seq_tree.update_leaf(0, leaf(b'P'));
    seq_tree.update_leaf(1, leaf(b'Q'));

    assert_eq!(bulk_tree.root().bytes, seq_tree.root().bytes);
}

#[test]
fn bulk_update_rejects_unsorted_and_duplicate_indices() {
    let leaves = vec![leaf(1), leaf(2), leaf(3), leaf(4)];
    let mut tree = BinaryMerkleTree::new_from_leaves(leaves);
    let untouched: Vec<[u8; 32]> = tree.tree.iter().map(|h| h.bytes).collect();

    let descending = tree.bulk_insert_leaves(vec![2, 1], vec![leaf(b'X'), leaf(b'Y')]);
    assert!(descending.is_none());
    let after_descending: Vec<[u8; 32]> = tree.tree.iter().map(|h| h.bytes).collect();
    assert_eq!(untouched, after_descending);

    let duplicate = tree.bulk_insert_leaves(vec![1, 1], vec![leaf(b'X'), leaf(b'Y')]);
    assert!(duplicate.is_none());
    let after_duplicate: Vec<[u8; 32]> = tree.tree.iter().map(|h| h.bytes).collect();
    assert_eq!(untouched, after_duplicate);
}

#[test]
fn single_leaf_tree_root_is_the_leaf() {
    let the_leaf = leaf(b'L');
    let tree = BinaryMerkleTree::new_from_leaves(vec![the_leaf]);
    assert_eq!(tree.root().bytes, the_leaf.bytes);
    assert_eq!(tree.num_leaves(), 1);
    assert_eq!(tree.get_tree_length(), 1);
}

#[test]
fn empty_tree_is_zero_filled() {
    let tree = BinaryMerkleTree::new_empty(4);
    assert_eq!(tree.num_leaves(), 4);
    assert_eq!(tree.get_tree_length(), 7);
    for k in 0..8 {
        assert_eq!(tree.tree[k].bytes, [0u8; 32]);
    }
}

#[test]
fn hash_value_equality_is_bitwise() {
    let a = leaf(5);
    let b = leaf(5);
    let c = leaf(6);
    assert!(a.equals(&b));
    assert!(!a.equals(&c));
}

#[test]
fn accessors_report_the_layout() {
    let tree = BinaryMerkleTree::new_from_leaves(vec![leaf(1), leaf(2), leaf(3), leaf(4)]);
    assert_eq!(tree.num_leaves(), 4);
    assert_eq!(tree.get_tree_length(), 7);
    assert_eq!(tree.root().bytes, tree.tree[1].bytes);
    // leaves sit in the second half of the backing vector
    assert_eq!(tree.tree[4].bytes, [1u8; 32]);
    assert_eq!(tree.tree[7].bytes, [4u8; 32]);
}
