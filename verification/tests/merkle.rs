use relay::dht::sync::merkle::{nibble_path_for, record_value_hash, tombstone_value_hash, NodePath, SliceTree};

fn ipk_for(slice: u8, b1: u8, b2: u8, b3: u8) -> [u8; 32] {
    let mut k = [0u8; 32];
    k[0] = slice;
    k[1] = b1;
    k[2] = b2;
    k[3] = b3;
    k
}

#[test]
fn nibble_path_for_decomposes_correctly() {
    let k = ipk_for(0xAA, 0x12, 0x34, 0xFF);
    let (sid, path) = nibble_path_for(&k);
    assert_eq!(sid, 0xAA);
    assert_eq!(path, vec![0x1, 0x2, 0x3, 0x4]);
}

#[test]
fn merkle_state_empty_root_is_zero() {
    let tree = SliceTree::new(7);
    assert_eq!(tree.root(), [0u8; 32]);
    assert!(tree.is_empty());
}

#[test]
fn merkle_state_insert_then_remove_returns_to_zero_root() {
    let mut tree = SliceTree::new(7);
    let k = ipk_for(7, 0x01, 0x02, 0x03);
    tree.insert(&k, [42u8; 32]);
    assert_ne!(tree.root(), [0u8; 32]);

    tree.remove(&k);
    assert_eq!(tree.root(), [0u8; 32]);
    assert!(tree.is_empty());
}

#[test]
fn merkle_state_two_inserts_in_same_slice_diff_keys() {
    // Insert two records in slice 5 in opposite orders → root
    // identical (Merkle hash is over a sorted-canonical view).
    let k1 = ipk_for(5, 0x11, 0x00, 0x00);
    let k2 = ipk_for(5, 0x22, 0x00, 0x00);
    let v1 = [1u8; 32];
    let v2 = [2u8; 32];

    let mut a = SliceTree::new(5);
    a.insert(&k1, v1);
    a.insert(&k2, v2);
    let root_a = a.root();

    let mut b = SliceTree::new(5);
    b.insert(&k2, v2);
    b.insert(&k1, v1);
    let root_b = b.root();

    assert_ne!(root_a, [0u8; 32]);
    assert_eq!(root_a, root_b, "insert order must not affect the root hash");
}

#[test]
fn merkle_state_value_hash_change_changes_root() {
    // Same key, different value-hash → different root (convergence
    // on diverging value, not just absence).
    let k = ipk_for(5, 0x11, 0x22, 0x33);
    let mut a = SliceTree::new(5);
    a.insert(&k, [1u8; 32]);
    let root_a = a.root();

    let mut b = SliceTree::new(5);
    b.insert(&k, [2u8; 32]);
    let root_b = b.root();

    assert_ne!(root_a, root_b);
}

#[test]
fn merkle_state_diff_at_root_returns_children() {
    // Build a tree with one entry and check that the slice-root's
    // 16 child hashes have exactly one non-zero slot — the one
    // matching the entry's first nibble.
    let mut tree = SliceTree::new(5);
    let k = ipk_for(5, 0xA0, 0x00, 0x00); // first nibble = 0xA
    tree.insert(&k, [1u8; 32]);

    let children = tree.children_at(&Vec::<u8>::new());
    for (i, c) in children.iter().enumerate() {
        if i == 0xA {
            assert_ne!(c, &[0u8; 32], "child index 0xA must have a non-zero hash");
        } else {
            assert_eq!(c, &[0u8; 32], "child index {i} must be zero");
        }
    }
}

#[test]
fn merkle_state_diff_at_leaf_depth_returns_leaves() {
    let mut tree = SliceTree::new(5);
    let k1 = ipk_for(5, 0xA0, 0x00, 0x00);
    let k2 = ipk_for(5, 0xA0, 0x00, 0xFF); // same leaf path (top 16 bits identical)
    tree.insert(&k1, [1u8; 32]);
    tree.insert(&k2, [2u8; 32]);

    let (_, path) = nibble_path_for(&k1);
    let leaves = tree.leaves_at(&path);
    assert_eq!(leaves.len(), 2);
    // Sorted by ipk.
    assert_eq!(leaves[0].0, k1);
    assert_eq!(leaves[1].0, k2);
}

#[test]
fn merkle_state_diff_at_unrelated_leaf_returns_empty() {
    let tree = SliceTree::new(5);
    let path: NodePath = vec![0, 0, 0, 0];
    assert!(tree.leaves_at(&path).is_empty());
}

#[test]
fn merkle_state_root_recovers_after_partial_remove() {
    // Insert 3 leaves, remove one, verify root matches a tree
    // built directly with the surviving 2 entries.
    let k1 = ipk_for(5, 0x11, 0x00, 0x00);
    let k2 = ipk_for(5, 0x22, 0x00, 0x00);
    let k3 = ipk_for(5, 0x33, 0x00, 0x00);

    let mut a = SliceTree::new(5);
    a.insert(&k1, [1u8; 32]);
    a.insert(&k2, [2u8; 32]);
    a.insert(&k3, [3u8; 32]);
    a.remove(&k2);
    let root_a = a.root();

    let mut b = SliceTree::new(5);
    b.insert(&k1, [1u8; 32]);
    b.insert(&k3, [3u8; 32]);
    let root_b = b.root();

    assert_eq!(root_a, root_b);
}

#[test]
fn record_and_tombstone_value_hashes_differ_for_same_input() {
    let bytes = b"sample-record";
    assert_ne!(record_value_hash(bytes), tombstone_value_hash(bytes));
}
