use koru_delta::reconciliation::merkle::{MerkleNode, MerkleTree};

fn create_distinctions(count: usize) -> Vec<String> {
    (0..count).map(|i| format!("dist_{:08x}", i)).collect()
}

#[test]
fn test_empty_tree() {
    let tree = MerkleTree::empty();
    assert!(tree.is_empty());
    assert_eq!(tree.root_hash(), [0; 32]);
}

#[test]
fn test_single_distinction() {
    let tree = MerkleTree::from_distinctions(&["abc".to_string()]);
    assert_eq!(tree.size(), 1);
    assert!(!tree.is_empty());

    let distinctions = tree.distinctions();
    assert_eq!(distinctions, vec!["abc"]);
}

#[test]
fn test_multiple_distinctions() {
    let distinctions = create_distinctions(4);
    let tree = MerkleTree::from_distinctions(&distinctions);

    assert_eq!(tree.size(), 4);
    assert!(tree.verify());

    let collected = tree.distinctions();
    assert_eq!(collected.len(), 4);
}

#[test]
fn test_deterministic_build() {
    let d1 = create_distinctions(8);
    let d2 = create_distinctions(8);

    let tree1 = MerkleTree::from_distinctions(&d1);
    let tree2 = MerkleTree::from_distinctions(&d2);

    assert_eq!(tree1.root_hash(), tree2.root_hash());
}

#[test]
fn test_diff_identical() {
    let distinctions = create_distinctions(8);
    let tree1 = MerkleTree::from_distinctions(&distinctions);
    let tree2 = MerkleTree::from_distinctions(&distinctions);

    let diff = tree1.diff(&tree2);
    assert!(diff.is_empty());
}

#[test]
fn test_diff_missing_one() {
    let d1 = create_distinctions(8);
    let d2 = create_distinctions(7);

    let tree1 = MerkleTree::from_distinctions(&d1);
    let tree2 = MerkleTree::from_distinctions(&d2);

    let diff = tree1.diff(&tree2);
    assert_eq!(diff.len(), 1);
    assert!(diff.contains(&"dist_00000007".to_string()));
}

#[test]
fn test_diff_missing_multiple() {
    let d1 = create_distinctions(8);
    let d2 = create_distinctions(4);

    let tree1 = MerkleTree::from_distinctions(&d1);
    let tree2 = MerkleTree::from_distinctions(&d2);

    let diff = tree1.diff(&tree2);
    assert!(diff.len() >= 4, "Should have at least 4 differences, got {}", diff.len());
    for i in 4..8 {
        assert!(diff.contains(&format!("dist_{:08x}", i)));
    }
}

#[test]
fn test_large_tree() {
    let distinctions = create_distinctions(1000);
    let tree = MerkleTree::from_distinctions(&distinctions);

    assert_eq!(tree.size(), 1000);
    assert!(tree.verify());
}

#[test]
fn test_power_of_two_padding() {
    let distinctions = create_distinctions(5);
    let tree = MerkleTree::from_distinctions(&distinctions);

    assert_eq!(tree.size(), 5);
    assert!(tree.verify());

    let collected = tree.distinctions();
    assert_eq!(collected.len(), 5);
}

#[test]
fn merkle_order_does_not_matter() {
    let mut d = create_distinctions(6);
    let t1 = MerkleTree::from_distinctions(&d);
    d.reverse();
    let t2 = MerkleTree::from_distinctions(&d);
    assert_eq!(t1.root_hash(), t2.root_hash());
    assert_eq!(t2.distinctions(), create_distinctions(6));
}

#[test]
fn merkle_distinctions_come_back_sorted() {
    let d = vec!["pear".to_string(), "apple".to_string(), "fig".to_string()];
    let t = MerkleTree::from_distinctions(&d);
    assert_eq!(t.distinctions(), vec!["apple", "fig", "pear"]);
}

#[test]
fn merkle_single_leaf_root_is_leaf_hash() {
    // A single leaf is the root; its hash is SHA-256("abc").
    let t = MerkleTree::from_distinctions(&["abc".to_string()]);
    let expected: [u8; 32] = [
        0xba, 0x78, 0x16, 0xbf, 0x8f, 0x01, 0xcf, 0xea, 0x41, 0x41, 0x40, 0xde, 0x5d, 0xae, 0x22,
        0x23, 0xb0, 0x03, 0x61, 0xa3, 0x96, 0x17, 0x7a, 0x9c, 0xb4, 0x10, 0xff, 0x61, 0xf2, 0x00,
        0x15, 0xad,
    ];
    assert_eq!(t.root_hash(), expected);
    assert!(t.verify());
}

#[test]
fn merkle_diff_against_empty_reports_all() {
    let d = create_distinctions(3);
    let t = MerkleTree::from_distinctions(&d);
    let mut diff = t.diff(&MerkleTree::empty());
    diff.sort();
    assert_eq!(diff, d);
    assert!(MerkleTree::empty().diff(&t).is_empty());
}

#[test]
fn merkle_node_predicates() {
    assert!(MerkleNode::Empty.is_empty());
    assert!(!MerkleNode::Empty.is_leaf());
    assert_eq!(MerkleNode::Empty.hash(), [0; 32]);
}

#[test]
fn merkle_duplicates_are_counted_but_reported_once() {
    let d = vec!["x".to_string(), "x".to_string()];
    let t = MerkleTree::from_distinctions(&d);
    assert_eq!(t.size(), 2);
    assert_eq!(t.distinctions(), vec!["x", "x"]);
    assert_eq!(t.diff(&MerkleTree::empty()), vec!["x".to_string()]);
}
