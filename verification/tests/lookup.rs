use btree::BTree;
use btree::BTreeError;
use btree::Branch;
use btree::BranchElt;
use btree::Leaf;
use btree::LeafElt;
use btree::Node;

#[test]
fn single_entry_hit() {
    let t = BTree::new(1, "taco".to_string(), 2).unwrap();
    assert_eq!(t.get(1), Some(&"taco".to_string()));
}

#[test]
fn single_entry_miss() {
    let t = BTree::new(1, "taco".to_string(), 2).unwrap();
    assert_eq!(t.get(2), None);
}

#[test]
fn zero_lower_bound_rejected() {
    let r = BTree::new(7, "x".to_string(), 0);
    assert!(matches!(r, Err(BTreeError::InvalidConfiguration)));
}

#[test]
fn branch_lookup() {
    let left = Node::new_leaf(vec![LeafElt::new(5, "a".to_string())]);
    let right = Node::new_leaf(vec![LeafElt::new(15, "c".to_string())]);
    let node = Node::new_branch(vec![BranchElt::new(10, "b".to_string(), left)], Box::new(right));
    assert_eq!(node.get(5), Some(&"a".to_string()));
    assert_eq!(node.get(10), Some(&"b".to_string()));
    assert_eq!(node.get(15), Some(&"c".to_string()));
    assert_eq!(node.get(20), None);
}

#[test]
fn branch_with_two_entries() {
    let a = Node::new_leaf(vec![LeafElt::new(1, "a".to_string())]);
    let b = Node::new_leaf(vec![LeafElt::new(12, "c".to_string())]);
    let r = Node::new_leaf(vec![LeafElt::new(30, "e".to_string())]);
    let node = Node::new_branch(
        vec![
            BranchElt::new(10, "b".to_string(), a),
            BranchElt::new(20, "d".to_string(), b),
        ],
        Box::new(r),
    );
    assert_eq!(node.get(1), Some(&"a".to_string()));
    assert_eq!(node.get(10), Some(&"b".to_string()));
    assert_eq!(node.get(12), Some(&"c".to_string()));
    assert_eq!(node.get(20), Some(&"d".to_string()));
    assert_eq!(node.get(30), Some(&"e".to_string()));
    assert_eq!(node.get(15), None);
    assert_eq!(node.get(31), None);
}

#[test]
fn deep_branch_lookup() {
    let ll = Node::new_leaf(vec![LeafElt::new(1, "one".to_string())]);
    let lr = Node::new_leaf(vec![LeafElt::new(5, "five".to_string())]);
    let inner = Node::new_branch(vec![BranchElt::new(3, "three".to_string(), ll)], Box::new(lr));
    let rr = Node::new_leaf(vec![LeafElt::new(20, "twenty".to_string())]);
    let top = Node::new_branch(vec![BranchElt::new(10, "ten".to_string(), inner)], Box::new(rr));
    assert_eq!(top.get(1), Some(&"one".to_string()));
    assert_eq!(top.get(3), Some(&"three".to_string()));
    assert_eq!(top.get(5), Some(&"five".to_string()));
    assert_eq!(top.get(10), Some(&"ten".to_string()));
    assert_eq!(top.get(20), Some(&"twenty".to_string()));
    assert_eq!(top.get(2), None);
    assert_eq!(top.get(11), None);
}

#[test]
fn leaf_scan_finds_each_key() {
    let node = Node::new_leaf(vec![
        LeafElt::new(1, "a".to_string()),
        LeafElt::new(3, "b".to_string()),
        LeafElt::new(7, "c".to_string()),
    ]);
    assert_eq!(node.get(1), Some(&"a".to_string()));
    assert_eq!(node.get(3), Some(&"b".to_string()));
    assert_eq!(node.get(7), Some(&"c".to_string()));
    assert_eq!(node.get(0), None);
    assert_eq!(node.get(4), None);
    assert_eq!(node.get(8), None);
}

#[test]
fn extreme_keys() {
    let node = Node::new_leaf(vec![
        LeafElt::new(i64::MIN, "low".to_string()),
        LeafElt::new(i64::MAX, "high".to_string()),
    ]);
    assert_eq!(node.get(i64::MIN), Some(&"low".to_string()));
    assert_eq!(node.get(i64::MAX), Some(&"high".to_string()));
    assert_eq!(node.get(0), None);
}

#[test]
fn leaf_direct_get() {
    let leaf = Leaf::new(vec![LeafElt::new(2, "two".to_string())]);
    assert_eq!(leaf.get(2), Some(&"two".to_string()));
    assert_eq!(leaf.get(3), None);
}

#[test]
fn branch_direct_get() {
    let left = Node::new_leaf(vec![LeafElt::new(5, "a".to_string())]);
    let right = Node::new_leaf(vec![LeafElt::new(15, "c".to_string())]);
    let branch = Branch::new(vec![BranchElt::new(10, "b".to_string(), left)], Box::new(right));
    assert_eq!(branch.get(5), Some(&"a".to_string()));
    assert_eq!(branch.get(999), None);
}

#[test]
fn entry_comparisons() {
    assert!(LeafElt::new(1, "a".to_string()).less_than(LeafElt::new(2, "b".to_string())));
    assert!(!LeafElt::new(2, "a".to_string()).less_than(LeafElt::new(2, "b".to_string())));
    assert!(LeafElt::new(3, "a".to_string()).greater_than(LeafElt::new(2, "b".to_string())));
    assert!(!LeafElt::new(2, "a".to_string()).greater_than(LeafElt::new(2, "b".to_string())));
    assert!(LeafElt::new(2, "a".to_string()).has_key(2));
    assert!(!LeafElt::new(2, "a".to_string()).has_key(3));
}

#[test]
fn leaf_and_branch_variants() {
    let leaf = Node::new_leaf(vec![LeafElt::new(1, "a".to_string())]);
    assert!(leaf.is_leaf());
    let sub = Node::new_leaf(vec![LeafElt::new(1, "a".to_string())]);
    let right = Node::new_leaf(vec![LeafElt::new(9, "z".to_string())]);
    let branch = Node::new_branch(vec![BranchElt::new(5, "m".to_string(), sub)], Box::new(right));
    assert!(!branch.is_leaf());
}
