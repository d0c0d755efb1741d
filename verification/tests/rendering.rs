use btree::BTree;
use btree::BranchElt;
use btree::LeafElt;
use btree::Node;

#[test]
fn render_single_leaf() {
    let t = BTree::new(1, "taco".to_string(), 2).unwrap();
    assert_eq!(t.to_str(), " // Key: 1, value: taco; ");
}

#[test]
fn render_multi_entry_leaf() {
    let node = Node::new_leaf(vec![
        LeafElt::new(1, "a".to_string()),
        LeafElt::new(30, "b".to_string()),
    ]);
    assert_eq!(node.to_str(), " // Key: 1, value: a;  // Key: 30, value: b; ");
}

#[test]
fn render_entry_fragment() {
    let e = LeafElt::new(7, "salsa".to_string());
    assert_eq!(e.to_str(), "Key: 7, value: salsa; ");
}

#[test]
fn render_negative_key() {
    let e = LeafElt::new(-42, "x".to_string());
    assert_eq!(e.to_str(), "Key: -42, value: x; ");
}

#[test]
fn render_extreme_keys() {
    let low = LeafElt::new(i64::MIN, "low".to_string());
    assert_eq!(low.to_str(), "Key: -9223372036854775808, value: low; ");
    let high = LeafElt::new(i64::MAX, "high".to_string());
    assert_eq!(high.to_str(), "Key: 9223372036854775807, value: high; ");
}

// A branch renders as the empty fragment although the tree below it holds
// entries: the rendering is lossy, and re-parsing it cannot restore the
// tree.
#[test]
fn render_branch_is_empty() {
    let left = Node::new_leaf(vec![LeafElt::new(5, "a".to_string())]);
    let right = Node::new_leaf(vec![LeafElt::new(15, "c".to_string())]);
    let node = Node::new_branch(vec![BranchElt::new(10, "b".to_string(), left)], Box::new(right));
    assert_eq!(node.to_str(), "");
    assert_eq!(node.get(10), Some(&"b".to_string()));
}
