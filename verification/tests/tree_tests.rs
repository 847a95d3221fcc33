use pg_bart::tree::{DecisionTree, TreeError};

fn bits(x: f64) -> u64 {
    x.to_bits()
}

/// Root split on feature 0 at 0.5; its right child split on feature 1 at 2.0.
fn two_level_tree() -> DecisionTree {
    let mut t = DecisionTree::new(bits(0.0));
    assert_eq!(t.split_node(0, 0, bits(0.5), bits(-1.0), bits(1.0), 3, 5), Ok((1, 2)));
    assert_eq!(t.split_node(2, 1, bits(2.0), bits(10.0), bits(20.0), 2, 3), Ok((3, 4)));
    t
}

#[test]
fn new_tree_is_single_leaf() {
    let t = DecisionTree::new(bits(1.5));
    assert_eq!(t.value, vec![bits(1.5)]);
    assert_eq!(t.left_child, vec![-1]);
    assert_eq!(t.right_child, vec![-1]);
    assert_eq!(t.parent, vec![-1]);
    assert_eq!(t.leaf_id, vec![0]);
    assert_eq!(t.next_leaf_id, 1);
    assert!(t.is_leaf(0));
    assert!(t.is_leaf_id(0));
    t.validate_invariants();
}

#[test]
fn add_node_appends_leaf_with_next_id() {
    let mut t = DecisionTree::new(bits(0.0));
    let id = t.add_node(3, bits(0.25), bits(7.0));
    assert_eq!(id, 1);
    assert_eq!(t.feature, vec![0, 3]);
    assert_eq!(t.threshold, vec![0, bits(0.25)]);
    assert_eq!(t.value, vec![bits(0.0), bits(7.0)]);
    assert_eq!(t.leaf_id, vec![0, 1]);
    assert_eq!(t.parent, vec![-1, -1]);
    assert_eq!(t.next_leaf_id, 2);
}

#[test]
fn split_node_builds_children() {
    let mut t = DecisionTree::new(bits(0.0));
    let r = t.split_node(0, 4, bits(0.5), bits(-1.0), bits(1.0), 3, 5);
    assert_eq!(r, Ok((1, 2)));
    assert_eq!(t.feature, vec![4, 0, 0]);
    assert_eq!(t.threshold, vec![bits(0.5), 0, 0]);
    assert_eq!(t.value, vec![bits(0.0), bits(-1.0), bits(1.0)]);
    assert_eq!(t.left_child, vec![1, -1, -1]);
    assert_eq!(t.right_child, vec![2, -1, -1]);
    assert_eq!(t.parent, vec![-1, 0, 0]);
    assert_eq!(t.n_left, vec![3, 0, 0]);
    assert_eq!(t.n_right, vec![5, 0, 0]);
    assert_eq!(t.leaf_id, vec![-1, 1, 2]);
    assert_eq!(t.next_leaf_id, 3);
    assert!(t.is_split(0));
    assert!(!t.is_leaf_id(0));
    assert_eq!(t.children(0), Some((1, 2)));
    assert_eq!(t.children(1), None);
    assert_eq!(t.left_child(0), Some(1));
    assert_eq!(t.right_child(1), None);
    assert_eq!(t.nvalue(0), 8);
    t.validate_invariants();
}

#[test]
fn split_node_rejects_missing_node() {
    let mut t = DecisionTree::new(bits(0.0));
    let before = t.clone();
    assert_eq!(t.split_node(1, 0, 0, 0, 0, 0, 0), Err(TreeError::InvalidNodeIndex));
    assert_eq!(t, before);
}

#[test]
fn split_node_rejects_internal_node() {
    let mut t = two_level_tree();
    let before = t.clone();
    assert_eq!(t.split_node(0, 0, 0, 0, 0, 0, 0), Err(TreeError::NonLeafSplit));
    assert_eq!(t, before);
}

#[test]
fn tree_error_messages() {
    assert_eq!(TreeError::NonLeafSplit.message(), "Cannot split a non-leaf node");
    assert_eq!(TreeError::InvalidNodeIndex.message(), "Node index does not exist");
}

#[test]
fn node_depth_counts_parent_links() {
    let t = two_level_tree();
    assert_eq!(t.node_depth(0), 0);
    assert_eq!(t.node_depth(1), 1);
    assert_eq!(t.node_depth(2), 1);
    assert_eq!(t.node_depth(3), 2);
    assert_eq!(t.node_depth(4), 2);
}

#[test]
fn predict_leaf_follows_directions() {
    let t = two_level_tree();
    assert_eq!(t.predict_leaf(&[false, false, false, false, false]), 1);
    assert_eq!(t.predict_leaf(&[true, false, false, false, false]), 3);
    assert_eq!(t.predict_leaf(&[true, true, true, true, true]), 4);
}

#[test]
fn excluded_mask_leaves_visits_right_subtree_first() {
    let t = two_level_tree();
    // Feature 0 excluded: both children of the root; node 2 follows its direction.
    let leaves = t.excluded_mask_leaves(&[false, false, true, false, false], &[true, false]);
    let got: Vec<(usize, Vec<(usize, bool)>)> =
        leaves.into_iter().map(|l| (l.leaf, l.path)).collect();
    assert_eq!(got, vec![(4, vec![(0, true)]), (1, vec![(0, false)])]);
}

#[test]
fn excluded_mask_leaves_with_all_excluded() {
    let t = two_level_tree();
    let leaves = t.excluded_mask_leaves(&[false; 5], &[true, true]);
    let got: Vec<(usize, Vec<(usize, bool)>)> =
        leaves.into_iter().map(|l| (l.leaf, l.path)).collect();
    assert_eq!(
        got,
        vec![
            (4, vec![(0, true), (2, true)]),
            (3, vec![(0, true), (2, false)]),
            (1, vec![(0, false)]),
        ]
    );
}

#[test]
fn excluded_mask_leaves_without_exclusion_is_deterministic() {
    let t = two_level_tree();
    let dirs = [true, false, false, false, false];
    let leaves = t.excluded_mask_leaves(&dirs, &[]);
    assert_eq!(leaves.len(), 1);
    assert_eq!(leaves[0].leaf, t.predict_leaf(&dirs));
    assert!(leaves[0].path.is_empty());
}

#[test]
fn to_dump_parts_masks_leaves() {
    let t = two_level_tree();
    let d = t.to_dump_parts();
    assert_eq!(d.split_feature, vec![0, -1, 1, -1, -1]);
    assert_eq!(d.split_value, vec![bits(0.5), 0, bits(2.0), 0, 0]);
    assert_eq!(d.left_child, t.left_child);
    assert_eq!(d.right_child, t.right_child);
    assert_eq!(d.leaf_value, t.value);
    assert_eq!(d.n_left, vec![3, 0, 2, 0, 0]);
    assert_eq!(d.n_right, vec![5, 0, 3, 0, 0]);
    assert_eq!(d.root_index, 0);
}

#[test]
fn out_of_range_links_count_as_absent() {
    let mut t = DecisionTree::new(bits(0.0));
    t.left_child[0] = 1;
    t.right_child[0] = 5;
    assert!(t.is_leaf(0));
    assert!(!t.is_split(0));
}

#[test]
fn split_node_on_leaf_with_stale_links() {
    let mut t = DecisionTree::new(bits(0.0));
    t.left_child[0] = 7;
    assert_eq!(t.split_node(0, 1, bits(0.5), bits(1.0), bits(2.0), 1, 1), Ok((1, 2)));
    assert_eq!(t.left_child, vec![1, -1, -1]);
    assert_eq!(t.right_child, vec![2, -1, -1]);
    t.validate_invariants();
}

#[test]
fn split_node_refusals_need_no_consistent_tree() {
    let mut t = DecisionTree::new(bits(0.0));
    t.leaf_id[0] = -1;
    t.next_leaf_id = i32::MAX;
    assert_eq!(t.split_node(3, 0, 0, 0, 0, 0, 0), Err(TreeError::InvalidNodeIndex));
}

#[test]
fn node_depth_follows_forward_links() {
    let mut t = DecisionTree::new(bits(0.0));
    t.add_node(0, 0, 0);
    t.add_node(0, 0, 0);
    t.parent = vec![-1, 2, 0];
    assert_eq!(t.node_depth(1), 2);
    assert_eq!(t.node_depth(2), 1);
}

#[test]
fn node_depth_follows_only_the_chain() {
    let mut t = two_level_tree();
    t.parent[1] = 4;
    assert_eq!(t.node_depth(3), 2);
}
