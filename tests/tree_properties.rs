use binary_tree::binary_tree::utils::{
    node_label, populate_balanced_binary_search_tree, populate_balanced_binary_tree,
    NODES_COUNT,
};
use binary_tree::binary_tree::BinaryTree;

fn labels(tree: &BinaryTree, hs: &[usize]) -> Vec<String> {
    hs.iter().map(|h| tree.nodes[*h].name.clone()).collect()
}

fn links(tree: &BinaryTree) -> Vec<(Option<usize>, Option<usize>, Option<usize>)> {
    tree.nodes.iter().map(|n| (n.left, n.right, n.parent)).collect()
}

/// A small tree built by hand:
///        a
///      /   \
///     b     c
///      \
///       d
fn small_tree() -> BinaryTree {
    let mut tree = BinaryTree::new();
    for label in ["a", "b", "c", "d"] {
        let h = tree.new_node();
        tree.set_name(h, label.to_string());
    }
    tree.set_left(0, 1);
    tree.set_right(0, 2);
    tree.set_right(1, 3);
    tree.assign_parents(0);
    tree.with_root(0)
}

#[test]
fn complete_tree_count_matches_size() {
    let tree = populate_balanced_binary_search_tree();
    assert_eq!(tree.count(0), NODES_COUNT);
    assert_eq!(tree.count(1), 7);
    assert_eq!(tree.count(5), 3);
    assert_eq!(tree.count(14), 1);
}

#[test]
fn top_down_on_subtree() {
    let tree = populate_balanced_binary_tree();
    let names = labels(&tree, &tree.flatten_top_down(2));
    assert_eq!(names, ["n2", "n5", "n6", "n11", "n12", "n13", "n14"]);
}

#[test]
fn parents_assigned_after_fixture() {
    let tree = populate_balanced_binary_tree();
    assert_eq!(tree.nodes[0].parent, None);
    for (p, node) in tree.nodes.iter().enumerate() {
        if let Some(l) = node.left {
            assert_eq!(tree.nodes[l].parent, Some(p));
        }
        if let Some(r) = node.right {
            assert_eq!(tree.nodes[r].parent, Some(p));
        }
    }
}

#[test]
fn parents_absent_before_assignment() {
    let mut tree = BinaryTree::new();
    let a = tree.new_node();
    let b = tree.new_node();
    tree.set_left(a, b);
    assert_eq!(tree.nodes[b].parent, None);
    tree.assign_parents(a);
    assert_eq!(tree.nodes[b].parent, Some(a));
    assert_eq!(tree.nodes[a].parent, None);
}

#[test]
fn leftmost_follows_left_links() {
    let tree = small_tree();
    assert_eq!(tree.leftmost(0), Some(1));
    assert_eq!(tree.leftmost(1), None);
    assert_eq!(tree.leftmost(3), None);
}

#[test]
fn inorder_of_small_tree() {
    let tree = small_tree();
    let names = labels(&tree, &tree.flatten_inorder(0));
    assert_eq!(names, ["b", "d", "a", "c"]);
}

#[test]
fn inorder_of_single_node() {
    let mut tree = BinaryTree::new();
    let a = tree.new_node();
    assert_eq!(tree.flatten_inorder(a), vec![a]);
    assert_eq!(tree.count(a), 1);
    assert_eq!(tree.flatten_top_down(a), vec![a]);
}

#[test]
fn inversions_agree() {
    let mut rec = populate_balanced_binary_tree();
    let mut iter = populate_balanced_binary_tree();
    rec.invert_recursive(0);
    iter.invert_iterative(0);
    assert_eq!(links(&rec), links(&iter));
    assert_eq!(rec.nodes[0].left, Some(2));
    assert_eq!(rec.nodes[0].right, Some(1));
}

#[test]
fn invert_twice_restores_inorder() {
    let mut tree = populate_balanced_binary_tree();
    let before = tree.flatten_inorder(0);
    let links_before = links(&tree);
    tree.invert_recursive(0);
    tree.invert_iterative(0);
    assert_eq!(tree.flatten_inorder(0), before);
    assert_eq!(links(&tree), links_before);
}

#[test]
fn invert_small_tree_reverses_inorder() {
    let mut tree = small_tree();
    tree.invert_iterative(0);
    let names = labels(&tree, &tree.flatten_inorder(0));
    assert_eq!(names, ["c", "a", "d", "b"]);
    assert_eq!(tree.nodes[3].parent, Some(1));
}

#[test]
fn invert_subtree_only() {
    let mut tree = populate_balanced_binary_tree();
    tree.invert_recursive(1);
    assert_eq!(tree.nodes[1].left, Some(4));
    assert_eq!(tree.nodes[3].left, Some(8));
    assert_eq!(tree.nodes[2].left, Some(5));
    assert_eq!(tree.nodes[0].left, Some(1));
}

#[test]
fn search_tree_keys_increase_inorder() {
    let tree = populate_balanced_binary_search_tree();
    assert_eq!(tree.nodes[0].data, 8);
    let keys: Vec<u32> = tree.flatten_inorder(0).iter().map(|h| tree.nodes[*h].data).collect();
    assert_eq!(keys, (1..=15).collect::<Vec<u32>>());
}

#[test]
fn new_node_is_empty() {
    let mut tree = BinaryTree::new();
    let a = tree.new_node();
    let b = tree.new_node();
    assert_eq!((a, b), (0, 1));
    let n = &tree.nodes[b];
    assert_eq!(n.name, "");
    assert_eq!(n.data, 0);
    assert_eq!((n.parent, n.left, n.right), (None, None, None));
    assert_ne!(tree.nodes[a].id, tree.nodes[b].id);
}

#[test]
fn same_node_by_identifier() {
    let tree = small_tree();
    assert!(tree.is_same(None, None));
    assert!(tree.is_same(Some(2), Some(2)));
    assert!(!tree.is_same(Some(1), Some(2)));
    assert!(!tree.is_same(Some(1), None));
    assert!(tree.nodes[1] == tree.nodes[1]);
    assert!(tree.nodes[1] != tree.nodes[2]);
}

#[test]
fn nodes_ordered_by_key() {
    let tree = populate_balanced_binary_search_tree();
    assert!(tree.nodes[1] < tree.nodes[0]);
    assert!(tree.nodes[2] > tree.nodes[0]);
    let mut copy_key = populate_balanced_binary_search_tree();
    copy_key.set_data(3, 8);
    assert_eq!(
        copy_key.nodes[3].partial_cmp(&tree.nodes[0]),
        Some(std::cmp::Ordering::Equal)
    );
    assert!(copy_key.nodes[3] != tree.nodes[0]);
}

#[test]
fn root_found_by_parent_links() {
    let tree = populate_balanced_binary_tree();
    assert_eq!(tree.get_root(14), 0);
    assert_eq!(tree.get_root(0), 0);
    let detached = small_tree();
    assert_eq!(detached.get_root(3), 0);
}

#[test]
fn labels_are_decimal() {
    assert_eq!(node_label(0), "n0");
    assert_eq!(node_label(7), "n7");
    assert_eq!(node_label(10), "n10");
    assert_eq!(node_label(1234), "n1234");
}
