use binary_tree::binary_tree::utils::{
    populate_balanced_binary_search_tree, populate_balanced_binary_tree,
    populate_node_list, NODES_COUNT,
};
use binary_tree::binary_tree::BinaryTree;
use std::collections::HashMap;

fn name_of(tree: &BinaryTree, h: usize) -> String {
    tree.nodes[h].name.clone()
}

fn names_of(tree: &BinaryTree, hs: &[usize]) -> Vec<String> {
    hs.iter().map(|h| name_of(tree, *h)).collect()
}

fn left_of(tree: &BinaryTree, h: usize) -> usize {
    tree.nodes[h].left.unwrap()
}

fn right_of(tree: &BinaryTree, h: usize) -> usize {
    tree.nodes[h].right.unwrap()
}

fn parent_name(tree: &BinaryTree, h: usize) -> String {
    name_of(tree, tree.nodes[h].parent.unwrap())
}

#[test]
fn populate_node_ref_list_test() {
    let list = populate_node_list();
    assert_eq!(list.nodes.len(), NODES_COUNT);
    let names: Vec<_> = list.nodes.iter().map(|v| v.name.clone()).collect();
    (0..NODES_COUNT).for_each(|n| {
        let name = format!("n{}", n);
        assert!(names.contains(&name));
    })
}

#[test]
fn binary_tree_populate_test1() {
    let tree = populate_balanced_binary_tree();
    let n0 = tree.root.unwrap();
    assert_eq!(name_of(&tree, n0), "n0".to_string());
    assert_eq!(tree.nodes[n0].parent, None);

    let n1 = left_of(&tree, n0);
    assert_eq!(name_of(&tree, n1), "n1".to_string());
    assert_eq!(parent_name(&tree, n1), "n0".to_string());

    let n2 = right_of(&tree, n0);
    assert_eq!(name_of(&tree, n2), "n2".to_string());
    assert_eq!(parent_name(&tree, n2), "n0".to_string());

    let n3 = left_of(&tree, n1);
    assert_eq!(name_of(&tree, n3), "n3".to_string());
    assert_eq!(parent_name(&tree, n3), "n1".to_string());

    let n4 = right_of(&tree, n1);
    assert_eq!(name_of(&tree, n4), "n4".to_string());
    assert_eq!(parent_name(&tree, n4), "n1".to_string());

    let n5 = left_of(&tree, n2);
    assert_eq!(name_of(&tree, n5), "n5".to_string());
    assert_eq!(parent_name(&tree, n5), "n2".to_string());

    let n6 = right_of(&tree, n2);
    assert_eq!(name_of(&tree, n6), "n6".to_string());
    assert_eq!(parent_name(&tree, n6), "n2".to_string());

    let n7 = left_of(&tree, n3);
    assert_eq!(name_of(&tree, n7), "n7".to_string());
    assert_eq!(parent_name(&tree, n7), "n3".to_string());

    let n8 = right_of(&tree, n3);
    assert_eq!(name_of(&tree, n8), "n8".to_string());
    assert_eq!(parent_name(&tree, n8), "n3".to_string());

    let n9 = left_of(&tree, n4);
    assert_eq!(name_of(&tree, n9), "n9".to_string());
    assert_eq!(parent_name(&tree, n9), "n4".to_string());

    let n10 = right_of(&tree, n4);
    assert_eq!(name_of(&tree, n10), "n10".to_string());
    assert_eq!(parent_name(&tree, n10), "n4".to_string());

    let n11 = left_of(&tree, n5);
    assert_eq!(name_of(&tree, n11), "n11".to_string());
    assert_eq!(parent_name(&tree, n11), "n5".to_string());

    let n12 = right_of(&tree, n5);
    assert_eq!(name_of(&tree, n12), "n12".to_string());
    assert_eq!(parent_name(&tree, n12), "n5".to_string());

    let n13 = left_of(&tree, n6);
    assert_eq!(name_of(&tree, n13), "n13".to_string());
    assert_eq!(parent_name(&tree, n13), "n6".to_string());

    let n14 = right_of(&tree, n6);
    assert_eq!(name_of(&tree, n14), "n14".to_string());
    assert_eq!(parent_name(&tree, n14), "n6".to_string());
}

#[test]
fn binary_tree_populate_test2() {
    let tree = populate_balanced_binary_tree();
    let nodes = tree.flatten_top_down(tree.root.unwrap());
    let nodes_count = nodes.len();
    assert_eq!(nodes_count, NODES_COUNT);

    for (index, node_ref) in nodes.iter().enumerate() {
        let node = &tree.nodes[*node_ref];
        assert_eq!(node.name, format!("n{index}"));
        if index == 0 {
            assert_eq!(node.parent, None);
        } else {
            let parent_position = if index % 2 != 0 { 1 } else { 2 };
            let parent = (index - parent_position) / 2;
            assert_eq!(parent_name(&tree, *node_ref), format!("n{}", parent));
        }
        let left = index * 2 + 1;
        if left < nodes_count {
            assert_eq!(name_of(&tree, node.left.unwrap()), format!("n{}", left));
        }
        let right = left + 1;
        if right < nodes_count {
            assert_eq!(name_of(&tree, node.right.unwrap()), format!("n{}", right));
        }
    }
}

#[test]
fn count() {
    let tree = populate_balanced_binary_tree();
    assert_eq!(tree.count(tree.root.unwrap()), NODES_COUNT);
}

#[test]
fn flatten_top_down() {
    let tree = populate_balanced_binary_search_tree();

    let flatten_nodes = tree.flatten_top_down(tree.root.unwrap());
    assert_eq!(flatten_nodes.len(), NODES_COUNT);

    let flatten_names = names_of(&tree, &flatten_nodes);
    let expected_names = (0..NODES_COUNT)
        .map(|n| format!("n{}", n))
        .collect::<Vec<_>>();
    assert_eq!(flatten_names, expected_names);
}

#[test]
fn leftmost() {
    let expected = HashMap::from([
        ("n0", Some("n7")),
        ("n1", Some("n7")),
        ("n2", Some("n11")),
        ("n3", Some("n7")),
        ("n4", Some("n9")),
        ("n5", Some("n11")),
        ("n6", Some("n13")),
        ("n7", None),
        ("n8", None),
        ("n9", None),
        ("n10", None),
        ("n11", None),
        ("n12", None),
        ("n13", None),
        ("n14", None),
    ]);

    let tree = populate_balanced_binary_tree();
    let flatten_nodes = tree.flatten_top_down(tree.root.unwrap());
    assert_eq!(flatten_nodes.len(), expected.len());
    let mut flatten_names = names_of(&tree, &flatten_nodes);
    let mut expected_names = expected.iter().map(|v| v.0.to_string()).collect::<Vec<_>>();
    flatten_names.sort();
    expected_names.sort();
    assert_eq!(flatten_names, expected_names);

    for node_ref in flatten_nodes {
        let leftmost = tree.leftmost(node_ref).map(|h| name_of(&tree, h));
        assert_eq!(
            expected[tree.nodes[node_ref].name.as_str()],
            leftmost.as_deref()
        );
    }
}

#[test]
fn flatten_inorder() {
    let expected = [
        "n7", "n3", "n8", "n1", "n9", "n4", "n10", "n0", "n11", "n5", "n12", "n2", "n13", "n6",
        "n14",
    ];

    let tree = populate_balanced_binary_tree();
    let flatten_nodes = tree.flatten_inorder(tree.root.unwrap());
    assert_eq!(flatten_nodes.len(), expected.len());
    assert_eq!(names_of(&tree, &flatten_nodes), expected);
}

#[test]
fn invert_recursive() {
    let expected = [
        "n14", "n6", "n13", "n2", "n12", "n5", "n11", "n0", "n10", "n4", "n9", "n1", "n8", "n3",
        "n7",
    ];

    let mut tree = populate_balanced_binary_tree();
    let root = tree.root.unwrap();
    tree.invert_recursive(root);

    let flatten_nodes = tree.flatten_inorder(root);
    assert_eq!(flatten_nodes.len(), expected.len());
    assert_eq!(names_of(&tree, &flatten_nodes), expected);
}

#[test]
fn invert_iterative() {
    let expected = [
        "n14", "n6", "n13", "n2", "n12", "n5", "n11", "n0", "n10", "n4", "n9", "n1", "n8", "n3",
        "n7",
    ];

    let mut tree = populate_balanced_binary_tree();
    let root = tree.root.unwrap();
    tree.invert_iterative(root);

    let flatten_nodes = tree.flatten_inorder(root);
    assert_eq!(flatten_nodes.len(), expected.len());
    assert_eq!(names_of(&tree, &flatten_nodes), expected);
}
