use vstd::prelude::*;
use crate::binary_tree::{BinaryTree, BinaryTreeNodeRef};
use crate::laws::{heap_shaped, law_level_order_complete, handle_range};
use crate::model::{desc, has_child, kid, lemma_desc_bounds, lemma_same_links_desc, parents_linked};

verus! {

/// Number of nodes of the fixture trees.
pub const NODES_COUNT: usize = 15;

/// The decimal digits of `n`, most significant first.
pub open spec fn decimal(n: nat) -> Seq<char>
    decreases n,
{
    let digit = seq!['0', '1', '2', '3', '4', '5', '6', '7', '8', '9'][(n % 10) as int];
    if n < 10 {
        seq![digit]
    } else {
        decimal(n / 10).push(digit)
    }
}

/// Label of the fixture node with index `k`: `n` followed by `k` in decimal.
pub open spec fn label(k: nat) -> Seq<char> {
    seq!['n'] + decimal(k)
}

/// Keys of the search-tree fixture, in level order.
pub open spec fn search_keys() -> Seq<u32> {
    seq![8u32, 4, 12, 2, 6, 10, 14, 1, 3, 5, 7, 9, 11, 13, 15]
}

/// Relies on usize's `Display` (through `ToString`): the decimal digits of
/// `n`, with no sign and no padding.
#[verifier::external_body]
fn decimal_string(n: usize) -> (r: String)
    ensures
        r@ == decimal(n as nat),
{
    n.to_string()
}

/// The label of the fixture node with index `k`.
pub fn node_label(k: usize) -> (r: String)
    ensures
        r@ == label(k as nat),
{
    let digits = decimal_string(k);
    let prefix = String::from_str("n");
    proof {
        reveal_strlit("n");
    }
    prefix.concat(digits.as_str())
}

/// `NODES_COUNT` unlinked nodes labelled `n0`, `n1`, ... with key equal to
/// their index.
pub fn populate_node_list() -> (r: BinaryTree)
    ensures
        r.wf(),
        r.root is None,
        r.nodes@.len() == NODES_COUNT,
        forall|k: int| #![trigger r.nodes@[k]] 0 <= k < NODES_COUNT ==> {
            &&& r.nodes@[k].name@ == label(k as nat)
            &&& r.nodes@[k].data == k
            &&& r.nodes@[k].parent is None
            &&& r.nodes@[k].left is None
            &&& r.nodes@[k].right is None
        },
{
    let mut list = BinaryTree::new();
    let mut n: usize = 0;
    while n < NODES_COUNT
        invariant
            n <= NODES_COUNT,
            list.wf(),
            list.root is None,
            list.nodes@.len() == n,
            forall|k: int| #![trigger list.nodes@[k]] 0 <= k < n ==> {
                &&& list.nodes@[k].name@ == label(k as nat)
                &&& list.nodes@[k].data == k
                &&& list.nodes@[k].parent is None
                &&& list.nodes@[k].left is None
                &&& list.nodes@[k].right is None
            },
        decreases NODES_COUNT - n,
    {
        let ghost before = list.nodes@;
        let node_ref = list.new_node();
        proof {
            assert forall|k: int| 0 <= k < n implies #[trigger] list.nodes@[k] == before[k] by {
                assert(list.nodes@.take(n as int)[k] == list.nodes@[k]);
            }
        }
        list.set_name(node_ref, node_label(n));
        list.set_data(node_ref, n as u32);
        n = n + 1;
    }
    list
}

/// The fixture nodes wired as a complete binary tree by heap indexing (left
/// child `2i+1`, right child `2i+2`, each where it exists), with parent
/// back-links assigned; the root is node 0.
pub fn populate_balanced_binary_tree() -> (r: BinaryTree)
    ensures
        r.wf(),
        r.root == Some(0usize),
        heap_shaped(r.nodes@, NODES_COUNT as nat),
        parents_linked(r.nodes@, 0),
        forall|k: int| #![trigger r.nodes@[k]] 0 <= k < NODES_COUNT ==> {
            &&& r.nodes@[k].name@ == label(k as nat)
            &&& r.nodes@[k].data == k
        },
{
    let mut tree = populate_node_list();
    let mut n: usize = 0;
    while n < NODES_COUNT
        invariant
            n <= NODES_COUNT,
            tree.wf(),
            tree.root is None,
            tree.nodes@.len() == NODES_COUNT,
            forall|k: int| #![trigger tree.nodes@[k]] 0 <= k < NODES_COUNT ==> {
                &&& tree.nodes@[k].name@ == label(k as nat)
                &&& tree.nodes@[k].data == k
                &&& tree.nodes@[k].parent is None
                &&& tree.nodes@[k].left == if k < n && 2 * k + 1 < NODES_COUNT {
                    Some((2 * k + 1) as usize)
                } else {
                    None
                }
                &&& tree.nodes@[k].right == if k < n && 2 * k + 2 < NODES_COUNT {
                    Some((2 * k + 2) as usize)
                } else {
                    None
                }
            },
        decreases NODES_COUNT - n,
    {
        let left_child = n * 2 + 1;
        if left_child < NODES_COUNT {
            proof {
                assert forall|q: usize| q < tree.nodes.len() implies !has_child(tree.nodes@, q, left_child) by {
                    assert(tree.nodes@[q as int].left == tree.nodes@[q as int].left);
                }
            }
            tree.set_left(n, left_child);
        }
        let right_child = n * 2 + 2;
        if right_child < NODES_COUNT {
            proof {
                assert forall|q: usize| q < tree.nodes.len() implies !has_child(tree.nodes@, q, right_child) by {
                    assert(tree.nodes@[q as int].left == tree.nodes@[q as int].left);
                }
            }
            tree.set_right(n, right_child);
        }
        n = n + 1;
    }
    tree.assign_parents(0);
    tree.root = Some(0);
    tree
}

/// The complete fixture tree with keys overwritten, in level order, by a
/// permutation of `1..=15` that makes it a binary search tree (root key 8).
pub fn populate_balanced_binary_search_tree() -> (r: BinaryTree)
    ensures
        r.wf(),
        r.root == Some(0usize),
        heap_shaped(r.nodes@, NODES_COUNT as nat),
        parents_linked(r.nodes@, 0),
        forall|k: int| #![trigger r.nodes@[k]] 0 <= k < NODES_COUNT ==> {
            &&& r.nodes@[k].name@ == label(k as nat)
            &&& r.nodes@[k].data == search_keys()[k]
        },
{
    let node_values: Vec<u32> = vec![8, 4, 12, 2, 6, 10, 14, 1, 3, 5, 7, 9, 11, 13, 15];
    let mut root = populate_balanced_binary_tree();
    let flatten: Vec<BinaryTreeNodeRef> = root.flatten_top_down(0);
    proof {
        law_level_order_complete(root.nodes@, NODES_COUNT as nat);
        assert(node_values@ =~= search_keys());
    }
    let ghost s0 = root.nodes@;
    let mut k: usize = 0;
    while k < flatten.len()
        invariant
            flatten@ == handle_range(0, NODES_COUNT as nat),
            node_values@ == search_keys(),
            k <= NODES_COUNT,
            root.wf(),
            root.root == Some(0usize),
            root.nodes@.len() == NODES_COUNT,
            forall|j: int| #![trigger root.nodes@[j]] 0 <= j < NODES_COUNT ==> {
                &&& root.nodes@[j].name == s0[j].name
                &&& root.nodes@[j].id == s0[j].id
                &&& root.nodes@[j].parent == s0[j].parent
                &&& root.nodes@[j].left == s0[j].left
                &&& root.nodes@[j].right == s0[j].right
                &&& root.nodes@[j].data == if j < k { search_keys()[j] } else { s0[j].data }
            },
        decreases flatten.len() - k,
    {
        root.set_data(flatten[k], node_values[k]);
        k = k + 1;
    }
    proof {
        let s = root.nodes@;
        lemma_same_links_desc(s0, s, 0);
        assert forall|x: usize, c: usize| #![trigger desc(s, 0).contains(x), has_child(s, x, c)]
            desc(s, 0).contains(x) && has_child(s, x, c) implies s[c as int].parent == Some(x) by {
            lemma_desc_bounds(s0, 0, x);
            assert(has_child(s0, x, c));
            assert(c < NODES_COUNT) by {
                if s[x as int].left == Some(c) {
                    assert(kid(s, x, s[x as int].left));
                } else {
                    assert(kid(s, x, s[x as int].right));
                }
            }
        }
    }
    root
}

} // verus!
