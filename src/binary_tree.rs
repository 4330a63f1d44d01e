use vstd::prelude::*;
use std::collections::VecDeque;

pub mod utils;

use crate::model::{
    bfs, desc, forest_size, has_child, id_of, inorder, kept_at, kid, kids, leftmost_of,
    lemma_desc_bounds, lemma_desc_closed, lemma_desc_parent, lemma_forest_size_append,
    lemma_forest_size_kids, lemma_inorder_leftmost, lemma_pending_append, lemma_pending_kids,
    lemma_pending_member, lemma_same_links_desc, lemma_siblings_disjoint, lemma_size,
    lemma_swap_links, lemma_wf_same_links, lemma_wf_same_links_but_label, level_order, mirrored,
    parents_linked, pending, rest, right_inorder, root_of, same_links, size, swap_links,
    swapped_at, wf_nodes,
};

verus! {

/// A node of the arena. Children and parent are handles (indices into the
/// arena); the arena owns every node.
pub struct BinaryTreeNode {
    pub id: u128,
    pub name: String,
    pub data: u32,
    pub parent: Option<usize>,
    pub left: Option<usize>,
    pub right: Option<usize>,
}

/// Order of two keys.
pub open spec fn key_order(a: u32, b: u32) -> std::cmp::Ordering {
    if a < b {
        std::cmp::Ordering::Less
    } else if a > b {
        std::cmp::Ordering::Greater
    } else {
        std::cmp::Ordering::Equal
    }
}

/// Nodes are the same node when their identifiers are equal.
impl PartialEq for BinaryTreeNode {
    fn eq(&self, other: &BinaryTreeNode) -> (r: bool) {
        self.id == other.id
    }
}

impl vstd::std_specs::cmp::PartialEqSpecImpl for BinaryTreeNode {
    open spec fn obeys_eq_spec() -> bool {
        true
    }

    open spec fn eq_spec(&self, other: &BinaryTreeNode) -> bool {
        self.id == other.id
    }
}

impl Eq for BinaryTreeNode {
}

/// Nodes are ordered by their keys alone.
impl PartialOrd for BinaryTreeNode {
    fn partial_cmp(&self, other: &BinaryTreeNode) -> (r: Option<std::cmp::Ordering>) {
        if self.data < other.data {
            Some(std::cmp::Ordering::Less)
        } else if self.data > other.data {
            Some(std::cmp::Ordering::Greater)
        } else {
            Some(std::cmp::Ordering::Equal)
        }
    }
}

impl vstd::std_specs::cmp::PartialOrdSpecImpl for BinaryTreeNode {
    open spec fn obeys_partial_cmp_spec() -> bool {
        true
    }

    open spec fn partial_cmp_spec(&self, other: &BinaryTreeNode) -> Option<std::cmp::Ordering> {
        Some(key_order(self.data, other.data))
    }
}

/// Handle of a node: its index in the arena.
pub type BinaryTreeNodeRef = usize;

/// Non-owning back-link to a parent node; `None` when absent.
pub type BinaryTreeNodeWeakRef = Option<usize>;

/// A tree stored as an arena of nodes, with an optional root handle.
pub struct BinaryTree {
    pub nodes: Vec<BinaryTreeNode>,
    pub root: Option<usize>,
}

/// Relies on uuid::Uuid::new_v4 and Uuid::as_u128: a random identifier.
#[verifier::external_body]
fn fresh_id() -> (r: u128) {
    uuid::Uuid::new_v4().as_u128()
}

impl BinaryTree {
    /// The arena holds a forest and the root handle, if any, is in range.
    pub open spec fn wf(&self) -> bool {
        &&& wf_nodes(self.nodes@)
        &&& self.root is Some ==> self.root.unwrap() < self.nodes.len()
    }

    /// An empty arena without a root.
    pub fn new() -> (r: BinaryTree)
        ensures
            r.wf(),
            r.nodes@.len() == 0,
            r.root is None,
    {
        BinaryTree { nodes: Vec::new(), root: None }
    }

    /// The same arena with `root` as its root.
    pub fn with_root(self, root: BinaryTreeNodeRef) -> (r: BinaryTree)
        requires
            root < self.nodes.len(),
        ensures
            r.nodes@ == self.nodes@,
            r.root == Some(root),
    {
        BinaryTree { nodes: self.nodes, root: Some(root) }
    }

    /// Number of nodes of the subtree rooted at `node`, found breadth-first.
    pub fn count(&self, node: BinaryTreeNodeRef) -> (r: usize)
        requires
            self.wf(),
            node < self.nodes.len(),
        ensures
            r == size(self.nodes@, node),
            r == desc(self.nodes@, node).len(),
    {
        let ghost s = self.nodes@;
        proof {
            lemma_size(s, node);
        }
        let mut count: usize = 0;
        let mut queue: VecDeque<usize> = VecDeque::new();
        queue.push_back(node);
        proof {
            reveal_with_fuel(forest_size, 2);
        }
        while queue.len() > 0
            invariant
                wf_nodes(s),
                s == self.nodes@,
                count + forest_size(s, queue@) == size(s, node),
                size(s, node) <= usize::MAX,
                forall|k: int| 0 <= k < queue@.len() ==> queue@[k] < s.len(),
            decreases forest_size(s, queue@),
        {
            let ghost q0 = queue@;
            let x = queue.pop_front().unwrap();
            let ghost q1 = queue@;
            proof {
                assert(q1 == q0.drop_first());
                lemma_forest_size_kids(s, x);
            }
            count = count + 1;
            if let Some(l) = self.nodes[x].left {
                queue.push_back(l);
            }
            if let Some(r) = self.nodes[x].right {
                queue.push_back(r);
            }
            proof {
                assert(queue@ =~= q1 + kids(s, x));
                lemma_forest_size_append(s, q1, kids(s, x));
            }
        }
        proof {
            assert(queue@.len() == 0);
            assert(forest_size(s, queue@) == 0);
        }
        count
    }

    /// Level-order listing of the subtree rooted at `node`: level by level,
    /// left child before right child.
    pub fn flatten_top_down(&self, node: BinaryTreeNodeRef) -> (r: Vec<BinaryTreeNodeRef>)
        requires
            self.wf(),
            node < self.nodes.len(),
        ensures
            r@ == level_order(self.nodes@, node),
    {
        let ghost s = self.nodes@;
        let mut nodes: Vec<usize> = Vec::new();
        let mut queue: VecDeque<usize> = VecDeque::new();
        queue.push_back(node);
        while queue.len() > 0
            invariant
                wf_nodes(s),
                s == self.nodes@,
                nodes@ + bfs(s, queue@) == level_order(s, node),
                forall|k: int| 0 <= k < queue@.len() ==> queue@[k] < s.len(),
            decreases forest_size(s, queue@),
        {
            let ghost q0 = queue@;
            let x = queue.pop_front().unwrap();
            let ghost q1 = queue@;
            proof {
                assert(q1 == q0.drop_first());
                lemma_forest_size_kids(s, x);
            }
            let ghost n0 = nodes@;
            nodes.push(x);
            if let Some(l) = self.nodes[x].left {
                queue.push_back(l);
            }
            if let Some(r) = self.nodes[x].right {
                queue.push_back(r);
            }
            proof {
                assert(queue@ =~= q1 + kids(s, x));
                lemma_forest_size_append(s, q1, kids(s, x));
                assert(bfs(s, q0) == seq![x] + bfs(s, queue@));
                assert(nodes@ + bfs(s, queue@) =~= n0 + (seq![x] + bfs(s, queue@)));
            }
        }
        proof {
            assert(queue@.len() == 0);
            assert(nodes@ + bfs(s, queue@) =~= nodes@);
        }
        nodes
    }

    /// The last node reached by following left links from `node`, or `None`
    /// when `node` has no left child.
    pub fn leftmost(&self, node: BinaryTreeNodeRef) -> (r: Option<BinaryTreeNodeRef>)
        requires
            self.wf(),
            node < self.nodes.len(),
        ensures
            self.nodes@[node as int].left is None ==> r is None,
            self.nodes@[node as int].left is Some ==> r == Some(leftmost_of(self.nodes@, node)),
    {
        let ghost s = self.nodes@;
        let mut leftmost: Option<usize> = None;
        let mut current: usize = node;
        loop
            invariant
                wf_nodes(s),
                s == self.nodes@,
                current < s.len(),
                leftmost_of(s, current) == leftmost_of(s, node),
                leftmost is None ==> current == node,
                leftmost is Some ==> leftmost == Some(current) && s[node as int].left is Some,
            decreases s.len() - current,
        {
            match self.nodes[current].left {
                Some(l) => {
                    current = l;
                    leftmost = Some(l);
                },
                None => {
                    return leftmost;
                },
            }
        }
    }

    /// Inorder listing of the tree rooted at `node_ref`, walked without a
    /// stack: descend to the leftmost node, list it, go on in its right
    /// subtree, or else climb the parent links past every ancestor reached
    /// from its right child and resume at the first one reached from its left.
    pub fn flatten_inorder(&self, node_ref: BinaryTreeNodeRef) -> (r: Vec<BinaryTreeNodeRef>)
        requires
            self.wf(),
            parents_linked(self.nodes@, node_ref),
        ensures
            r@ == inorder(self.nodes@, node_ref),
    {
        let ghost s = self.nodes@;
        let ghost top = node_ref;
        let ghost total = inorder(s, top);
        let mut root: Option<usize> = Some(node_ref);
        let mut nodes: Vec<usize> = Vec::new();
        let mut leftdone = false;
        proof {
            assert(desc(s, top).contains(top));
            assert(rest(s, top) == Seq::<usize>::empty());
            assert(nodes@ + inorder(s, top) + rest(s, top) =~= total);
        }
        while root.is_some()
            invariant
                self.wf(),
                wf_nodes(s),
                s == self.nodes@,
                parents_linked(s, top),
                total == inorder(s, top),
                root is Some ==> desc(s, top).contains(root.unwrap()),
                root is Some && !leftdone ==> nodes@ + inorder(s, root.unwrap()) + rest(
                    s,
                    root.unwrap(),
                ) == total,
                root is Some && leftdone ==> nodes@ + seq![root.unwrap()] + right_inorder(
                    s,
                    root.unwrap(),
                ) + rest(s, root.unwrap()) == total,
                root is None ==> nodes@ == total,
            decreases total.len() - nodes@.len(),
        {
            let x = root.unwrap();
            proof {
                lemma_desc_bounds(s, top, x);
            }
            let mut cur = x;
            if !leftdone {
                if let Some(leftmost) = self.leftmost(x) {
                    cur = leftmost;
                }
                proof {
                    lemma_inorder_leftmost(s, top, x);
                    assert(nodes@ + inorder(s, x) + rest(s, x) =~= nodes@ + (inorder(s, x) + rest(
                        s,
                        x,
                    )));
                    assert(nodes@ + seq![cur] + right_inorder(s, cur) + rest(s, cur) =~= nodes@
                        + (seq![cur] + right_inorder(s, cur) + rest(s, cur)));
                }
            }
            leftdone = true;
            let ghost n0 = nodes@;
            nodes.push(cur);
            proof {
                lemma_desc_bounds(s, top, cur);
                assert(nodes@ + right_inorder(s, cur) + rest(s, cur) =~= n0 + seq![cur]
                    + right_inorder(s, cur) + rest(s, cur));
            }
            match self.nodes[cur].right {
                Some(right) => {
                    proof {
                        assert(has_child(s, cur, right));
                        lemma_desc_closed(s, top, cur, right);
                        assert(rest(s, right) == rest(s, cur));
                    }
                    leftdone = false;
                    root = Some(right);
                },
                None => {
                    let ghost remaining = rest(s, cur);
                    proof {
                        assert(nodes@ + remaining =~= total);
                    }
                    let mut y: usize = cur;
                    let mut up: Option<usize> = self.nodes[cur].parent;
                    loop
                        invariant_except_break
                            up == s[y as int].parent,
                            rest(s, y) == remaining,
                        invariant
                            wf_nodes(s),
                            s == self.nodes@,
                            parents_linked(s, top),
                            desc(s, top).contains(y),
                        ensures
                            up is None ==> remaining.len() == 0,
                            up is Some ==> desc(s, top).contains(up.unwrap()) && remaining
                                == seq![up.unwrap()] + right_inorder(s, up.unwrap()) + rest(
                                s,
                                up.unwrap(),
                            ),
                        decreases y,
                    {
                        match up {
                            None => {
                                break;
                            },
                            Some(p) => {
                                proof {
                                    let q = lemma_desc_parent(s, top, y);
                                    assert(s[y as int].parent == Some(q));
                                    lemma_desc_bounds(s, top, y);
                                    assert(p < y) by {
                                        if s[p as int].left == Some(y) {
                                            assert(kid(s, p, s[p as int].left));
                                        } else {
                                            assert(kid(s, p, s[p as int].right));
                                        }
                                    }
                                }
                                let from_right = match self.nodes[p].right {
                                    Some(pr) => pr == y,
                                    None => false,
                                };
                                if from_right {
                                    y = p;
                                    up = self.nodes[p].parent;
                                } else {
                                    break;
                                }
                            },
                        }
                    }
                    root = up;
                },
            }
        }
        nodes
    }

    /// Breadth-first from `node`, sets the back-link of every child in the
    /// subtree to the node that holds it. Nothing else changes.
    pub fn assign_parents(&mut self, node: BinaryTreeNodeRef)
        requires
            old(self).wf(),
            node < old(self).nodes.len(),
        ensures
            final(self).wf(),
            final(self).root == old(self).root,
            same_links(old(self).nodes@, final(self).nodes@),
            forall|j: usize| #![trigger final(self).nodes@[j as int].parent]
                j < old(self).nodes.len() && (j == node || !desc(old(self).nodes@, node).contains(j))
                    ==> final(self).nodes@[j as int].parent == old(self).nodes@[j as int].parent,
            forall|x: usize, c: usize| #![trigger desc(old(self).nodes@, node).contains(x), has_child(old(self).nodes@, x, c)]
                desc(old(self).nodes@, node).contains(x) && has_child(old(self).nodes@, x, c)
                    ==> final(self).nodes@[c as int].parent == Some(x),
            old(self).nodes@[node as int].parent is None ==> parents_linked(final(self).nodes@, node),
    {
        let ghost s0 = self.nodes@;
        let mut queue: VecDeque<usize> = VecDeque::new();
        queue.push_back(node);
        proof {
            reveal_with_fuel(pending, 2);
            assert(desc(s0, node).contains(node));
        }
        while queue.len() > 0
            invariant
                wf_nodes(self.nodes@),
                self.root == old(self).root,
                self.root is Some ==> self.root.unwrap() < self.nodes.len(),
                s0 == old(self).nodes@,
                wf_nodes(s0),
                node < s0.len(),
                same_links(s0, self.nodes@),
                forall|k: int| 0 <= k < queue@.len() ==> #[trigger] queue@[k] < s0.len()
                    && desc(s0, node).contains(queue@[k]),
                forall|j: usize| #![trigger self.nodes@[j as int].parent]
                    j < s0.len() && (j == node || !desc(s0, node).contains(j))
                        ==> self.nodes@[j as int].parent == s0[j as int].parent,
                forall|x: usize, c: usize| #![trigger desc(s0, node).contains(x), has_child(s0, x, c)]
                    desc(s0, node).contains(x) && has_child(s0, x, c) && !pending(s0, queue@).contains(x)
                        ==> self.nodes@[c as int].parent == Some(x),
            decreases forest_size(s0, queue@),
        {
            let ghost q0 = queue@;
            let ghost sp = self.nodes@;
            let x = queue.pop_front().unwrap();
            let ghost q1 = queue@;
            proof {
                assert(q1 == q0.drop_first());
                assert(pending(s0, q0) == desc(s0, x).union(pending(s0, q1)));
                lemma_forest_size_kids(s0, x);
                lemma_pending_kids(s0, x);
            }
            if let Some(left) = self.nodes[x].left {
                proof {
                    assert(has_child(s0, x, left));
                    lemma_desc_closed(s0, node, x, left);
                    lemma_desc_bounds(s0, node, x);
                }
                self.nodes[left].parent = Some(x);
                queue.push_back(left);
            }
            if let Some(right) = self.nodes[x].right {
                proof {
                    assert(has_child(s0, x, right));
                    lemma_desc_closed(s0, node, x, right);
                    lemma_desc_bounds(s0, node, x);
                }
                self.nodes[right].parent = Some(x);
                queue.push_back(right);
            }
            proof {
                assert forall|i: usize| #![trigger self.nodes@[i as int].parent]
                    i < self.nodes@.len() && self.nodes@[i as int].parent is Some
                        implies self.nodes@[i as int].parent.unwrap() < i by {
                    if i != s0[x as int].left.unwrap_or(i) && i != s0[x as int].right.unwrap_or(i) {
                        assert(self.nodes@[i as int].parent == sp[i as int].parent);
                    }
                }
                lemma_wf_same_links(s0, self.nodes@);
                assert(queue@ =~= q1 + kids(s0, x));
                lemma_forest_size_append(s0, q1, kids(s0, x));
                lemma_pending_append(s0, q1, kids(s0, x));
                assert forall|y: usize, c: usize| #![trigger desc(s0, node).contains(y), has_child(s0, y, c)]
                    desc(s0, node).contains(y) && has_child(s0, y, c) && !pending(s0, queue@).contains(y)
                        implies self.nodes@[c as int].parent == Some(y) by {
                    if y != x {
                        assert(!pending(s0, q0).contains(y));
                        lemma_desc_bounds(s0, node, y);
                        if has_child(s0, x, c) {
                            assert(x == y);
                        }
                    }
                }
            }
        }
        proof {
            assert(queue@ =~= Seq::<usize>::empty());
            assert(pending(s0, queue@) =~= Set::<usize>::empty());
            lemma_same_links_desc(s0, self.nodes@, node);
            if s0[node as int].parent is None {
                assert forall|x: usize, c: usize| #![trigger desc(self.nodes@, node).contains(x), has_child(self.nodes@, x, c)]
                    desc(self.nodes@, node).contains(x) && has_child(self.nodes@, x, c)
                        implies self.nodes@[c as int].parent == Some(x) by {
                    lemma_desc_bounds(s0, node, x);
                    assert(has_child(s0, x, c));
                }
            }
        }
    }

    /// Mirrors the subtree rooted at `node_ref`: right subtree first, then
    /// left subtree, then the two children of `node_ref` are exchanged.
    /// Parent back-links are left as they are.
    pub fn invert_recursive(&mut self, node_ref: BinaryTreeNodeRef)
        requires
            old(self).wf(),
            node_ref < old(self).nodes.len(),
        ensures
            final(self).wf(),
            final(self).root == old(self).root,
            mirrored(old(self).nodes@, final(self).nodes@, node_ref),
        decreases old(self).nodes@.len() - node_ref,
    {
        let ghost s0 = self.nodes@;
        let left = self.nodes[node_ref].left;
        let right = self.nodes[node_ref].right;
        proof {
            if right is Some {
                assert(kid(s0, node_ref, right));
                assert(has_child(s0, node_ref, right.unwrap()));
            }
            if left is Some {
                assert(kid(s0, node_ref, left));
                assert(has_child(s0, node_ref, left.unwrap()));
            }
            if right is Some && left is Some {
                lemma_siblings_disjoint(s0, node_ref, left.unwrap(), right.unwrap());
            }
        }
        if let Some(r) = right {
            self.invert_recursive(r);
        }
        let ghost s1 = self.nodes@;
        proof {
            if right is Some {
                if desc(s0, right.unwrap()).contains(node_ref) {
                    lemma_desc_bounds(s0, right.unwrap(), node_ref);
                }
                assert(kept_at(s0, s1, node_ref as int));
            } else {
                assert(s1 == s0);
            }
        }
        if let Some(l) = left {
            self.invert_recursive(l);
        }
        let ghost s2 = self.nodes@;
        proof {
            if left is Some {
                if desc(s1, left.unwrap()).contains(node_ref) {
                    lemma_desc_bounds(s1, left.unwrap(), node_ref);
                }
                assert(kept_at(s1, s2, node_ref as int));
            } else {
                assert(s2 == s1);
            }
        }
        let tmp = self.nodes[node_ref].right;
        self.nodes[node_ref].right = self.nodes[node_ref].left;
        self.nodes[node_ref].left = tmp;
        proof {
            let s3 = self.nodes@;
            if right is Some {
                assert(swap_links(s0, s1));
                lemma_swap_links(s0, s1, right.unwrap());
                if left is Some {
                    lemma_swap_links(s0, s1, left.unwrap());
                }
            }
            assert(swap_links(s0, s3)) by {
                assert forall|j: int| #![trigger s3[j]] 0 <= j < s0.len() implies swapped_at(s0, s3, j)
                    || kept_at(s0, s3, j) by {
                    if j != node_ref {
                        assert(s3[j] == s2[j]);
                        assert(swapped_at(s0, s1, j) || kept_at(s0, s1, j));
                        assert(swapped_at(s1, s2, j) || kept_at(s1, s2, j));
                    }
                }
            }
            lemma_swap_links(s0, s3, node_ref);
            assert(mirrored(s0, s3, node_ref)) by {
                assert forall|j: int| #![trigger s3[j]] 0 <= j < s0.len() implies if desc(s0, node_ref).contains(j as usize) {
                    swapped_at(s0, s3, j)
                } else {
                    kept_at(s0, s3, j)
                } by {
                    if j != node_ref {
                        assert(s3[j] == s2[j]);
                        let in_r = right is Some && desc(s0, right.unwrap()).contains(j as usize);
                        let in_l = left is Some && desc(s0, left.unwrap()).contains(j as usize);
                        assert(!(in_r && in_l));
                        if left is Some {
                            assert(desc(s1, left.unwrap()) == desc(s0, left.unwrap()));
                        }
                    }
                }
            }
        }
    }

    /// Mirrors the subtree rooted at `root_ref` breadth-first: each node taken
    /// from the queue has its children queued, right before left, and then
    /// exchanged. Parent back-links are left as they are.
    pub fn invert_iterative(&mut self, root_ref: BinaryTreeNodeRef)
        requires
            old(self).wf(),
            root_ref < old(self).nodes.len(),
        ensures
            final(self).wf(),
            final(self).root == old(self).root,
            mirrored(old(self).nodes@, final(self).nodes@, root_ref),
    {
        let ghost s0 = self.nodes@;
        let mut queue: VecDeque<usize> = VecDeque::new();
        queue.push_back(root_ref);
        proof {
            reveal_with_fuel(pending, 2);
            assert(desc(s0, root_ref).contains(root_ref));
            assert(pending(s0, queue@) =~= desc(s0, root_ref));
        }
        while queue.len() > 0
            invariant
                s0 == old(self).nodes@,
                wf_nodes(s0),
                s0.len() <= usize::MAX,
                root_ref < s0.len(),
                self.root == old(self).root,
                self.nodes@.len() == s0.len(),
                forall|k: int| 0 <= k < queue@.len() ==> #[trigger] queue@[k] < s0.len()
                    && desc(s0, root_ref).contains(queue@[k]),
                forall|a: int, b: int| 0 <= a < b < queue@.len() ==> desc(s0, #[trigger] queue@[a]).disjoint(
                    desc(s0, #[trigger] queue@[b])),
                forall|j: int| #![trigger self.nodes@[j]] 0 <= j < s0.len() ==> if desc(
                    s0,
                    root_ref,
                ).contains(j as usize) && !pending(s0, queue@).contains(j as usize) {
                    swapped_at(s0, self.nodes@, j)
                } else {
                    kept_at(s0, self.nodes@, j)
                },
            decreases forest_size(s0, queue@),
        {
            let ghost q0 = queue@;
            let ghost sp = self.nodes@;
            let x = queue.pop_front().unwrap();
            let ghost q1 = queue@;
            proof {
                assert(q1 == q0.drop_first());
                assert(pending(s0, q0) == desc(s0, x).union(pending(s0, q1)));
                lemma_forest_size_kids(s0, x);
                lemma_pending_kids(s0, x);
                assert(desc(s0, x).contains(x));
                if pending(s0, q1).contains(x) {
                    let k = lemma_pending_member(s0, q1, x);
                    assert(q1[k] == q0[k + 1]);
                    assert(desc(s0, q0[0]).disjoint(desc(s0, q0[k + 1])));
                }
                assert(kept_at(s0, sp, x as int));
            }
            let right = self.nodes[x].right;
            let left = self.nodes[x].left;
            if let Some(r) = right {
                queue.push_back(r);
            }
            if let Some(l) = left {
                queue.push_back(l);
            }
            self.nodes[x].right = left;
            self.nodes[x].left = right;
            proof {
                let k = kids(s0, x);
                let rk = if right is Some { seq![right.unwrap()] } else { Seq::<usize>::empty() };
                let lk = if left is Some { seq![left.unwrap()] } else { Seq::<usize>::empty() };
                assert(queue@ =~= q1 + (rk + lk));
                lemma_forest_size_append(s0, q1, rk + lk);
                lemma_forest_size_append(s0, rk, lk);
                lemma_forest_size_append(s0, lk, rk);
                assert(k =~= lk + rk);
                lemma_pending_append(s0, q1, rk + lk);
                lemma_pending_append(s0, rk, lk);
                lemma_pending_append(s0, lk, rk);
                reveal_with_fuel(pending, 2);
                reveal_with_fuel(forest_size, 2);
                if right is Some {
                    assert(has_child(s0, x, right.unwrap()));
                    assert(kid(s0, x, right));
                }
                if left is Some {
                    assert(has_child(s0, x, left.unwrap()));
                    assert(kid(s0, x, left));
                }
                if right is Some && left is Some {
                    lemma_siblings_disjoint(s0, x, left.unwrap(), right.unwrap());
                }
                assert(pending(s0, rk + lk) == pending(s0, k));
                assert forall|a: int, b: int| 0 <= a < b < queue@.len() implies desc(s0, #[trigger] queue@[a]).disjoint(
                    desc(s0, #[trigger] queue@[b])) by {
                    if b >= q1.len() {
                        if a < q1.len() {
                            assert(queue@[a] == q0[a + 1]);
                            assert(desc(s0, q0[0]).disjoint(desc(s0, q0[a + 1])));
                            assert(desc(s0, queue@[b]).subset_of(desc(s0, x)));
                        }
                    } else {
                        assert(queue@[a] == q0[a + 1] && queue@[b] == q0[b + 1]);
                    }
                }
                assert forall|kk: int| 0 <= kk < queue@.len() implies #[trigger] queue@[kk] < s0.len()
                    && desc(s0, root_ref).contains(queue@[kk]) by {
                    if kk >= q1.len() {
                        lemma_desc_closed(s0, root_ref, x, queue@[kk]);
                    } else {
                        assert(queue@[kk] == q0[kk + 1]);
                    }
                }
                if pending(s0, k).contains(x) {
                    let kk = lemma_pending_member(s0, k, x);
                    lemma_desc_bounds(s0, k[kk], x);
                }
                assert(pending(s0, queue@) =~= pending(s0, q0).remove(x));
                assert forall|j: int| #![trigger self.nodes@[j]] 0 <= j < s0.len() implies if desc(
                    s0,
                    root_ref,
                ).contains(j as usize) && !pending(s0, queue@).contains(j as usize) {
                    swapped_at(s0, self.nodes@, j)
                } else {
                    kept_at(s0, self.nodes@, j)
                } by {
                    if j != x {
                        assert(self.nodes@[j] == sp[j]);
                        assert(pending(s0, queue@).contains(j as usize) == pending(s0, q0).contains(j as usize));
                    } else {
                        assert(desc(s0, root_ref).contains(j as usize));
                        assert(!pending(s0, queue@).contains(j as usize));
                        assert(swapped_at(s0, self.nodes@, j));
                    }
                }
            }
        }
        proof {
            assert(pending(s0, queue@) =~= Set::<usize>::empty());
            assert(mirrored(s0, self.nodes@, root_ref));
            assert(swap_links(s0, self.nodes@));
            lemma_swap_links(s0, self.nodes@, root_ref);
        }
    }

    /// The node reached from `node` by following parent links.
    pub fn get_root(&self, node: BinaryTreeNodeRef) -> (r: BinaryTreeNodeRef)
        requires
            self.wf(),
            node < self.nodes.len(),
        ensures
            r == root_of(self.nodes@, node),
    {
        let ghost s = self.nodes@;
        let mut start: usize = node;
        loop
            invariant
                wf_nodes(s),
                s == self.nodes@,
                start < s.len(),
                root_of(s, start) == root_of(s, node),
            decreases start,
        {
            match self.nodes[start].parent {
                Some(parent) => {
                    start = parent;
                },
                None => {
                    return start;
                },
            }
        }
    }

    /// Whether the two optional handles name nodes with the same identifier
    /// (two absent handles are the same).
    pub fn is_same(&self, v1: Option<BinaryTreeNodeRef>, v2: Option<BinaryTreeNodeRef>) -> (r: bool)
        requires
            v1 is Some ==> v1.unwrap() < self.nodes.len(),
            v2 is Some ==> v2.unwrap() < self.nodes.len(),
        ensures
            r == (id_of(self.nodes@, v1) == id_of(self.nodes@, v2)),
    {
        let a = self.get_node_id(v1);
        let b = self.get_node_id(v2);
        match (a, b) {
            (Some(x), Some(y)) => x == y,
            (None, None) => true,
            _ => false,
        }
    }

    fn get_node_id(&self, v: Option<BinaryTreeNodeRef>) -> (r: Option<u128>)
        requires
            v is Some ==> v.unwrap() < self.nodes.len(),
        ensures
            r == id_of(self.nodes@, v),
    {
        match v {
            Some(i) => Some(self.nodes[i].id),
            None => None,
        }
    }

    /// Appends a fresh node (empty label, key 0, no links) and returns its handle.
    pub fn new_node(&mut self) -> (r: BinaryTreeNodeRef)
        requires
            old(self).wf(),
            old(self).nodes.len() < usize::MAX,
        ensures
            final(self).wf(),
            r == old(self).nodes.len(),
            final(self).root == old(self).root,
            final(self).nodes@.len() == old(self).nodes@.len() + 1,
            final(self).nodes@.take(r as int) == old(self).nodes@,
            final(self).nodes@[r as int].name@ == Seq::<char>::empty(),
            final(self).nodes@[r as int].data == 0,
            final(self).nodes@[r as int].parent is None,
            final(self).nodes@[r as int].left is None,
            final(self).nodes@[r as int].right is None,
    {
        let id = fresh_id();
        let r = self.nodes.len();
        self.nodes.push(BinaryTreeNode {
            id,
            name: String::new(),
            data: 0,
            parent: None,
            left: None,
            right: None,
        });
        proof {
            let s = self.nodes@;
            assert(s.take(r as int) =~= old(self).nodes@);
            assert forall|p: usize, q: usize, c: usize| #![trigger has_child(s, p, c), has_child(s, q, c)]
                p < s.len() && q < s.len() && has_child(s, p, c) && has_child(s, q, c) implies p == q by {
                assert(has_child(old(self).nodes@, p, c) && has_child(old(self).nodes@, q, c));
            }
        }
        r
    }

    /// Sets the label of `node`; nothing else changes.
    pub fn set_name(&mut self, node: BinaryTreeNodeRef, name: String)
        requires
            old(self).wf(),
            node < old(self).nodes.len(),
        ensures
            final(self).wf(),
            final(self).root == old(self).root,
            final(self).nodes@.len() == old(self).nodes@.len(),
            forall|j: int| 0 <= j < old(self).nodes@.len() && j != node ==> #[trigger] final(self).nodes@[j]
                == old(self).nodes@[j],
            final(self).nodes@[node as int].name == name,
            final(self).nodes@[node as int].id == old(self).nodes@[node as int].id,
            final(self).nodes@[node as int].data == old(self).nodes@[node as int].data,
            final(self).nodes@[node as int].parent == old(self).nodes@[node as int].parent,
            final(self).nodes@[node as int].left == old(self).nodes@[node as int].left,
            final(self).nodes@[node as int].right == old(self).nodes@[node as int].right,
    {
        self.nodes[node].name = name;
        proof {
            lemma_wf_same_links_but_label(old(self).nodes@, self.nodes@);
        }
    }

    /// Sets the key of `node`; nothing else changes.
    pub fn set_data(&mut self, node: BinaryTreeNodeRef, data: u32)
        requires
            old(self).wf(),
            node < old(self).nodes.len(),
        ensures
            final(self).wf(),
            final(self).root == old(self).root,
            final(self).nodes@.len() == old(self).nodes@.len(),
            forall|j: int| 0 <= j < old(self).nodes@.len() && j != node ==> #[trigger] final(self).nodes@[j]
                == old(self).nodes@[j],
            final(self).nodes@[node as int].data == data,
            final(self).nodes@[node as int].id == old(self).nodes@[node as int].id,
            final(self).nodes@[node as int].name == old(self).nodes@[node as int].name,
            final(self).nodes@[node as int].parent == old(self).nodes@[node as int].parent,
            final(self).nodes@[node as int].left == old(self).nodes@[node as int].left,
            final(self).nodes@[node as int].right == old(self).nodes@[node as int].right,
    {
        self.nodes[node].data = data;
        proof {
            lemma_wf_same_links_but_label(old(self).nodes@, self.nodes@);
        }
    }

    /// Makes `child`, which no node holds yet, the left child of `node`.
    /// A left child held before is released (it stays in the arena).
    pub fn set_left(&mut self, node: BinaryTreeNodeRef, child: BinaryTreeNodeRef)
        requires
            old(self).wf(),
            node < child < old(self).nodes.len(),
            forall|q: usize| q < old(self).nodes.len() ==> !has_child(old(self).nodes@, q, child),
        ensures
            final(self).wf(),
            final(self).root == old(self).root,
            final(self).nodes@.len() == old(self).nodes@.len(),
            forall|j: int| 0 <= j < old(self).nodes@.len() && j != node ==> #[trigger] final(self).nodes@[j]
                == old(self).nodes@[j],
            final(self).nodes@[node as int].left == Some(child),
            final(self).nodes@[node as int].id == old(self).nodes@[node as int].id,
            final(self).nodes@[node as int].name == old(self).nodes@[node as int].name,
            final(self).nodes@[node as int].data == old(self).nodes@[node as int].data,
            final(self).nodes@[node as int].parent == old(self).nodes@[node as int].parent,
            final(self).nodes@[node as int].right == old(self).nodes@[node as int].right,
    {
        self.nodes[node].left = Some(child);
        proof {
            let a = old(self).nodes@;
            let s = self.nodes@;
            assert forall|p: usize, q: usize, c: usize| #![trigger has_child(s, p, c), has_child(s, q, c)]
                p < s.len() && q < s.len() && has_child(s, p, c) && has_child(s, q, c) implies p == q by {
                if c != child {
                    assert(has_child(a, p, c) && has_child(a, q, c));
                } else {
                    assert(!has_child(a, p, c) && !has_child(a, q, c));
                }
            }
            assert(!has_child(a, node, child));
        }
    }

    /// Makes `child`, which no node holds yet, the right child of `node`.
    /// A right child held before is released (it stays in the arena).
    pub fn set_right(&mut self, node: BinaryTreeNodeRef, child: BinaryTreeNodeRef)
        requires
            old(self).wf(),
            node < child < old(self).nodes.len(),
            forall|q: usize| q < old(self).nodes.len() ==> !has_child(old(self).nodes@, q, child),
        ensures
            final(self).wf(),
            final(self).root == old(self).root,
            final(self).nodes@.len() == old(self).nodes@.len(),
            forall|j: int| 0 <= j < old(self).nodes@.len() && j != node ==> #[trigger] final(self).nodes@[j]
                == old(self).nodes@[j],
            final(self).nodes@[node as int].right == Some(child),
            final(self).nodes@[node as int].id == old(self).nodes@[node as int].id,
            final(self).nodes@[node as int].name == old(self).nodes@[node as int].name,
            final(self).nodes@[node as int].data == old(self).nodes@[node as int].data,
            final(self).nodes@[node as int].parent == old(self).nodes@[node as int].parent,
            final(self).nodes@[node as int].left == old(self).nodes@[node as int].left,
    {
        self.nodes[node].right = Some(child);
        proof {
            let a = old(self).nodes@;
            let s = self.nodes@;
            assert forall|p: usize, q: usize, c: usize| #![trigger has_child(s, p, c), has_child(s, q, c)]
                p < s.len() && q < s.len() && has_child(s, p, c) && has_child(s, q, c) implies p == q by {
                if c != child {
                    assert(has_child(a, p, c) && has_child(a, q, c));
                } else {
                    assert(!has_child(a, p, c) && !has_child(a, q, c));
                }
            }
            assert(!has_child(a, node, child));
        }
    }
}

} // verus!
