use vstd::prelude::*;
use crate::binary_tree::BinaryTreeNode;

verus! {

/// `c` is a handle to a node stored after node `i` in the arena `s`.
pub open spec fn kid(s: Seq<BinaryTreeNode>, i: usize, c: Option<usize>) -> bool {
    c is Some && i < c.unwrap() && c.unwrap() < s.len()
}

/// `c` is the left or the right child of `p`.
pub open spec fn has_child(s: Seq<BinaryTreeNode>, p: usize, c: usize) -> bool {
    s[p as int].left == Some(c) || s[p as int].right == Some(c)
}

/// The arena holds a forest: every child is stored after its parent, no node
/// is the child of two slots, and a parent back-link always points backwards.
pub open spec fn wf_nodes(s: Seq<BinaryTreeNode>) -> bool {
    &&& forall|i: usize| #![trigger s[i as int].left]
        i < s.len() ==> (s[i as int].left is None || kid(s, i, s[i as int].left))
    &&& forall|i: usize| #![trigger s[i as int].right]
        i < s.len() ==> (s[i as int].right is None || kid(s, i, s[i as int].right))
    &&& forall|i: usize| #![trigger s[i as int]]
        i < s.len() ==> !(s[i as int].left is Some && s[i as int].left == s[i as int].right)
    &&& forall|p: usize, q: usize, c: usize| #![trigger has_child(s, p, c), has_child(s, q, c)]
        p < s.len() && q < s.len() && has_child(s, p, c) && has_child(s, q, c) ==> p == q
    &&& forall|i: usize| #![trigger s[i as int].parent]
        i < s.len() && s[i as int].parent is Some ==> s[i as int].parent.unwrap() < i
}

/// Inorder (left, node, right) listing of the subtree rooted at `i`.
pub open spec fn inorder(s: Seq<BinaryTreeNode>, i: usize) -> Seq<usize>
    decreases s.len() - i,
{
    if i < s.len() {
        let l = if kid(s, i, s[i as int].left) {
            inorder(s, s[i as int].left.unwrap())
        } else {
            Seq::empty()
        };
        let r = if kid(s, i, s[i as int].right) {
            inorder(s, s[i as int].right.unwrap())
        } else {
            Seq::empty()
        };
        l + seq![i] + r
    } else {
        Seq::empty()
    }
}

/// The set of nodes of the subtree rooted at `i`.
pub open spec fn desc(s: Seq<BinaryTreeNode>, i: usize) -> Set<usize>
    decreases s.len() - i,
{
    if i < s.len() {
        let l = if kid(s, i, s[i as int].left) {
            desc(s, s[i as int].left.unwrap())
        } else {
            Set::empty()
        };
        let r = if kid(s, i, s[i as int].right) {
            desc(s, s[i as int].right.unwrap())
        } else {
            Set::empty()
        };
        l.union(r).insert(i)
    } else {
        Set::empty()
    }
}

/// The children of `i`, left before right.
pub open spec fn kids(s: Seq<BinaryTreeNode>, i: usize) -> Seq<usize> {
    (if kid(s, i, s[i as int].left) { seq![s[i as int].left.unwrap()] } else { Seq::empty() })
    + (if kid(s, i, s[i as int].right) { seq![s[i as int].right.unwrap()] } else { Seq::empty() })
}

/// Total number of nodes of the subtrees rooted at the handles of `q`.
pub open spec fn forest_size(s: Seq<BinaryTreeNode>, q: Seq<usize>) -> nat
    decreases q.len(),
{
    if q.len() == 0 {
        0
    } else {
        inorder(s, q[0]).len() + forest_size(s, q.drop_first())
    }
}

/// Number of nodes of the subtree rooted at `i`.
pub open spec fn size(s: Seq<BinaryTreeNode>, i: usize) -> nat {
    inorder(s, i).len()
}

pub proof fn lemma_forest_size_append(s: Seq<BinaryTreeNode>, a: Seq<usize>, b: Seq<usize>)
    ensures
        forest_size(s, a + b) == forest_size(s, a) + forest_size(s, b),
    decreases a.len(),
{
    if a.len() == 0 {
        assert(a + b =~= b);
    } else {
        assert((a + b).drop_first() =~= a.drop_first() + b);
        lemma_forest_size_append(s, a.drop_first(), b);
    }
}

pub proof fn lemma_forest_size_kids(s: Seq<BinaryTreeNode>, i: usize)
    requires
        i < s.len(),
    ensures
        forest_size(s, kids(s, i)) + 1 == size(s, i),
{
    let k = kids(s, i);
    reveal_with_fuel(forest_size, 3);
    if k.len() == 2 {
        assert(k.drop_first().drop_first() =~= Seq::<usize>::empty());
    } else if k.len() == 1 {
        assert(k.drop_first() =~= Seq::<usize>::empty());
    }
}

/// Breadth-first listing of the subtrees queued in `q`: each node is listed
/// when taken from the front, and its children join the back of the queue.
pub open spec fn bfs(s: Seq<BinaryTreeNode>, q: Seq<usize>) -> Seq<usize>
    decreases forest_size(s, q), q.len(),
    via bfs_decreases
{
    if q.len() == 0 {
        Seq::empty()
    } else {
        seq![q[0]] + bfs(s, q.drop_first() + kids(s, q[0]))
    }
}

#[via_fn]
proof fn bfs_decreases(s: Seq<BinaryTreeNode>, q: Seq<usize>) {
    if q.len() != 0 {
        lemma_forest_size_append(s, q.drop_first(), kids(s, q[0]));
        if q[0] < s.len() {
            lemma_forest_size_kids(s, q[0]);
        } else {
            assert(kids(s, q[0]) =~= Seq::<usize>::empty());
        }
    }
}

/// Level-order listing of the subtree rooted at `i`.
pub open spec fn level_order(s: Seq<BinaryTreeNode>, i: usize) -> Seq<usize> {
    bfs(s, seq![i])
}

/// Every node of a subtree is stored at or after its root.
pub proof fn lemma_desc_bounds(s: Seq<BinaryTreeNode>, i: usize, x: usize)
    requires
        desc(s, i).contains(x),
    ensures
        i <= x < s.len(),
    decreases s.len() - i,
{
    if kid(s, i, s[i as int].left) && desc(s, s[i as int].left.unwrap()).contains(x) {
        lemma_desc_bounds(s, s[i as int].left.unwrap(), x);
    }
    if kid(s, i, s[i as int].right) && desc(s, s[i as int].right.unwrap()).contains(x) {
        lemma_desc_bounds(s, s[i as int].right.unwrap(), x);
    }
}

/// A child of a node of a subtree belongs to the subtree.
pub proof fn lemma_desc_closed(s: Seq<BinaryTreeNode>, i: usize, x: usize, c: usize)
    requires
        wf_nodes(s),
        desc(s, i).contains(x),
        has_child(s, x, c),
    ensures
        desc(s, i).contains(c),
    decreases s.len() - i,
{
    lemma_desc_bounds(s, i, x);
    if x != i {
        if kid(s, i, s[i as int].left) && desc(s, s[i as int].left.unwrap()).contains(x) {
            lemma_desc_closed(s, s[i as int].left.unwrap(), x, c);
        } else {
            lemma_desc_closed(s, s[i as int].right.unwrap(), x, c);
        }
    } else {
        assert(s[x as int].left == Some(c) ==> kid(s, x, s[x as int].left));
        assert(s[x as int].right == Some(c) ==> kid(s, x, s[x as int].right));
        assert(desc(s, c).contains(c));
    }
}

/// A node of a subtree other than its root has a parent inside the subtree.
pub proof fn lemma_desc_parent(s: Seq<BinaryTreeNode>, i: usize, x: usize) -> (p: usize)
    requires
        wf_nodes(s),
        desc(s, i).contains(x),
        x != i,
    ensures
        desc(s, i).contains(p),
        p < s.len(),
        has_child(s, p, x),
    decreases s.len() - i,
{
    let l = s[i as int].left;
    let r = s[i as int].right;
    if kid(s, i, l) && desc(s, l.unwrap()).contains(x) {
        if x == l.unwrap() {
            i
        } else {
            let p = lemma_desc_parent(s, l.unwrap(), x);
            assert(desc(s, i).contains(p));
            p
        }
    } else {
        if x == r.unwrap() {
            i
        } else {
            let p = lemma_desc_parent(s, r.unwrap(), x);
            assert(desc(s, i).contains(p));
            p
        }
    }
}

/// Two subtrees that share a node are nested.
pub proof fn lemma_desc_nested(s: Seq<BinaryTreeNode>, a: usize, b: usize, x: usize)
    requires
        wf_nodes(s),
        desc(s, a).contains(x),
        desc(s, b).contains(x),
    ensures
        desc(s, a).contains(b) || desc(s, b).contains(a),
    decreases x,
{
    if x != a && x != b {
        let pa = lemma_desc_parent(s, a, x);
        let pb = lemma_desc_parent(s, b, x);
        assert(pa == pb);
        lemma_desc_bounds(s, a, x);
        assert(pa < x) by {
            if s[pa as int].left == Some(x) {
                assert(kid(s, pa, s[pa as int].left));
            } else {
                assert(kid(s, pa, s[pa as int].right));
            }
        }
        lemma_desc_nested(s, a, b, pa);
    }
}

/// The subtrees of two distinct children of one node share no node.
pub proof fn lemma_siblings_disjoint(s: Seq<BinaryTreeNode>, p: usize, a: usize, b: usize)
    requires
        wf_nodes(s),
        p < s.len(),
        has_child(s, p, a),
        has_child(s, p, b),
        a != b,
    ensures
        desc(s, a).disjoint(desc(s, b)),
{
    assert forall|x: usize| desc(s, a).contains(x) implies !desc(s, b).contains(x) by {
        if desc(s, b).contains(x) {
            lemma_desc_nested(s, a, b, x);
            if desc(s, a).contains(b) {
                let q = lemma_desc_parent(s, a, b);
                lemma_desc_bounds(s, a, q);
                assert(q == p);
                assert(kid(s, p, Some(a)));
            } else {
                let q = lemma_desc_parent(s, b, a);
                lemma_desc_bounds(s, b, q);
                assert(q == p);
                assert(kid(s, p, Some(b)));
            }
        }
    }
}

/// The size of a subtree is the number of its nodes, which lie in
/// `[i, s.len())`.
pub proof fn lemma_size(s: Seq<BinaryTreeNode>, i: usize)
    requires
        wf_nodes(s),
        i < s.len(),
        s.len() <= usize::MAX,
    ensures
        desc(s, i).finite(),
        desc(s, i).len() == size(s, i),
        size(s, i) <= s.len() - i,
    decreases s.len() - i,
{
    broadcast use vstd::set_lib::range_set_properties, vstd::set_lib::lemma_set_disjoint_lens;
    let l = s[i as int].left;
    let r = s[i as int].right;
    let dl = if kid(s, i, l) { desc(s, l.unwrap()) } else { Set::empty() };
    let dr = if kid(s, i, r) { desc(s, r.unwrap()) } else { Set::empty() };
    if kid(s, i, l) {
        lemma_size(s, l.unwrap());
    }
    if kid(s, i, r) {
        lemma_size(s, r.unwrap());
    }
    if kid(s, i, l) && kid(s, i, r) {
        lemma_siblings_disjoint(s, i, l.unwrap(), r.unwrap());
    }
    assert(dl.disjoint(dr));
    assert((dl + dr).len() == dl.len() + dr.len());
    assert(!(dl + dr).contains(i)) by {
        if kid(s, i, l) && dl.contains(i) {
            lemma_desc_bounds(s, l.unwrap(), i);
        }
        if kid(s, i, r) && dr.contains(i) {
            lemma_desc_bounds(s, r.unwrap(), i);
        }
    }
    assert(desc(s, i) == (dl + dr).insert(i));
    let hi = s.len() as usize;
    assert(desc(s, i).subset_of(Set::<usize>::range(i, hi))) by {
        assert forall|x: usize| desc(s, i).contains(x) implies Set::<usize>::range(i, hi).contains(x) by {
            lemma_desc_bounds(s, i, x);
        }
    }
    vstd::set_lib::lemma_len_subset(desc(s, i), Set::<usize>::range(i, hi));
}

/// The node reached from `i` by following left links while there are any.
pub open spec fn leftmost_of(s: Seq<BinaryTreeNode>, i: usize) -> usize
    decreases s.len() - i,
{
    if kid(s, i, s[i as int].left) {
        leftmost_of(s, s[i as int].left.unwrap())
    } else {
        i
    }
}

/// The node reached from `i` by following parent links while there are any.
pub open spec fn root_of(s: Seq<BinaryTreeNode>, i: usize) -> usize
    decreases i,
{
    if i < s.len() && s[i as int].parent is Some && s[i as int].parent.unwrap() < i {
        root_of(s, s[i as int].parent.unwrap())
    } else {
        i
    }
}

/// The identifier of the node behind an optional handle.
pub open spec fn id_of(s: Seq<BinaryTreeNode>, h: Option<usize>) -> Option<u128> {
    match h {
        Some(i) => Some(s[i as int].id),
        None => None,
    }
}

/// Inorder listing of the right subtree of `i` (empty when there is none).
pub open spec fn right_inorder(s: Seq<BinaryTreeNode>, i: usize) -> Seq<usize> {
    if kid(s, i, s[i as int].right) {
        inorder(s, s[i as int].right.unwrap())
    } else {
        Seq::empty()
    }
}

/// What an inorder walk lists after finishing the subtree of `x`, found by
/// climbing parent links: each ancestor reached from its left child is listed,
/// followed by its right subtree.
pub open spec fn rest(s: Seq<BinaryTreeNode>, x: usize) -> Seq<usize>
    decreases x,
{
    if x < s.len() && s[x as int].parent is Some && s[x as int].parent.unwrap() < x {
        let p = s[x as int].parent.unwrap();
        if s[p as int].left == Some(x) {
            seq![p] + right_inorder(s, p) + rest(s, p)
        } else {
            rest(s, p)
        }
    } else {
        Seq::empty()
    }
}

/// `top` has no parent, and in its subtree each child's back-link names the
/// node that holds it.
pub open spec fn parents_linked(s: Seq<BinaryTreeNode>, top: usize) -> bool {
    &&& top < s.len()
    &&& s[top as int].parent is None
    &&& forall|x: usize, c: usize| #![trigger desc(s, top).contains(x), has_child(s, x, c)]
        desc(s, top).contains(x) && has_child(s, x, c) ==> s[c as int].parent == Some(x)
}

/// Descending to the leftmost node of a subtree keeps the rest of an inorder
/// walk unchanged.
pub proof fn lemma_inorder_leftmost(s: Seq<BinaryTreeNode>, top: usize, x: usize)
    requires
        wf_nodes(s),
        parents_linked(s, top),
        desc(s, top).contains(x),
    ensures
        desc(s, top).contains(leftmost_of(s, x)),
        inorder(s, x) + rest(s, x) == seq![leftmost_of(s, x)] + right_inorder(s, leftmost_of(s, x))
            + rest(s, leftmost_of(s, x)),
    decreases s.len() - x,
{
    lemma_desc_bounds(s, top, x);
    let l = s[x as int].left;
    if kid(s, x, l) {
        let c = l.unwrap();
        assert(has_child(s, x, c));
        lemma_desc_closed(s, top, x, c);
        assert(s[c as int].parent == Some(x));
        assert(rest(s, c) == seq![x] + right_inorder(s, x) + rest(s, x));
        lemma_inorder_leftmost(s, top, c);
        assert(inorder(s, x) + rest(s, x) =~= inorder(s, c) + rest(s, c));
    } else {
        assert(inorder(s, x) =~= seq![x] + right_inorder(s, x));
    }
}

/// Both arenas have the same nodes with the same identifiers, labels, keys
/// and child links; only parent back-links may differ.
pub open spec fn same_links(a: Seq<BinaryTreeNode>, b: Seq<BinaryTreeNode>) -> bool {
    &&& a.len() == b.len()
    &&& forall|j: int| #![trigger b[j]] 0 <= j < a.len() ==> {
        &&& b[j].id == a[j].id
        &&& b[j].name == a[j].name
        &&& b[j].data == a[j].data
        &&& b[j].left == a[j].left
        &&& b[j].right == a[j].right
    }
}

/// Arenas with the same child links have the same subtrees.
pub proof fn lemma_same_links_desc(a: Seq<BinaryTreeNode>, b: Seq<BinaryTreeNode>, i: usize)
    requires
        a.len() == b.len(),
        forall|j: int| #![trigger b[j]] 0 <= j < a.len() ==> b[j].left == a[j].left && b[j].right
            == a[j].right,
    ensures
        desc(a, i) == desc(b, i),
        inorder(a, i) == inorder(b, i),
    decreases a.len() - i,
{
    if i < a.len() {
        assert(b[i as int].left == a[i as int].left);
        if kid(a, i, a[i as int].left) {
            lemma_same_links_desc(a, b, a[i as int].left.unwrap());
        }
        if kid(a, i, a[i as int].right) {
            lemma_same_links_desc(a, b, a[i as int].right.unwrap());
        }
    }
}

/// The union of the subtrees rooted at the handles of `q`.
pub open spec fn pending(s: Seq<BinaryTreeNode>, q: Seq<usize>) -> Set<usize>
    decreases q.len(),
{
    if q.len() == 0 {
        Set::empty()
    } else {
        desc(s, q[0]).union(pending(s, q.drop_first()))
    }
}

pub proof fn lemma_pending_append(s: Seq<BinaryTreeNode>, a: Seq<usize>, b: Seq<usize>)
    ensures
        pending(s, a + b) == pending(s, a).union(pending(s, b)),
    decreases a.len(),
{
    if a.len() == 0 {
        assert(a + b =~= b);
        assert(pending(s, a).union(pending(s, b)) =~= pending(s, b));
    } else {
        assert((a + b).drop_first() =~= a.drop_first() + b);
        lemma_pending_append(s, a.drop_first(), b);
        assert(pending(s, a + b) =~= pending(s, a).union(pending(s, b)));
    }
}

pub proof fn lemma_pending_kids(s: Seq<BinaryTreeNode>, i: usize)
    requires
        i < s.len(),
    ensures
        desc(s, i) == pending(s, kids(s, i)).insert(i),
{
    let k = kids(s, i);
    reveal_with_fuel(pending, 3);
    if k.len() == 2 {
        assert(k.drop_first().drop_first() =~= Seq::<usize>::empty());
    } else if k.len() == 1 {
        assert(k.drop_first() =~= Seq::<usize>::empty());
    }
    assert(desc(s, i) =~= pending(s, kids(s, i)).insert(i));
}

/// Changing parent back-links keeps the arena well formed as long as each
/// back-link still points backwards.
pub proof fn lemma_wf_same_links(a: Seq<BinaryTreeNode>, b: Seq<BinaryTreeNode>)
    requires
        wf_nodes(a),
        same_links(a, b),
        forall|i: usize| #![trigger b[i as int].parent]
            i < b.len() && b[i as int].parent is Some ==> b[i as int].parent.unwrap() < i,
    ensures
        wf_nodes(b),
{
    assert forall|p: usize, q: usize, c: usize| #![trigger has_child(b, p, c), has_child(b, q, c)]
        p < b.len() && q < b.len() && has_child(b, p, c) && has_child(b, q, c) implies p == q by {
        assert(has_child(a, p, c) && has_child(a, q, c));
    }
    assert forall|i: usize| #![trigger b[i as int]]
        i < b.len() implies !(b[i as int].left is Some && b[i as int].left == b[i as int].right) by {
        assert(a[i as int].left == b[i as int].left);
    }
    assert forall|i: usize| #![trigger b[i as int].left]
        i < b.len() implies (b[i as int].left is None || kid(b, i, b[i as int].left)) by {
        assert(a[i as int].left == b[i as int].left);
    }
    assert forall|i: usize| #![trigger b[i as int].right]
        i < b.len() implies (b[i as int].right is None || kid(b, i, b[i as int].right)) by {
        assert(a[i as int].right == b[i as int].right);
    }
}

/// Node `j` of `b` is node `j` of `a` with its two children exchanged.
pub open spec fn swapped_at(a: Seq<BinaryTreeNode>, b: Seq<BinaryTreeNode>, j: int) -> bool {
    &&& b[j].id == a[j].id
    &&& b[j].name == a[j].name
    &&& b[j].data == a[j].data
    &&& b[j].parent == a[j].parent
    &&& b[j].left == a[j].right
    &&& b[j].right == a[j].left
}

/// Node `j` of `b` equals node `j` of `a`.
pub open spec fn kept_at(a: Seq<BinaryTreeNode>, b: Seq<BinaryTreeNode>, j: int) -> bool {
    &&& b[j].id == a[j].id
    &&& b[j].name == a[j].name
    &&& b[j].data == a[j].data
    &&& b[j].parent == a[j].parent
    &&& b[j].left == a[j].left
    &&& b[j].right == a[j].right
}

/// `b` is `a` with the children of every node of the subtree rooted at `i`
/// exchanged, and every other node left as it was.
pub open spec fn mirrored(a: Seq<BinaryTreeNode>, b: Seq<BinaryTreeNode>, i: usize) -> bool {
    &&& a.len() == b.len()
    &&& forall|j: int| #![trigger b[j]]
        0 <= j < a.len() ==> if desc(a, i).contains(j as usize) {
            swapped_at(a, b, j)
        } else {
            kept_at(a, b, j)
        }
}

/// Each node of `b` is the node of `a`, with or without its children exchanged.
pub open spec fn swap_links(a: Seq<BinaryTreeNode>, b: Seq<BinaryTreeNode>) -> bool {
    &&& a.len() == b.len()
    &&& forall|j: int| #![trigger b[j]] 0 <= j < a.len() ==> swapped_at(a, b, j) || kept_at(a, b, j)
}

/// Exchanging children keeps every subtree's node set and the arena's
/// well-formedness.
pub proof fn lemma_swap_links(a: Seq<BinaryTreeNode>, b: Seq<BinaryTreeNode>, i: usize)
    requires
        swap_links(a, b),
    ensures
        desc(a, i) == desc(b, i),
        wf_nodes(a) ==> wf_nodes(b),
    decreases a.len() - i,
{
    if i < a.len() {
        assert(swapped_at(a, b, i as int) || kept_at(a, b, i as int));
        if kid(a, i, a[i as int].left) {
            lemma_swap_links(a, b, a[i as int].left.unwrap());
        }
        if kid(a, i, a[i as int].right) {
            lemma_swap_links(a, b, a[i as int].right.unwrap());
        }
        assert(desc(a, i) =~= desc(b, i));
    }
    if wf_nodes(a) {
        assert forall|p: usize, q: usize, c: usize| #![trigger has_child(b, p, c), has_child(b, q, c)]
            p < b.len() && q < b.len() && has_child(b, p, c) && has_child(b, q, c) implies p == q by {
            assert(swapped_at(a, b, p as int) || kept_at(a, b, p as int));
            assert(swapped_at(a, b, q as int) || kept_at(a, b, q as int));
            assert(has_child(a, p, c) && has_child(a, q, c));
        }
        assert forall|j: usize| #![trigger b[j as int]]
            j < b.len() implies !(b[j as int].left is Some && b[j as int].left == b[j as int].right) by {
            assert(swapped_at(a, b, j as int) || kept_at(a, b, j as int));
        }
        assert forall|j: usize| #![trigger b[j as int].left]
            j < b.len() implies (b[j as int].left is None || kid(b, j, b[j as int].left)) by {
            assert(swapped_at(a, b, j as int) || kept_at(a, b, j as int));
        }
        assert forall|j: usize| #![trigger b[j as int].right]
            j < b.len() implies (b[j as int].right is None || kid(b, j, b[j as int].right)) by {
            assert(swapped_at(a, b, j as int) || kept_at(a, b, j as int));
        }
        assert forall|j: usize| #![trigger b[j as int].parent]
            j < b.len() && b[j as int].parent is Some implies b[j as int].parent.unwrap() < j by {
            assert(swapped_at(a, b, j as int) || kept_at(a, b, j as int));
        }
    }
}

/// Inside a mirrored subtree, inorder listings come out reversed.
pub proof fn lemma_mirror_inorder(a: Seq<BinaryTreeNode>, b: Seq<BinaryTreeNode>, i: usize, x: usize)
    requires
        wf_nodes(a),
        mirrored(a, b, i),
        desc(a, i).contains(x),
    ensures
        inorder(b, x) == inorder(a, x).reverse(),
    decreases a.len() - x,
{
    lemma_desc_bounds(a, i, x);
    assert(swapped_at(a, b, x as int));
    let l = a[x as int].left;
    let r = a[x as int].right;
    if kid(a, x, l) {
        assert(has_child(a, x, l.unwrap()));
        lemma_desc_closed(a, i, x, l.unwrap());
        lemma_mirror_inorder(a, b, i, l.unwrap());
    }
    if kid(a, x, r) {
        assert(has_child(a, x, r.unwrap()));
        lemma_desc_closed(a, i, x, r.unwrap());
        lemma_mirror_inorder(a, b, i, r.unwrap());
    }
    let il = if kid(a, x, l) { inorder(a, l.unwrap()) } else { Seq::<usize>::empty() };
    let ir = if kid(a, x, r) { inorder(a, r.unwrap()) } else { Seq::<usize>::empty() };
    assert(inorder(a, x) == il + seq![x] + ir);
    assert(inorder(b, x) == ir.reverse() + seq![x] + il.reverse());
    assert((il + seq![x] + ir).reverse() =~= ir.reverse() + seq![x] + il.reverse());
}

pub proof fn lemma_pending_member(s: Seq<BinaryTreeNode>, q: Seq<usize>, y: usize) -> (k: int)
    requires
        pending(s, q).contains(y),
    ensures
        0 <= k < q.len(),
        desc(s, q[k]).contains(y),
    decreases q.len(),
{
    if desc(s, q[0]).contains(y) {
        0
    } else {
        let k = lemma_pending_member(s, q.drop_first(), y);
        k + 1
    }
}

/// Changing labels and keys keeps the arena well formed.
pub proof fn lemma_wf_same_links_but_label(a: Seq<BinaryTreeNode>, b: Seq<BinaryTreeNode>)
    requires
        wf_nodes(a),
        a.len() == b.len(),
        forall|j: int| #![trigger b[j]] 0 <= j < a.len() ==> b[j].left == a[j].left && b[j].right
            == a[j].right && b[j].parent == a[j].parent,
    ensures
        wf_nodes(b),
{
    assert forall|p: usize, q: usize, c: usize| #![trigger has_child(b, p, c), has_child(b, q, c)]
        p < b.len() && q < b.len() && has_child(b, p, c) && has_child(b, q, c) implies p == q by {
        assert(has_child(a, p, c) && has_child(a, q, c));
    }
    assert forall|i: usize| #![trigger b[i as int]]
        i < b.len() implies !(b[i as int].left is Some && b[i as int].left == b[i as int].right) by {
        assert(a[i as int].left == b[i as int].left);
    }
    assert forall|i: usize| #![trigger b[i as int].left]
        i < b.len() implies (b[i as int].left is None || kid(b, i, b[i as int].left)) by {
        assert(a[i as int].left == b[i as int].left);
    }
    assert forall|i: usize| #![trigger b[i as int].right]
        i < b.len() implies (b[i as int].right is None || kid(b, i, b[i as int].right)) by {
        assert(a[i as int].right == b[i as int].right);
    }
    assert forall|i: usize| #![trigger b[i as int].parent]
        i < b.len() && b[i as int].parent is Some implies b[i as int].parent.unwrap() < i by {
        assert(a[i as int].parent == b[i as int].parent);
    }
}

} // verus!
