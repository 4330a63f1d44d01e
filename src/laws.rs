use vstd::prelude::*;
use crate::binary_tree::BinaryTreeNode;
use crate::model::{
    bfs, desc, forest_size, has_child, inorder, kept_at, kid, kids, lemma_desc_bounds,
    lemma_forest_size_append, lemma_forest_size_kids, lemma_mirror_inorder, lemma_swap_links,
    level_order, mirrored, parents_linked, size, swap_links, swapped_at, wf_nodes,
};

verus! {

/// The arena of `n` nodes wired as a complete binary tree by heap indexing:
/// node `k` has left child `2k+1` and right child `2k+2` when those exist.
pub open spec fn heap_shaped(s: Seq<BinaryTreeNode>, n: nat) -> bool {
    &&& s.len() == n
    &&& forall|k: int| #![trigger s[k]] 0 <= k < n ==> {
        &&& s[k].left == if 2 * k + 1 < n { Some((2 * k + 1) as usize) } else { None }
        &&& s[k].right == if 2 * k + 2 < n { Some((2 * k + 2) as usize) } else { None }
    }
}

/// The handles `a, a+1, ..., b-1`.
pub open spec fn handle_range(a: nat, b: nat) -> Seq<usize> {
    Seq::new((b - a) as nat, |k: int| (a + k) as usize)
}

proof fn lemma_bfs_len(s: Seq<BinaryTreeNode>, q: Seq<usize>)
    requires
        wf_nodes(s),
        forall|k: int| 0 <= k < q.len() ==> #[trigger] q[k] < s.len(),
    ensures
        bfs(s, q).len() == forest_size(s, q),
    decreases forest_size(s, q), q.len(),
{
    if q.len() > 0 {
        let q2 = q.drop_first() + kids(s, q[0]);
        lemma_forest_size_append(s, q.drop_first(), kids(s, q[0]));
        lemma_forest_size_kids(s, q[0]);
        assert forall|k: int| 0 <= k < q2.len() implies #[trigger] q2[k] < s.len() by {
            if k < q.len() - 1 {
                assert(q2[k] == q[k + 1]);
            }
        }
        lemma_bfs_len(s, q2);
    }
}

proof fn lemma_heap_bfs(s: Seq<BinaryTreeNode>, n: nat, a: nat)
    requires
        heap_shaped(s, n),
        n <= usize::MAX,
        a <= n,
    ensures
        bfs(s, handle_range(a, if 2 * a + 1 < n { 2 * a + 1 } else { n })) == handle_range(a, n),
    decreases n - a,
{
    let b: nat = if 2 * a + 1 < n { 2 * a + 1 } else { n };
    let q = handle_range(a, b);
    if a == n {
        assert(q =~= Seq::<usize>::empty());
        assert(handle_range(a, n) =~= Seq::<usize>::empty());
    } else {
        let b2: nat = if 2 * (a + 1) + 1 < n { 2 * (a + 1) + 1 } else { n };
        assert(q[0] == a);
        let au = a as usize;
        assert(kids(s, au) =~= handle_range(b, b2)) by {
            assert(s[a as int].left == s[a as int].left);
        }
        assert(q.drop_first() + kids(s, au) =~= handle_range(a + 1, b2));
        lemma_heap_bfs(s, n, a + 1);
        assert(bfs(s, q) == seq![au] + bfs(s, q.drop_first() + kids(s, au)));
        assert(handle_range(a, n) =~= seq![au] + handle_range(a + 1, n));
    }
}

/// A complete binary tree of `n` nodes wired by heap indexing lists its
/// nodes level by level in index order `0, 1, ..., n-1`.
pub proof fn law_level_order_complete(s: Seq<BinaryTreeNode>, n: nat)
    requires
        heap_shaped(s, n),
        0 < n <= usize::MAX,
    ensures
        level_order(s, 0) == handle_range(0, n),
{
    lemma_heap_bfs(s, n, 0);
    assert(handle_range(0, 1) =~= seq![0usize]);
}

/// A complete binary tree of `n` nodes wired by heap indexing counts `n`
/// nodes from its root.
pub proof fn law_count_complete(s: Seq<BinaryTreeNode>, n: nat)
    requires
        wf_nodes(s),
        heap_shaped(s, n),
        0 < n <= usize::MAX,
    ensures
        size(s, 0) == n,
{
    law_level_order_complete(s, n);
    lemma_bfs_len(s, seq![0usize]);
    reveal_with_fuel(forest_size, 2);
}

/// Mirroring a subtree reverses its inorder listing, and parent back-links
/// that were assigned stay assigned.
pub proof fn law_invert_reverses_inorder(a: Seq<BinaryTreeNode>, b: Seq<BinaryTreeNode>, i: usize)
    requires
        wf_nodes(a),
        mirrored(a, b, i),
        i < a.len(),
    ensures
        inorder(b, i) == inorder(a, i).reverse(),
        parents_linked(a, i) ==> parents_linked(b, i),
{
    assert(desc(a, i).contains(i));
    lemma_mirror_inorder(a, b, i, i);
    assert(swap_links(a, b)) by {
        assert forall|j: int| #![trigger b[j]] 0 <= j < a.len() implies swapped_at(a, b, j) || kept_at(a, b, j) by {
            if desc(a, i).contains(j as usize) {
                assert(swapped_at(a, b, j));
            }
        }
    }
    lemma_swap_links(a, b, i);
    if parents_linked(a, i) {
        assert(swapped_at(a, b, i as int));
        assert forall|x: usize, c: usize| #![trigger desc(b, i).contains(x), has_child(b, x, c)]
            desc(b, i).contains(x) && has_child(b, x, c) implies b[c as int].parent == Some(x) by {
            lemma_desc_bounds(a, i, x);
            assert(swapped_at(a, b, x as int));
            assert(has_child(a, x, c));
            if b[x as int].left == Some(c) {
                assert(kid(a, x, a[x as int].right));
            } else {
                assert(kid(a, x, a[x as int].left));
            }
            assert(swapped_at(a, b, c as int) || kept_at(a, b, c as int));
        }
    }
}

/// Mirroring the same subtree of the same arena always gives the same arena,
/// so every way of inverting agrees.
pub proof fn law_inversions_agree(
    a: Seq<BinaryTreeNode>,
    b: Seq<BinaryTreeNode>,
    c: Seq<BinaryTreeNode>,
    i: usize,
)
    requires
        mirrored(a, b, i),
        mirrored(a, c, i),
    ensures
        b == c,
{
    assert forall|j: int| 0 <= j < b.len() implies #[trigger] b[j] == c[j] by {
        assert(b[j] == c[j]);
    }
    assert(b =~= c);
}

/// Mirroring a subtree twice gives back the arena it started from, and so
/// the same inorder listing.
pub proof fn law_invert_twice(
    a: Seq<BinaryTreeNode>,
    b: Seq<BinaryTreeNode>,
    c: Seq<BinaryTreeNode>,
    i: usize,
)
    requires
        mirrored(a, b, i),
        mirrored(b, c, i),
    ensures
        c == a,
        inorder(c, i) == inorder(a, i),
{
    assert(swap_links(a, b)) by {
        assert forall|j: int| #![trigger b[j]] 0 <= j < a.len() implies swapped_at(a, b, j) || kept_at(a, b, j) by {
            if desc(a, i).contains(j as usize) {
                assert(swapped_at(a, b, j));
            }
        }
    }
    lemma_swap_links(a, b, i);
    assert forall|j: int| 0 <= j < a.len() implies #[trigger] c[j] == a[j] by {
        assert(b[j] == b[j]);
        assert(c[j] == c[j]);
    }
    assert(c =~= a);
}

} // verus!
