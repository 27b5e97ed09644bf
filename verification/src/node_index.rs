//! Index arithmetic for an implicit binary tree stored in a flat array: the
//! children of the node in slot `k` sit in slots `2k + 1` and `2k + 2`, and
//! the parent of slot `j > 0` is slot `(j - 1) / 2`. These lemmas carve out
//! which slots belong to the subtree under a node, which is what lets a
//! mutation of one subtree leave the rest of the array untouched.

use vstd::prelude::*;

verus! {

/// Whether slot `j` lies in the subtree rooted at slot `k`, following parent
/// links upward from `j`.
pub open spec fn in_subtree(k: int, j: int) -> bool
    decreases j,
{
    if j < k || j < 0 || k < 0 {
        false
    } else if j == k {
        true
    } else {
        in_subtree(k, (j - 1) / 2)
    }
}

/// A subtree contains its own root.
pub proof fn lemma_in_subtree_self(k: int)
    requires
        k >= 0,
    ensures
        in_subtree(k, k),
{
}

/// Everything in the subtree under `k` sits at or after slot `k`.
pub proof fn lemma_in_subtree_bound(k: int, j: int)
    requires
        in_subtree(k, j),
    ensures
        k <= j,
{
}

/// A child's subtree is contained in the parent's subtree.
pub proof fn lemma_child_in_subtree(k: int, c: int, j: int)
    requires
        k >= 0,
        c == 2 * k + 1 || c == 2 * k + 2,
        in_subtree(c, j),
    ensures
        in_subtree(k, j),
    decreases j,
{
    if j == c {
        assert((c - 1) / 2 == k);
        lemma_in_subtree_self(k);
    } else {
        lemma_in_subtree_bound(c, j);
        lemma_child_in_subtree(k, c, (j - 1) / 2);
    }
}

/// The subtrees under the two children of a node share no slot.
pub proof fn lemma_sibling_disjoint(k: int, j: int)
    requires
        k >= 0,
    ensures
        !(in_subtree(2 * k + 1, j) && in_subtree(2 * k + 2, j)),
    decreases j,
{
    if in_subtree(2 * k + 1, j) && in_subtree(2 * k + 2, j) {
        lemma_in_subtree_bound(2 * k + 2, j);
        if j == 2 * k + 2 {
            assert((2 * k + 2 - 1) / 2 == k);
            assert(!in_subtree(2 * k + 1, k));
        } else {
            lemma_sibling_disjoint(k, (j - 1) / 2);
        }
    }
}

} // verus!
