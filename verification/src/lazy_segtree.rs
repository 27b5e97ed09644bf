//! A lazy-propagation segment tree, generic over a value monoid and an
//! action monoid (`MapMonoid`).
//!
//! The tree is a complete binary tree kept in a flat array of `2n - 1` slots,
//! `n` being the least power of two at or above the requested size. Slot `k`
//! holds in `data[k]` the aggregate of its subtree and in `lazy[k]` an action
//! still pending for its children. The specification-level contents of a
//! subtree is `repr`: the pending action of a node applied element-wise over
//! the concatenated contents of its children. Every public operation is
//! specified against the sequence of logical elements (`view`), so callers
//! reason about the structure exactly as about a plain sequence that is
//! read, written and folded element by element.

use crate::monoid::{MapMonoid, Monoid};
use crate::node_index::{
    in_subtree, lemma_child_in_subtree, lemma_in_subtree_bound, lemma_in_subtree_self,
    lemma_sibling_disjoint,
};
use crate::seq_fold::{
    foldm, lemma_foldm_all_id, lemma_foldm_apply, lemma_foldm_concat, lemma_foldm_singleton,
    lemma_seq_apply_compose, lemma_seq_apply_concat, lemma_seq_apply_id, seq_apply,
};
use vstd::prelude::*;

verus! {

/// The error of a point operation given an index at or beyond the logical
/// size.
#[derive(Clone, Copy, Debug, PartialEq, Eq)]
pub enum SegtreeError {
    IndexOutOfRange,
}

/// Whether `w` is a power of two.
pub open spec fn is_pow2(w: int) -> bool
    decreases w,
{
    if w <= 0 {
        false
    } else if w == 1 {
        true
    } else {
        w % 2 == 0 && is_pow2(w / 2)
    }
}

/// Whether slot `k` is the node covering the padded segment `[l, r)` in a
/// tree over `n` padded leaves: widths halve along each path from the root,
/// and the heap layout ties slot and segment by `(k + 1) * (r - l) == n + l`.
pub open spec fn node_ok(n: int, k: int, l: int, r: int) -> bool {
    &&& 0 <= k
    &&& 0 <= l < r <= n
    &&& is_pow2(r - l)
    &&& (k + 1) * (r - l) == n + l
}

/// The logical contents of the subtree at slot `k` covering `[l, r)`: for a
/// leaf its stored value, otherwise the node's pending action applied over
/// the contents of both children, left before right.
pub open spec fn repr<F: MapMonoid>(data: Seq<F::X>, lazy: Seq<F>, k: int, l: int, r: int) -> Seq<
    F::X,
>
    decreases r - l,
{
    if r - l <= 1 {
        seq![data[k]]
    } else {
        let mid = (l + r) / 2;
        seq_apply(
            lazy[k],
            repr::<F>(data, lazy, 2 * k + 1, l, mid) + repr::<F>(data, lazy, 2 * k + 2, mid, r),
        )
    }
}

/// Whether every cached aggregate below and including slot `k` folds its
/// subtree contents.
pub open spec fn aggs_ok<F: MapMonoid>(data: Seq<F::X>, lazy: Seq<F>, k: int, l: int, r: int) -> bool
    decreases r - l,
{
    if r - l <= 1 {
        true
    } else {
        let mid = (l + r) / 2;
        &&& data[k] == foldm(repr::<F>(data, lazy, k, l, r))
        &&& aggs_ok::<F>(data, lazy, 2 * k + 1, l, mid)
        &&& aggs_ok::<F>(data, lazy, 2 * k + 2, mid, r)
    }
}

/// A node of width at least two has well-placed children at the halved
/// segments.
pub proof fn lemma_node_children(n: int, k: int, l: int, r: int)
    requires
        node_ok(n, k, l, r),
        r - l >= 2,
    ensures
        (l + r) / 2 == l + (r - l) / 2,
        node_ok(n, 2 * k + 1, l, (l + r) / 2),
        node_ok(n, 2 * k + 2, (l + r) / 2, r),
{
    let w = r - l;
    let h = w / 2;
    assert(w % 2 == 0);
    assert(w == 2 * h);
    assert((2 * k + 2) * h == (k + 1) * w) by (nonlinear_arith)
        requires
            w == 2 * h,
    ;
    assert((2 * k + 3) * h == (k + 1) * w + h) by (nonlinear_arith)
        requires
            w == 2 * h,
    ;
}

/// Every well-placed node's slot lies inside the array of `2n - 1` slots.
pub proof fn lemma_node_bounds(n: int, k: int, l: int, r: int)
    requires
        node_ok(n, k, l, r),
    ensures
        0 <= k < 2 * n - 1,
{
    assert((k + 1) * (r - l) >= (k + 1) * 1) by (nonlinear_arith)
        requires
            k >= 0,
            r - l >= 1,
    ;
}

/// The contents of a subtree covering `[l, r)` has `r - l` elements.
pub proof fn lemma_repr_len<F: MapMonoid>(data: Seq<F::X>, lazy: Seq<F>, k: int, l: int, r: int)
    requires
        r - l >= 1,
    ensures
        repr::<F>(data, lazy, k, l, r).len() == r - l,
    decreases r - l,
{
    if r - l > 1 {
        let mid = (l + r) / 2;
        lemma_repr_len::<F>(data, lazy, 2 * k + 1, l, mid);
        lemma_repr_len::<F>(data, lazy, 2 * k + 2, mid, r);
    }
}

/// Under `aggs_ok`, the cached value of any node folds its contents — at a
/// leaf as well, where the cache is the single element itself.
pub proof fn lemma_agg_value<F: MapMonoid>(data: Seq<F::X>, lazy: Seq<F>, k: int, l: int, r: int)
    requires
        r - l >= 1,
        aggs_ok::<F>(data, lazy, k, l, r),
    ensures
        data[k] == foldm(repr::<F>(data, lazy, k, l, r)),
{
    if r - l == 1 {
        lemma_foldm_singleton(repr::<F>(data, lazy, k, l, r));
    }
}

/// The contents of a subtree reads only the slots of that subtree: two
/// states that agree there have the same contents.
pub proof fn lemma_repr_frame<F: MapMonoid>(
    d1: Seq<F::X>,
    z1: Seq<F>,
    d2: Seq<F::X>,
    z2: Seq<F>,
    n: int,
    k: int,
    l: int,
    r: int,
)
    requires
        node_ok(n, k, l, r),
        d1.len() == 2 * n - 1,
        z1.len() == 2 * n - 1,
        d2.len() == 2 * n - 1,
        z2.len() == 2 * n - 1,
        forall|j: int| 0 <= j < 2 * n - 1 && in_subtree(k, j) ==> d2[j] == d1[j] && z2[j] == z1[j],
    ensures
        repr::<F>(d2, z2, k, l, r) == repr::<F>(d1, z1, k, l, r),
    decreases r - l,
{
    lemma_node_bounds(n, k, l, r);
    lemma_in_subtree_self(k);
    if r - l > 1 {
        lemma_node_children(n, k, l, r);
        let mid = (l + r) / 2;
        assert forall|j: int| 0 <= j < 2 * n - 1 && in_subtree(2 * k + 1, j) implies d2[j] == d1[j]
            && z2[j] == z1[j] by {
            lemma_child_in_subtree(k, 2 * k + 1, j);
        }
        assert forall|j: int| 0 <= j < 2 * n - 1 && in_subtree(2 * k + 2, j) implies d2[j] == d1[j]
            && z2[j] == z1[j] by {
            lemma_child_in_subtree(k, 2 * k + 2, j);
        }
        lemma_repr_frame::<F>(d1, z1, d2, z2, n, 2 * k + 1, l, mid);
        lemma_repr_frame::<F>(d1, z1, d2, z2, n, 2 * k + 2, mid, r);
    }
}

/// `aggs_ok` likewise depends only on the slots of the subtree.
pub proof fn lemma_aggs_frame<F: MapMonoid>(
    d1: Seq<F::X>,
    z1: Seq<F>,
    d2: Seq<F::X>,
    z2: Seq<F>,
    n: int,
    k: int,
    l: int,
    r: int,
)
    requires
        node_ok(n, k, l, r),
        aggs_ok::<F>(d1, z1, k, l, r),
        d1.len() == 2 * n - 1,
        z1.len() == 2 * n - 1,
        d2.len() == 2 * n - 1,
        z2.len() == 2 * n - 1,
        forall|j: int| 0 <= j < 2 * n - 1 && in_subtree(k, j) ==> d2[j] == d1[j] && z2[j] == z1[j],
    ensures
        aggs_ok::<F>(d2, z2, k, l, r),
    decreases r - l,
{
    lemma_node_bounds(n, k, l, r);
    lemma_in_subtree_self(k);
    if r - l > 1 {
        lemma_node_children(n, k, l, r);
        let mid = (l + r) / 2;
        assert forall|j: int| 0 <= j < 2 * n - 1 && in_subtree(2 * k + 1, j) implies d2[j] == d1[j]
            && z2[j] == z1[j] by {
            lemma_child_in_subtree(k, 2 * k + 1, j);
        }
        assert forall|j: int| 0 <= j < 2 * n - 1 && in_subtree(2 * k + 2, j) implies d2[j] == d1[j]
            && z2[j] == z1[j] by {
            lemma_child_in_subtree(k, 2 * k + 2, j);
        }
        lemma_repr_frame::<F>(d1, z1, d2, z2, n, k, l, r);
        lemma_aggs_frame::<F>(d1, z1, d2, z2, n, 2 * k + 1, l, mid);
        lemma_aggs_frame::<F>(d1, z1, d2, z2, n, 2 * k + 2, mid, r);
    }
}

/// In a tree whose slots all hold identities, every subtree is coherent and
/// its contents is all identities.
pub proof fn lemma_identity_tree<F: MapMonoid>(
    data: Seq<F::X>,
    lazy: Seq<F>,
    n: int,
    k: int,
    l: int,
    r: int,
)
    requires
        node_ok(n, k, l, r),
        data.len() == 2 * n - 1,
        lazy.len() == 2 * n - 1,
        forall|j: int| 0 <= j < 2 * n - 1 ==> data[j] == <F::X as Monoid>::sid(),
        forall|j: int| 0 <= j < 2 * n - 1 ==> lazy[j] == F::sid(),
    ensures
        aggs_ok::<F>(data, lazy, k, l, r),
        repr::<F>(data, lazy, k, l, r).len() == r - l,
        forall|i: int|
            0 <= i < r - l ==> repr::<F>(data, lazy, k, l, r)[i] == <F::X as Monoid>::sid(),
    decreases r - l,
{
    lemma_node_bounds(n, k, l, r);
    lemma_repr_len::<F>(data, lazy, k, l, r);
    if r - l > 1 {
        lemma_node_children(n, k, l, r);
        let mid = (l + r) / 2;
        lemma_identity_tree::<F>(data, lazy, n, 2 * k + 1, l, mid);
        lemma_identity_tree::<F>(data, lazy, n, 2 * k + 2, mid, r);
        let cat = repr::<F>(data, lazy, 2 * k + 1, l, mid) + repr::<F>(data, lazy, 2 * k + 2, mid, r);
        lemma_seq_apply_id::<F>(cat);
        lemma_foldm_all_id(repr::<F>(data, lazy, k, l, r));
    }
}

/// Applying an action `f` to one node — mapping it over the cached
/// aggregate and, for a node wider than one leaf, composing it onto the
/// pending slot — applies `f` element-wise to the whole subtree contents
/// and keeps the aggregates coherent.
pub proof fn lemma_apply_node<F: MapMonoid>(
    d0: Seq<F::X>,
    z0: Seq<F>,
    d1: Seq<F::X>,
    z1: Seq<F>,
    n: int,
    k: int,
    l: int,
    r: int,
    f: F,
)
    requires
        node_ok(n, k, l, r),
        aggs_ok::<F>(d0, z0, k, l, r),
        d0.len() == 2 * n - 1,
        z0.len() == 2 * n - 1,
        d1.len() == 2 * n - 1,
        z1.len() == 2 * n - 1,
        d1[k] == F::smap(f, d0[k]),
        r - l >= 2 ==> z1[k] == F::sop(f, z0[k]),
        forall|j: int|
            0 <= j < 2 * n - 1 && in_subtree(k, j) && j != k ==> d1[j] == d0[j] && z1[j] == z0[j],
    ensures
        aggs_ok::<F>(d1, z1, k, l, r),
        repr::<F>(d1, z1, k, l, r) == seq_apply(f, repr::<F>(d0, z0, k, l, r)),
{
    lemma_node_bounds(n, k, l, r);
    lemma_repr_len::<F>(d0, z0, k, l, r);
    if r - l <= 1 {
        assert(repr::<F>(d1, z1, k, l, r) =~= seq_apply(f, repr::<F>(d0, z0, k, l, r)));
    } else {
        lemma_node_children(n, k, l, r);
        let mid = (l + r) / 2;
        let lc = 2 * k + 1;
        let rc = 2 * k + 2;
        assert forall|j: int| 0 <= j < 2 * n - 1 && in_subtree(lc, j) implies d1[j] == d0[j] && z1[j]
            == z0[j] by {
            lemma_child_in_subtree(k, lc, j);
            lemma_in_subtree_bound(lc, j);
        }
        assert forall|j: int| 0 <= j < 2 * n - 1 && in_subtree(rc, j) implies d1[j] == d0[j] && z1[j]
            == z0[j] by {
            lemma_child_in_subtree(k, rc, j);
            lemma_in_subtree_bound(rc, j);
        }
        lemma_repr_frame::<F>(d0, z0, d1, z1, n, lc, l, mid);
        lemma_repr_frame::<F>(d0, z0, d1, z1, n, rc, mid, r);
        lemma_aggs_frame::<F>(d0, z0, d1, z1, n, lc, l, mid);
        lemma_aggs_frame::<F>(d0, z0, d1, z1, n, rc, mid, r);
        let cat = repr::<F>(d0, z0, lc, l, mid) + repr::<F>(d0, z0, rc, mid, r);
        lemma_seq_apply_compose::<F>(f, z0[k], cat);
        // repr over the new state composes the new pending action over the
        // unchanged children, which equals f after the old pending action.
        assert(repr::<F>(d1, z1, k, l, r) == seq_apply(F::sop(f, z0[k]), cat));
        // the new aggregate folds the mapped contents
        lemma_agg_value::<F>(d0, z0, k, l, r);
        lemma_foldm_apply::<F>(f, repr::<F>(d0, z0, k, l, r));
    }
}

/// Rebuilding a node's aggregate from its two coherent children, while the
/// node's own pending slot holds the identity, makes the node coherent and
/// its contents the concatenation of the children's contents.
pub proof fn lemma_recombine<F: MapMonoid>(
    d2: Seq<F::X>,
    z2: Seq<F>,
    d3: Seq<F::X>,
    n: int,
    k: int,
    l: int,
    r: int,
)
    requires
        node_ok(n, k, l, r),
        r - l >= 2,
        d2.len() == 2 * n - 1,
        z2.len() == 2 * n - 1,
        z2[k] == F::sid(),
        aggs_ok::<F>(d2, z2, 2 * k + 1, l, (l + r) / 2),
        aggs_ok::<F>(d2, z2, 2 * k + 2, (l + r) / 2, r),
        d3 == d2.update(
            k,
            <F::X as Monoid>::sop(d2[2 * k + 1], d2[2 * k + 2]),
        ),
    ensures
        aggs_ok::<F>(d3, z2, k, l, r),
        repr::<F>(d3, z2, k, l, r) == repr::<F>(d2, z2, 2 * k + 1, l, (l + r) / 2) + repr::<F>(
            d2,
            z2,
            2 * k + 2,
            (l + r) / 2,
            r,
        ),
{
    let mid = (l + r) / 2;
    let lc = 2 * k + 1;
    let rc = 2 * k + 2;
    lemma_node_bounds(n, k, l, r);
    lemma_node_children(n, k, l, r);
    assert forall|j: int| 0 <= j < 2 * n - 1 && in_subtree(lc, j) implies d3[j] == d2[j] && z2[j]
        == z2[j] by {
        lemma_in_subtree_bound(lc, j);
    }
    assert forall|j: int| 0 <= j < 2 * n - 1 && in_subtree(rc, j) implies d3[j] == d2[j] && z2[j]
        == z2[j] by {
        lemma_in_subtree_bound(rc, j);
    }
    lemma_repr_frame::<F>(d2, z2, d3, z2, n, lc, l, mid);
    lemma_repr_frame::<F>(d2, z2, d3, z2, n, rc, mid, r);
    lemma_aggs_frame::<F>(d2, z2, d3, z2, n, lc, l, mid);
    lemma_aggs_frame::<F>(d2, z2, d3, z2, n, rc, mid, r);
    let cat = repr::<F>(d2, z2, lc, l, mid) + repr::<F>(d2, z2, rc, mid, r);
    lemma_seq_apply_id::<F>(cat);
    lemma_agg_value::<F>(d2, z2, lc, l, mid);
    lemma_agg_value::<F>(d2, z2, rc, mid, r);
    lemma_foldm_concat(repr::<F>(d2, z2, lc, l, mid), repr::<F>(d2, z2, rc, mid, r));
}

/// The lazy segment tree: `size` logical elements padded with identities up
/// to `n` leaves, aggregates in `data`, pending actions in `lazy`.
pub struct LazySegtree<F: MapMonoid> {
    n: usize,
    size: usize,
    data: Vec<F::X>,
    lazy: Vec<F>,
}

impl<F: MapMonoid> View for LazySegtree<F> {
    type V = Seq<F::X>;

    closed spec fn view(&self) -> Seq<F::X> {
        repr::<F>(self.data@, self.lazy@, 0, 0, self.n as int).subrange(0, self.size as int)
    }
}

impl<F: MapMonoid> LazySegtree<F> {
    /// The fixed layout: a power-of-two padded width and flat arrays of
    /// `2n - 1` slots.
    spec fn shape(self) -> bool {
        &&& 1 <= self.n
        &&& is_pow2(self.n as int)
        &&& self.size <= self.n
        &&& self.n <= usize::MAX / 4
        &&& self.data.len() == 2 * self.n - 1
        &&& self.lazy.len() == 2 * self.n - 1
    }

    /// The structure's internal invariant: the layout above, coherent cached
    /// aggregates, and identity padding beyond the logical size.
    pub closed spec fn wf(self) -> bool {
        &&& self.shape()
        &&& aggs_ok::<F>(self.data@, self.lazy@, 0, 0, self.n as int)
        &&& forall|i: int|
            self.size <= i < self.n ==> repr::<F>(self.data@, self.lazy@, 0, 0, self.n as int)[i]
                == <F::X as Monoid>::sid()
    }

    /// The number of logical elements.
    pub fn len(&self) -> (r: usize)
        requires
            self.wf(),
        ensures
            r == self@.len(),
    {
        proof {
            self.lemma_root_ok();
        }
        self.size
    }

    /// The root covers the whole padded range.
    proof fn lemma_root_ok(self)
        requires
            self.wf(),
        ensures
            node_ok(self.n as int, 0, 0, self.n as int),
            self@.len() == self.size,
    {
        let n = self.n as int;
        assert((0 + 1) * (n - 0) == n + 0) by (nonlinear_arith);
        lemma_repr_len::<F>(self.data@, self.lazy@, 0, 0, n);
    }

    /// Allocates the padded arrays for `size` elements, every slot holding
    /// the identity.
    fn raw(size: usize) -> (r: Self)
        requires
            size <= usize::MAX / 8,
        ensures
            r.shape(),
            r.size == size,
            forall|j: int| 0 <= j < 2 * r.n - 1 ==> r.data@[j] == <F::X as Monoid>::sid(),
            forall|j: int| 0 <= j < 2 * r.n - 1 ==> r.lazy@[j] == F::sid(),
    {
        let mut n: usize = 1;
        while n < size
            invariant
                1 <= n,
                is_pow2(n as int),
                size <= usize::MAX / 8,
                n <= usize::MAX / 4,
            decreases 2 * size - n,
        {
            proof {
                assert((2 * n) as int % 2 == 0);
            }
            n = n * 2;
        }
        let len: usize = 2 * n - 1;
        let mut data: Vec<F::X> = Vec::new();
        let mut i: usize = 0;
        while i < len
            invariant
                i <= len,
                data.len() == i,
                forall|j: int| 0 <= j < i ==> data@[j] == <F::X as Monoid>::sid(),
            decreases len - i,
        {
            data.push(<F::X as Monoid>::id());
            i = i + 1;
        }
        let mut lazy: Vec<F> = Vec::new();
        let mut i2: usize = 0;
        while i2 < len
            invariant
                i2 <= len,
                lazy.len() == i2,
                forall|j: int| 0 <= j < i2 ==> lazy@[j] == F::sid(),
            decreases len - i2,
        {
            lazy.push(F::id());
            i2 = i2 + 1;
        }
        LazySegtree { n, size, data, lazy }
    }

    /// Builds a tree of `size` elements, all the identity.
    pub fn new(size: usize) -> (r: Self)
        requires
            size <= usize::MAX / 8,
        ensures
            r.wf(),
            r@ == Seq::new(size as nat, |i: int| <F::X as Monoid>::sid()),
    {
        let t = Self::raw(size);
        proof {
            let ni = t.n as int;
            assert((0 + 1) * (ni - 0) == ni + 0) by (nonlinear_arith);
            lemma_identity_tree::<F>(t.data@, t.lazy@, ni, 0, 0, ni);
            assert(t@ =~= Seq::new(size as nat, |i: int| <F::X as Monoid>::sid()));
        }
        t
    }

    /// Pushes the pending action of node `k` onto both children and clears
    /// it; the subtree contents and the node's aggregate are unchanged.
    fn push(&mut self, k: usize, l: usize, r: usize)
        requires
            old(self).shape(),
            node_ok(old(self).n as int, k as int, l as int, r as int),
            r - l >= 2,
            aggs_ok::<F>(old(self).data@, old(self).lazy@, k as int, l as int, r as int),
        ensures
            final(self).shape(),
            final(self).n == old(self).n,
            final(self).size == old(self).size,
            final(self).lazy@[k as int] == F::sid(),
            final(self).data@[k as int] == old(self).data@[k as int],
            aggs_ok::<F>(final(self).data@, final(self).lazy@, k as int, l as int, r as int),
            repr::<F>(final(self).data@, final(self).lazy@, k as int, l as int, r as int)
                == repr::<F>(old(self).data@, old(self).lazy@, k as int, l as int, r as int),
            forall|j: int|
                0 <= j < 2 * old(self).n - 1 && !in_subtree(k as int, j) ==> final(self).data@[j]
                    == old(self).data@[j] && final(self).lazy@[j] == old(self).lazy@[j],
    {
        proof {
            let ni = self.n as int;
            let ki = k as int;
            let li = l as int;
            let ri = r as int;
            lemma_node_bounds(ni, ki, li, ri);
            lemma_node_children(ni, ki, li, ri);
            let mi = (li + ri) / 2;
            lemma_node_bounds(ni, 2 * ki + 1, li, mi);
            lemma_node_bounds(ni, 2 * ki + 2, mi, ri);
        }
        let lc = 2 * k + 1;
        let rc = 2 * k + 2;
        let f = self.lazy[k];
        let a = f.mapping(&self.data[lc]);
        self.data.set(lc, a);
        let b = f.op(&self.lazy[lc]);
        self.lazy.set(lc, b);
        let c = f.mapping(&self.data[rc]);
        self.data.set(rc, c);
        let d = f.op(&self.lazy[rc]);
        self.lazy.set(rc, d);
        self.lazy.set(k, F::id());
        proof {
            let ni = self.n as int;
            let ki = k as int;
            let li = l as int;
            let ri = r as int;
            let mi = (li + ri) / 2;
            let lci = 2 * ki + 1;
            let rci = 2 * ki + 2;
            let d0 = old(self).data@;
            let z0 = old(self).lazy@;
            let d1 = self.data@;
            let z1 = self.lazy@;
            let fg = z0[ki];
            lemma_node_children(ni, ki, li, ri);
            lemma_in_subtree_self(ki);
            lemma_in_subtree_self(lci);
            lemma_in_subtree_self(rci);
            lemma_child_in_subtree(ki, lci, lci);
            lemma_child_in_subtree(ki, rci, rci);
            assert forall|j: int|
                0 <= j < 2 * ni - 1 && in_subtree(lci, j) && j != lci implies d1[j] == d0[j]
                && z1[j] == z0[j] by {
                lemma_in_subtree_bound(lci, j);
                lemma_sibling_disjoint(ki, j);
            }
            lemma_apply_node::<F>(d0, z0, d1, z1, ni, lci, li, mi, fg);
            assert forall|j: int|
                0 <= j < 2 * ni - 1 && in_subtree(rci, j) && j != rci implies d1[j] == d0[j]
                && z1[j] == z0[j] by {
                lemma_in_subtree_bound(rci, j);
                lemma_sibling_disjoint(ki, j);
            }
            lemma_apply_node::<F>(d0, z0, d1, z1, ni, rci, mi, ri, fg);
            let rl0 = repr::<F>(d0, z0, lci, li, mi);
            let rr0 = repr::<F>(d0, z0, rci, mi, ri);
            lemma_seq_apply_concat::<F>(fg, rl0, rr0);
            lemma_seq_apply_id::<F>(repr::<F>(d1, z1, lci, li, mi) + repr::<F>(d1, z1, rci, mi, ri));
            assert(repr::<F>(d1, z1, ki, li, ri) == repr::<F>(d0, z0, ki, li, ri));
        }
    }

    /// Overwrites position `p` (relative to the whole padded range) inside
    /// the subtree at node `k`; the rest of the array is untouched.
    fn set_rec(&mut self, x: F::X, k: usize, l: usize, r: usize, p: usize)
        requires
            old(self).shape(),
            node_ok(old(self).n as int, k as int, l as int, r as int),
            aggs_ok::<F>(old(self).data@, old(self).lazy@, k as int, l as int, r as int),
            l <= p < r,
        ensures
            final(self).shape(),
            final(self).n == old(self).n,
            final(self).size == old(self).size,
            aggs_ok::<F>(final(self).data@, final(self).lazy@, k as int, l as int, r as int),
            repr::<F>(final(self).data@, final(self).lazy@, k as int, l as int, r as int)
                == repr::<F>(old(self).data@, old(self).lazy@, k as int, l as int, r as int).update(
                p - l,
                x,
            ),
            forall|j: int|
                0 <= j < 2 * old(self).n - 1 && !in_subtree(k as int, j) ==> final(self).data@[j]
                    == old(self).data@[j] && final(self).lazy@[j] == old(self).lazy@[j],
        decreases r - l,
    {
        proof {
            lemma_node_bounds(self.n as int, k as int, l as int, r as int);
            lemma_in_subtree_self(k as int);
            lemma_repr_len::<F>(self.data@, self.lazy@, k as int, l as int, r as int);
        }
        if r - l == 1 {
            self.data.set(k, x);
            proof {
                assert(repr::<F>(self.data@, self.lazy@, k as int, l as int, r as int) =~= repr::<
                    F,
                >(old(self).data@, old(self).lazy@, k as int, l as int, r as int).update(0, x));
            }
        } else {
            let ghost ni = self.n as int;
            let ghost ki = k as int;
            let ghost li = l as int;
            let ghost ri = r as int;
            let ghost mi = (li + ri) / 2;
            self.push(k, l, r);
            let mid = l + (r - l) / 2;
            proof {
                lemma_node_children(ni, ki, li, ri);
            }
            let ghost d1 = self.data@;
            let ghost z1 = self.lazy@;
            let lc = 2 * k + 1;
            let rc = 2 * k + 2;
            if p < mid {
                self.set_rec(x, lc, l, mid, p);
                proof {
                    assert forall|j: int|
                        0 <= j < 2 * ni - 1 && in_subtree(rc as int, j) implies self.data@[j]
                        == d1[j] && self.lazy@[j] == z1[j] by {
                        lemma_sibling_disjoint(ki, j);
                        lemma_in_subtree_self(j);
                    }
                    lemma_repr_frame::<F>(d1, z1, self.data@, self.lazy@, ni, rc as int, mi, ri);
                    lemma_aggs_frame::<F>(d1, z1, self.data@, self.lazy@, ni, rc as int, mi, ri);
                }
            } else {
                self.set_rec(x, rc, mid, r, p);
                proof {
                    assert forall|j: int|
                        0 <= j < 2 * ni - 1 && in_subtree(lc as int, j) implies self.data@[j]
                        == d1[j] && self.lazy@[j] == z1[j] by {
                        lemma_sibling_disjoint(ki, j);
                        lemma_in_subtree_self(j);
                    }
                    lemma_repr_frame::<F>(d1, z1, self.data@, self.lazy@, ni, lc as int, li, mi);
                    lemma_aggs_frame::<F>(d1, z1, self.data@, self.lazy@, ni, lc as int, li, mi);
                }
            }
            let ghost d2 = self.data@;
            let ghost z2 = self.lazy@;
            proof {
                lemma_node_bounds(ni, lc as int, li, mi);
                lemma_node_bounds(ni, rc as int, mi, ri);
            }
            let a = self.data[lc].op(&self.data[rc]);
            self.data.set(k, a);
            proof {
                assert(!in_subtree(lc as int, ki));
                assert(!in_subtree(rc as int, ki));
                assert(self.lazy@[ki] == F::sid());
                lemma_recombine::<F>(d2, z2, self.data@, ni, ki, li, ri);
                lemma_repr_len::<F>(d1, z1, lc as int, li, mi);
                lemma_repr_len::<F>(d1, z1, rc as int, mi, ri);
                lemma_repr_len::<F>(d2, z2, lc as int, li, mi);
                lemma_repr_len::<F>(d2, z2, rc as int, mi, ri);
                lemma_seq_apply_id::<F>(repr::<F>(d1, z1, lc as int, li, mi) + repr::<F>(d1, z1, rc as int, mi, ri));
                assert(repr::<F>(self.data@, self.lazy@, ki, li, ri) =~= repr::<F>(
                    old(self).data@,
                    old(self).lazy@,
                    ki,
                    li,
                    ri,
                ).update(p - l, x));
                assert forall|j: int|
                    0 <= j < 2 * ni - 1 && !in_subtree(ki, j) implies self.data@[j] == old(
                        self,
                    ).data@[j] && self.lazy@[j] == old(self).lazy@[j] by {
                    lemma_in_subtree_self(ki);
                    if in_subtree(lc as int, j) {
                        lemma_child_in_subtree(ki, lc as int, j);
                    }
                    if in_subtree(rc as int, j) {
                        lemma_child_in_subtree(ki, rc as int, j);
                    }
                }
            }
        }
    }

    /// Overwrites the element at logical index `p` with `x`; an index at or
    /// beyond the logical size is rejected and the tree is left unchanged.
    pub fn set(&mut self, p: usize, x: F::X) -> (res: Result<(), SegtreeError>)
        requires
            old(self).wf(),
        ensures
            final(self).wf(),
            final(self)@.len() == old(self)@.len(),
            p < old(self)@.len() ==> res == Ok::<(), SegtreeError>(()) && final(self)@ == old(
                self,
            )@.update(p as int, x),
            p >= old(self)@.len() ==> res == Err::<(), SegtreeError>(SegtreeError::IndexOutOfRange)
                && *final(self) == *old(self),
    {
        proof {
            self.lemma_root_ok();
        }
        if p < self.size {
            let n = self.n;
            self.set_rec(x, 0, 0, n, p);
            proof {
                let ni = self.n as int;
                lemma_repr_len::<F>(old(self).data@, old(self).lazy@, 0, 0, ni);
                assert(self@ =~= old(self)@.update(p as int, x));
            }
            Ok(())
        } else {
            Err(SegtreeError::IndexOutOfRange)
        }
    }

    /// Reads the element at padded position `p` under node `k`, where `acc`
    /// is the composition of all pending actions on the path above `k`.
    fn get_rec(&self, k: usize, l: usize, r: usize, p: usize, acc: F) -> (res: F::X)
        requires
            self.shape(),
            node_ok(self.n as int, k as int, l as int, r as int),
            l <= p < r,
        ensures
            res == F::smap(
                acc,
                repr::<F>(self.data@, self.lazy@, k as int, l as int, r as int)[p - l],
            ),
        decreases r - l,
    {
        proof {
            lemma_node_bounds(self.n as int, k as int, l as int, r as int);
            lemma_repr_len::<F>(self.data@, self.lazy@, k as int, l as int, r as int);
        }
        if r - l == 1 {
            acc.mapping(&self.data[k])
        } else {
            proof {
                lemma_node_children(self.n as int, k as int, l as int, r as int);
                lemma_repr_len::<F>(
                    self.data@,
                    self.lazy@,
                    2 * (k as int) + 1,
                    l as int,
                    (l as int + r as int) / 2,
                );
                lemma_repr_len::<F>(
                    self.data@,
                    self.lazy@,
                    2 * (k as int) + 2,
                    (l as int + r as int) / 2,
                    r as int,
                );
            }
            let mid = l + (r - l) / 2;
            let acc2 = acc.op(&self.lazy[k]);
            let res = if p < mid {
                self.get_rec(2 * k + 1, l, mid, p, acc2)
            } else {
                self.get_rec(2 * k + 2, mid, r, p, acc2)
            };
            proof {
                let cat = repr::<F>(
                    self.data@,
                    self.lazy@,
                    2 * (k as int) + 1,
                    l as int,
                    (l as int + r as int) / 2,
                ) + repr::<F>(
                    self.data@,
                    self.lazy@,
                    2 * (k as int) + 2,
                    (l as int + r as int) / 2,
                    r as int,
                );
                F::lemma_map_compose(acc, self.lazy@[k as int], cat[p - l]);
            }
            res
        }
    }

    /// Returns the element at logical index `p`, or an error for an index at
    /// or beyond the logical size. Queries never change the structure.
    pub fn get(&self, p: usize) -> (res: Result<F::X, SegtreeError>)
        requires
            self.wf(),
        ensures
            p < self@.len() ==> res == Ok::<F::X, SegtreeError>(self@[p as int]),
            p >= self@.len() ==> res == Err::<F::X, SegtreeError>(SegtreeError::IndexOutOfRange),
    {
        proof {
            self.lemma_root_ok();
        }
        if p < self.size {
            let n = self.n;
            let v = self.get_rec(0, 0, n, p, F::id());
            proof {
                lemma_repr_len::<F>(self.data@, self.lazy@, 0, 0, self.n as int);
                F::lemma_map_id(repr::<F>(self.data@, self.lazy@, 0, 0, self.n as int)[p as int]);
                assert(self@[p as int] == repr::<F>(self.data@, self.lazy@, 0, 0, self.n as int)[p as int]);
            }
            Ok(v)
        } else {
            Err(SegtreeError::IndexOutOfRange)
        }
    }

    /// Applies `f` to every element whose padded position lies in
    /// `[ql, qr)`, within the subtree at node `k`; positions outside the
    /// window and slots outside the subtree are untouched.
    fn apply_range_rec(&mut self, f: F, k: usize, l: usize, r: usize, ql: usize, qr: usize)
        requires
            old(self).shape(),
            node_ok(old(self).n as int, k as int, l as int, r as int),
            aggs_ok::<F>(old(self).data@, old(self).lazy@, k as int, l as int, r as int),
            ql <= qr,
        ensures
            final(self).shape(),
            final(self).n == old(self).n,
            final(self).size == old(self).size,
            aggs_ok::<F>(final(self).data@, final(self).lazy@, k as int, l as int, r as int),
            forall|i: int|
                0 <= i < r - l ==> #[trigger] repr::<F>(
                    final(self).data@,
                    final(self).lazy@,
                    k as int,
                    l as int,
                    r as int,
                )[i] == (if ql <= l + i < qr {
                    F::smap(
                        f,
                        repr::<F>(old(self).data@, old(self).lazy@, k as int, l as int, r as int)[i],
                    )
                } else {
                    repr::<F>(old(self).data@, old(self).lazy@, k as int, l as int, r as int)[i]
                }),
            forall|j: int|
                0 <= j < 2 * old(self).n - 1 && !in_subtree(k as int, j) ==> final(self).data@[j]
                    == old(self).data@[j] && final(self).lazy@[j] == old(self).lazy@[j],
        decreases r - l,
    {
        proof {
            lemma_node_bounds(self.n as int, k as int, l as int, r as int);
            lemma_in_subtree_self(k as int);
            lemma_repr_len::<F>(self.data@, self.lazy@, k as int, l as int, r as int);
        }
        if qr <= l || r <= ql {
            return;
        }
        if ql <= l && r <= qr {
            let nd = f.mapping(&self.data[k]);
            self.data.set(k, nd);
            if r - l >= 2 {
                let nl = f.op(&self.lazy[k]);
                self.lazy.set(k, nl);
            }
            proof {
                lemma_apply_node::<F>(
                    old(self).data@,
                    old(self).lazy@,
                    self.data@,
                    self.lazy@,
                    self.n as int,
                    k as int,
                    l as int,
                    r as int,
                    f,
                );
            }
            return;
        }
        proof {
            assert(r - l >= 2);
        }
        let ghost ni = self.n as int;
        let ghost ki = k as int;
        let ghost li = l as int;
        let ghost ri = r as int;
        let ghost mi = (li + ri) / 2;
        self.push(k, l, r);
        let mid = l + (r - l) / 2;
        proof {
            lemma_node_children(ni, ki, li, ri);
        }
        let ghost d1 = self.data@;
        let ghost z1 = self.lazy@;
        let lc = 2 * k + 1;
        let rc = 2 * k + 2;
        self.apply_range_rec(f, lc, l, mid, ql, qr);
        let ghost d2 = self.data@;
        let ghost z2 = self.lazy@;
        proof {
            assert forall|j: int|
                0 <= j < 2 * ni - 1 && in_subtree(rc as int, j) implies d2[j] == d1[j] && z2[j]
                == z1[j] by {
                lemma_sibling_disjoint(ki, j);
                lemma_in_subtree_self(j);
            }
            lemma_repr_frame::<F>(d1, z1, d2, z2, ni, rc as int, mi, ri);
            lemma_aggs_frame::<F>(d1, z1, d2, z2, ni, rc as int, mi, ri);
        }
        self.apply_range_rec(f, rc, mid, r, ql, qr);
        let ghost d3 = self.data@;
        let ghost z3 = self.lazy@;
        proof {
            assert forall|j: int|
                0 <= j < 2 * ni - 1 && in_subtree(lc as int, j) implies d3[j] == d2[j] && z3[j]
                == z2[j] by {
                lemma_sibling_disjoint(ki, j);
                lemma_in_subtree_self(j);
            }
            lemma_repr_frame::<F>(d2, z2, d3, z3, ni, lc as int, li, mi);
            lemma_aggs_frame::<F>(d2, z2, d3, z3, ni, lc as int, li, mi);
            lemma_node_bounds(ni, lc as int, li, mi);
            lemma_node_bounds(ni, rc as int, mi, ri);
        }
        let a = self.data[lc].op(&self.data[rc]);
        self.data.set(k, a);
        proof {
            assert(!in_subtree(lc as int, ki));
            assert(!in_subtree(rc as int, ki));
            assert(z3[ki] == F::sid());
            lemma_recombine::<F>(d3, z3, self.data@, ni, ki, li, ri);
            lemma_repr_len::<F>(d1, z1, lc as int, li, mi);
            lemma_repr_len::<F>(d1, z1, rc as int, mi, ri);
            lemma_repr_len::<F>(d2, z2, lc as int, li, mi);
            lemma_repr_len::<F>(d3, z3, lc as int, li, mi);
            lemma_repr_len::<F>(d3, z3, rc as int, mi, ri);
            lemma_seq_apply_id::<F>(repr::<F>(d1, z1, lc as int, li, mi) + repr::<F>(d1, z1, rc as int, mi, ri));
            assert forall|i: int| 0 <= i < ri - li implies #[trigger] repr::<F>(
                self.data@,
                self.lazy@,
                ki,
                li,
                ri,
            )[i] == (if ql <= li + i < qr {
                F::smap(f, repr::<F>(old(self).data@, old(self).lazy@, ki, li, ri)[i])
            } else {
                repr::<F>(old(self).data@, old(self).lazy@, ki, li, ri)[i]
            }) by {
                if i < mi - li {
                    assert(repr::<F>(self.data@, self.lazy@, ki, li, ri)[i] == repr::<F>(
                        d3,
                        z3,
                        lc as int,
                        li,
                        mi,
                    )[i]);
                } else {
                    assert(repr::<F>(self.data@, self.lazy@, ki, li, ri)[i] == repr::<F>(
                        d3,
                        z3,
                        rc as int,
                        mi,
                        ri,
                    )[i - (mi - li)]);
                }
            }
            assert forall|j: int|
                0 <= j < 2 * ni - 1 && !in_subtree(ki, j) implies self.data@[j] == old(
                    self,
                ).data@[j] && self.lazy@[j] == old(self).lazy@[j] by {
                lemma_in_subtree_self(ki);
                if in_subtree(lc as int, j) {
                    lemma_child_in_subtree(ki, lc as int, j);
                }
                if in_subtree(rc as int, j) {
                    lemma_child_in_subtree(ki, rc as int, j);
                }
            }
        }
    }

    /// Applies `f` to every element with logical index in `[start, end)`;
    /// the range is clamped to the logical size, and an empty or inverted
    /// range changes nothing.
    pub fn apply_range(&mut self, f: F, start: usize, end: usize)
        requires
            old(self).wf(),
        ensures
            final(self).wf(),
            final(self)@.len() == old(self)@.len(),
            forall|i: int|
                0 <= i < old(self)@.len() ==> #[trigger] final(self)@[i] == (if start <= i < end {
                    F::smap(f, old(self)@[i])
                } else {
                    old(self)@[i]
                }),
    {
        proof {
            self.lemma_root_ok();
        }
        let e = if end < self.size {
            end
        } else {
            self.size
        };
        let s = if start < e {
            start
        } else {
            e
        };
        if s < e {
            let n = self.n;
            self.apply_range_rec(f, 0, 0, n, s, e);
            proof {
                let ni = self.n as int;
                lemma_repr_len::<F>(old(self).data@, old(self).lazy@, 0, 0, ni);
                lemma_repr_len::<F>(self.data@, self.lazy@, 0, 0, ni);
            }
        }
    }

    /// Applies `f` to the single element at logical index `p`; an index at
    /// or beyond the logical size is rejected and the tree is left
    /// unchanged.
    pub fn apply(&mut self, p: usize, f: F) -> (res: Result<(), SegtreeError>)
        requires
            old(self).wf(),
        ensures
            final(self).wf(),
            final(self)@.len() == old(self)@.len(),
            p < old(self)@.len() ==> res == Ok::<(), SegtreeError>(()) && final(self)@ == old(
                self,
            )@.update(p as int, F::smap(f, old(self)@[p as int])),
            p >= old(self)@.len() ==> res == Err::<(), SegtreeError>(SegtreeError::IndexOutOfRange)
                && *final(self) == *old(self),
    {
        proof {
            self.lemma_root_ok();
        }
        if p < self.size {
            let n = self.n;
            self.apply_range_rec(f, 0, 0, n, p, p + 1);
            proof {
                let ni = self.n as int;
                lemma_repr_len::<F>(old(self).data@, old(self).lazy@, 0, 0, ni);
                lemma_repr_len::<F>(self.data@, self.lazy@, 0, 0, ni);
                assert(self@ =~= old(self)@.update(p as int, F::smap(f, old(self)@[p as int])));
            }
            Ok(())
        } else {
            Err(SegtreeError::IndexOutOfRange)
        }
    }

    /// Combines the elements whose padded positions lie in `[ql, qr)` within
    /// the subtree at node `k`, left to right; `acc` is the composition of
    /// all pending actions on the path above `k`. Queries do not mutate.
    fn prod_rec(&self, k: usize, l: usize, r: usize, ql: usize, qr: usize, acc: F) -> (res: F::X)
        requires
            self.shape(),
            node_ok(self.n as int, k as int, l as int, r as int),
            aggs_ok::<F>(self.data@, self.lazy@, k as int, l as int, r as int),
            ql <= qr,
        ensures
            ({
                let s = seq_apply(
                    acc,
                    repr::<F>(self.data@, self.lazy@, k as int, l as int, r as int),
                );
                let lo = if ql > l {
                    ql as int
                } else {
                    l as int
                };
                let hi = if qr < r {
                    qr as int
                } else {
                    r as int
                };
                if lo < hi {
                    res == foldm(s.subrange(lo - l, hi - l))
                } else {
                    res == <F::X as Monoid>::sid()
                }
            }),
        decreases r - l,
    {
        proof {
            lemma_node_bounds(self.n as int, k as int, l as int, r as int);
            lemma_repr_len::<F>(self.data@, self.lazy@, k as int, l as int, r as int);
        }
        if qr <= l || r <= ql {
            return <F::X as Monoid>::id();
        }
        let ghost rep = repr::<F>(self.data@, self.lazy@, k as int, l as int, r as int);
        if ql <= l && r <= qr {
            let res = acc.mapping(&self.data[k]);
            proof {
                lemma_agg_value::<F>(self.data@, self.lazy@, k as int, l as int, r as int);
                lemma_foldm_apply::<F>(acc, rep);
                assert(seq_apply(acc, rep).subrange(0, r - l) =~= seq_apply(acc, rep));
            }
            return res;
        }
        proof {
            assert(r - l >= 2);
            lemma_node_children(self.n as int, k as int, l as int, r as int);
        }
        let ghost ni = self.n as int;
        let ghost ki = k as int;
        let ghost li = l as int;
        let ghost ri = r as int;
        let ghost mi = (li + ri) / 2;
        let mid = l + (r - l) / 2;
        let acc2 = acc.op(&self.lazy[k]);
        let a = self.prod_rec(2 * k + 1, l, mid, ql, qr, acc2);
        let b = self.prod_rec(2 * k + 2, mid, r, ql, qr, acc2);
        let res = a.op(&b);
        proof {
            let repl = repr::<F>(self.data@, self.lazy@, 2 * ki + 1, li, mi);
            let repr_ = repr::<F>(self.data@, self.lazy@, 2 * ki + 2, mi, ri);
            lemma_repr_len::<F>(self.data@, self.lazy@, 2 * ki + 1, li, mi);
            lemma_repr_len::<F>(self.data@, self.lazy@, 2 * ki + 2, mi, ri);
            let zk = self.lazy@[ki];
            lemma_seq_apply_compose::<F>(acc, zk, repl + repr_);
            lemma_seq_apply_concat::<F>(F::sop(acc, zk), repl, repr_);
            let sl = seq_apply(F::sop(acc, zk), repl);
            let sr = seq_apply(F::sop(acc, zk), repr_);
            let s = seq_apply(acc, rep);
            assert(s == sl + sr);
            let lo = if ql > l {
                ql as int
            } else {
                li
            };
            let hi = if qr < r {
                qr as int
            } else {
                ri
            };
            if hi <= mi {
                assert(b == <F::X as Monoid>::sid());
                assert(s.subrange(lo - li, hi - li) =~= sl.subrange(lo - li, hi - li));
                <F::X as Monoid>::lemma_id_right(a);
            } else if lo >= mi {
                assert(a == <F::X as Monoid>::sid());
                assert(s.subrange(lo - li, hi - li) =~= sr.subrange(lo - mi, hi - mi));
                <F::X as Monoid>::lemma_id_left(b);
            } else {
                assert(s.subrange(lo - li, hi - li) =~= sl.subrange(lo - li, mi - li)
                    + sr.subrange(0, hi - mi));
                lemma_foldm_concat(sl.subrange(lo - li, mi - li), sr.subrange(0, hi - mi));
            }
        }
        res
    }

    /// Combines the elements with logical indices in `[start, end)`, left to
    /// right; the range is clamped to the logical size, and an empty or
    /// inverted range yields the identity. The query borrows the tree
    /// immutably, so asking twice in a row necessarily answers the same.
    pub fn prod(&self, start: usize, end: usize) -> (res: F::X)
        requires
            self.wf(),
        ensures
            ({
                let e = if end as int > self@.len() {
                    self@.len() as int
                } else {
                    end as int
                };
                if (start as int) < e {
                    res == foldm(self@.subrange(start as int, e))
                } else {
                    res == <F::X as Monoid>::sid()
                }
            }),
    {
        proof {
            self.lemma_root_ok();
        }
        let e = if end < self.size {
            end
        } else {
            self.size
        };
        if start < e {
            let n = self.n;
            let res = self.prod_rec(0, 0, n, start, e, F::id());
            proof {
                let ni = self.n as int;
                let rep = repr::<F>(self.data@, self.lazy@, 0, 0, ni);
                lemma_repr_len::<F>(self.data@, self.lazy@, 0, 0, ni);
                lemma_seq_apply_id::<F>(rep);
                assert(rep.subrange(start as int, e as int) =~= self@.subrange(
                    start as int,
                    e as int,
                ));
            }
            res
        } else {
            <F::X as Monoid>::id()
        }
    }

    /// Returns the aggregate of all logical elements: the root cache, which
    /// is always current for the whole tree.
    pub fn all_prod(&self) -> (res: F::X)
        requires
            self.wf(),
        ensures
            res == foldm(self@),
    {
        proof {
            self.lemma_root_ok();
            let ni = self.n as int;
            let rep = repr::<F>(self.data@, self.lazy@, 0, 0, ni);
            lemma_repr_len::<F>(self.data@, self.lazy@, 0, 0, ni);
            lemma_agg_value::<F>(self.data@, self.lazy@, 0, 0, ni);
            let pad = rep.subrange(self.size as int, ni);
            assert(rep =~= self@ + pad);
            lemma_foldm_all_id(pad);
            lemma_foldm_concat(self@, pad);
            <F::X as Monoid>::lemma_id_right(foldm(self@));
        }
        self.data[0]
    }

    /// Fills the subtree at node `k` bottom-up: each leaf takes the value at
    /// its padded position (the identity beyond the end of `values`), and
    /// each internal aggregate combines its children. All pending slots must
    /// hold the identity, and stay untouched.
    fn build_rec(&mut self, values: &Vec<F::X>, k: usize, l: usize, r: usize)
        requires
            old(self).shape(),
            node_ok(old(self).n as int, k as int, l as int, r as int),
            forall|j: int| 0 <= j < 2 * old(self).n - 1 ==> old(self).lazy@[j] == F::sid(),
        ensures
            final(self).shape(),
            final(self).n == old(self).n,
            final(self).size == old(self).size,
            final(self).lazy@ == old(self).lazy@,
            aggs_ok::<F>(final(self).data@, final(self).lazy@, k as int, l as int, r as int),
            forall|i: int|
                0 <= i < r - l ==> #[trigger] repr::<F>(
                    final(self).data@,
                    final(self).lazy@,
                    k as int,
                    l as int,
                    r as int,
                )[i] == (if l + i < values@.len() {
                    values@[l + i]
                } else {
                    <F::X as Monoid>::sid()
                }),
            forall|j: int|
                0 <= j < 2 * old(self).n - 1 && !in_subtree(k as int, j) ==> final(self).data@[j]
                    == old(self).data@[j],
        decreases r - l,
    {
        proof {
            lemma_node_bounds(self.n as int, k as int, l as int, r as int);
            lemma_in_subtree_self(k as int);
        }
        if r - l == 1 {
            let v = if l < values.len() {
                values[l]
            } else {
                <F::X as Monoid>::id()
            };
            self.data.set(k, v);
        } else {
            let ghost ni = self.n as int;
            let ghost ki = k as int;
            let ghost li = l as int;
            let ghost ri = r as int;
            let ghost mi = (li + ri) / 2;
            proof {
                lemma_node_children(ni, ki, li, ri);
            }
            let mid = l + (r - l) / 2;
            let lc = 2 * k + 1;
            let rc = 2 * k + 2;
            self.build_rec(values, lc, l, mid);
            let ghost d1 = self.data@;
            self.build_rec(values, rc, mid, r);
            let ghost d2 = self.data@;
            let ghost z = self.lazy@;
            proof {
                assert forall|j: int|
                    0 <= j < 2 * ni - 1 && in_subtree(lc as int, j) implies d2[j] == d1[j] by {
                    lemma_sibling_disjoint(ki, j);
                    lemma_in_subtree_self(j);
                }
                lemma_repr_frame::<F>(d1, z, d2, z, ni, lc as int, li, mi);
                lemma_aggs_frame::<F>(d1, z, d2, z, ni, lc as int, li, mi);
                lemma_node_bounds(ni, lc as int, li, mi);
                lemma_node_bounds(ni, rc as int, mi, ri);
            }
            let a = self.data[lc].op(&self.data[rc]);
            self.data.set(k, a);
            proof {
                assert(!in_subtree(lc as int, ki));
                assert(!in_subtree(rc as int, ki));
                lemma_recombine::<F>(d2, z, self.data@, ni, ki, li, ri);
                lemma_repr_len::<F>(d2, z, lc as int, li, mi);
                lemma_repr_len::<F>(d2, z, rc as int, mi, ri);
                assert forall|j: int|
                    0 <= j < 2 * ni - 1 && !in_subtree(ki, j) implies self.data@[j] == old(
                        self,
                    ).data@[j] by {
                    lemma_in_subtree_self(ki);
                    if in_subtree(lc as int, j) {
                        lemma_child_in_subtree(ki, lc as int, j);
                    }
                    if in_subtree(rc as int, j) {
                        lemma_child_in_subtree(ki, rc as int, j);
                    }
                }
            }
        }
    }

    /// Builds a tree whose logical elements are exactly `values`, computing
    /// every aggregate bottom-up in one pass.
    pub fn from_vec(values: Vec<F::X>) -> (r: Self)
        requires
            values@.len() <= usize::MAX / 8,
        ensures
            r.wf(),
            r@ == values@,
    {
        let size = values.len();
        let mut t = Self::raw(size);
        let n = t.n;
        proof {
            let ni = n as int;
            assert((0 + 1) * (ni - 0) == ni + 0) by (nonlinear_arith);
        }
        t.build_rec(&values, 0, 0, n);
        proof {
            lemma_repr_len::<F>(t.data@, t.lazy@, 0, 0, t.n as int);
            assert(t@ =~= values@);
        }
        t
    }
}

} // verus!
