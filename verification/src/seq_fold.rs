//! Specification-level tools for sequences of monoid values: the left-to-right
//! fold of a sequence, element-wise application of an action, and the lemmas
//! relating the two through the monoid and action laws.

use crate::monoid::{MapMonoid, Monoid};
use vstd::prelude::*;

verus! {

/// The monoid combination of all elements of `s`, combined left to right;
/// the empty sequence folds to the identity.
pub open spec fn foldm<M: Monoid>(s: Seq<M>) -> M
    decreases s.len(),
{
    if s.len() == 0 {
        M::sid()
    } else {
        M::sop(foldm(s.drop_last()), s.last())
    }
}

/// `s` with the action `f` applied to every element.
pub open spec fn seq_apply<F: MapMonoid>(f: F, s: Seq<F::X>) -> Seq<F::X> {
    s.map(|i: int, x: F::X| F::smap(f, x))
}

/// A one-element sequence folds to its element.
pub proof fn lemma_foldm_singleton<M: Monoid>(s: Seq<M>)
    requires
        s.len() == 1,
    ensures
        foldm(s) == s[0],
{
    assert(s.drop_last().len() == 0);
    assert(foldm(s.drop_last()) == M::sid());
    M::lemma_id_left(s[0]);
}

/// Folding a concatenation combines the folds of the parts, in order.
pub proof fn lemma_foldm_concat<M: Monoid>(s: Seq<M>, t: Seq<M>)
    ensures
        foldm(s + t) == M::sop(foldm(s), foldm(t)),
    decreases t.len(),
{
    if t.len() == 0 {
        assert(s + t =~= s);
        M::lemma_id_right(foldm(s));
    } else {
        assert((s + t).drop_last() =~= s + t.drop_last());
        lemma_foldm_concat(s, t.drop_last());
        M::lemma_assoc(foldm(s), foldm(t.drop_last()), t.last());
    }
}

/// A sequence of identities folds to the identity.
pub proof fn lemma_foldm_all_id<M: Monoid>(s: Seq<M>)
    requires
        forall|i: int| 0 <= i < s.len() ==> s[i] == M::sid(),
    ensures
        foldm(s) == M::sid(),
    decreases s.len(),
{
    if s.len() > 0 {
        lemma_foldm_all_id(s.drop_last());
        M::lemma_id_right(M::sid());
    }
}

/// Applying the identity action to every element changes nothing.
pub proof fn lemma_seq_apply_id<F: MapMonoid>(s: Seq<F::X>)
    ensures
        seq_apply(F::sid(), s) == s,
{
    assert forall|i: int| 0 <= i < s.len() implies seq_apply(F::sid(), s)[i] == s[i] by {
        F::lemma_map_id(s[i]);
    }
    assert(seq_apply(F::sid(), s) =~= s);
}

/// Applying `g` and then `f` element-wise equals applying their composite.
pub proof fn lemma_seq_apply_compose<F: MapMonoid>(f: F, g: F, s: Seq<F::X>)
    ensures
        seq_apply(f, seq_apply(g, s)) == seq_apply(F::sop(f, g), s),
{
    assert forall|i: int| 0 <= i < s.len() implies seq_apply(f, seq_apply(g, s))[i] == seq_apply(
        F::sop(f, g),
        s,
    )[i] by {
        F::lemma_map_compose(f, g, s[i]);
    }
    assert(seq_apply(f, seq_apply(g, s)) =~= seq_apply(F::sop(f, g), s));
}

/// Element-wise application distributes over concatenation.
pub proof fn lemma_seq_apply_concat<F: MapMonoid>(f: F, s: Seq<F::X>, t: Seq<F::X>)
    ensures
        seq_apply(f, s + t) == seq_apply(f, s) + seq_apply(f, t),
{
    assert(seq_apply(f, s + t) =~= seq_apply(f, s) + seq_apply(f, t));
}

/// An action applied to a fold equals the fold of the element-wise
/// application: the distributivity law lifted from pairs to sequences.
pub proof fn lemma_foldm_apply<F: MapMonoid>(f: F, s: Seq<F::X>)
    requires
        s.len() > 0,
    ensures
        foldm(seq_apply(f, s)) == F::smap(f, foldm(s)),
    decreases s.len(),
{
    if s.len() == 1 {
        lemma_foldm_singleton(s);
        lemma_foldm_singleton(seq_apply(f, s));
    } else {
        lemma_foldm_apply(f, s.drop_last());
        assert(seq_apply(f, s).drop_last() =~= seq_apply(f, s.drop_last()));
        F::lemma_map_distributes(f, foldm(s.drop_last()), s.last());
    }
}

} // verus!
