//! The two algebraic interfaces the segment tree is built over: `Monoid` for
//! the stored values and `MapMonoid` for the range actions, together with
//! ready-made implementations (numeric max, numeric sum with element count,
//! range-add, and left-biased overwrite).

use vstd::arithmetic::div_mod::{
    lemma_add_mod_noop, lemma_add_mod_noop_right, lemma_fundamental_div_mod_converse_mod,
    lemma_mod_pos_bound, lemma_mul_mod_noop_left, lemma_mul_mod_noop_right, lemma_small_mod,
};
use vstd::arithmetic::mul::{lemma_mul_is_distributive_add, lemma_mul_is_distributive_add_other_way};
use vstd::prelude::*;
use vstd::wrapping::u64_specs;

verus! {

/// A type with an associative combining operation and a two-sided identity.
///
/// The operation and the identity are given twice: once at the specification
/// level (`sop`, `sid`), once executably (`op`, `id`), with the executable
/// functions pinned to the specification ones. Every implementation must
/// prove the monoid laws: `sop(sid(), x) == x`, `sop(x, sid()) == x`, and
/// associativity of `sop`. No commutativity is required. Values are `Copy`,
/// so cached aggregates can be duplicated freely.
pub trait Monoid: Sized + Copy {
    /// The identity element, at the specification level.
    spec fn sid() -> Self;

    /// The combining operation, at the specification level.
    spec fn sop(a: Self, b: Self) -> Self;

    /// Returns the identity element.
    fn id() -> (r: Self)
        ensures
            r == Self::sid(),
    ;

    /// Combines `self` (left operand) with `other` (right operand).
    fn op(&self, other: &Self) -> (r: Self)
        ensures
            r == Self::sop(*self, *other),
    ;

    /// Law: the identity is a left identity for `sop`.
    proof fn lemma_id_left(x: Self)
        ensures
            Self::sop(Self::sid(), x) == x,
    ;

    /// Law: the identity is a right identity for `sop`.
    proof fn lemma_id_right(x: Self)
        ensures
            Self::sop(x, Self::sid()) == x,
    ;

    /// Law: `sop` is associative.
    proof fn lemma_assoc(a: Self, b: Self, c: Self)
        ensures
            Self::sop(Self::sop(a, b), c) == Self::sop(a, Self::sop(b, c)),
    ;
}

/// A monoid of operations ("actions") that can be applied to the values of an
/// underlying monoid `X`.
///
/// `sop(f, g)` composes two actions; the convention is that the right operand
/// `g` is the earlier action and the left operand `f` the later one, so
/// applying the composite equals applying `g` first and then `f`
/// (`lemma_map_compose`). The identity action changes nothing
/// (`lemma_map_id`), and every action distributes over the value monoid's
/// operation (`lemma_map_distributes`) — this last law is what allows an
/// action to be applied directly to a cached segment aggregate instead of to
/// each element of the segment.
pub trait MapMonoid: Monoid {
    /// The monoid of values the actions operate on.
    type X: Monoid;

    /// Applying action `f` to value `x`, at the specification level.
    spec fn smap(f: Self, x: Self::X) -> Self::X;

    /// Applies the action `self` to the value `x`.
    fn mapping(&self, x: &Self::X) -> (r: Self::X)
        ensures
            r == Self::smap(*self, *x),
    ;

    /// Law: the identity action is a no-op.
    proof fn lemma_map_id(x: Self::X)
        ensures
            Self::smap(Self::sid(), x) == x,
    ;

    /// Law: applying a composite action equals applying the right (earlier)
    /// component first, then the left (later) one.
    proof fn lemma_map_compose(f: Self, g: Self, x: Self::X)
        ensures
            Self::smap(Self::sop(f, g), x) == Self::smap(f, Self::smap(g, x)),
    ;

    /// Law: an action distributes over the value monoid's operation.
    proof fn lemma_map_distributes(f: Self, a: Self::X, b: Self::X)
        ensures
            Self::smap(f, <Self::X as Monoid>::sop(a, b)) == <Self::X as Monoid>::sop(
                Self::smap(f, a),
                Self::smap(f, b),
            ),
    ;
}

/// Maximum of signed 64-bit integers; the identity is `i64::MIN`.
#[derive(Clone, Copy, Debug, PartialEq, Eq)]
pub struct MaxI64(pub i64);

impl Monoid for MaxI64 {
    open spec fn sid() -> Self {
        MaxI64(i64::MIN)
    }

    open spec fn sop(a: Self, b: Self) -> Self {
        if a.0 < b.0 {
            b
        } else {
            a
        }
    }

    fn id() -> (r: Self)
        ensures
            r == Self::sid(),
    {
        MaxI64(i64::MIN)
    }

    fn op(&self, other: &Self) -> (r: Self)
        ensures
            r == Self::sop(*self, *other),
    {
        if self.0 < other.0 {
            *other
        } else {
            *self
        }
    }

    proof fn lemma_id_left(x: Self) {
    }

    proof fn lemma_id_right(x: Self) {
    }

    proof fn lemma_assoc(a: Self, b: Self, c: Self) {
    }
}

/// Wrapping addition agrees with addition modulo 2^64.
proof fn lemma_wadd_mod(x: u64, y: u64)
    ensures
        u64_specs::wrapping_add(x, y) as int == (x + y) % 0x1_0000_0000_0000_0000,
{
    if x + y > u64::MAX {
        lemma_fundamental_div_mod_converse_mod(
            x + y,
            0x1_0000_0000_0000_0000,
            1,
            x + y - 0x1_0000_0000_0000_0000,
        );
    } else {
        lemma_small_mod((x + y) as nat, 0x1_0000_0000_0000_0000);
    }
}

/// Wrapping multiplication agrees with multiplication modulo 2^64.
proof fn lemma_wmul_mod(x: u64, y: u64)
    ensures
        u64_specs::wrapping_mul(x, y) as int == (x * y) % 0x1_0000_0000_0000_0000,
{
    lemma_mod_pos_bound(x * y, 0x1_0000_0000_0000_0000);
}

/// Wrapping addition is associative.
proof fn lemma_wadd_assoc(a: u64, b: u64, c: u64)
    ensures
        u64_specs::wrapping_add(u64_specs::wrapping_add(a, b), c) == u64_specs::wrapping_add(
            a,
            u64_specs::wrapping_add(b, c),
        ),
{
    let ab = u64_specs::wrapping_add(a, b);
    let bc = u64_specs::wrapping_add(b, c);
    lemma_wadd_mod(a, b);
    lemma_wadd_mod(b, c);
    lemma_wadd_mod(ab, c);
    lemma_wadd_mod(a, bc);
    lemma_add_mod_noop(a + b, c as int, 0x1_0000_0000_0000_0000);
    lemma_add_mod_noop_right(a as int, b + c, 0x1_0000_0000_0000_0000);
    lemma_small_mod(c as nat, 0x1_0000_0000_0000_0000);
}

/// Sum of unsigned 64-bit integers, wrapping on overflow, paired with the
/// count of summed elements; the identity is a sum of zero elements. The
/// count is what lets a range-add action be applied directly to a cached
/// segment aggregate.
#[derive(Clone, Copy, Debug, PartialEq, Eq)]
pub struct SumCnt {
    pub sum: u64,
    pub cnt: u64,
}

impl Monoid for SumCnt {
    open spec fn sid() -> Self {
        SumCnt { sum: 0, cnt: 0 }
    }

    open spec fn sop(a: Self, b: Self) -> Self {
        SumCnt {
            sum: u64_specs::wrapping_add(a.sum, b.sum),
            cnt: u64_specs::wrapping_add(a.cnt, b.cnt),
        }
    }

    fn id() -> (r: Self)
        ensures
            r == Self::sid(),
    {
        SumCnt { sum: 0, cnt: 0 }
    }

    fn op(&self, other: &Self) -> (r: Self)
        ensures
            r == Self::sop(*self, *other),
    {
        SumCnt {
            sum: self.sum.wrapping_add(other.sum),
            cnt: self.cnt.wrapping_add(other.cnt),
        }
    }

    proof fn lemma_id_left(x: Self) {
    }

    proof fn lemma_id_right(x: Self) {
    }

    proof fn lemma_assoc(a: Self, b: Self, c: Self) {
        lemma_wadd_assoc(a.sum, b.sum, c.sum);
        lemma_wadd_assoc(a.cnt, b.cnt, c.cnt);
    }
}

/// The range-add action over `SumCnt`: adds a constant to every element of a
/// segment (wrapping on overflow). Actions compose by adding their constants.
#[derive(Clone, Copy, Debug, PartialEq, Eq)]
pub struct AddU64(pub u64);

impl Monoid for AddU64 {
    open spec fn sid() -> Self {
        AddU64(0)
    }

    open spec fn sop(a: Self, b: Self) -> Self {
        AddU64(u64_specs::wrapping_add(a.0, b.0))
    }

    fn id() -> (r: Self)
        ensures
            r == Self::sid(),
    {
        AddU64(0)
    }

    fn op(&self, other: &Self) -> (r: Self)
        ensures
            r == Self::sop(*self, *other),
    {
        AddU64(self.0.wrapping_add(other.0))
    }

    proof fn lemma_id_left(x: Self) {
    }

    proof fn lemma_id_right(x: Self) {
    }

    proof fn lemma_assoc(a: Self, b: Self, c: Self) {
        lemma_wadd_assoc(a.0, b.0, c.0);
    }
}

impl MapMonoid for AddU64 {
    type X = SumCnt;

    open spec fn smap(f: Self, x: SumCnt) -> SumCnt {
        SumCnt {
            sum: u64_specs::wrapping_add(x.sum, u64_specs::wrapping_mul(f.0, x.cnt)),
            cnt: x.cnt,
        }
    }

    fn mapping(&self, x: &SumCnt) -> (r: SumCnt)
        ensures
            r == Self::smap(*self, *x),
    {
        SumCnt { sum: x.sum.wrapping_add(self.0.wrapping_mul(x.cnt)), cnt: x.cnt }
    }

    proof fn lemma_map_id(x: SumCnt) {
        assert(0 * x.cnt == 0) by (nonlinear_arith);
        lemma_wmul_mod(0, x.cnt);
        lemma_small_mod(0, 0x1_0000_0000_0000_0000);
    }

    proof fn lemma_map_compose(f: Self, g: Self, x: SumCnt) {
        let w: int = 0x1_0000_0000_0000_0000;
        let s = x.sum as int;
        let c = x.cnt as int;
        let fv = f.0 as int;
        let gv = g.0 as int;
        let fg = u64_specs::wrapping_add(f.0, g.0);
        let gc = u64_specs::wrapping_mul(g.0, x.cnt);
        let fc = u64_specs::wrapping_mul(f.0, x.cnt);
        let inner = u64_specs::wrapping_add(x.sum, gc);
        // Left-hand side: ((s + g*c) + f*c) mod 2^64.
        lemma_wmul_mod(g.0, x.cnt);
        lemma_wmul_mod(f.0, x.cnt);
        lemma_wadd_mod(x.sum, gc);
        lemma_add_mod_noop_right(s, gv * c, w);
        lemma_wadd_mod(inner, fc);
        lemma_add_mod_noop(s + gv * c, fv * c, w);
        // Right-hand side: (s + (f+g)*c) mod 2^64.
        lemma_wadd_mod(f.0, g.0);
        lemma_wmul_mod(fg, x.cnt);
        lemma_mul_mod_noop_left(fv + gv, c, w);
        lemma_mul_is_distributive_add_other_way(c, fv, gv);
        let rc = u64_specs::wrapping_mul(fg, x.cnt);
        lemma_wadd_mod(x.sum, rc);
        lemma_add_mod_noop_right(s, fv * c + gv * c, w);
    }

    proof fn lemma_map_distributes(f: Self, a: SumCnt, b: SumCnt) {
        let w: int = 0x1_0000_0000_0000_0000;
        let sa = a.sum as int;
        let sb = b.sum as int;
        let ca = a.cnt as int;
        let cb = b.cnt as int;
        let fv = f.0 as int;
        // Left-hand side: ((sa + sb) + f*(ca + cb)) mod 2^64.
        let cab = u64_specs::wrapping_add(a.cnt, b.cnt);
        let sab = u64_specs::wrapping_add(a.sum, b.sum);
        let fcab = u64_specs::wrapping_mul(f.0, cab);
        lemma_wadd_mod(a.cnt, b.cnt);
        lemma_wadd_mod(a.sum, b.sum);
        lemma_wmul_mod(f.0, cab);
        lemma_mul_mod_noop_right(fv, ca + cb, w);
        lemma_mul_is_distributive_add(fv, ca, cb);
        lemma_wadd_mod(sab, fcab);
        lemma_add_mod_noop(sa + sb, fv * ca + fv * cb, w);
        lemma_add_mod_noop_right(sa + sb, fv * ca + fv * cb, w);
        // Right-hand side: ((sa + f*ca) + (sb + f*cb)) mod 2^64.
        let fca = u64_specs::wrapping_mul(f.0, a.cnt);
        let fcb = u64_specs::wrapping_mul(f.0, b.cnt);
        let la = u64_specs::wrapping_add(a.sum, fca);
        let lb = u64_specs::wrapping_add(b.sum, fcb);
        lemma_wmul_mod(f.0, a.cnt);
        lemma_wmul_mod(f.0, b.cnt);
        lemma_wadd_mod(a.sum, fca);
        lemma_add_mod_noop_right(sa, fv * ca, w);
        lemma_wadd_mod(b.sum, fcb);
        lemma_add_mod_noop_right(sb, fv * cb, w);
        lemma_wadd_mod(la, lb);
        lemma_add_mod_noop(sa + fv * ca, sb + fv * cb, w);
    }
}

/// The left-biased overwrite action over `MaxI64`: `Some(v)` replaces an
/// element with `v`, `None` leaves it unchanged. Composition keeps the more
/// recent (left) overwrite.
impl Monoid for Option<MaxI64> {
    open spec fn sid() -> Self {
        None
    }

    open spec fn sop(a: Self, b: Self) -> Self {
        match a {
            Some(_) => a,
            None => b,
        }
    }

    fn id() -> (r: Self)
        ensures
            r == Self::sid(),
    {
        None
    }

    fn op(&self, other: &Self) -> (r: Self)
        ensures
            r == Self::sop(*self, *other),
    {
        match self {
            Some(_) => *self,
            None => *other,
        }
    }

    proof fn lemma_id_left(x: Self) {
    }

    proof fn lemma_id_right(x: Self) {
    }

    proof fn lemma_assoc(a: Self, b: Self, c: Self) {
    }
}

impl MapMonoid for Option<MaxI64> {
    type X = MaxI64;

    open spec fn smap(f: Self, x: MaxI64) -> MaxI64 {
        match f {
            Some(v) => v,
            None => x,
        }
    }

    fn mapping(&self, x: &MaxI64) -> (r: MaxI64)
        ensures
            r == Self::smap(*self, *x),
    {
        match self {
            Some(v) => *v,
            None => *x,
        }
    }

    proof fn lemma_map_id(x: MaxI64) {
    }

    proof fn lemma_map_compose(f: Self, g: Self, x: MaxI64) {
    }

    proof fn lemma_map_distributes(f: Self, a: MaxI64, b: MaxI64) {
    }
}

} // verus!
