//! Binary search for the boundary of a predicate: over the elements of a
//! sorted slice, or over a range of integers. The predicate is an arbitrary
//! function value; the contracts speak of what it answered through
//! `call_ensures`, so for a deterministic, monotone predicate the result is
//! the first place where it holds.

use vstd::prelude::*;

verus! {

/// Returns the least index `r` bounding the searched slice such that the
/// predicate answered `true` at `r` (when `r` is not the length) and `false`
/// at `r - 1` (when `r` is not zero).
pub fn bisect<T: Copy, P: Fn(T) -> bool>(s: &[T], f: P) -> (r: usize)
    requires
        forall|i: int| 0 <= i < s@.len() ==> call_requires(f, (s@[i],)),
    ensures
        r <= s@.len(),
        r < s@.len() ==> call_ensures(f, (s@[r as int],), true),
        r > 0 ==> call_ensures(f, (s@[r - 1],), false),
{
    let mut lo: usize = 0;
    let mut hi: usize = s.len();
    while lo < hi
        invariant
            lo <= hi <= s@.len(),
            forall|i: int| 0 <= i < s@.len() ==> call_requires(f, (s@[i],)),
            hi < s@.len() ==> call_ensures(f, (s@[hi as int],), true),
            lo > 0 ==> call_ensures(f, (s@[lo - 1],), false),
        decreases hi - lo,
    {
        let mid = lo + (hi - lo) / 2;
        if f(s[mid]) {
            hi = mid;
        } else {
            lo = mid + 1;
        }
    }
    hi
}

/// Returns the least integer `r` in `[start, end]` such that the predicate
/// answered `true` at `r` (when `r < end`) and `false` at `r - 1` (when
/// `r > start`).
pub fn bisect_range<P: Fn(i64) -> bool>(start: i64, end: i64, f: P) -> (r: i64)
    requires
        start <= end,
        end - start <= i64::MAX,
        forall|i: i64| start <= i < end ==> call_requires(f, (i,)),
    ensures
        start <= r <= end,
        r < end ==> call_ensures(f, (r,), true),
        r > start ==> call_ensures(f, ((r - 1) as i64,), false),
{
    let mut lo: i64 = start;
    let mut hi: i64 = end;
    while lo < hi
        invariant
            start <= lo <= hi <= end,
            end - start <= i64::MAX,
            forall|i: i64| start <= i < end ==> call_requires(f, (i,)),
            hi < end ==> call_ensures(f, (hi,), true),
            lo > start ==> call_ensures(f, ((lo - 1) as i64,), false),
        decreases hi - lo,
    {
        let mid = lo + (hi - lo) / 2;
        if f(mid) {
            hi = mid;
        } else {
            lo = mid + 1;
        }
    }
    hi
}

} // verus!
