use algolib::lazy_segtree::{LazySegtree, SegtreeError};
use algolib::monoid::{AddU64, MaxI64, SumCnt};

fn sc(sum: u64, cnt: u64) -> SumCnt {
    SumCnt { sum, cnt }
}

fn sum_tree(values: &[u64]) -> LazySegtree<AddU64> {
    let mut v: Vec<SumCnt> = Vec::new();
    for &x in values.iter() {
        v.push(sc(x, 1));
    }
    LazySegtree::from_vec(v)
}

#[test]
fn sum_range_add_scenario() {
    // sum monoid with range-add action, size 5, initial [1,2,3,4,5]
    let mut t = sum_tree(&[1, 2, 3, 4, 5]);
    assert_eq!(t.prod(0, 5), sc(15, 5));
    t.apply_range(AddU64(3), 1, 3);
    // conceptually [1,5,6,4,5]
    assert_eq!(t.prod(0, 5), sc(21, 5));
    assert_eq!(t.get(2), Ok(sc(6, 1)));
    assert_eq!(t.prod(1, 3), sc(11, 2));
}

#[test]
fn max_overwrite_scenario() {
    // max monoid with overwrite action, size 4, initial [5,1,9,2]
    let mut t: LazySegtree<Option<MaxI64>> =
        LazySegtree::from_vec(vec![MaxI64(5), MaxI64(1), MaxI64(9), MaxI64(2)]);
    assert_eq!(t.all_prod(), MaxI64(9));
    t.apply_range(Some(MaxI64(0)), 0, 2);
    // conceptually [0,0,9,2]
    assert_eq!(t.all_prod(), MaxI64(9));
    t.apply_range(Some(MaxI64(10)), 2, 3);
    // conceptually [0,0,10,2]
    assert_eq!(t.all_prod(), MaxI64(10));
    assert_eq!(t.get(0), Ok(MaxI64(0)));
    assert_eq!(t.get(1), Ok(MaxI64(0)));
    assert_eq!(t.get(2), Ok(MaxI64(10)));
    assert_eq!(t.get(3), Ok(MaxI64(2)));
}

#[test]
fn empty_range_is_identity_and_noop() {
    let mut t = sum_tree(&[1, 2, 3, 4, 5]);
    // prod on an empty range returns the identity
    assert_eq!(t.prod(2, 2), sc(0, 0));
    // inverted range returns the identity too
    assert_eq!(t.prod(4, 1), sc(0, 0));
    // apply_range on an empty range is a no-op
    t.apply_range(AddU64(100), 3, 3);
    t.apply_range(AddU64(100), 4, 2);
    assert_eq!(t.prod(0, 5), sc(15, 5));
}

#[test]
fn point_operations_at_bounds() {
    let mut t = sum_tree(&[7, 8, 9]);
    assert_eq!(t.get(0), Ok(sc(7, 1)));
    assert_eq!(t.get(2), Ok(sc(9, 1)));
    assert_eq!(t.set(0, sc(1, 1)), Ok(()));
    assert_eq!(t.set(2, sc(2, 1)), Ok(()));
    assert_eq!(t.apply(0, AddU64(5)), Ok(()));
    assert_eq!(t.prod(0, 3), sc(16, 3));
    // an index equal to the size is rejected, and the tree is unchanged
    assert_eq!(t.get(3), Err(SegtreeError::IndexOutOfRange));
    assert_eq!(t.set(3, sc(0, 0)), Err(SegtreeError::IndexOutOfRange));
    assert_eq!(t.apply(3, AddU64(1)), Err(SegtreeError::IndexOutOfRange));
    assert_eq!(t.prod(0, 3), sc(16, 3));
}

#[test]
fn query_is_idempotent() {
    let mut t = sum_tree(&[3, 1, 4, 1, 5, 9, 2, 6]);
    t.apply_range(AddU64(2), 1, 6);
    let first = t.prod(2, 7);
    let second = t.prod(2, 7);
    assert_eq!(first, second);
    let third = t.all_prod();
    let fourth = t.all_prod();
    assert_eq!(third, fourth);
    assert_eq!(t.get(4), t.get(4));
}

#[test]
fn new_tree_is_all_identity() {
    let mut t: LazySegtree<AddU64> = LazySegtree::new(6);
    assert_eq!(t.len(), 6);
    assert_eq!(t.all_prod(), sc(0, 0));
    assert_eq!(t.get(5), Ok(sc(0, 0)));
    assert_eq!(t.set(5, sc(4, 1)), Ok(()));
    assert_eq!(t.prod(4, 6), sc(4, 1));
}

#[test]
fn ranges_clamp_to_size() {
    let mut t = sum_tree(&[1, 2, 3]);
    // end beyond the size is clamped, not an error
    assert_eq!(t.prod(0, 100), sc(6, 3));
    t.apply_range(AddU64(1), 0, 100);
    assert_eq!(t.prod(0, 3), sc(9, 3));
}

#[test]
fn matches_naive_simulation() {
    let size: usize = 37;
    let mut naive: Vec<u64> = vec![0; size];
    let mut t: LazySegtree<AddU64> = LazySegtree::new(size);
    for i in 0..size {
        let v = (i as u64) * 3 + 1;
        naive[i] = v;
        assert_eq!(t.set(i, sc(v, 1)), Ok(()));
    }
    let mut state: u64 = 0x2545F4914F6CDD1D;
    for _step in 0..300 {
        state = state
            .wrapping_mul(6364136223846793005)
            .wrapping_add(1442695040888963407);
        let kind = (state >> 33) % 4;
        state = state
            .wrapping_mul(6364136223846793005)
            .wrapping_add(1442695040888963407);
        let a = ((state >> 20) as usize) % size;
        state = state
            .wrapping_mul(6364136223846793005)
            .wrapping_add(1442695040888963407);
        let b = ((state >> 20) as usize) % (size + 1);
        let (lo, hi) = if a <= b { (a, b) } else { (b, a) };
        let val = state >> 40;
        match kind {
            0 => {
                naive[a] = val;
                assert_eq!(t.set(a, sc(val, 1)), Ok(()));
            }
            1 => {
                for i in lo..hi {
                    naive[i] = naive[i].wrapping_add(val);
                }
                t.apply_range(AddU64(val), lo, hi);
            }
            2 => {
                let mut expect: u64 = 0;
                for i in lo..hi {
                    expect = expect.wrapping_add(naive[i]);
                }
                assert_eq!(t.prod(lo, hi), sc(expect, (hi - lo) as u64));
            }
            _ => {
                assert_eq!(t.get(a), Ok(sc(naive[a], 1)));
            }
        }
    }
    for i in 0..size {
        assert_eq!(t.get(i), Ok(sc(naive[i], 1)));
    }
}
