use algolib::monoid::{AddU64, MapMonoid, MaxI64, Monoid, SumCnt};

fn sc(sum: u64, cnt: u64) -> SumCnt {
    SumCnt { sum, cnt }
}

#[test]
fn max_monoid_laws_sampled() {
    let samples = [
        MaxI64(i64::MIN),
        MaxI64(-7),
        MaxI64(0),
        MaxI64(3),
        MaxI64(i64::MAX),
    ];
    for &a in samples.iter() {
        assert_eq!(a.op(&MaxI64::id()), a);
        assert_eq!(MaxI64::id().op(&a), a);
        for &b in samples.iter() {
            for &c in samples.iter() {
                assert_eq!(a.op(&b).op(&c), a.op(&b.op(&c)));
            }
        }
    }
}

#[test]
fn sum_monoid_laws_sampled() {
    let samples = [sc(0, 0), sc(1, 1), sc(u64::MAX, 1), sc(u64::MAX - 1, 3)];
    for &a in samples.iter() {
        assert_eq!(a.op(&SumCnt::id()), a);
        assert_eq!(SumCnt::id().op(&a), a);
        for &b in samples.iter() {
            for &c in samples.iter() {
                assert_eq!(a.op(&b).op(&c), a.op(&b.op(&c)));
            }
        }
    }
}

#[test]
fn add_action_laws_sampled() {
    let actions = [AddU64(0), AddU64(5), AddU64(u64::MAX), AddU64(12)];
    let values = [sc(0, 0), sc(4, 2), sc(u64::MAX, 5), sc(17, 1)];
    for &x in values.iter() {
        assert_eq!(AddU64::id().mapping(&x), x);
        for &f in actions.iter() {
            for &g in actions.iter() {
                // composing, then applying == applying g first, then f
                assert_eq!(f.op(&g).mapping(&x), f.mapping(&g.mapping(&x)));
            }
        }
    }
}

#[test]
fn overwrite_action_laws_sampled() {
    let actions = [None, Some(MaxI64(0)), Some(MaxI64(-3)), Some(MaxI64(9))];
    let values = [MaxI64(i64::MIN), MaxI64(-1), MaxI64(8)];
    for &x in values.iter() {
        assert_eq!(<Option<MaxI64> as Monoid>::id().mapping(&x), x);
        for &f in actions.iter() {
            for &g in actions.iter() {
                assert_eq!(f.op(&g).mapping(&x), f.mapping(&g.mapping(&x)));
                for &h in actions.iter() {
                    assert_eq!(f.op(&g).op(&h), f.op(&g.op(&h)));
                }
            }
        }
    }
}
