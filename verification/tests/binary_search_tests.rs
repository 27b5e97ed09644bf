use algolib::binary_search::{bisect, bisect_range};

#[test]
fn test_binary_search() {
    assert_eq!(
        bisect(&[10, 20, 30, 40, 50, 60, 70, 80, 90, 100], |x| x >= 50),
        4
    );
    assert_eq!(
        bisect(&vec![10, 20, 30, 40, 50, 60, 70, 80, 90, 100], |x| x >= 50),
        4
    )
}

#[test]
fn test_binary_search_range_i64() {
    assert_eq!(bisect_range(1, 100, |x| x * x >= 100), 10)
}

#[test]
fn bisect_boundaries() {
    let empty: [i64; 0] = [];
    assert_eq!(bisect(&empty, |_x| true), 0);
    assert_eq!(bisect(&[1, 2, 3], |_x| true), 0);
    assert_eq!(bisect(&[1, 2, 3], |_x| false), 3);
    assert_eq!(bisect_range(5, 5, |_x| true), 5);
}
