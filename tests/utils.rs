use grouille::utils::iterators::{wrapping_windows_fn, GrouilleSlice};
use grouille::utils::{min_max, two_mins};

#[test]
fn min_max_orders_values() {
    assert_eq!(min_max(3, -2), [-2, 3]);
    assert_eq!(min_max(-2, 3), [-2, 3]);
    assert_eq!(min_max(5, 5), [5, 5]);
}

#[test]
fn two_mins_finds_two_smallest_distinct() {
    assert_eq!(two_mins(&vec![4, 1, 1, 3, 2]), Some((1, 2)));
    assert_eq!(two_mins(&vec![7, 7, 9]), Some((7, 9)));
    assert_eq!(two_mins(&vec![5, -3]), Some((-3, 5)));
}

#[test]
fn two_mins_needs_two_distinct_values() {
    assert_eq!(two_mins(&vec![]), None);
    assert_eq!(two_mins(&vec![2]), None);
    assert_eq!(two_mins(&vec![2, 2, 2]), None);
}

#[test]
fn wrapping_windows_go_round_once() {
    let values = vec![10, 20, 30, 40];
    let mut it = values.wrapping_windows(3);
    let mut seen = Vec::new();
    seen.push(it.get().unwrap());
    loop {
        it.advance();
        match it.get() {
            Some(w) => seen.push(w),
            None => break,
        }
    }
    assert_eq!(
        seen,
        vec![
            vec![10, 20, 30],
            vec![20, 30, 40],
            vec![30, 40, 10],
            vec![40, 10, 20],
            vec![10, 20, 30],
        ]
    );
}

#[test]
fn wrapping_windows_of_whole_slice() {
    let values = [1, 2];
    let mut it = wrapping_windows_fn(&values, 2);
    it.advance();
    assert_eq!(it.get(), Some(vec![2, 1]));
    it.advance();
    assert_eq!(it.get(), Some(vec![1, 2]));
    it.advance();
    assert_eq!(it.get(), None);
    it.advance();
    assert_eq!(it.get(), None);
}
