use asteroidtracker::sorting::stable_sort;

#[test]
fn stable_sort_orders_ascending() {
    let items = vec!["c", "a", "d", "b"];
    let keys: Vec<i64> = vec![3, 1, 4, 2];
    assert_eq!(stable_sort(items, keys, false), vec!["a", "b", "c", "d"]);
}

#[test]
fn stable_sort_orders_descending() {
    let items = vec!["c", "a", "d", "b"];
    let keys: Vec<i64> = vec![3, 1, 4, 2];
    assert_eq!(stable_sort(items, keys, true), vec!["d", "c", "b", "a"]);
}

#[test]
fn stable_sort_keeps_order_of_equal_keys() {
    let items = vec!["x1", "y1", "x2", "z", "y2", "x3"];
    let keys: Vec<i64> = vec![5, 2, 5, -7, 2, 5];
    assert_eq!(
        stable_sort(items.clone(), keys.clone(), false),
        vec!["z", "y1", "y2", "x1", "x2", "x3"]
    );
    assert_eq!(stable_sort(items, keys, true), vec!["x1", "x2", "x3", "y1", "y2", "z"]);
}

#[test]
fn stable_sort_of_nothing_and_one() {
    let none: Vec<u8> = Vec::new();
    assert_eq!(stable_sort(none, Vec::<i64>::new(), false), Vec::<u8>::new());
    assert_eq!(stable_sort(vec![9u8], vec![i64::MIN], true), vec![9u8]);
}

#[test]
fn stable_sort_handles_extreme_keys() {
    let items = vec![1, 2, 3];
    let keys: Vec<i64> = vec![i64::MAX, i64::MIN, 0];
    assert_eq!(stable_sort(items, keys, false), vec![2, 3, 1]);
}
