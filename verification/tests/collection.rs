use sknife::collection::{any, count, find};

#[test]
fn any_true_when_an_element_matches() {
    let v = vec![1, 2, 3];
    assert!(any(|x: &i32| *x > 2, &v));
}

#[test]
fn any_false_when_no_element_matches() {
    let v = vec![1, 2, 3];
    assert!(!any(|x: &i32| *x > 3, &v));
}

#[test]
fn any_false_on_empty_input() {
    let v: Vec<i32> = Vec::new();
    assert!(!any(|x: &i32| *x > 0, &v));
}

#[test]
fn count_counts_matching_elements() {
    let v = vec![1, 2, 3, 4];
    assert_eq!(count(|x: &i32| *x % 2 == 0, &v), 2);
}

#[test]
fn count_zero_on_empty_input() {
    let v: Vec<i32> = Vec::new();
    assert_eq!(count(|x: &i32| *x % 2 == 0, &v), 0);
}

#[test]
fn any_agrees_with_count_positive() {
    let v = vec![5, 7, 9];
    let even = |x: &i32| *x % 2 == 0;
    let odd = |x: &i32| *x % 2 == 1;
    assert_eq!(any(even, &v), count(even, &v) > 0);
    assert_eq!(any(odd, &v), count(odd, &v) > 0);
}

#[test]
fn find_returns_first_match_in_order() {
    let v = vec![1, 3, 2, 4];
    assert_eq!(find(|x: &i32| *x > 1, &v), Some(&3));
}

#[test]
fn find_none_when_no_element_matches() {
    let v = vec![1, 3, 2, 4];
    assert_eq!(find(|x: &i32| *x > 9, &v), None);
}

#[test]
fn find_none_on_empty_input() {
    let v: Vec<i32> = Vec::new();
    assert_eq!(find(|x: &i32| *x > 0, &v), None);
}

#[test]
fn find_some_exactly_when_any() {
    let v = vec![2, 4, 6];
    let gt5 = |x: &i32| *x > 5;
    let gt9 = |x: &i32| *x > 9;
    let found = find(gt5, &v);
    assert_eq!(found.is_some(), any(gt5, &v));
    assert!(gt5(found.unwrap()));
    assert_eq!(find(gt9, &v).is_some(), any(gt9, &v));
}

#[test]
fn map_applies_transform_in_order() {
    let v = vec![1, 2, 3];
    assert_eq!(sknife::collection::map(|x: &i32| x * 2, &v), vec![2, 4, 6]);
}

#[test]
fn map_keeps_length_and_input() {
    let v = vec![String::from("one"), String::from("three")];
    let lens = sknife::collection::map(|s: &String| s.len(), &v);
    assert_eq!(lens.len(), v.len());
    assert_eq!(lens, vec![3, 5]);
    assert_eq!(v[0], "one");
    assert_eq!(v[1], "three");
}

#[test]
fn map_empty_on_empty_input() {
    let v: Vec<i32> = Vec::new();
    let out = sknife::collection::map(|x: &i32| x + 1, &v);
    assert!(out.is_empty());
}
