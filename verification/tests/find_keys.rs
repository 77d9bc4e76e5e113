use sknife::find_keys::{find_keys, Mapping};

#[test]
fn find_keys_hash() {
    let mut obj = Mapping::new();
    obj.insert(String::from("One"), 1);
    obj.insert(String::from("Three"), 3);
    obj.insert(String::from("Four"), 4);
    let greater_than_one = |x: &i32| *x > 1;
    assert_eq!(find_keys(greater_than_one, obj), Some(String::from("Three")));
}

#[test]
fn find_keys_empty_hash() {
    let obj: Mapping<i32> = Mapping::new();
    let greater_than_one = |x: &i32| *x > 1;
    let expected_result: Option<String> = None;
    assert_eq!(find_keys(greater_than_one, obj), expected_result);
}

#[test]
fn find_keys_no_match() {
    let mut obj = Mapping::new();
    obj.insert(String::from("One"), 1);
    let greater_than_one = |x: &i32| *x > 1;
    assert_eq!(find_keys(greater_than_one, obj), None);
}

#[test]
fn find_keys_takes_first_match_in_insertion_order() {
    let mut obj = Mapping::new();
    obj.insert(String::from("Four"), 4);
    obj.insert(String::from("Three"), 3);
    let greater_than_one = |x: &i32| *x > 1;
    assert_eq!(find_keys(greater_than_one, obj), Some(String::from("Four")));
}

#[test]
fn insert_replaces_value_of_existing_key() {
    let mut obj = Mapping::new();
    obj.insert(String::from("A"), 1);
    obj.insert(String::from("A"), 5);
    assert_eq!(find_keys(|x: &i32| *x == 5, obj), Some(String::from("A")));

    let mut again = Mapping::new();
    again.insert(String::from("A"), 1);
    again.insert(String::from("A"), 5);
    assert_eq!(find_keys(|x: &i32| *x == 1, again), None);
}

#[test]
fn find_keys_over_string_values() {
    let mut obj = Mapping::new();
    obj.insert(String::from("greeting"), String::from("hello"));
    obj.insert(String::from("name"), String::from("world"));
    let is_world = |x: &String| x == "world";
    assert_eq!(find_keys(is_world, obj), Some(String::from("name")));
}
