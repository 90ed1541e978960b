use redos_detector::map::must_get;
use std::collections::HashMap;

#[test]
fn must_get_returns_value() {
    let mut map: HashMap<&str, i32> = HashMap::new();
    map.insert("a", 1);
    assert_eq!(must_get(&map, &"a"), &1);
}

#[test]
fn must_get_with_integer_keys() {
    let mut map: HashMap<u64, &str> = HashMap::new();
    map.insert(3, "three");
    map.insert(4, "four");
    assert_eq!(*must_get(&map, &4), "four");
}
