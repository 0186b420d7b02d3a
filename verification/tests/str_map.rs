use line_test::str_map::StrMap;

fn keys(map: &StrMap<u32>) -> Vec<String> {
    (0..map.len()).map(|i| map.key(i).clone()).collect()
}

#[test]
fn keys_are_kept_in_ascending_order() {
    let mut map: StrMap<u32> = StrMap::new();
    for (i, key) in ["pear", "apple", "fig", "apples", "Zebra", "écu", ""].iter().enumerate() {
        map.insert((*key).to_owned(), i as u32);
    }
    let mut expected = vec!["pear", "apple", "fig", "apples", "Zebra", "écu", ""];
    expected.sort();
    assert_eq!(keys(&map), expected);
    assert_eq!(map.get("fig"), Some(&2));
    assert_eq!(map.get("figs"), None);
    assert_eq!(map.locate("b"), (4, false));
    assert_eq!(map.locate("apple"), (2, true));
}

#[test]
fn insert_replaces_the_value_of_a_key_that_is_there() {
    let mut map: StrMap<u32> = StrMap::new();
    map.insert("a".to_owned(), 1);
    map.insert("b".to_owned(), 2);
    map.insert("a".to_owned(), 3);
    assert_eq!(map.len(), 2);
    assert_eq!(map.get("a"), Some(&3));
    assert_eq!(map.get("b"), Some(&2));
}

#[test]
fn remove_takes_the_entry_out() {
    let mut map: StrMap<u32> = StrMap::new();
    map.insert("a".to_owned(), 1);
    map.insert("b".to_owned(), 2);
    map.insert("c".to_owned(), 3);
    assert_eq!(map.remove("b"), Some(2));
    assert_eq!(map.remove("b"), None);
    assert_eq!(keys(&map), vec!["a", "c"]);
    assert!(!map.contains_key("b"));
    assert!(map.contains_key("c"));
    assert_eq!(map.into_keys(), vec!["a", "c"]);
}
