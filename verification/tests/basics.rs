use double_array_trie::Dat;

#[test]
fn test_new_dat() {
    let dat: Dat<i32> = Dat::new();
    assert_eq!(dat.base().len(), 1);
    assert_eq!(dat.check().len(), 1);
    assert_eq!(dat.value_count(), 0);
    assert_eq!(dat.code_count(), 0);
}

#[test]
fn test_append_and_lookup() {
    let mut dat: Dat<i32> = Dat::new();
    dat.append("key1", 1);
    dat.append("key2", 2);

    assert_eq!(dat.lookup("key1"), Some(1));
    assert_eq!(dat.lookup("key2"), Some(2));
    assert_eq!(dat.lookup("key3"), None);
}

#[test]
fn test_search() {
    let mut dat: Dat<i32> = Dat::new();
    dat.append("key", 1);
    dat.append("key", 1);
    dat.append("key1", 2);

    let results = dat.search("key1");
    assert!(results.contains(&("key".to_string(), 1)));
    assert!(results.contains(&("key1".to_string(), 2)));
    assert_eq!(results.len(), 2);
}

#[test]
fn test_contain() {
    let mut dat: Dat<i32> = Dat::new();
    dat.append("key1", 1);

    assert!(dat.contain("key1"));
    assert!(!dat.contain("key2"));
}

#[test]
fn test_load() {
    let mut dat: Dat<i32> = Dat::new();
    let list = vec![("key1", 1), ("key2", 2)];
    dat.load(list);

    assert_eq!(dat.lookup("key1"), Some(1));
    assert_eq!(dat.lookup("key2"), Some(2));
}
