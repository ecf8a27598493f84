use double_array_trie::Dat;

fn sample() -> Dat<i32> {
    let mut dat: Dat<i32> = Dat::new();
    dat.load(vec![("x", 1), ("xy", 2), ("xyz", 3), ("xyzw", 4)]);
    dat
}

#[test]
fn every_inserted_key_is_found_with_its_value() {
    let dat = sample();
    assert_eq!(dat.lookup("x"), Some(1));
    assert_eq!(dat.lookup("xy"), Some(2));
    assert_eq!(dat.lookup("xyz"), Some(3));
    assert_eq!(dat.lookup("xyzw"), Some(4));
    assert!(dat.contain("x"));
    assert!(dat.contain("xyzw"));
}

#[test]
fn key_never_inserted_is_not_found() {
    let dat = sample();
    assert_eq!(dat.lookup("y"), None);
    assert_eq!(dat.lookup("xz"), None);
    assert_eq!(dat.lookup("xyzwx"), None);
    assert_eq!(dat.lookup("xyzwv"), None);
    assert!(!dat.contain("y"));
    assert!(!dat.contain("xyzwv"));
}

#[test]
fn lookup_in_an_empty_trie_finds_nothing() {
    let dat: Dat<i32> = Dat::new();
    assert_eq!(dat.lookup("a"), None);
    assert_eq!(dat.lookup(""), None);
    assert!(!dat.contain("a"));
    assert_eq!(dat.search("abc"), vec![]);
}

#[test]
fn lookup_fails_on_a_character_without_code() {
    let mut dat: Dat<i32> = Dat::new();
    dat.append("key", 1);
    assert_eq!(dat.lookup("kez"), None);
    assert_eq!(dat.lookup("zey"), None);
    assert_eq!(dat.lookup("keyz"), None);
}

#[test]
fn lookup_of_a_proper_prefix_finds_nothing() {
    let mut dat: Dat<i32> = Dat::new();
    dat.append("key", 1);
    assert_eq!(dat.lookup("k"), None);
    assert_eq!(dat.lookup("ke"), None);
    assert!(!dat.contain("ke"));
}

#[test]
fn lookup_never_returns_the_value_of_a_shorter_key() {
    let mut dat: Dat<i32> = Dat::new();
    dat.append("a", 1);
    dat.append("ab", 2);
    // The query ends in the character that "a" ends in.
    assert_eq!(dat.lookup("aba"), None);
    assert_eq!(dat.lookup("aa"), None);
    assert_eq!(dat.lookup("abb"), None);
    assert_eq!(dat.lookup("a"), Some(1));
    assert_eq!(dat.lookup("ab"), Some(2));
}

#[test]
fn contain_is_lookup_found() {
    let dat = sample();
    for key in ["x", "xy", "xyz", "xyzw", "", "y", "xyzwv", "xx"] {
        assert_eq!(dat.contain(key), dat.lookup(key).is_some());
    }
}

#[test]
fn search_yields_every_stored_prefix_shortest_first() {
    let dat = sample();
    assert_eq!(
        dat.search("xyzw"),
        vec![
            ("x".to_string(), 1),
            ("xy".to_string(), 2),
            ("xyz".to_string(), 3),
            ("xyzw".to_string(), 4)
        ]
    );
    assert_eq!(
        dat.search("xyz"),
        vec![
            ("x".to_string(), 1),
            ("xy".to_string(), 2),
            ("xyz".to_string(), 3)
        ]
    );
}

#[test]
fn search_stops_where_the_walk_stops() {
    let dat = sample();
    assert_eq!(
        dat.search("xyqzw"),
        vec![("x".to_string(), 1), ("xy".to_string(), 2)]
    );
    assert_eq!(
        dat.search("xyzwv"),
        vec![
            ("x".to_string(), 1),
            ("xy".to_string(), 2),
            ("xyz".to_string(), 3),
            ("xyzw".to_string(), 4)
        ]
    );
    assert_eq!(dat.search("yx"), vec![]);
    assert_eq!(dat.search(""), vec![]);
}

#[test]
fn search_skips_prefixes_that_are_not_stored() {
    let mut dat: Dat<i32> = Dat::new();
    dat.load(vec![("ab", 1), ("abc", 2), ("b", 3)]);
    assert_eq!(
        dat.search("abcd"),
        vec![("ab".to_string(), 1), ("abc".to_string(), 2)]
    );
    assert_eq!(dat.search("a"), vec![]);
    assert_eq!(dat.search("ba"), vec![("b".to_string(), 3)]);
}

#[test]
fn search_agrees_with_lookup_on_every_prefix() {
    let mut dat: Dat<i32> = Dat::new();
    dat.load(vec![("ba", 1), ("a", 2), ("bac", 3), ("bbc", 4)]);
    for query in ["bac", "bbc", "abc", "bacba", "cab", "b"] {
        let chars: Vec<char> = query.chars().collect();
        let mut expected: Vec<(String, i32)> = Vec::new();
        for n in 1..=chars.len() {
            let prefix: String = chars[..n].iter().collect();
            if let Some(value) = dat.lookup(&prefix) {
                expected.push((prefix, value));
            }
        }
        assert_eq!(dat.search(query), expected);
    }
}

#[test]
fn queries_change_nothing() {
    let dat = sample();
    let base = dat.base().clone();
    let check = dat.check().clone();
    dat.lookup("xyzw");
    dat.lookup("new");
    dat.contain("q");
    dat.search("xyzwvu");
    assert_eq!(dat.base(), &base);
    assert_eq!(dat.check(), &check);
    assert_eq!(dat.code_count(), 4);
    assert_eq!(dat.code_of('q'), None);
}

#[test]
fn values_of_any_copy_type_are_stored() {
    let mut dat: Dat<(u8, bool)> = Dat::new();
    dat.append("on", (1, true));
    dat.append("off", (0, false));
    assert_eq!(dat.lookup("on"), Some((1, true)));
    assert_eq!(dat.lookup("off"), Some((0, false)));
    assert_eq!(dat.lookup("o"), None);
}
