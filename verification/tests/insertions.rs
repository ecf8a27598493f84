use double_array_trie::Dat;

fn entry(key: &str, value: i32) -> (String, i32) {
    (key.to_string(), value)
}

#[test]
fn two_keys_are_found_and_a_third_is_not() {
    let mut dat: Dat<i32> = Dat::new();
    dat.append("key1", 1);
    dat.append("key2", 2);

    assert_eq!(dat.lookup("key1"), Some(1));
    assert_eq!(dat.lookup("key2"), Some(2));
    assert_eq!(dat.lookup("key3"), None);
}

#[test]
fn search_yields_a_key_and_its_extension_in_order() {
    let mut dat: Dat<i32> = Dat::new();
    dat.append("key", 1);
    dat.append("key", 1);
    dat.append("key1", 2);

    assert_eq!(dat.search("key1"), vec![entry("key", 1), entry("key1", 2)]);
}

#[test]
fn chain_of_prefixes_is_found_in_order_of_length() {
    let mut dat: Dat<i32> = Dat::new();
    dat.append("a", 10);
    dat.append("ab", 20);
    dat.append("abc", 30);

    assert!(dat.contain("ab"));
    assert_eq!(
        dat.search("abc"),
        vec![entry("a", 10), entry("ab", 20), entry("abc", 30)]
    );
}

#[test]
fn clean_relocation_at_the_root_keeps_every_key() {
    let mut dat: Dat<i32> = Dat::new();
    dat.append("d", 1);
    dat.append("dc", 2);
    dat.append("aa", 3);
    // The slot of 'c' under the root belongs to "dc": the children of the
    // root move from offset 1 to offset 4.
    assert_eq!(dat.base()[0], 1);
    dat.append("cdc", 4);
    assert_eq!(dat.base()[0], 4);

    assert_eq!(dat.lookup("d"), Some(1));
    assert_eq!(dat.lookup("dc"), Some(2));
    assert_eq!(dat.lookup("aa"), Some(3));
    assert_eq!(dat.lookup("cdc"), Some(4));
    assert_eq!(dat.lookup("c"), None);
    assert_eq!(dat.lookup("cd"), None);
    assert_eq!(dat.lookup("a"), None);
    assert_eq!(dat.search("dcc"), vec![entry("d", 1), entry("dc", 2)]);
}

#[test]
fn clean_relocation_below_the_root_keeps_the_subtree() {
    let mut dat: Dat<i32> = Dat::new();
    dat.append("ba", 1);
    dat.append("a", 2);
    dat.append("bac", 3);
    // The slot of 'b' under the state of "b" belongs to "a": the child
    // "ba" moves from slot 5 to slot 7, and "bac" is told its new parent.
    assert_eq!(dat.check()[4], 5);
    dat.append("bbc", 4);
    assert_eq!(dat.check()[4], 7);
    assert_eq!(dat.base()[2], 5);

    assert_eq!(dat.lookup("ba"), Some(1));
    assert_eq!(dat.lookup("a"), Some(2));
    assert_eq!(dat.lookup("bac"), Some(3));
    assert_eq!(dat.lookup("bbc"), Some(4));
    assert_eq!(dat.lookup("b"), None);
    assert_eq!(dat.lookup("bb"), None);
    assert_eq!(dat.search("bac"), vec![entry("ba", 1), entry("bac", 3)]);
}

#[test]
fn relocation_at_an_accepting_state_overwrites_its_id() {
    let mut dat: Dat<i32> = Dat::new();
    dat.append("key", 1);
    // The state of "key" holds the id -1, so it addresses '1' at slot 5,
    // which belongs to "ke": its children are relocated to offset 2, and
    // the offset takes the place of the id.
    dat.append("key1", 2);

    assert_eq!(dat.base()[9], 2);
    assert_eq!(dat.lookup("key"), None);
    assert_eq!(dat.lookup("key1"), Some(2));
    assert_eq!(dat.search("key1"), vec![entry("key1", 2)]);
}

#[test]
fn relocation_onto_slots_in_use_loses_keys() {
    let mut dat: Dat<i32> = Dat::new();
    dat.append("a", 1);
    dat.append("ab", 2);
    // The slot of 'b' under the root belongs to "ab". The root moves its
    // child "a" onto that slot, and then moves it again as if it were the
    // child under 'b'.
    dat.append("b", 3);

    assert_eq!(dat.lookup("b"), Some(3));
    assert_eq!(dat.lookup("a"), None);
    assert_eq!(dat.lookup("ab"), None);
    assert_eq!(dat.base(), &vec![2, 0, 0, 0, -3]);
    assert_eq!(dat.check(), &vec![0, 0, 0, 0, 0]);
}

#[test]
fn key_inserted_after_its_extension_cuts_the_extension_off() {
    let mut dat: Dat<i32> = Dat::new();
    dat.append("ab", 1);
    // The id of "a" replaces the offset under which "ab" hangs.
    dat.append("a", 2);

    assert_eq!(dat.lookup("a"), Some(2));
    assert_eq!(dat.lookup("ab"), None);
    assert_eq!(dat.search("ab"), vec![entry("a", 2)]);
}

#[test]
fn key_inserted_below_its_extension_can_find_a_key_never_inserted() {
    let mut dat: Dat<i32> = Dat::new();
    dat.append("a", 1);
    dat.append("ba", 2);
    assert_eq!(dat.lookup("bb"), None);
    // The id of "b" is 3, and the child of its state under 'a' stands at
    // slot 5, where the state now addresses 'b'.
    dat.append("b", 3);

    assert_eq!(dat.base(), &vec![1, 0, -1, -3, 0, -2]);
    assert_eq!(dat.check(), &vec![0, 0, 0, 0, 0, 3]);
    assert_eq!(dat.lookup("b"), Some(3));
    assert_eq!(dat.lookup("ba"), None);
    assert_eq!(dat.lookup("bb"), Some(2));
    assert_eq!(dat.search("bb"), vec![entry("b", 3), entry("bb", 2)]);
}

#[test]
fn key_inserted_twice_holds_the_later_value() {
    let mut dat: Dat<i32> = Dat::new();
    dat.append("key", 1);
    dat.append("key", 2);

    assert_eq!(dat.lookup("key"), Some(2));
    assert_eq!(dat.search("key"), vec![entry("key", 2)]);
    assert_eq!(dat.value_count(), 2);
    assert_eq!(dat.base()[9], -2);
}

#[test]
fn empty_key_is_found_at_the_root() {
    let mut dat: Dat<i32> = Dat::new();
    assert_eq!(dat.lookup(""), None);
    assert!(!dat.contain(""));
    dat.append("", 5);

    assert_eq!(dat.base(), &vec![-1]);
    assert_eq!(dat.value_count(), 1);
    assert_eq!(dat.lookup(""), Some(5));
    assert!(dat.contain(""));
    // A match is looked for after each character, never before the first.
    assert_eq!(dat.search(""), vec![]);
    assert_eq!(dat.search("a"), vec![]);

    dat.append("a", 6);
    assert_eq!(dat.base(), &vec![-1, 0, -2]);
    assert_eq!(dat.lookup(""), Some(5));
    assert_eq!(dat.lookup("a"), Some(6));
    assert_eq!(dat.search("a"), vec![entry("a", 6)]);
}

#[test]
fn empty_key_inserted_into_a_new_trie_is_found() {
    let mut dat: Dat<i32> = Dat::new();
    dat.append("", 7);
    assert_eq!(dat.lookup(""), Some(7));
    assert!(dat.contain(""));
}

#[test]
fn empty_key_inserted_twice_holds_the_later_value() {
    let mut dat: Dat<i32> = Dat::new();
    dat.append("", 1);
    dat.append("", 2);
    dat.append("", 3);
    assert_eq!(dat.base(), &vec![-3]);
    assert_eq!(dat.lookup(""), Some(3));
    assert_eq!(dat.value_count(), 3);
}

#[test]
fn empty_key_inserted_after_another_cuts_it_off() {
    let mut dat: Dat<i32> = Dat::new();
    dat.append("a", 1);
    // The id of the empty key replaces the offset under which "a" hangs.
    dat.append("", 2);

    assert_eq!(dat.base(), &vec![-2, 0, -1]);
    assert_eq!(dat.lookup(""), Some(2));
    assert_eq!(dat.lookup("a"), None);
}

#[test]
fn relocation_at_the_root_overwrites_the_id_of_the_empty_key() {
    let mut dat: Dat<i32> = Dat::new();
    dat.append("", 1);
    dat.append("aab", 2);
    assert_eq!(dat.base(), &vec![-1, 0, 3, 0, 5, 0, 0, -2]);
    assert_eq!(dat.check(), &vec![0, 0, 0, 0, 2, 0, 0, 4]);
    assert_eq!(dat.lookup(""), Some(1));
    assert_eq!(dat.lookup("aab"), Some(2));
    // The slot of 'c' under the root belongs to "aa": the children of the
    // root are relocated, and the new offset takes the place of the id.
    dat.append("c", 3);

    assert_eq!(dat.base()[0], 2);
    assert_eq!(dat.lookup(""), None);
    assert_eq!(dat.lookup("c"), Some(3));
}
