use double_array_trie::Dat;

#[test]
fn new_trie_holds_the_root_alone() {
    let dat: Dat<u8> = Dat::new();
    assert_eq!(dat.base(), &vec![1]);
    assert_eq!(dat.check(), &vec![0]);
    assert_eq!(dat.value_count(), 0);
    assert_eq!(dat.code_count(), 0);
    assert_eq!(dat.code_of('a'), None);
}

#[test]
fn default_trie_is_the_new_trie() {
    let dat: Dat<u8> = Dat::default();
    assert_eq!(dat.base(), &vec![1]);
    assert_eq!(dat.check(), &vec![0]);
    assert_eq!(dat.value_count(), 0);
    assert_eq!(dat.code_count(), 0);
}

#[test]
fn one_key_claims_a_slot_for_each_character() {
    let mut dat: Dat<i32> = Dat::new();
    dat.append("ab", 7);

    // 'a' has code 1 and goes to slot 1 + 1; its own offset is the length
    // then, 3. 'b' has code 2 and goes to slot 3 + 2, where the id -1 marks
    // the end of the key.
    assert_eq!(dat.base(), &vec![1, 0, 3, 0, 0, -1]);
    assert_eq!(dat.check(), &vec![0, 0, 0, 0, 0, 2]);
    assert_eq!(dat.code_of('a'), Some(1));
    assert_eq!(dat.code_of('b'), Some(2));
    assert_eq!(dat.code_count(), 2);
    assert_eq!(dat.value_count(), 1);
}

#[test]
fn two_keys_share_the_slots_of_their_common_prefix() {
    let mut dat: Dat<i32> = Dat::new();
    dat.append("key1", 1);
    dat.append("key2", 2);

    assert_eq!(
        dat.base(),
        &vec![1, 0, 3, 0, 0, 6, 0, 0, 0, 10, 0, 0, 0, 0, -1, -2]
    );
    assert_eq!(
        dat.check(),
        &vec![0, 0, 0, 0, 0, 2, 0, 0, 0, 5, 0, 0, 0, 0, 9, 9]
    );
    assert_eq!(dat.code_count(), 5);
    assert_eq!(dat.value_count(), 2);
}

#[test]
fn accepting_state_addresses_its_children_from_its_id() {
    let mut dat: Dat<i32> = Dat::new();
    dat.append("a", 1);
    dat.append("ab", 2);
    dat.append("abc", 3);

    assert_eq!(dat.base(), &vec![1, 0, -1, -2, 0, -3]);
    assert_eq!(dat.check(), &vec![0, 0, 0, 2, 0, 3]);
}

#[test]
fn relocation_moves_the_children_and_frees_their_slots() {
    let mut dat: Dat<i32> = Dat::new();
    dat.append("d", 1);
    dat.append("dc", 2);
    dat.append("aa", 3);
    assert_eq!(dat.base(), &vec![1, 0, -1, -2, 5, 0, 0, 0, -3]);
    assert_eq!(dat.check(), &vec![0, 0, 0, 2, 0, 0, 0, 0, 4]);

    dat.append("cdc", 4);
    assert_eq!(
        dat.base(),
        &vec![4, 0, 0, -2, 0, -1, 9, 5, -3, 0, 11, 0, 0, -4]
    );
    assert_eq!(
        dat.check(),
        &vec![0, 0, 0, 5, 0, 0, 0, 0, 7, 0, 6, 0, 0, 10]
    );
}

#[test]
fn relocation_renames_the_parent_of_grandchildren() {
    let mut dat: Dat<i32> = Dat::new();
    dat.append("ba", 1);
    dat.append("a", 2);
    dat.append("bac", 3);
    assert_eq!(dat.base(), &vec![1, 0, 3, -2, -3, -1]);
    assert_eq!(dat.check(), &vec![0, 0, 0, 0, 5, 2]);

    dat.append("bbc", 4);
    assert_eq!(dat.base(), &vec![1, 0, 5, -2, -3, 0, 8, -1, 0, 0, 0, -4]);
    assert_eq!(dat.check(), &vec![0, 0, 0, 0, 7, 0, 2, 2, 0, 0, 0, 6]);
}

#[test]
fn codes_are_dense_and_in_order_of_first_sight() {
    let mut dat: Dat<i32> = Dat::new();
    dat.append("banana", 1);

    assert_eq!(dat.code_of('b'), Some(1));
    assert_eq!(dat.code_of('a'), Some(2));
    assert_eq!(dat.code_of('n'), Some(3));
    assert_eq!(dat.code_of('x'), None);
    assert_eq!(dat.code_count(), 3);
}

#[test]
fn codes_never_change() {
    let mut dat: Dat<i32> = Dat::new();
    dat.append("ba", 1);
    let b = dat.code_of('b');
    let a = dat.code_of('a');
    dat.append("a", 2);
    dat.append("bac", 3);
    dat.append("bbc", 4);
    dat.load(vec![("cab", 5), ("xyz", 6)]);

    assert_eq!(dat.code_of('b'), b);
    assert_eq!(dat.code_of('a'), a);
    assert_eq!(dat.code_of('c'), Some(3));
    assert_eq!(dat.code_of('x'), Some(4));
    assert_eq!(dat.code_of('y'), Some(5));
    assert_eq!(dat.code_of('z'), Some(6));
}

#[test]
fn characters_are_scalar_values_not_bytes() {
    let mut dat: Dat<i32> = Dat::new();
    dat.append("é", 1);
    dat.append("日本", 2);
    dat.append("日本語", 3);

    assert_eq!(dat.code_count(), 4);
    assert_eq!(dat.code_of('é'), Some(1));
    assert_eq!(dat.code_of('語'), Some(4));
    assert_eq!(dat.base(), &vec![1, 0, -1, 4, 0, 0, -3, -2]);
    assert_eq!(dat.check(), &vec![0, 0, 0, 0, 0, 0, 7, 3]);
    assert_eq!(dat.lookup("é"), Some(1));
    assert_eq!(dat.lookup("日本"), Some(2));
    assert_eq!(dat.lookup("日本語"), Some(3));
    assert_eq!(dat.lookup("日"), None);
    assert_eq!(
        dat.search("日本語"),
        vec![("日本".to_string(), 2), ("日本語".to_string(), 3)]
    );
}

#[test]
fn load_is_append_in_order() {
    let mut loaded: Dat<i32> = Dat::new();
    loaded.load(vec![("d", 1), ("dc", 2), ("aa", 3), ("cdc", 4)]);

    let mut appended: Dat<i32> = Dat::new();
    appended.append("d", 1);
    appended.append("dc", 2);
    appended.append("aa", 3);
    appended.append("cdc", 4);

    assert_eq!(loaded.base(), appended.base());
    assert_eq!(loaded.check(), appended.check());
    assert_eq!(loaded.code_count(), appended.code_count());
    assert_eq!(loaded.value_count(), appended.value_count());
    assert_eq!(loaded.lookup("cdc"), Some(4));
}

#[test]
fn load_of_nothing_changes_nothing() {
    let mut dat: Dat<i32> = Dat::new();
    dat.append("ab", 7);
    dat.load(Vec::new());

    assert_eq!(dat.base(), &vec![1, 0, 3, 0, 0, -1]);
    assert_eq!(dat.check(), &vec![0, 0, 0, 0, 0, 2]);
    assert_eq!(dat.lookup("ab"), Some(7));
}

#[test]
fn order_of_insertion_decides_the_codes() {
    let mut first: Dat<i32> = Dat::new();
    first.load(vec![("key1", 1), ("key2", 2)]);
    let mut second: Dat<i32> = Dat::new();
    second.load(vec![("key2", 2), ("key1", 1)]);

    assert_eq!(first.code_of('1'), Some(4));
    assert_eq!(first.code_of('2'), Some(5));
    assert_eq!(second.code_of('1'), Some(5));
    assert_eq!(second.code_of('2'), Some(4));
    assert_eq!(first.lookup("key1"), second.lookup("key1"));
    assert_eq!(first.lookup("key2"), second.lookup("key2"));
    assert_eq!(first.lookup("key"), second.lookup("key"));
}

#[test]
fn order_of_insertion_can_decide_what_is_kept() {
    let mut first: Dat<i32> = Dat::new();
    first.load(vec![("d", 1), ("abc", 2)]);
    assert_eq!(first.lookup("d"), Some(1));
    assert_eq!(first.lookup("abc"), Some(2));

    // Here the slot of 'd' under the root belongs to "ab", and the root
    // moves its child "a" onto slots that it looks at later.
    let mut second: Dat<i32> = Dat::new();
    second.load(vec![("abc", 2), ("d", 1)]);
    assert_eq!(second.lookup("d"), Some(1));
    assert_eq!(second.lookup("abc"), None);
    assert_eq!(second.base(), &vec![2, 0, 0, 0, 0, 0, -2, 0, 0, -1]);
    assert_eq!(second.check(), &vec![0, 0, 0, 0, 0, 0, 0, 0, 0, 6]);
}
