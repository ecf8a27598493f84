use double_array_trie::Dat;

const KEYS: [&str; 6] = ["a", "b", "aa", "ab", "ba", "bb"];
const QUERIES: [&str; 9] = ["", "a", "b", "ab", "ba", "aab", "abb", "bab", "bba"];

fn sequences() -> Vec<Vec<&'static str>> {
    let mut all: Vec<Vec<&'static str>> = Vec::new();
    for first in KEYS {
        all.push(vec![first]);
        for second in KEYS {
            all.push(vec![first, second]);
            for third in KEYS {
                all.push(vec![first, second, third]);
            }
        }
    }
    all
}

fn build(keys: &[&str]) -> Dat<usize> {
    let mut dat: Dat<usize> = Dat::new();
    for (i, key) in keys.iter().enumerate() {
        dat.append(key, i);
    }
    dat
}

#[test]
fn search_is_the_found_prefixes_in_order_of_length() {
    for keys in sequences() {
        let dat = build(&keys);
        for query in QUERIES {
            let chars: Vec<char> = query.chars().collect();
            let mut expected: Vec<(String, usize)> = Vec::new();
            for n in 1..=chars.len() {
                let prefix: String = chars[..n].iter().collect();
                if let Some(value) = dat.lookup(&prefix) {
                    expected.push((prefix, value));
                }
            }
            assert_eq!(dat.search(query), expected);
        }
    }
}

#[test]
fn contain_agrees_with_lookup() {
    for keys in sequences() {
        let dat = build(&keys);
        for query in QUERIES {
            assert_eq!(dat.contain(query), dat.lookup(query).is_some());
        }
    }
}

#[test]
fn arrays_stay_parallel_and_never_shrink() {
    for keys in sequences() {
        let mut dat: Dat<usize> = Dat::new();
        let mut len = dat.base().len();
        for (i, key) in keys.iter().enumerate() {
            dat.append(key, i);
            assert_eq!(dat.base().len(), dat.check().len());
            assert!(dat.base().len() >= len);
            assert_eq!(dat.check()[0], 0);
            assert_eq!(dat.value_count(), i + 1);
            len = dat.base().len();
        }
    }
}

#[test]
fn every_entry_stays_within_the_arrays() {
    for keys in sequences() {
        let dat = build(&keys);
        let len = dat.base().len() as i32;
        let values = dat.value_count() as i32;
        for j in 0..dat.base().len() {
            assert!(-values <= dat.base()[j] && dat.base()[j] <= len);
            assert!(0 <= dat.check()[j] && dat.check()[j] < len);
        }
    }
}

#[test]
fn insertion_changes_no_code() {
    for keys in sequences() {
        let mut dat: Dat<usize> = Dat::new();
        for (i, key) in keys.iter().enumerate() {
            let a = dat.code_of('a');
            let b = dat.code_of('b');
            dat.append(key, i);
            if a.is_some() {
                assert_eq!(dat.code_of('a'), a);
            }
            if b.is_some() {
                assert_eq!(dat.code_of('b'), b);
            }
            for ch in key.chars() {
                let code = dat.code_of(ch);
                assert!(code.is_some());
                assert!(1 <= code.unwrap() && code.unwrap() <= dat.code_count());
            }
        }
    }
}

#[test]
fn insertion_without_collision_keeps_every_key() {
    // None of these finds the slot of a transition in the hands of another
    // state.
    let lists: [&[&str]; 4] = [
        &["key1", "key2"],
        &["a", "ab", "abc"],
        &["x", "xy", "xyz", "xyzw"],
        &["d", "abc"],
    ];
    for keys in lists {
        let mut dat: Dat<usize> = Dat::new();
        for (i, key) in keys.iter().enumerate() {
            dat.append(key, i);
            for (j, earlier) in keys[..=i].iter().enumerate() {
                assert_eq!(dat.lookup(earlier), Some(j));
            }
            for later in &keys[i + 1..] {
                assert_eq!(dat.lookup(later), None);
            }
        }
    }
}

#[test]
fn word_list_with_a_relocation_is_found_whole() {
    let words = ["a", "card", "ten", "ant", "cart", "and", "to", "tea"];
    let mut dat: Dat<usize> = Dat::new();
    for (i, word) in words.iter().enumerate() {
        dat.append(word, i + 1);
    }

    assert_eq!(
        dat.base(),
        &vec![
            1, 0, -1, 4, -8, 6, 15, 0, 30, 10, -3, 0, 0, 0, -2, -5, 0, 0, 0, 0, 0, 3, 0, -7, 0,
            0, 0, 0, 0, 0, 0, 0, 0, 0, -6, -4
        ]
    );
    assert_eq!(
        dat.check(),
        &vec![
            0, 0, 0, 0, 21, 3, 0, 0, 2, 5, 21, 0, 0, 0, 9, 9, 0, 0, 0, 0, 0, 6, 0, 6, 0, 0, 0,
            0, 0, 0, 0, 0, 0, 0, 8, 8
        ]
    );
    for (i, word) in words.iter().enumerate() {
        assert_eq!(dat.lookup(word), Some(i + 1));
    }
    for absent in ["c", "ca", "car", "t", "te", "an", "on", "tent", "team", ""] {
        assert_eq!(dat.lookup(absent), None);
    }
    assert_eq!(
        dat.search("and"),
        vec![("a".to_string(), 1), ("and".to_string(), 6)]
    );
    assert_eq!(dat.search("team"), vec![("tea".to_string(), 8)]);
    assert_eq!(dat.search("carts"), vec![("cart".to_string(), 5)]);
}

#[test]
fn room_is_a_slot_for_each_code_at_each_character() {
    let dat: Dat<u8> = Dat::new();
    assert!(dat.has_room(""));
    assert!(dat.has_room("key"));
    // 1 + 46340 * (0 + 46340 + 1) is below the limit of 2147483647, and
    // 1 + 46341 * (0 + 46341 + 1) is above it.
    assert!(dat.has_room(&"a".repeat(46340)));
    assert!(!dat.has_room(&"a".repeat(46341)));
}

#[test]
fn room_shrinks_as_the_trie_grows() {
    let mut dat: Dat<u8> = Dat::new();
    dat.append("ab", 1);
    // The arrays hold 6 slots and 2 codes now:
    // 6 + 46339 * (2 + 46339 + 1) is below the limit, and
    // 6 + 46340 * (2 + 46340 + 1) is above it.
    assert!(dat.has_room(&"a".repeat(46339)));
    assert!(!dat.has_room(&"a".repeat(46340)));
}
