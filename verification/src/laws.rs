//! What holds of every trie: the laws that relate insertion, lookup and
//! prefix search.
use vstd::prelude::*;
use crate::model::DatView;

verus! {

/// The value that the last of `pairs` with the key `key` holds, if there is
/// one.
pub open spec fn latest<T>(pairs: Seq<(Seq<char>, T)>, key: Seq<char>) -> Option<T>
    decreases pairs.len(),
{
    if pairs.len() == 0 {
        None
    } else if pairs.last().0 == key {
        Some(pairs.last().1)
    } else {
        latest(pairs.drop_last(), key)
    }
}

/// The keys of `pairs` among the first `n` prefixes of `query`, shortest
/// first, each with the value of the last pair that holds it.
pub open spec fn latest_prefixes<T>(
    pairs: Seq<(Seq<char>, T)>,
    query: Seq<char>,
    n: int,
) -> Seq<(Seq<char>, T)>
    decreases n,
{
    if n <= 0 {
        Seq::empty()
    } else {
        let shorter = latest_prefixes(pairs, query, n - 1);
        match latest(pairs, query.take(n)) {
            Some(v) => shorter.push((query.take(n), v)),
            None => shorter,
        }
    }
}

/// The value that the last of `pairs` with the key `key` holds, or `before`
/// where none has the key.
pub open spec fn latest_or<T>(
    pairs: Seq<(Seq<char>, T)>,
    key: Seq<char>,
    before: Option<T>,
) -> Option<T> {
    match latest(pairs, key) {
        Some(v) => Some(v),
        None => before,
    }
}

impl<T> DatView<T> {
    /// Whether each of `pairs` is safe to insert at the time it is inserted.
    pub open spec fn safe_load(self, pairs: Seq<(Seq<char>, T)>) -> bool
        decreases pairs.len(),
    {
        pairs.len() == 0 || (self.safe_load(pairs.drop_last()) && self.load(
            pairs.drop_last(),
        ).safe_for(pairs.last().0))
    }

    /// The empty trie is consistent and finds nothing.
    pub proof fn law_empty_finds_nothing(key: Seq<char>)
        ensures
            Self::empty().consistent(),
            Self::empty().lookup(key) is None,
    {
        Self::lemma_empty_consistent();
    }

    /// A safe insertion leaves the trie consistent.
    pub proof fn law_append_consistent(self, key: Seq<char>, value: T)
        requires
            self.consistent(),
            self.safe_for(key),
        ensures
            self.append(key, value).consistent(),
    {
        let spell = choose|spell: spec_fn(int) -> Seq<char>| self.spelled_by(spell);
        self.lemma_append_safe(spell, key, value);
    }

    /// Round trip: after a safe insertion the key is found with the value
    /// inserted.
    pub proof fn law_round_trip(self, key: Seq<char>, value: T)
        requires
            self.consistent(),
            self.safe_for(key),
        ensures
            self.append(key, value).lookup(key) == Some(value),
    {
        let spell = choose|spell: spec_fn(int) -> Seq<char>| self.spelled_by(spell);
        self.lemma_append_safe(spell, key, value);
    }

    /// A safe insertion changes what is found under no other key: what was
    /// stored is found still, relocated or not, and what was not is not.
    pub proof fn law_append_keeps_others(self, key: Seq<char>, value: T, other: Seq<char>)
        requires
            self.consistent(),
            self.safe_for(key),
            other != key,
        ensures
            self.append(key, value).lookup(other) == self.lookup(other),
    {
        let spell = choose|spell: spec_fn(int) -> Seq<char>| self.spelled_by(spell);
        self.lemma_append_safe(spell, key, value);
    }

    /// Collision safety: a clean relocation of the children of a state that
    /// is not accepting changes what is found under no key.
    pub proof fn law_relocation_keeps_keys(self, s: int, new_base: int, key: Seq<char>)
        requires
            self.consistent(),
            self.in_use(s),
            self.base[s] >= 0,
            1 <= new_base <= self.len(),
            self.clean_move(s, self.offset(s), new_base),
        ensures
            self.relocate(s, self.offset(s), new_base).consistent(),
            self.relocate(s, self.offset(s), new_base).lookup(key) == self.lookup(key),
    {
        let spell = choose|spell: spec_fn(int) -> Seq<char>| self.spelled_by(spell);
        self.lemma_relocate_clean(spell, s, new_base);
    }

    /// Why a relocation at an accepting state is not safe: a clean relocation
    /// of the children of the state in which a stored key ends leaves the
    /// trie consistent, and the key is found no more, since the new offset
    /// takes the place of its id.
    pub proof fn law_relocation_drops_key_of_state(self, key: Seq<char>, new_base: int)
        requires
            self.consistent(),
            self.lookup(key) is Some,
            1 <= new_base <= self.len(),
            self.clean_move(
                self.walk(key).unwrap(),
                self.offset(self.walk(key).unwrap()),
                new_base,
            ),
        ensures
            self.relocate(
                self.walk(key).unwrap(),
                self.offset(self.walk(key).unwrap()),
                new_base,
            ).consistent(),
            self.relocate(
                self.walk(key).unwrap(),
                self.offset(self.walk(key).unwrap()),
                new_base,
            ).lookup(key) is None,
    {
        let s = self.walk(key).unwrap();
        let spell = choose|spell: spec_fn(int) -> Seq<char>| self.spelled_by(spell);
        assert(self.in_use(s));
        self.lemma_walk_spells(spell, key);
        self.lemma_relocate_spelled(spell, s, new_base);
        let e = self.relocate(s, self.offset(s), new_base);
        e.lemma_spell_walks(self.spell_relocated(spell, s, self.offset(s), new_base), s);
    }

    /// Safe insertions, each in its turn, leave the trie consistent.
    pub proof fn law_load_consistent(self, pairs: Seq<(Seq<char>, T)>)
        requires
            self.consistent(),
            self.safe_load(pairs),
        ensures
            self.load(pairs).consistent(),
        decreases pairs.len(),
    {
        if pairs.len() > 0 {
            self.law_load_consistent(pairs.drop_last());
            self.load(pairs.drop_last()).law_append_consistent(pairs.last().0, pairs.last().1);
        }
    }

    /// Round trip over a load: after safe insertions, each in its turn, the
    /// trie finds under a key the value of the last pair with that key, or
    /// what it found before where no pair has the key.
    pub proof fn law_load_finds_latest(self, pairs: Seq<(Seq<char>, T)>, key: Seq<char>)
        requires
            self.consistent(),
            self.safe_load(pairs),
        ensures
            self.load(pairs).lookup(key) == latest_or(pairs, key, self.lookup(key)),
        decreases pairs.len(),
    {
        if pairs.len() > 0 {
            let d = self.load(pairs.drop_last());
            self.law_load_finds_latest(pairs.drop_last(), key);
            self.law_load_consistent(pairs.drop_last());
            if pairs.last().0 == key {
                d.law_round_trip(key, pairs.last().1);
            } else {
                d.law_append_keeps_others(pairs.last().0, pairs.last().1, key);
            }
        }
    }

    /// Negative lookup: a trie built from nothing by safe insertions finds
    /// nothing under a key that was never inserted.
    pub proof fn law_never_inserted(pairs: Seq<(Seq<char>, T)>, key: Seq<char>)
        requires
            Self::empty().safe_load(pairs),
            forall|i: int| 0 <= i < pairs.len() ==> (#[trigger] pairs[i]).0 != key,
        ensures
            Self::empty().load(pairs).lookup(key) is None,
    {
        Self::law_empty_finds_nothing(key);
        Self::empty().law_load_finds_latest(pairs, key);
        lemma_latest_absent(pairs, key);
    }

    /// Prefix completeness: in a trie built from nothing by safe insertions,
    /// the matches of a query are the inserted keys that are prefixes of it,
    /// the empty key left out, each once and with the value of the last pair
    /// that holds it, in order of length.
    pub proof fn law_prefix_completeness(pairs: Seq<(Seq<char>, T)>, query: Seq<char>, n: int)
        requires
            Self::empty().safe_load(pairs),
            0 <= n <= query.len(),
        ensures
            Self::empty().load(pairs).matches(query, n) == latest_prefixes(pairs, query, n),
        decreases n,
    {
        if n > 0 {
            Self::law_prefix_completeness(pairs, query, n - 1);
            Self::law_empty_finds_nothing(query.take(n));
            Self::empty().law_load_finds_latest(pairs, query.take(n));
        }
    }

    /// The side table holds the values inserted, in the order of insertion,
    /// whether the insertions were safe or not.
    pub proof fn law_load_keeps_values(self, pairs: Seq<(Seq<char>, T)>)
        requires
            self.wf(),
        ensures
            self.load(pairs).values == self.values + pairs.map_values(
                |p: (Seq<char>, T)| p.1,
            ),
        decreases pairs.len(),
    {
        let inserted = pairs.map_values(|p: (Seq<char>, T)| p.1);
        if pairs.len() == 0 {
            assert(self.values + inserted =~= self.values);
        } else {
            let shorter = pairs.drop_last();
            self.law_load_keeps_values(shorter);
            self.lemma_load(shorter);
            self.load(shorter).lemma_append(pairs.last().0, pairs.last().1);
            assert(self.values + inserted =~= (self.values + shorter.map_values(
                |p: (Seq<char>, T)| p.1,
            )).push(pairs.last().1));
        }
    }

    /// Whatever a lookup finds is a value of the side table: a trie never
    /// finds a value that was not inserted, safe insertions or not.
    pub proof fn law_found_was_inserted(self, key: Seq<char>)
        requires
            self.wf(),
        ensures
            self.lookup(key) is Some ==> self.values.contains(self.lookup(key).unwrap()),
    {
        if self.lookup(key) is Some {
            let s = self.walk(key).unwrap();
            let id = self.base[s];
            assert(self.values[-id - 1] == self.lookup(key).unwrap());
        }
    }

    /// Code stability: giving a code to a character that has one changes
    /// nothing, and the code given to one that has none is the number of
    /// codes so far, plus one.
    pub proof fn law_code_assigned_once(self, ch: char)
        requires
            self.wf(),
        ensures
            self.has_code(ch) ==> self.assign(ch) == self,
            !self.has_code(ch) ==> self.assign(ch).code(ch) == self.codes.len() + 1,
            self.assign(ch).has_code(ch),
    {
        self.lemma_assign(ch);
    }

    /// Codes are dense and distinct: each is between one and the number of
    /// characters that have one, and no two characters share one.
    pub proof fn law_codes_distinct(self, a: char, b: char)
        requires
            self.wf(),
            self.has_code(a),
            self.has_code(b),
        ensures
            1 <= self.code(a) <= self.codes.len(),
            a != b ==> self.code(a) != self.code(b),
    {
        self.lemma_code_range(a);
        self.lemma_code_range(b);
    }

    /// Codes are dense: every number from one to the number of characters
    /// that have a code is the code of one of them.
    pub proof fn law_codes_dense(self, c: int)
        requires
            self.wf(),
            1 <= c <= self.codes.len(),
        ensures
            self.has_code(self.codes[c - 1]),
            self.code(self.codes[c - 1]) == c,
    {
        let ch = self.codes[c - 1];
        assert(self.codes.contains(ch));
        self.lemma_code_range(ch);
    }

    /// After an insertion every character of the key has a code.
    pub proof fn law_append_knows_key(self, key: Seq<char>, value: T)
        requires
            self.wf(),
        ensures
            self.append(key, value).knows(key),
    {
        let n = key.len() as int;
        let k = self.lemma_extend(key, n);
        assert(key.take(k) =~= key);
        self.lemma_assign_all(key);
        let d = self.append(key, value);
        assert(d.codes == self.assign_all(key).codes);
        assert forall|i: int| 0 <= i < key.len() implies d.has_code(#[trigger] key[i]) by {
            assert(self.assign_all(key).has_code(key[i]));
        }
    }

    /// Code stability: an insertion leaves every character that has a code
    /// with that code.
    pub proof fn law_code_stable(self, key: Seq<char>, value: T, ch: char)
        requires
            self.wf(),
            self.has_code(ch),
        ensures
            self.append(key, value).has_code(ch),
            self.append(key, value).code(ch) == self.code(ch),
    {
        self.lemma_append(key, value);
        self.lemma_code_stable(self.append(key, value), ch);
    }

    /// Code stability over a load: every character that has a code keeps it.
    pub proof fn law_code_stable_load(self, pairs: Seq<(Seq<char>, T)>, ch: char)
        requires
            self.wf(),
            self.has_code(ch),
        ensures
            self.load(pairs).has_code(ch),
            self.load(pairs).code(ch) == self.code(ch),
    {
        self.lemma_load(pairs);
        self.lemma_code_stable(self.load(pairs), ch);
    }

    /// Prefix completeness: the matches of a query are its prefixes that are
    /// found, each once and with the value found, in order of length.
    pub proof fn law_matches_are_found_prefixes(self, query: Seq<char>, n: int)
        requires
            0 <= n <= query.len(),
        ensures
            forall|i: int|
                0 <= i < self.matches(query, n).len() ==> ({
                    let (key, value) = #[trigger] self.matches(query, n)[i];
                    &&& 1 <= key.len() <= n
                    &&& key == query.take(key.len() as int)
                    &&& self.lookup(key) == Some(value)
                }),
            forall|i: int, j: int|
                0 <= i < j < self.matches(query, n).len() ==> (#[trigger] self.matches(
                    query,
                    n,
                )[i]).0.len() < (#[trigger] self.matches(query, n)[j]).0.len(),
            forall|m: int|
                1 <= m <= n && self.lookup(query.take(m)) is Some ==> exists|i: int|
                    0 <= i < self.matches(query, n).len() && #[trigger] self.matches(query, n)[i]
                        == (query.take(m), self.lookup(query.take(m)).unwrap()),
        decreases n,
    {
        if n > 0 {
            self.law_matches_are_found_prefixes(query, n - 1);
            let shorter = self.matches(query, n - 1);
            let all = self.matches(query, n);
            assert forall|m: int|
                1 <= m <= n && self.lookup(query.take(m)) is Some implies exists|i: int|
                0 <= i < all.len() && #[trigger] all[i] == (
                    query.take(m),
                    self.lookup(query.take(m)).unwrap(),
                ) by {
                if m < n {
                    let i = choose|i: int|
                        0 <= i < shorter.len() && #[trigger] shorter[i] == (
                            query.take(m),
                            self.lookup(query.take(m)).unwrap(),
                        );
                    assert(all[i] == shorter[i]);
                } else {
                    assert(all[all.len() - 1] == (
                        query.take(m),
                        self.lookup(query.take(m)).unwrap(),
                    ));
                }
            }
        }
    }
}

/// No pair with the key, no latest value.
pub proof fn lemma_latest_absent<T>(pairs: Seq<(Seq<char>, T)>, key: Seq<char>)
    requires
        forall|i: int| 0 <= i < pairs.len() ==> (#[trigger] pairs[i]).0 != key,
    ensures
        latest(pairs, key) is None,
    decreases pairs.len(),
{
    if pairs.len() > 0 {
        assert(pairs[pairs.len() - 1].0 != key);
        assert forall|i: int| 0 <= i < pairs.drop_last().len() implies (
        #[trigger] pairs.drop_last()[i]).0 != key by {
            assert(pairs.drop_last()[i] == pairs[i]);
        }
        lemma_latest_absent(pairs.drop_last(), key);
    }
}

} // verus!
