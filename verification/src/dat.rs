//! The executable double-array trie.
use std::collections::HashMap;
use vstd::prelude::*;
use vstd::string::StrSliceExecFns;
use crate::laws::latest_or;
use crate::model::DatView;
use crate::model::LIMIT;

verus! {

broadcast use vstd::std_specs::hash::group_hash_axioms;

/// The characters of `s`, in order.
fn chars_of(s: &str) -> (v: Vec<char>)
    ensures
        v@ == s@,
{
    let mut v: Vec<char> = Vec::new();
    for ch in it: s.chars()
        invariant
            v@ == it.seq().take(it.index() as int),
    {
        v.push(ch);
    }
    v
}

/// Whether `ch` is a scalar value of Unicode, as every `char` that exists at
/// run time is.
spec fn is_scalar(ch: char) -> bool {
    0 <= ch as int <= 0xD7FF || 0xE000 <= ch as int <= 0x10FFFF
}

/// The key under which the code table holds `ch`.
spec fn key_of(ch: char) -> u32 {
    ch as u32
}

/// Search results as plain data: each key as its sequence of characters.
pub open spec fn entries<T>(found: Seq<(String, T)>) -> Seq<(Seq<char>, T)> {
    found.map_values(|e: (String, T)| (e.0@, e.1))
}

/// Pairs to load as plain data: each key as its sequence of characters.
pub open spec fn pairs<T>(list: Seq<(&str, T)>) -> Seq<(Seq<char>, T)> {
    list.map_values(|p: (&str, T)| (p.0@, p.1))
}

/// A double-array trie from string keys to values of type `T`.
pub struct Dat<T: Copy> {
    base: Vec<i32>,
    check: Vec<i32>,
    tail: HashMap<i32, T>,
    code_map: HashMap<u32, usize>,
    alphabet: Ghost<Seq<char>>,
}

impl<T: Copy> View for Dat<T> {
    type V = DatView<T>;

    closed spec fn view(&self) -> DatView<T> {
        DatView {
            base: self.base@.map_values(|x: i32| x as int),
            check: self.check@.map_values(|x: i32| x as int),
            codes: self.alphabet@,
            values: Seq::new(self.tail@.len(), |i: int| self.tail@[(-(i + 1)) as i32]),
        }
    }
}

impl<T: Copy> Default for Dat<T> {
    /// An empty trie: the root state, with offset 1, and nothing else.
    fn default() -> (dat: Self)
        ensures
            dat.wf(),
            dat@ == DatView::<T>::empty(),
            dat@.consistent(),
    {
        let mut base: Vec<i32> = Vec::new();
        base.push(1);
        let mut check: Vec<i32> = Vec::new();
        check.push(0);
        let dat = Dat {
            base,
            check,
            tail: HashMap::new(),
            code_map: HashMap::new(),
            alphabet: Ghost(Seq::empty()),
        };
        proof {
            assert(dat@.base =~= seq![1int]);
            assert(dat@.check =~= seq![0int]);
            assert(dat@.values =~= Seq::<T>::empty());
            DatView::<T>::lemma_empty_consistent();
        }
        dat
    }
}

impl<T: Copy> Dat<T> {
    /// Whether the two tables are as the model says: the code table holds
    /// each character of the alphabet under its position plus one, and the
    /// side table holds a value under each id minted.
    spec fn tables_ok(&self) -> bool {
        &&& self.tail@.len() <= LIMIT
        &&& self.alphabet@.len() <= LIMIT
        &&& self.code_map@.len() == self.alphabet@.len()
        &&& forall|i: int|
            0 <= i < self.alphabet@.len() ==> is_scalar(#[trigger] self.alphabet@[i])
                && self.code_map@.contains_key(key_of(self.alphabet@[i]))
                && self.code_map@[key_of(self.alphabet@[i])] == i + 1
        &&& forall|k: u32| #[trigger]
            self.code_map@.contains_key(k) ==> 1 <= self.code_map@[k] <= self.alphabet@.len()
                && key_of(self.alphabet@[self.code_map@[k] - 1]) == k
        &&& forall|k: i32| #[trigger]
            self.tail@.contains_key(k) ==> -self.tail@.len() <= k <= -1
        &&& forall|k: i32|
            -self.tail@.len() <= k <= -1 ==> #[trigger] self.tail@.contains_key(k)
    }

    /// The representation invariant: the trie is structurally valid, the
    /// tables agree with it, and every quantity fits the integer arrays.
    pub closed spec fn wf(&self) -> bool {
        &&& self@.wf()
        &&& self.base@.len() <= LIMIT
        &&& self.tables_ok()
    }

    /// What validity means in terms of the model.
    pub proof fn lemma_wf(&self)
        requires
            self.wf(),
        ensures
            self@.wf(),
            self@.within_limit(),
    {
    }

    /// The `base` array.
    pub fn base(&self) -> (base: &Vec<i32>)
        ensures
            base@.map_values(|x: i32| x as int) == self@.base,
    {
        &self.base
    }

    /// The `check` array.
    pub fn check(&self) -> (check: &Vec<i32>)
        ensures
            check@.map_values(|x: i32| x as int) == self@.check,
    {
        &self.check
    }

    /// The number of values in the side table.
    pub fn value_count(&self) -> (count: usize)
        requires
            self.wf(),
        ensures
            count == self@.values.len(),
    {
        self.tail.len()
    }

    /// The number of characters that have a code.
    pub fn code_count(&self) -> (count: usize)
        requires
            self.wf(),
        ensures
            count == self@.codes.len(),
    {
        self.code_map.len()
    }

    /// The code of `ch`, if it has one.
    pub fn code_of(&self, ch: char) -> (code: Option<usize>)
        requires
            self.wf(),
        ensures
            code is Some == self@.has_code(ch),
            self@.has_code(ch) ==> code == Some(self@.code(ch) as usize),
            code is Some ==> 1 <= code.unwrap() <= self@.codes.len(),
    {
        proof {
            self.lemma_code_table(ch);
        }
        let k = ch as u32;
        match self.code_map.get(&k) {
            Some(code) => Some(*code),
            None => None,
        }
    }

    /// The agreement of the code table with the alphabet of the model.
    proof fn lemma_code_table(&self, ch: char)
        requires
            self.wf(),
        ensures
            self.code_map@.contains_key(ch as u32) == self@.has_code(ch),
            self@.has_code(ch) ==> self.code_map@[ch as u32] == self@.code(ch),
            self@.has_code(ch) ==> 1 <= self@.code(ch) <= self@.codes.len(),
    {
        let k = ch as u32;
        if self.code_map@.contains_key(k) {
            let c = self.code_map@[k];
            assert(is_scalar(self.alphabet@[c - 1]));
            assert(self.alphabet@[c - 1] == ch);
        }
        if self.alphabet@.contains(ch) {
            let i = self.alphabet@.index_of(ch);
            assert(is_scalar(self.alphabet@[i]));
        }
    }

    /// The offset from which the children of `state` are addressed.
    fn offset_of(&self, state: usize) -> (offset: usize)
        requires
            self.wf(),
            state < self@.len(),
        ensures
            offset == self@.offset(state as int),
            offset <= self@.reach(),
    {
        let b = self.base[state];
        assert(self@.base[state as int] == b);
        if b < 0 {
            (-b) as usize
        } else {
            b as usize
        }
    }

    /// The state reached from `state` over `ch`, if that transition exists.
    fn transition(&self, state: usize, ch: char) -> (target: Option<usize>)
        requires
            self.wf(),
            state < self@.len(),
        ensures
            target is Some ==> self@.next(state as int, ch) == Some(target.unwrap() as int)
                && target.unwrap() < self@.len(),
            target is None ==> self@.next(state as int, ch) is None,
    {
        proof {
            self.lemma_code_table(ch);
        }
        let k = ch as u32;
        match self.code_map.get(&k) {
            Some(code) => {
                let t = self.offset_of(state) + *code;
                if t < self.base.len() && self.check[t] as usize == state {
                    assert(self@.check[t as int] == self.check[t as int]);
                    Some(t)
                } else {
                    assert(t < self.base.len() ==> self@.check[t as int] == self.check[t as int]);
                    None
                }
            },
            None => None,
        }
    }

    /// The value that `state` holds as an accepting state, if it is one.
    fn value_of(&self, state: usize) -> (value: Option<T>)
        requires
            self.wf(),
            state < self@.len(),
        ensures
            value == self@.value_at(state as int),
    {
        let id = self.base[state];
        assert(self@.base[state as int] == id);
        if id < 0 {
            match self.tail.get(&id) {
                Some(v) => Some(*v),
                None => None,
            }
        } else {
            None
        }
    }

    /// The code of `ch`, assigned now if `ch` was never seen: the number of
    /// codes assigned so far, plus one.
    fn get_code(&mut self, ch: char) -> (code: usize)
        requires
            old(self).wf(),
            old(self)@.assign(ch).codes.len() <= LIMIT,
        ensures
            final(self).wf(),
            final(self)@ == old(self)@.assign(ch),
            old(self)@.has_code(ch) ==> final(self)@ == old(self)@ && code == old(self)@.code(ch),
            !old(self)@.has_code(ch) ==> code == old(self)@.codes.len() + 1,
            code == final(self)@.code(ch),
            1 <= code <= final(self)@.codes.len(),
    {
        proof {
            self.lemma_code_table(ch);
        }
        let k = ch as u32;
        let known = match self.code_map.get(&k) {
            Some(c) => Some(*c),
            None => None,
        };
        match known {
            Some(code) => code,
            None => {
                let code = self.code_map.len() + 1;
                self.code_map.insert(k, code);
                self.alphabet = Ghost(self.alphabet@.push(ch));
                proof {
                    let before = old(self).alphabet@;
                    assert forall|i: int| 0 <= i < self.alphabet@.len() implies is_scalar(
                        #[trigger] self.alphabet@[i],
                    ) && self.code_map@.contains_key(key_of(self.alphabet@[i]))
                        && self.code_map@[key_of(self.alphabet@[i])] == i + 1 by {
                        if i < before.len() {
                            assert(is_scalar(before[i]));
                        }
                    }
                    assert forall|j: u32| #[trigger] self.code_map@.contains_key(j) implies 1
                        <= self.code_map@[j] <= self.alphabet@.len() && key_of(
                        self.alphabet@[self.code_map@[j] - 1],
                    ) == j by {
                        if j != k {
                            assert(old(self).code_map@.contains_key(j));
                        }
                    }
                    assert(self.alphabet@[before.len() as int] == ch);
                }
                code
            },
        }
    }

    /// Extends both arrays with free slots until they hold `size` slots.
    fn resize(&mut self, size: usize)
        requires
            old(self).wf(),
            size <= LIMIT,
        ensures
            final(self).wf(),
            final(self)@ == old(self)@.grown(size as int),
    {
        while self.base.len() < size
            invariant
                self.wf(),
                size <= LIMIT,
                self@.len() >= old(self)@.len(),
                self@.len() <= size || self@.len() == old(self)@.len(),
                self@ == old(self)@.grown(self@.len()),
            decreases size - self.base.len(),
        {
            let ghost before = self@;
            self.base.push(0);
            self.check.push(0);
            proof {
                assert(self@.base =~= before.base.push(0));
                assert(self@.check =~= before.check.push(0));
                assert(self@.base =~= old(self)@.grown(self@.len()).base);
                assert(self@.check =~= old(self)@.grown(self@.len()).check);
            }
        }
    }

    /// Claims the free slot `target` as a child of `state`.
    fn claim(&mut self, target: usize, state: usize)
        requires
            old(self).wf(),
            0 < target < old(self)@.len(),
            state < old(self)@.len(),
        ensures
            final(self).wf(),
            final(self)@ == old(self)@.claim(target as int, state as int),
    {
        let len = self.base.len();
        self.base.set(target, len as i32);
        self.check.set(target, state as i32);
        proof {
            assert(self@.base =~= old(self)@.base.update(target as int, len as int));
            assert(self@.check =~= old(self)@.check.update(target as int, state as int));
        }
    }

    /// Whether offset `base` leaves open the slot of every character of `key`
    /// from position `from` on. Characters seen for the first time are given
    /// codes on the way.
    fn can_use_base(&mut self, base: usize, key: &Vec<char>, from: usize) -> (fits: bool)
        requires
            old(self).wf(),
            from <= key@.len(),
            base <= LIMIT,
            old(self)@.assign_all(key@.skip(from as int)).codes.len() <= LIMIT,
        ensures
            final(self).wf(),
            exists|n: int|
                0 <= n <= key@.len() - from && final(self)@ == #[trigger] old(self)@.assign_all(
                    key@.skip(from as int).take(n),
                ),
            fits ==> final(self)@ == old(self)@.assign_all(key@.skip(from as int)),
            fits == old(self)@.assign_all(key@.skip(from as int)).fits(
                base as int,
                key@.skip(from as int),
            ),
    {
        let ghost rest = key@.skip(from as int);
        let ghost all = self@.assign_all(rest);
        let mut i: usize = from;
        proof {
            assert(rest.take(0) =~= Seq::<char>::empty());
        }
        while i < key.len()
            invariant
                self.wf(),
                from <= i <= key@.len(),
                base <= LIMIT,
                rest == key@.skip(from as int),
                all == old(self)@.assign_all(rest),
                old(self)@.wf(),
                all.codes.len() <= LIMIT,
                self@ == old(self)@.assign_all(rest.take(i - from)),
                forall|j: int|
                    0 <= j < i - from ==> all.is_open(base + all.code(#[trigger] rest[j])),
            decreases key@.len() - i,
        {
            let ghost before = self@;
            let ghost n = i - from;
            let ch = key[i];
            proof {
                assert(rest[n] == ch);
                assert(rest.take(n + 1).drop_last() =~= rest.take(n));
                assert(before.assign(ch) == old(self)@.assign_all(rest.take(n + 1)));
                old(self)@.lemma_assign_resumed(rest, n + 1);
                old(self)@.lemma_assign_all(rest.take(n + 1));
                before.assign(ch).lemma_assign_all(rest);
                before.lemma_assign(ch);
                before.assign(ch).lemma_code_stable(all, ch);
            }
            let code = self.get_code(ch);
            let slot = base + code;
            if slot < self.base.len() && (self.base[slot] != 0 || self.check[slot] != 0) {
                proof {
                    assert(self@.base[slot as int] == self.base[slot as int]);
                    assert(self@.check[slot as int] == self.check[slot as int]);
                    assert(!all.is_open(base + all.code(rest[n])));
                }
                return false;
            }
            proof {
                if slot < self.base.len() {
                    assert(self@.base[slot as int] == self.base[slot as int]);
                    assert(self@.check[slot as int] == self.check[slot as int]);
                }
                assert(all.is_open(base + all.code(rest[n])));
            }
            i += 1;
        }
        proof {
            assert(rest.take(i - from) =~= rest);
        }
        true
    }

    /// Moves the content of slot `from`, a child of `state`, to slot `to`:
    /// every slot that named `from` as its parent names `to`, and `from` is
    /// set free.
    fn move_child(&mut self, state: usize, from: usize, to: usize)
        requires
            old(self).wf(),
            state < old(self)@.len(),
            0 < from < old(self)@.len(),
            0 < to < LIMIT,
        ensures
            final(self).wf(),
            final(self)@ == old(self)@.move_child(state as int, from as int, to as int),
    {
        proof {
            self@.lemma_grown(to + 1);
            self@.lemma_move_child(state as int, from as int, to as int);
        }
        self.resize(to + 1);
        let moved = self.base[from];
        self.base.set(to, moved);
        self.check.set(to, state as i32);
        let ghost marked = self.check@;
        let ghost copied = *self;
        let len = self.check.len();
        let mut j: usize = 0;
        while j < len
            invariant
                j <= len,
                len == marked.len(),
                self.check@.len() == len,
                from < LIMIT,
                to < LIMIT,
                forall|k: int|
                    0 <= k < len ==> #[trigger] self.check@[k] == if k < j && marked[k] == from {
                        to as i32
                    } else {
                        marked[k]
                    },
                self.base == copied.base,
                self.tail == copied.tail,
                self.code_map == copied.code_map,
                self.alphabet == copied.alphabet,
            decreases len - j,
        {
            if self.check[j] == from as i32 {
                self.check.set(j, to as i32);
            }
            j += 1;
        }
        self.base.set(from, 0);
        self.check.set(from, 0);
        proof {
            let goal = old(self)@.move_child(state as int, from as int, to as int);
            assert(self@.base =~= goal.base);
            assert(self@.check =~= goal.check);
        }
    }

    /// Moves the children of `state` from offset `old_base` to offset
    /// `new_base`, in order of code, and records the new offset.
    fn relocate(&mut self, state: usize, old_base: usize, new_base: usize)
        requires
            old(self).wf(),
            state < old(self)@.len(),
            old_base <= LIMIT,
            new_base <= old(self)@.len(),
            old(self)@.relocate(state as int, old_base as int, new_base as int).len() <= LIMIT,
        ensures
            final(self).wf(),
            final(self)@ == old(self)@.relocate(state as int, old_base as int, new_base as int),
    {
        let n = self.code_map.len();
        let mut code: usize = 1;
        while code <= n
            invariant
                self.wf(),
                old(self)@.wf(),
                1 <= code <= n + 1,
                n == old(self)@.codes.len(),
                n <= LIMIT,
                state < old(self)@.len(),
                old_base <= LIMIT,
                new_base <= old(self)@.len(),
                old(self)@.len() <= LIMIT,
                old(self)@.move_children(
                    state as int,
                    old_base as int,
                    new_base as int,
                    n as int,
                ).len() <= LIMIT,
                self@ == old(self)@.move_children(
                    state as int,
                    old_base as int,
                    new_base as int,
                    code - 1,
                ),
            decreases n + 1 - code,
        {
            let from = old_base + code;
            let to = new_base + code;
            proof {
                old(self)@.lemma_move_children(
                    state as int,
                    old_base as int,
                    new_base as int,
                    code - 1,
                );
                old(self)@.lemma_move_children_grows(
                    state as int,
                    old_base as int,
                    new_base as int,
                    code as int,
                    n as int,
                );
                if from < self.base.len() {
                    assert(self@.check[from as int] == self.check[from as int]);
                    if self.check[from as int] == state {
                        self@.lemma_move_child(state as int, from as int, to as int);
                    }
                }
            }
            if from < self.base.len() && self.check[from] == state as i32 {
                self.move_child(state, from, to);
            }
            code += 1;
        }
        proof {
            old(self)@.lemma_move_children(
                state as int,
                old_base as int,
                new_base as int,
                n as int,
            );
            old(self)@.lemma_relocate(state as int, old_base as int, new_base as int);
        }
        let ghost moved = self@;
        self.base.set(state, new_base as i32);
        proof {
            assert(self@.base =~= moved.base.update(state as int, new_base as int));
            assert(self@.check =~= moved.check);
        }
    }

    /// One transition of an insertion: from `state` over the character of
    /// `key` at position `i`. Claims a free slot, follows an existing
    /// transition, or relocates the children of `state` where the slot
    /// belongs to another state. Returns the state reached.
    fn advance(&mut self, state: usize, key: &Vec<char>, i: usize) -> (target: usize)
        requires
            old(self).wf(),
            state < old(self)@.len(),
            i < key@.len(),
            old(self)@.step(state as int, key@.skip(i as int)).0.within_limit(),
        ensures
            final(self).wf(),
            (final(self)@, target as int) == old(self)@.step(state as int, key@.skip(i as int)),
            target < final(self)@.len(),
    {
        let ghost rest = key@.skip(i as int);
        let ghost d = self@;
        let ghost d1 = d.assign(key@[i as int]);
        proof {
            d.lemma_step(state as int, rest);
            d.lemma_step_sizes(state as int, rest);
            d.lemma_assign(rest[0]);
            assert(rest.take(1).drop_last() =~= Seq::<char>::empty());
            assert(d.assign_all(rest.take(1).drop_last()) == d);
            assert(rest.take(1).last() == rest[0]);
            assert(d.assign_all(rest.take(1)) == d1);
            d.lemma_assign_resumed(rest, 1);
            d1.lemma_assign_all(rest);
        }
        let code = self.get_code(key[i]);
        let offset = self.offset_of(state);
        let target = offset + code;
        proof {
            d1.lemma_grown(target + 1);
        }
        self.resize(target + 1);
        let ghost d2 = self@;
        assert(self@.base[target as int] == self.base[target as int]);
        assert(self@.check[target as int] == self.check[target as int]);
        if self.base[target] == 0 && self.check[target] == 0 {
            self.claim(target, state);
            target
        } else if self.check[target] != state as i32 {
            let ghost d3 = d2.assign_all(rest);
            proof {
                assert(d2 == d1);
                d2.lemma_assign_all(rest);
                d3.lemma_pick_base_from(1, rest);
                d2.lemma_assign_resumed(rest, 0);
                assert(rest.take(0) =~= Seq::<char>::empty());
            }
            let mut new_base: usize = 1;
            let mut fits = self.can_use_base(new_base, key, i);
            proof {
                let n = choose|n: int|
                    0 <= n <= key@.len() - i && self@ == #[trigger] d2.assign_all(rest.take(n));
                d2.lemma_assign_resumed(rest, n);
            }
            while !fits
                invariant
                    self.wf(),
                    i < key@.len(),
                    rest == key@.skip(i as int),
                    d3.wf(),
                    d3.knows(rest),
                    d3.len() <= LIMIT,
                    d3.codes.len() <= LIMIT,
                    self@.assign_all(rest) == d3,
                    fits ==> self@ == d3,
                    fits == d3.fits(new_base as int, rest),
                    1 <= new_base <= d3.len(),
                    d3.pick_base_from(new_base as int, rest) == d3.pick_base(rest),
                decreases d3.len() - new_base,
            {
                proof {
                    if new_base >= d3.len() {
                        d3.lemma_fits_behind(new_base as int, rest);
                    }
                }
                new_base += 1;
                let ghost before = self@;
                fits = self.can_use_base(new_base, key, i);
                proof {
                    let n = choose|n: int|
                        0 <= n <= key@.len() - i && self@ == #[trigger] before.assign_all(
                            rest.take(n),
                        );
                    before.lemma_assign_resumed(rest, n);
                }
            }
            proof {
                d3.lemma_relocate(state as int, d3.offset(state as int), new_base as int);
                d1.lemma_code_stable(d3, rest[0]);
            }
            self.relocate(state, offset, new_base);
            let target = new_base + code;
            proof {
                self@.lemma_grown(target + 1);
            }
            self.resize(target + 1);
            self.claim(target, state);
            target
        } else {
            target
        }
    }

    /// Makes `state` accepting: mints the next id, stores `value` under it
    /// and records the id as the base of `state`.
    fn mark(&mut self, state: usize, value: T)
        requires
            old(self).wf(),
            state < old(self)@.len(),
            old(self)@.values.len() < LIMIT,
        ensures
            final(self).wf(),
            final(self)@ == old(self)@.mark(state as int, value),
    {
        proof {
            self@.lemma_mark(state as int, value);
        }
        let id = -(self.tail.len() as i32) - 1;
        self.tail.insert(id, value);
        self.base.set(state, id);
        proof {
            assert(self@.base =~= old(self)@.base.update(state as int, id as int));
            assert(self@.check =~= old(self)@.check);
            assert(self@.values =~= old(self)@.values.push(value));
        }
    }

    /// Whether the arrays have room for the most that an insertion of `key`
    /// can add: a slot for each code, at each character of the key. Where
    /// they have, what the insertion gives fits the integer arrays, whatever
    /// the value.
    pub fn has_room(&self, key: &str) -> (room: bool)
        requires
            self.wf(),
        ensures
            room == self@.room_for(key@),
            room ==> forall|value: T| #[trigger] self@.append(key@, value).within_limit(),
    {
        proof {
            self.lemma_wf();
        }
        let len = key.unicode_len();
        let slots = self.base.len();
        let values = self.tail.len();
        let reach = if slots >= values {
            slots
        } else {
            values
        };
        if len >= LIMIT {
            proof {
                let width = self@.codes.len() + key@.len() + 1;
                assert(key@.len() * width >= key@.len()) by (nonlinear_arith)
                    requires
                        width >= 1,
                ;
            }
            return false;
        }
        let width: u64 = self.code_map.len() as u64 + len as u64 + 1;
        proof {
            assert(len * width <= 0x7fff_ffff * 0xffff_ffff) by (nonlinear_arith)
                requires
                    0 <= len <= 0x7fff_ffff,
                    0 <= width <= 0xffff_ffff,
            ;
        }
        let most: u64 = len as u64 * width;
        let room = reach as u64 + most < LIMIT as u64;
        proof {
            if room {
                assert forall|value: T| #[trigger]
                    self@.append(key@, value).within_limit() by {
                    self@.lemma_room_for(key@, value);
                }
            }
        }
        room
    }

    /// Inserts `key` with `value`: walks the trie from the root, creating the
    /// transitions that are missing, and makes the state reached accepting.
    ///
    /// Where the slot of a transition belongs to another state, the children
    /// of the current state are relocated. An insertion is safe
    /// ([`DatView::safe_for`]) if each relocation it makes is clean and none
    /// is made at an accepting state, and if the state reached has no
    /// children yet or keeps its offset. After a safe insertion the key is
    /// found with `value`, the empty key too, and every other key is found,
    /// or not, as before. One that is not safe
    /// can cut keys off that were stored. A key inserted again holds the
    /// later value; the earlier one stays in the side table. What the
    /// insertion gives must fit the integer arrays, as it does where
    /// [`Dat::has_room`] holds.
    pub fn append(&mut self, key: &str, value: T)
        requires
            old(self).wf(),
            old(self)@.append(key@, value).within_limit(),
        ensures
            final(self).wf(),
            final(self)@ == old(self)@.append(key@, value),
            old(self)@.codes.is_prefix_of(final(self)@.codes),
            final(self)@.knows(key@),
            old(self)@.consistent() && old(self)@.safe_for(key@) ==> ({
                &&& final(self)@.consistent()
                &&& final(self)@.lookup(key@) == Some(value)
                &&& forall|other: Seq<char>|
                    other != key@ ==> #[trigger] final(self)@.lookup(other) == old(self)@.lookup(
                        other,
                    )
            }),
    {
        let chars = chars_of(key);
        let n = chars.len();
        let mut state: usize = 0;
        let mut i: usize = 0;
        proof {
            let grown = old(self)@.extend(key@, n as int);
            old(self)@.lemma_extend(key@, n as int);
            assert(old(self)@.append(key@, value) == grown.0.mark(grown.1, value));
        }
        while i < n
            invariant
                self.wf(),
                old(self)@.wf(),
                old(self)@.extend(key@, n as int).0.within_limit(),
                chars@ == key@,
                n == chars.len(),
                i <= n,
                state < self@.len(),
                (self@, state as int) == old(self)@.extend(key@, i as int),
            decreases n - i,
        {
            proof {
                old(self)@.lemma_extend_grows(key@, i + 1, n as int);
            }
            state = self.advance(state, &chars, i);
            i += 1;
        }
        proof {
            old(self)@.lemma_append(key@, value);
            old(self)@.law_append_knows_key(key@, value);
            if old(self)@.consistent() && old(self)@.safe_for(key@) {
                old(self)@.law_append_consistent(key@, value);
                old(self)@.law_round_trip(key@, value);
                assert forall|other: Seq<char>| other != key@ implies #[trigger] old(
                    self,
                )@.append(key@, value).lookup(other) == old(self)@.lookup(other) by {
                    old(self)@.law_append_keeps_others(key@, value, other);
                }
            }
        }
        self.mark(state, value);
    }

    /// Inserts each of `list`, in order. Where each insertion is safe at the
    /// time it is made, every key of the list is then found with the value
    /// of the last pair that holds it, and every other key is found, or not,
    /// as before.
    pub fn load(&mut self, list: Vec<(&str, T)>)
        requires
            old(self).wf(),
            old(self)@.load(pairs(list@)).within_limit(),
        ensures
            final(self).wf(),
            final(self)@ == old(self)@.load(pairs(list@)),
            old(self)@.codes.is_prefix_of(final(self)@.codes),
            old(self)@.consistent() && old(self)@.safe_load(pairs(list@)) ==> ({
                &&& final(self)@.consistent()
                &&& forall|key: Seq<char>|
                    #[trigger] final(self)@.lookup(key) == latest_or(
                        pairs(list@),
                        key,
                        old(self)@.lookup(key),
                    )
            }),
    {
        let n = list.len();
        let mut i: usize = 0;
        while i < n
            invariant
                self.wf(),
                old(self)@.wf(),
                old(self)@.load(pairs(list@)).within_limit(),
                n == list@.len(),
                i <= n,
                self@ == old(self)@.load(pairs(list@).take(i as int)),
            decreases n - i,
        {
            let (key, value) = list[i];
            proof {
                let all = pairs(list@);
                old(self)@.lemma_load_grows(all, i + 1);
                assert(all.take(i + 1).drop_last() =~= all.take(i as int));
                assert(all.take(i + 1).last() == (key@, value));
            }
            self.append(key, value);
            i += 1;
        }
        proof {
            let all = pairs(list@);
            assert(all.take(n as int) =~= all);
            old(self)@.lemma_load(all);
            if old(self)@.consistent() && old(self)@.safe_load(all) {
                old(self)@.law_load_consistent(all);
                assert forall|key: Seq<char>| #[trigger]
                    old(self)@.load(all).lookup(key) == latest_or(
                        all,
                        key,
                        old(self)@.lookup(key),
                    ) by {
                    old(self)@.law_load_finds_latest(all, key);
                }
            }
        }
    }

    /// Looks `key` up: the value it was inserted with, if the walk from the
    /// root gets through all of `key` to an accepting state. For the empty
    /// key that state is the root.
    pub fn lookup(&self, key: &str) -> (found: Option<T>)
        requires
            self.wf(),
        ensures
            found == self@.lookup(key@),
    {
        let chars = chars_of(key);
        let n = chars.len();
        let mut state: usize = 0;
        let mut i: usize = 0;
        while i < n
            invariant
                self.wf(),
                chars@ == key@,
                n == chars.len(),
                i <= n,
                state < self@.len(),
                self@.walk(key@.take(i as int)) == Some(state as int),
            decreases n - i,
        {
            proof {
                assert(key@.take(i + 1).drop_last() =~= key@.take(i as int));
            }
            match self.transition(state, chars[i]) {
                Some(t) => {
                    state = t;
                },
                None => {
                    proof {
                        if self@.walk(key@) is Some {
                            self@.lemma_walk_prefix(key@, i + 1);
                        }
                    }
                    return None;
                },
            }
            i += 1;
        }
        proof {
            assert(key@.take(n as int) =~= key@);
        }
        self.value_of(state)
    }

    /// Whether `key` is stored.
    pub fn contain(&self, key: &str) -> (found: bool)
        requires
            self.wf(),
        ensures
            found == self@.lookup(key@).is_some(),
    {
        self.lookup(key).is_some()
    }

    /// Every stored key that is a prefix of `query`, shortest first, each with
    /// its value.
    pub fn search(&self, query: &str) -> (found: Vec<(String, T)>)
        requires
            self.wf(),
        ensures
            entries(found@) == self@.matches(query@, query@.len() as int),
    {
        let chars = chars_of(query);
        let n = chars.len();
        let mut found: Vec<(String, T)> = Vec::new();
        let mut state: usize = 0;
        let mut i: usize = 0;
        while i < n
            invariant
                self.wf(),
                chars@ == query@,
                n == chars.len(),
                i <= n,
                state < self@.len(),
                self@.walk(query@.take(i as int)) == Some(state as int),
                entries(found@) == self@.matches(query@, i as int),
            decreases n - i,
        {
            proof {
                assert(query@.take(i + 1).drop_last() =~= query@.take(i as int));
            }
            match self.transition(state, chars[i]) {
                Some(t) => {
                    state = t;
                },
                None => {
                    proof {
                        self@.lemma_matches_stop(query@, i + 1, n as int);
                    }
                    return found;
                },
            }
            match self.value_of(state) {
                Some(v) => {
                    let prefix = query.substring_char(0, i + 1).to_owned();
                    proof {
                        assert(entries(found@.push((prefix, v))) =~= entries(found@).push(
                            (prefix@, v),
                        ));
                        assert(query@.subrange(0, i + 1) =~= query@.take(i + 1));
                    }
                    found.push((prefix, v));
                },
                None => {},
            }
            i += 1;
        }
        found
    }

    /// An empty trie: the root state alone.
    pub fn new() -> (dat: Self)
        ensures
            dat.wf(),
            dat@ == DatView::<T>::empty(),
            dat@.consistent(),
    {
        Self::default()
    }
}

} // verus!



