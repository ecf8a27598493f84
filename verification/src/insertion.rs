//! When an insertion is safe, and what a safe insertion keeps.
use vstd::prelude::*;
use crate::model::DatView;

verus! {

/// The function that names `x` for every state.
pub open spec fn same_state() -> spec_fn(int) -> int {
    |x: int| x
}

impl<T> DatView<T> {
    /// Assigning a code keeps a trie consistent, with every state spelled as
    /// before.
    pub proof fn lemma_assign_spelled(self, spell: spec_fn(int) -> Seq<char>, ch: char)
        requires
            self.spelled_by(spell),
        ensures
            self.assign(ch).spelled_by(spell),
    {
        self.lemma_assign(ch);
    }

    /// Assigning codes keeps a trie consistent, with every state spelled as
    /// before.
    pub proof fn lemma_assign_all_spelled(
        self,
        spell: spec_fn(int) -> Seq<char>,
        chars: Seq<char>,
    )
        requires
            self.spelled_by(spell),
        ensures
            self.assign_all(chars).spelled_by(spell),
        decreases chars.len(),
    {
        if chars.len() > 0 {
            self.lemma_assign_all_spelled(spell, chars.drop_last());
            self.assign_all(chars.drop_last()).lemma_assign_spelled(spell, chars.last());
        }
    }

    /// Growing the arrays keeps a trie consistent, with the same states.
    pub proof fn lemma_grown_spelled(self, spell: spec_fn(int) -> Seq<char>, n: int)
        requires
            self.spelled_by(spell),
        ensures
            self.grown(n).spelled_by(spell),
            forall|j: int| self.grown(n).in_use(j) == self.in_use(j),
    {
        self.lemma_grown(n);
        let g = self.grown(n);
        assert forall|j: int| 0 < j < g.len() && !g.is_free(j) implies {
            let p = #[trigger] g.check[j];
            let c = j - g.offset(p);
            &&& g.in_use(p)
            &&& 1 <= c <= g.codes.len()
            &&& spell(j) == spell(p).push(g.codes[c - 1])
        } by {
            assert(j < self.len());
            let p = self.check[j];
            assert(self.in_use(p));
        }
    }

    /// The spelling after a slot was claimed: the new state is spelled as its
    /// parent, then `ch`.
    pub open spec fn spell_claimed(
        spell: spec_fn(int) -> Seq<char>,
        t: int,
        s: int,
        ch: char,
    ) -> spec_fn(int) -> Seq<char> {
        |j: int|
            if j == t {
                spell(s).push(ch)
            } else {
                spell(j)
            }
    }

    /// Claiming the free slot that `s` addresses under the code of `ch` keeps
    /// a trie consistent and finds the same under every key.
    pub proof fn lemma_claim_spelled(
        self,
        spell: spec_fn(int) -> Seq<char>,
        t: int,
        s: int,
        ch: char,
    )
        requires
            self.spelled_by(spell),
            self.in_use(s),
            0 < t < self.len(),
            self.is_free(t),
            self.has_code(ch),
            t == self.offset(s) + self.code(ch),
        ensures
            self.claim(t, s).spelled_by(Self::spell_claimed(spell, t, s, ch)),
            self.claim(t, s).in_use(t),
            self.agrees(self.claim(t, s)),
    {
        let d = self.claim(t, s);
        let spelled = Self::spell_claimed(spell, t, s, ch);
        self.lemma_code_range(ch);
        assert forall|j: int| 0 < j < d.len() && !d.is_free(j) implies {
            let p = #[trigger] d.check[j];
            let c = j - d.offset(p);
            &&& d.in_use(p)
            &&& 1 <= c <= d.codes.len()
            &&& spelled(j) == spelled(p).push(d.codes[c - 1])
        } by {
            if j != t {
                let p = self.check[j];
                assert(self.in_use(p));
            }
        }
        assert forall|key: Seq<char>| #[trigger] self.lookup(key) == d.lookup(key) by {
            self.lemma_same_lookup(spell, d, spelled, same_state(), same_state(), key);
        }
    }

    /// Whether making `s` accepting leaves its children where they are: it
    /// has none, or the id to be minted is the offset it has.
    pub open spec fn safe_mark(self, s: int) -> bool {
        ||| self.offset(s) == self.values.len() + 1
        ||| forall|j: int| 0 < j < self.len() && !self.is_free(j) ==> #[trigger] self.check[j] != s
    }

    /// Making a state accepting, where that is safe, keeps a trie consistent.
    /// The key that spells the state is then found with the new value, and
    /// under every other key the same is found as before.
    pub proof fn lemma_mark_spelled(self, spell: spec_fn(int) -> Seq<char>, s: int, value: T)
        requires
            self.spelled_by(spell),
            self.in_use(s),
            self.safe_mark(s),
        ensures
            self.mark(s, value).spelled_by(spell),
            self.mark(s, value).lookup(spell(s)) == Some(value),
            forall|key: Seq<char>|
                key != spell(s) ==> self.mark(s, value).lookup(key) == self.lookup(key),
    {
        let d = self.mark(s, value);
        assert forall|j: int| 0 < j < d.len() && !d.is_free(j) implies {
            let p = #[trigger] d.check[j];
            let c = j - d.offset(p);
            &&& d.in_use(p)
            &&& 1 <= c <= d.codes.len()
            &&& spell(j) == spell(p).push(d.codes[c - 1])
        } by {
            let p = self.check[j];
            assert(self.in_use(p));
        }
        d.lemma_spell_walks(spell, s);
        assert forall|key: Seq<char>| key != spell(s) implies d.lookup(key) == self.lookup(
            key,
        ) by {
            self.lemma_same_lookup(spell, d, spell, same_state(), same_state(), key);
        }
    }

    /// Whether the transition of an insertion from state `s` over the first
    /// of `rest` is safe. A transition that claims a free slot or follows an
    /// existing one always is. One that relocates the children of `s` is
    /// safe if `s` is not accepting, since the relocation overwrites its
    /// base, and if moving the children to the offset picked is clean.
    pub open spec fn safe_step(self, s: int, rest: Seq<char>) -> bool {
        let d1 = self.assign(rest[0]);
        let t = d1.offset(s) + d1.code(rest[0]);
        let d2 = d1.grown(t + 1);
        if !d2.is_free(t) && d2.check[t] != s {
            let d3 = d2.assign_all(rest);
            d3.base[s] >= 0 && d3.clean_move(s, d3.offset(s), d3.pick_base(rest))
        } else {
            true
        }
    }

    /// Whether the transition of an insertion of `key` over its character at
    /// position `i` is safe.
    pub open spec fn safe_at(self, key: Seq<char>, i: int) -> bool {
        self.extend(key, i).0.safe_step(self.extend(key, i).1, key.skip(i))
    }

    /// Whether the insertion of `key` is safe: each of its transitions is,
    /// and so is making the state reached accepting.
    pub open spec fn safe_for(self, key: Seq<char>) -> bool {
        &&& forall|i: int| 0 <= i < key.len() ==> #[trigger] self.safe_at(key, i)
        &&& self.extend(key, key.len() as int).0.safe_mark(self.extend(key, key.len() as int).1)
    }

    /// Two tries with the same states, bases and values find the same under
    /// every key if the one spelling fits both.
    pub proof fn lemma_same_slots_lookup(self, spell: spec_fn(int) -> Seq<char>, other: Self)
        requires
            self.spelled_by(spell),
            other.spelled_by(spell),
            self.values == other.values,
            forall|j: int| self.in_use(j) == other.in_use(j),
            forall|j: int| self.in_use(j) ==> self.base[j] == other.base[j],
        ensures
            self.agrees(other),
    {
        assert forall|key: Seq<char>| #[trigger] self.lookup(key) == other.lookup(key) by {
            self.lemma_same_lookup(spell, other, spell, same_state(), same_state(), key);
        }
    }

    /// What precedes every transition of an insertion, assigning a code and
    /// growing the arrays, keeps a trie consistent and finds the same under
    /// every key.
    pub proof fn lemma_step_prepared(self, spell: spec_fn(int) -> Seq<char>, s: int, ch: char)
        requires
            self.spelled_by(spell),
            self.in_use(s),
        ensures
            ({
                let d1 = self.assign(ch);
                let t = d1.offset(s) + d1.code(ch);
                let d2 = d1.grown(t + 1);
                &&& d2.spelled_by(spell)
                &&& d2.in_use(s)
                &&& d2.has_code(ch)
                &&& d2.code(ch) == d1.code(ch)
                &&& d2.offset(s) == d1.offset(s)
                &&& 0 < t < d2.len()
                &&& self.agrees(d2)
                &&& (!d2.is_free(t) ==> d2 == d1)
            }),
    {
        let d1 = self.assign(ch);
        self.lemma_assign(ch);
        self.lemma_assign_spelled(spell, ch);
        let t = d1.offset(s) + d1.code(ch);
        let d2 = d1.grown(t + 1);
        d1.lemma_grown(t + 1);
        d1.lemma_grown_spelled(spell, t + 1);
        d1.lemma_code_range(ch);
        assert(d1.base[s] == self.base[s]);
        self.lemma_same_slots_lookup(spell, d1);
        d1.lemma_same_slots_lookup(spell, d2);
    }

    /// The spelling after a transition that relocated the children of `s` to
    /// offset `b` and claimed slot `t` for `ch`.
    pub open spec fn spell_collided(
        self,
        spell: spec_fn(int) -> Seq<char>,
        s: int,
        b: int,
        t: int,
        ch: char,
    ) -> spec_fn(int) -> Seq<char> {
        Self::spell_claimed(self.spell_relocated(spell, s, self.offset(s), b), t, s, ch)
    }

    /// A clean relocation at a state that is not accepting, and the claim
    /// that follows it, keep a trie consistent and find the same under every
    /// key.
    pub proof fn lemma_step_collided(
        self,
        spell: spec_fn(int) -> Seq<char>,
        s: int,
        ch: char,
        b: int,
    )
        requires
            self.spelled_by(spell),
            self.in_use(s),
            self.has_code(ch),
            !self.child_of(s, self.offset(s) + self.code(ch)),
            1 <= b <= self.len(),
            self.is_open(b + self.code(ch)),
            self.base[s] >= 0,
            self.clean_move(s, self.offset(s), b),
        ensures
            ({
                let t = b + self.code(ch);
                let d = self.relocate(s, self.offset(s), b).grown(t + 1).claim(t, s);
                let spelled = self.spell_collided(spell, s, b, t, ch);
                &&& d.spelled_by(spelled)
                &&& d.in_use(t)
                &&& spelled(t) == spell(s).push(ch)
                &&& self.agrees(d)
            }),
    {
        let c = self.code(ch);
        let old_base = self.offset(s);
        self.lemma_code_range(ch);
        self.lemma_relocate_clean(spell, s, b);
        self.lemma_relocate_spelled(spell, s, b);
        self.lemma_relocate(s, old_base, b);
        let d4 = self.relocate(s, old_base, b);
        let moved = self.spell_relocated(spell, s, old_base, b);
        let t = b + c;
        assert(d4.is_open(b + c));
        let d5 = d4.grown(t + 1);
        d4.lemma_grown(t + 1);
        d4.lemma_grown_spelled(moved, t + 1);
        d4.lemma_same_slots_lookup(moved, d5);
        d5.lemma_claim_spelled(moved, t, s, ch);
    }

    /// A safe transition keeps a trie consistent, finds the same under every
    /// key, and ends in the state that is spelled as `s`, then the character
    /// consumed. Returns the spelling of the trie after it.
    pub proof fn lemma_step_safe(
        self,
        spell: spec_fn(int) -> Seq<char>,
        s: int,
        rest: Seq<char>,
    ) -> (spelled: spec_fn(int) -> Seq<char>)
        requires
            self.spelled_by(spell),
            self.in_use(s),
            rest.len() > 0,
            self.safe_step(s, rest),
        ensures
            self.step(s, rest).0.spelled_by(spelled),
            self.step(s, rest).0.in_use(self.step(s, rest).1),
            spelled(self.step(s, rest).1) == spell(s).push(rest[0]),
            self.agrees(self.step(s, rest).0),
    {
        let ch = rest[0];
        let d1 = self.assign(ch);
        let c = d1.code(ch);
        let t = d1.offset(s) + c;
        let d2 = d1.grown(t + 1);
        self.lemma_step_prepared(spell, s, ch);
        if d2.is_free(t) {
            d2.lemma_claim_spelled(spell, t, s, ch);
            Self::spell_claimed(spell, t, s, ch)
        } else if d2.check[t] != s {
            let d3 = d2.assign_all(rest);
            d2.lemma_assign_all(rest);
            d2.lemma_assign_all_spelled(spell, rest);
            d2.lemma_code_stable(d3, ch);
            d2.lemma_same_slots_lookup(spell, d3);
            let b = d3.pick_base(rest);
            d3.lemma_pick_base_from(1, rest);
            assert(d3.is_open(b + d3.code(rest[0])));
            d3.lemma_step_collided(spell, s, ch, b);
            d3.spell_collided(spell, s, b, b + c, ch)
        } else {
            d2.lemma_code_range(ch);
            assert(d2.in_use(d2.check[t]));
            spell
        }
    }

    /// The transitions of a safe insertion keep a trie consistent, find the
    /// same under every key, and end in the state that is spelled by what
    /// was consumed. Returns the spelling of the trie after them.
    pub proof fn lemma_extend_safe(self, spell: spec_fn(int) -> Seq<char>, key: Seq<char>, n: int) -> (spelled:
        spec_fn(int) -> Seq<char>)
        requires
            self.spelled_by(spell),
            0 <= n <= key.len(),
            forall|i: int| 0 <= i < n ==> #[trigger] self.safe_at(key, i),
        ensures
            self.extend(key, n).0.spelled_by(spelled),
            self.extend(key, n).0.in_use(self.extend(key, n).1),
            spelled(self.extend(key, n).1) == key.take(n),
            self.agrees(self.extend(key, n).0),
        decreases n,
    {
        if n == 0 {
            assert(key.take(0) =~= Seq::<char>::empty());
            spell
        } else {
            let before = self.lemma_extend_safe(spell, key, n - 1);
            let (d, s) = self.extend(key, n - 1);
            assert(self.safe_at(key, n - 1));
            let spelled = d.lemma_step_safe(before, s, key.skip(n - 1));
            assert(key.take(n) =~= key.take(n - 1).push(key.skip(n - 1)[0]));
            spelled
        }
    }

    /// A safe insertion keeps a trie consistent. The key is then found with
    /// the value inserted, unless it is empty, and under every other key the
    /// same is found as before.
    pub proof fn lemma_append_safe(self, spell: spec_fn(int) -> Seq<char>, key: Seq<char>, value: T) -> (spelled:
        spec_fn(int) -> Seq<char>)
        requires
            self.spelled_by(spell),
            self.safe_for(key),
        ensures
            self.append(key, value).spelled_by(spelled),
            self.append(key, value).lookup(key) == Some(value),
            forall|other: Seq<char>|
                other != key ==> self.append(key, value).lookup(other) == self.lookup(other),
    {
        let n = key.len() as int;
        let spelled = self.lemma_extend_safe(spell, key, n);
        let (d, s) = self.extend(key, n);
        assert(key.take(n) =~= key);
        d.lemma_mark_spelled(spelled, s, value);
        spelled
    }
}

} // verus!
