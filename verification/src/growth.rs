//! Construction keeps a trie structurally valid, never changes a code once
//! assigned, and grows the arrays by a bounded amount.
use vstd::prelude::*;
use crate::model::DatView;
use crate::model::LIMIT;

verus! {

impl<T> DatView<T> {
    /// The largest offset that any state can have: the length of the arrays,
    /// or the number of values minted if that is more.
    pub open spec fn reach(self) -> int {
        if self.len() >= self.values.len() {
            self.len()
        } else {
            self.values.len() as int
        }
    }

    /// Whether the integer arrays can record every slot, code and id of this
    /// trie.
    pub open spec fn within_limit(self) -> bool {
        &&& self.len() <= LIMIT
        &&& self.codes.len() <= LIMIT
        &&& self.values.len() <= LIMIT
    }

    /// Whether this trie has no more slots, codes and values than `other`.
    pub open spec fn no_larger(self, other: Self) -> bool {
        &&& self.len() <= other.len()
        &&& self.codes.len() <= other.codes.len()
        &&& self.values.len() <= other.values.len()
    }

    /// Whether the integer arrays have room for the most that an insertion of
    /// `key` can add: a slot for each code, at each character of the key.
    pub open spec fn room_for(self, key: Seq<char>) -> bool {
        self.reach() + key.len() * (self.codes.len() + key.len() + 1) < LIMIT
    }

    /// Whether two tries differ in their alphabets at most.
    pub open spec fn same_slots(self, other: Self) -> bool {
        &&& self.base == other.base
        &&& self.check == other.check
        &&& self.values == other.values
    }

    /// Whether each of `chars` has a code.
    pub open spec fn knows(self, chars: Seq<char>) -> bool {
        forall|i: int| 0 <= i < chars.len() ==> self.has_code(#[trigger] chars[i])
    }

    /// A character keeps its code when the alphabet is extended.
    pub proof fn lemma_code_stable(self, later: Self, ch: char)
        requires
            self.codes.is_prefix_of(later.codes),
            later.codes.no_duplicates(),
            self.has_code(ch),
        ensures
            later.has_code(ch),
            later.code(ch) == self.code(ch),
            1 <= self.code(ch) <= self.codes.len(),
    {
        let i = self.codes.index_of(ch);
        assert(later.codes[i] == ch);
    }

    /// The code of a known character is its position in the alphabet, plus
    /// one.
    pub proof fn lemma_code_range(self, ch: char)
        requires
            self.has_code(ch),
        ensures
            1 <= self.code(ch) <= self.codes.len(),
            self.codes[self.code(ch) - 1] == ch,
    {
    }

    /// Assigning a code keeps the trie valid and every earlier code.
    pub proof fn lemma_assign(self, ch: char)
        requires
            self.wf(),
        ensures
            self.assign(ch).wf(),
            self.assign(ch).has_code(ch),
            self.same_slots(self.assign(ch)),
            self.codes.is_prefix_of(self.assign(ch).codes),
            self.assign(ch).codes.len() <= self.codes.len() + 1,
            1 <= self.assign(ch).code(ch) <= self.assign(ch).codes.len(),
            !self.has_code(ch) ==> self.assign(ch).code(ch) == self.codes.len() + 1,
    {
        let d = self.assign(ch);
        if !self.has_code(ch) {
            assert(d.codes[self.codes.len() as int] == ch);
            assert(d.codes.index_of(ch) == self.codes.len());
        }
    }

    /// Assigning codes to a sequence of characters keeps the trie valid and
    /// every earlier code, and leaves each of them with a code.
    pub proof fn lemma_assign_all(self, chars: Seq<char>)
        requires
            self.wf(),
        ensures
            self.assign_all(chars).wf(),
            self.assign_all(chars).knows(chars),
            self.same_slots(self.assign_all(chars)),
            self.codes.is_prefix_of(self.assign_all(chars).codes),
            self.assign_all(chars).codes.len() <= self.codes.len() + chars.len(),
        decreases chars.len(),
    {
        if chars.len() > 0 {
            let d = self.assign_all(chars.drop_last());
            self.lemma_assign_all(chars.drop_last());
            d.lemma_assign(chars.last());
            let e = d.assign(chars.last());
            assert forall|i: int| 0 <= i < chars.len() implies e.has_code(#[trigger] chars[i]) by {
                if i < chars.len() - 1 {
                    assert(chars.drop_last()[i] == chars[i]);
                    d.lemma_code_stable(e, chars[i]);
                }
            }
        }
    }

    /// Where every character is known, assigning codes changes nothing.
    pub proof fn lemma_assign_known(self, chars: Seq<char>)
        requires
            self.knows(chars),
        ensures
            self.assign_all(chars) == self,
        decreases chars.len(),
    {
        if chars.len() > 0 {
            assert forall|i: int| 0 <= i < chars.len() - 1 implies self.has_code(
                #[trigger] chars.drop_last()[i],
            ) by {
                assert(chars.drop_last()[i] == chars[i]);
            }
            self.lemma_assign_known(chars.drop_last());
            assert(self.has_code(chars[chars.len() - 1]));
        }
    }

    /// Assigning codes to a sequence after codes were assigned to a prefix of
    /// it gives what assigning to the sequence alone gives.
    pub proof fn lemma_assign_resumed(self, chars: Seq<char>, n: int)
        requires
            self.wf(),
            0 <= n <= chars.len(),
        ensures
            self.assign_all(chars.take(n)).assign_all(chars) == self.assign_all(chars),
        decreases chars.len(),
    {
        if n == chars.len() {
            assert(chars.take(n) =~= chars);
            self.lemma_assign_all(chars);
            self.assign_all(chars).lemma_assign_known(chars);
        } else {
            assert(chars.drop_last().take(n) =~= chars.take(n));
            self.lemma_assign_resumed(chars.drop_last(), n);
        }
    }

    /// Growing the arrays keeps the trie valid; the new slots are free.
    pub proof fn lemma_grown(self, n: int)
        requires
            self.wf(),
        ensures
            self.grown(n).wf(),
            self.grown(n).len() == if n <= self.len() { self.len() } else { n },
            self.grown(n).codes == self.codes,
            self.grown(n).values == self.values,
            forall|j: int|
                0 <= j < self.len() ==> self.grown(n).base[j] == self.base[j] && self.grown(
                    n,
                ).check[j] == self.check[j],
            forall|j: int| self.len() <= j < n ==> self.grown(n).is_free(j),
    {
    }
}

impl<T> DatView<T> {
    /// The alphabet after codes were assigned depends on the alphabet before
    /// alone.
    pub proof fn lemma_assign_all_codes(self, other: Self, chars: Seq<char>)
        requires
            self.codes == other.codes,
        ensures
            self.assign_all(chars).codes == other.assign_all(chars).codes,
        decreases chars.len(),
    {
        if chars.len() > 0 {
            self.lemma_assign_all_codes(other, chars.drop_last());
        }
    }

    /// Assigning codes to one sequence and then to another is assigning
    /// codes to the two in a row.
    pub proof fn lemma_assign_all_concat(self, first: Seq<char>, second: Seq<char>)
        ensures
            self.assign_all(first).assign_all(second) == self.assign_all(first + second),
        decreases second.len(),
    {
        if second.len() == 0 {
            assert(first + second =~= first);
        } else {
            assert((first + second).drop_last() =~= first + second.drop_last());
            self.lemma_assign_all_concat(first, second.drop_last());
        }
    }

    /// After codes were assigned to the first `k` characters of `key`,
    /// assigning codes to what follows position `i <= k` completes the
    /// assignment to all of `key`.
    pub proof fn lemma_assign_rest(self, key: Seq<char>, i: int, k: int)
        requires
            self.wf(),
            0 <= i <= k <= key.len(),
        ensures
            self.assign_all(key.take(k)).assign_all(key.skip(i)) == self.assign_all(key),
    {
        let y = self.assign_all(key.take(k));
        self.lemma_assign_all(key.take(k));
        assert forall|j: int| 0 <= j < key.take(i).len() implies y.has_code(
            #[trigger] key.take(i)[j],
        ) by {
            assert(key.take(k)[j] == key.take(i)[j]);
        }
        y.lemma_assign_known(key.take(i));
        y.lemma_assign_all_concat(key.take(i), key.skip(i));
        assert(key.take(i) + key.skip(i) =~= key);
        self.lemma_assign_resumed(key, k);
    }

    /// An offset at or behind the end of the arrays fits every sequence of
    /// known characters.
    pub proof fn lemma_fits_behind(self, b: int, chars: Seq<char>)
        requires
            self.knows(chars),
            b >= self.len(),
        ensures
            self.fits(b, chars),
    {
        assert forall|i: int| 0 <= i < chars.len() implies self.is_open(
            b + self.code(#[trigger] chars[i]),
        ) by {
            self.lemma_code_range(chars[i]);
        }
    }

    /// The offset picked fits, and is no larger than the arrays are long.
    pub proof fn lemma_pick_base_from(self, b: int, chars: Seq<char>)
        requires
            self.knows(chars),
            b >= 1,
        ensures
            b <= self.pick_base_from(b, chars),
            self.pick_base_from(b, chars) <= self.len() || self.pick_base_from(b, chars) == b,
            self.fits(self.pick_base_from(b, chars), chars),
        decreases self.len() - b,
    {
        if b >= self.len() {
            self.lemma_fits_behind(b, chars);
        } else if !self.fits(b, chars) {
            self.lemma_pick_base_from(b + 1, chars);
        }
    }

    /// Moving a child keeps the trie valid.
    pub proof fn lemma_move_child(self, s: int, from: int, to: int)
        requires
            self.wf(),
            0 <= s < self.len(),
            0 < from < self.len(),
            0 < to,
        ensures
            self.move_child(s, from, to).wf(),
            self.move_child(s, from, to).len() == if to < self.len() {
                self.len()
            } else {
                to + 1
            },
            self.move_child(s, from, to).codes == self.codes,
            self.move_child(s, from, to).values == self.values,
    {
        self.lemma_grown(to + 1);
    }

    /// Moving the children of a state keeps the trie valid and grows the
    /// arrays no further than the last slot moved to.
    pub proof fn lemma_move_children(self, s: int, old_base: int, new_base: int, n: int)
        requires
            self.wf(),
            0 <= s < self.len(),
            0 <= old_base,
            0 <= new_base,
        ensures
            self.move_children(s, old_base, new_base, n).wf(),
            self.len() <= self.move_children(s, old_base, new_base, n).len(),
            self.move_children(s, old_base, new_base, n).len() <= self.len()
                || self.move_children(s, old_base, new_base, n).len() <= new_base + n + 1,
            self.move_children(s, old_base, new_base, n).codes == self.codes,
            self.move_children(s, old_base, new_base, n).values == self.values,
        decreases n,
    {
        if n > 0 {
            self.lemma_move_children(s, old_base, new_base, n - 1);
            let d = self.move_children(s, old_base, new_base, n - 1);
            if old_base + n < d.len() && d.check[old_base + n] == s {
                d.lemma_move_child(s, old_base + n, new_base + n);
            }
        }
    }

    /// Relocating the children of a state keeps the trie valid.
    pub proof fn lemma_relocate(self, s: int, old_base: int, new_base: int)
        requires
            self.wf(),
            0 <= s < self.len(),
            0 <= old_base,
            0 <= new_base <= self.len(),
        ensures
            self.relocate(s, old_base, new_base).wf(),
            self.len() <= self.relocate(s, old_base, new_base).len(),
            self.relocate(s, old_base, new_base).len() <= self.len() + self.codes.len() + 1,
            self.relocate(s, old_base, new_base).codes == self.codes,
            self.relocate(s, old_base, new_base).values == self.values,
    {
        self.lemma_move_children(s, old_base, new_base, self.codes.len() as int);
    }

    /// One transition of an insertion keeps the trie valid, ends in a state
    /// of the trie, and grows the arrays by the size of the alphabet at most.
    pub proof fn lemma_step(self, s: int, rest: Seq<char>)
        requires
            self.wf(),
            0 <= s < self.len(),
            rest.len() > 0,
        ensures
            self.step(s, rest).0.wf(),
            0 < self.step(s, rest).1 < self.step(s, rest).0.len(),
            self.len() <= self.step(s, rest).0.len(),
            self.step(s, rest).0.len() <= self.reach() + self.step(s, rest).0.codes.len() + 1,
            self.step(s, rest).0.values == self.values,
            self.step(s, rest).0.codes == self.assign(rest[0]).codes || self.step(s, rest).0.codes
                == self.assign_all(rest).codes,
    {
        let ch = rest[0];
        let d1 = self.assign(ch);
        self.lemma_assign(ch);
        let c = d1.code(ch);
        let t = d1.offset(s) + c;
        let d2 = d1.grown(t + 1);
        d1.lemma_grown(t + 1);
        assert(d1.base[s] == self.base[s]);
        if d2.is_free(t) {
        } else if d2.check[t] != s {
            assert(t < d1.len());
            assert(d2 == d1);
            let d3 = d2.assign_all(rest);
            d2.lemma_assign_all(rest);
            let b = d3.pick_base(rest);
            d3.lemma_pick_base_from(1, rest);
            d3.lemma_relocate(s, d3.offset(s), b);
            let d4 = d3.relocate(s, d3.offset(s), b);
            let t2 = b + c;
            d4.lemma_grown(t2 + 1);
            d1.lemma_code_stable(d3, ch);
            assert(rest.take(1).drop_last() =~= Seq::<char>::empty());
            assert(self.assign_all(rest.take(1).drop_last()) == self);
            assert(rest.take(1).last() == ch);
            assert(self.assign_all(rest.take(1)) == d1);
            self.lemma_assign_resumed(rest, 1);
        } else {
        }
    }

    /// The first `n` transitions of an insertion keep the trie valid and end
    /// in a state of the trie. The alphabet is then what assigning codes to
    /// the first `k` characters of the key gives, for the `k` returned.
    pub proof fn lemma_extend(self, key: Seq<char>, n: int) -> (k: int)
        requires
            self.wf(),
            0 <= n <= key.len(),
        ensures
            n <= k <= key.len(),
            self.extend(key, n).0.wf(),
            0 <= self.extend(key, n).1 < self.extend(key, n).0.len(),
            n > 0 ==> self.extend(key, n).1 > 0,
            self.extend(key, n).0.codes == self.assign_all(key.take(k)).codes,
            self.extend(key, n).0.values == self.values,
            self.len() <= self.extend(key, n).0.len(),
            self.extend(key, n).0.len() <= self.reach() + n * (self.codes.len() + key.len() + 1),
        decreases n,
    {
        if n == 0 {
            assert(key.take(0) =~= Seq::<char>::empty());
            0
        } else {
            let k0 = self.lemma_extend(key, n - 1);
            let (d, s) = self.extend(key, n - 1);
            let rest = key.skip(n - 1);
            d.lemma_step(s, rest);
            let e = d.step(s, rest).0;
            let y = self.assign_all(key.take(k0));
            self.lemma_assign_all(key.take(k0));
            let k = if e.codes == d.assign(rest[0]).codes {
                if k0 >= n {
                    assert(y.has_code(key.take(k0)[n - 1]));
                    k0
                } else {
                    assert(key.take(n).drop_last() =~= key.take(n - 1));
                    n
                }
            } else {
                d.lemma_assign_all_codes(y, rest);
                self.lemma_assign_rest(key, n - 1, k0);
                assert(key.take(key.len() as int) =~= key);
                key.len() as int
            };
            self.lemma_assign_all(key.take(k));
            assert(e.len() <= self.reach() + n * (self.codes.len() + key.len() + 1)) by (nonlinear_arith)
                requires
                    e.len() <= d.reach() + e.codes.len() + 1,
                    d.reach() <= self.reach() + (n - 1) * (self.codes.len() + key.len() + 1),
                    e.codes.len() <= self.codes.len() + key.len(),
            ;
            k
        }
    }
}

impl<T> DatView<T> {
    /// Marking a state as accepting keeps the trie valid.
    pub proof fn lemma_mark(self, s: int, value: T)
        requires
            self.wf(),
            0 <= s < self.len(),
        ensures
            self.mark(s, value).wf(),
            self.mark(s, value).len() == self.len(),
            self.mark(s, value).codes == self.codes,
    {
    }

    /// An insertion keeps the trie valid and every code assigned before it,
    /// and grows the arrays, the alphabet and the side table by a bounded
    /// amount.
    pub proof fn lemma_append(self, key: Seq<char>, value: T)
        requires
            self.wf(),
        ensures
            self.append(key, value).wf(),
            self.codes.is_prefix_of(self.append(key, value).codes),
            self.append(key, value).codes.len() <= self.codes.len() + key.len(),
            self.append(key, value).values == self.values.push(value),
            self.len() <= self.append(key, value).len(),
            self.append(key, value).reach() <= self.reach() + key.len() * (self.codes.len()
                + key.len() + 1) + 1,
    {
        let n = key.len() as int;
        let k = self.lemma_extend(key, n);
        let (d, s) = self.extend(key, n);
        d.lemma_mark(s, value);
        self.lemma_assign_all(key.take(k));
    }

    /// Loading pairs keeps the trie valid and every code assigned before.
    pub proof fn lemma_load(self, pairs: Seq<(Seq<char>, T)>)
        requires
            self.wf(),
        ensures
            self.load(pairs).wf(),
            self.codes.is_prefix_of(self.load(pairs).codes),
        decreases pairs.len(),
    {
        if pairs.len() > 0 {
            self.lemma_load(pairs.drop_last());
            self.load(pairs.drop_last()).lemma_append(pairs.last().0, pairs.last().1);
        }
    }
}

impl<T> DatView<T> {
    /// The arrays never shrink while children are moved.
    pub proof fn lemma_move_children_grows(
        self,
        s: int,
        old_base: int,
        new_base: int,
        i: int,
        j: int,
    )
        requires
            self.wf(),
            0 <= s < self.len(),
            0 <= old_base,
            0 <= new_base,
            0 <= i <= j,
        ensures
            self.move_children(s, old_base, new_base, i).len() <= self.move_children(
                s,
                old_base,
                new_base,
                j,
            ).len(),
        decreases j - i,
    {
        if i < j {
            self.lemma_move_children_grows(s, old_base, new_base, i, j - 1);
            self.lemma_move_children(s, old_base, new_base, j - 1);
            let d = self.move_children(s, old_base, new_base, j - 1);
            if old_base + j < d.len() && d.check[old_base + j] == s {
                d.lemma_move_child(s, old_base + j, new_base + j);
            }
        }
    }

    /// What a transition of an insertion passes through is no larger than
    /// what it ends in.
    pub proof fn lemma_step_sizes(self, s: int, rest: Seq<char>)
        requires
            self.wf(),
            0 <= s < self.len(),
            rest.len() > 0,
        ensures
            ({
                let e = self.step(s, rest).0;
                let d1 = self.assign(rest[0]);
                let c = d1.code(rest[0]);
                let t = d1.offset(s) + c;
                let d2 = d1.grown(t + 1);
                let d3 = d2.assign_all(rest);
                let b = d3.pick_base(rest);
                &&& self.no_larger(e)
                &&& d1.codes.len() <= e.codes.len()
                &&& t + 1 <= e.len()
                &&& !d2.is_free(t) && d2.check[t] != s ==> {
                    &&& d2 == d1
                    &&& d3.codes == e.codes
                    &&& d3.relocate(s, d3.offset(s), b).len() <= e.len()
                    &&& b + c + 1 <= e.len()
                }
            }),
    {
        let ch = rest[0];
        let d1 = self.assign(ch);
        self.lemma_assign(ch);
        let c = d1.code(ch);
        let t = d1.offset(s) + c;
        let d2 = d1.grown(t + 1);
        d1.lemma_grown(t + 1);
        self.lemma_step(s, rest);
        assert(d1.base[s] == self.base[s]);
        if !d2.is_free(t) && d2.check[t] != s {
            assert(t < d1.len());
            let d3 = d2.assign_all(rest);
            d2.lemma_assign_all(rest);
            let b = d3.pick_base(rest);
            d3.lemma_pick_base_from(1, rest);
            d3.lemma_relocate(s, d3.offset(s), b);
            let d4 = d3.relocate(s, d3.offset(s), b);
            d4.lemma_grown(b + c + 1);
        }
    }

    /// The tries that an insertion passes through never get smaller.
    pub proof fn lemma_extend_grows(self, key: Seq<char>, i: int, j: int)
        requires
            self.wf(),
            0 <= i <= j <= key.len(),
        ensures
            self.extend(key, i).0.no_larger(self.extend(key, j).0),
        decreases j - i,
    {
        if i < j {
            self.lemma_extend_grows(key, i, j - 1);
            self.lemma_extend(key, j - 1);
            let (d, s) = self.extend(key, j - 1);
            d.lemma_step_sizes(s, key.skip(j - 1));
        }
    }

    /// The tries that a load passes through never get smaller.
    pub proof fn lemma_load_grows(self, pairs: Seq<(Seq<char>, T)>, n: int)
        requires
            self.wf(),
            0 <= n <= pairs.len(),
        ensures
            self.load(pairs.take(n)).no_larger(self.load(pairs)),
        decreases pairs.len() - n,
    {
        if n < pairs.len() {
            self.lemma_load_grows(pairs, n + 1);
            self.lemma_load(pairs.take(n));
            assert(pairs.take(n + 1).drop_last() =~= pairs.take(n));
            self.load(pairs.take(n)).lemma_append(pairs[n].0, pairs[n].1);
        } else {
            assert(pairs.take(n) =~= pairs);
        }
    }

    /// Where the arrays have room for `key`, what its insertion gives is
    /// within the limit.
    pub proof fn lemma_room_for(self, key: Seq<char>, value: T)
        requires
            self.wf(),
            self.within_limit(),
            self.room_for(key),
        ensures
            self.append(key, value).within_limit(),
    {
        self.lemma_append(key, value);
        let len = key.len();
        let width = self.codes.len() + key.len() + 1;
        if len > 0 {
            assert(len * width >= width) by (nonlinear_arith)
                requires
                    len >= 1,
                    width >= 1,
            ;
        }
    }
}

} // verus!
