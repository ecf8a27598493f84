//! The mathematical model of construction: how one insertion changes the
//! arrays, transition by transition.
use vstd::prelude::*;
use crate::model::DatView;

verus! {

impl<T> DatView<T> {
    /// The trie after `ch` was given a code, if it had none.
    pub open spec fn assign(self, ch: char) -> Self {
        if self.has_code(ch) {
            self
        } else {
            DatView { codes: self.codes.push(ch), ..self }
        }
    }

    /// The trie after each of `chars` was given a code, in order.
    pub open spec fn assign_all(self, chars: Seq<char>) -> Self
        decreases chars.len(),
    {
        if chars.len() == 0 {
            self
        } else {
            self.assign_all(chars.drop_last()).assign(chars.last())
        }
    }

    /// The trie with both arrays extended by free slots to at least `n` slots.
    pub open spec fn grown(self, n: int) -> Self {
        if n <= self.len() {
            self
        } else {
            let fresh = Seq::new((n - self.len()) as nat, |i: int| 0int);
            DatView { base: self.base + fresh, check: self.check + fresh, ..self }
        }
    }

    /// The trie after slot `t` was claimed as a new child of `parent`. Its own
    /// offset is the current length: no slot behind it is in use.
    pub open spec fn claim(self, t: int, parent: int) -> Self {
        DatView {
            base: self.base.update(t, self.len()),
            check: self.check.update(t, parent),
            ..self
        }
    }

    /// Whether slot `j` is free or lies behind the end of the arrays.
    pub open spec fn is_open(self, j: int) -> bool {
        j >= self.len() || self.is_free(j)
    }

    /// Whether offset `b` leaves the slot of each of `chars` open.
    pub open spec fn fits(self, b: int, chars: Seq<char>) -> bool {
        forall|i: int| 0 <= i < chars.len() ==> self.is_open(b + self.code(#[trigger] chars[i]))
    }

    /// The least offset from `b` on that fits `chars`.
    pub open spec fn pick_base_from(self, b: int, chars: Seq<char>) -> int
        decreases self.len() - b,
    {
        if b >= self.len() || self.fits(b, chars) {
            b
        } else {
            self.pick_base_from(b + 1, chars)
        }
    }

    /// The least positive offset that fits `chars`.
    pub open spec fn pick_base(self, chars: Seq<char>) -> int {
        self.pick_base_from(1, chars)
    }

    /// The trie after the content of slot `from`, a child of `s`, was moved to
    /// slot `to`: the slot is copied, every slot that named `from` as its
    /// parent names `to`, and `from` is set free.
    pub open spec fn move_child(self, s: int, from: int, to: int) -> Self {
        let g = self.grown(to + 1);
        let base = g.base.update(to, g.base[from]);
        let check = g.check.update(to, s);
        let repointed = Seq::new(check.len(), |j: int| if check[j] == from { to } else { check[j] });
        DatView { base: base.update(from, 0), check: repointed.update(from, 0), ..g }
    }

    /// The trie after the slots that `s` owns under the codes `1..=n` were
    /// moved from offset `old_base` to offset `new_base`, in order of code.
    pub open spec fn move_children(self, s: int, old_base: int, new_base: int, n: int) -> Self
        decreases n,
    {
        if n <= 0 {
            self
        } else {
            let d = self.move_children(s, old_base, new_base, n - 1);
            if old_base + n < d.len() && d.check[old_base + n] == s {
                d.move_child(s, old_base + n, new_base + n)
            } else {
                d
            }
        }
    }

    /// The trie after the children of `s` were relocated to `new_base`.
    pub open spec fn relocate(self, s: int, old_base: int, new_base: int) -> Self {
        let d = self.move_children(s, old_base, new_base, self.codes.len() as int);
        DatView { base: d.base.update(s, new_base), ..d }
    }

    /// One transition of an insertion: from state `s` over the first of
    /// `rest`, the part of the key not yet consumed. Gives the trie and the
    /// state reached.
    pub open spec fn step(self, s: int, rest: Seq<char>) -> (Self, int)
        recommends
            rest.len() > 0,
    {
        let ch = rest[0];
        let d1 = self.assign(ch);
        let c = d1.code(ch);
        let t = d1.offset(s) + c;
        let d2 = d1.grown(t + 1);
        if d2.is_free(t) {
            (d2.claim(t, s), t)
        } else if d2.check[t] != s {
            let d3 = d2.assign_all(rest);
            let b = d3.pick_base(rest);
            let d4 = d3.relocate(s, d3.offset(s), b);
            let t2 = b + c;
            let d5 = d4.grown(t2 + 1);
            (d5.claim(t2, s), t2)
        } else {
            (d2, t)
        }
    }

    /// The trie and the state reached after the first `n` characters of `key`
    /// were consumed by an insertion.
    pub open spec fn extend(self, key: Seq<char>, n: int) -> (Self, int)
        decreases n,
    {
        if n <= 0 {
            (self, 0)
        } else {
            let (d, s) = self.extend(key, n - 1);
            d.step(s, key.skip(n - 1))
        }
    }

    /// The trie after state `s` was made accepting, with `value` under a
    /// fresh id.
    pub open spec fn mark(self, s: int, value: T) -> Self {
        DatView {
            base: self.base.update(s, -(self.values.len() + 1)),
            values: self.values.push(value),
            ..self
        }
    }

    /// The trie after `key` was inserted with `value`.
    pub open spec fn append(self, key: Seq<char>, value: T) -> Self {
        let (d, s) = self.extend(key, key.len() as int);
        d.mark(s, value)
    }

    /// The trie after each of `pairs` was inserted, in order.
    pub open spec fn load(self, pairs: Seq<(Seq<char>, T)>) -> Self
        decreases pairs.len(),
    {
        if pairs.len() == 0 {
            self
        } else {
            self.load(pairs.drop_last()).append(pairs.last().0, pairs.last().1)
        }
    }
}

} // verus!
