//! When a relocation is clean, and what a clean relocation keeps.
use vstd::prelude::*;
use crate::model::DatView;

verus! {

impl<T> DatView<T> {
    /// Whether a relocation of the children of `s` may move slot `j`: the
    /// slot names `s` as its parent. A slot behind the end of the arrays
    /// reads as free once the arrays have grown, and a free slot names the
    /// root.
    pub open spec fn may_move(self, s: int, j: int) -> bool {
        if j < self.len() {
            self.check[j] == s
        } else {
            s == 0
        }
    }

    /// Whether the relocation has moved the content of slot `t` away by the
    /// time it looks at code `c`: the slot held a child of `s` under a
    /// smaller code.
    pub open spec fn vacated(self, s: int, old_base: int, c: int, t: int) -> bool {
        self.source(s, old_base, c - 1, t)
    }

    /// Whether moving the slot under code `c` from offset `old_base` to
    /// offset `new_base` does no harm: if the slot may move, its target is
    /// open or vacated by then, and is not a slot that the relocation looks
    /// at later.
    pub open spec fn clean_at(self, s: int, old_base: int, new_base: int, c: int) -> bool {
        self.may_move(s, old_base + c) ==> {
            &&& self.is_open(new_base + c) || self.vacated(s, old_base, c, new_base + c)
            &&& new_base <= old_base || new_base + c > old_base + self.codes.len()
        }
    }

    /// Whether relocating the children of `s` from `old_base` to `new_base`
    /// does no harm under any code.
    pub open spec fn clean_move(self, s: int, old_base: int, new_base: int) -> bool {
        forall|c: int| 1 <= c <= self.codes.len() ==> #[trigger] self.clean_at(
            s,
            old_base,
            new_base,
            c,
        )
    }

    /// Whether slot `j` is a child of state `s`.
    pub open spec fn child_of(self, s: int, j: int) -> bool {
        0 <= j < self.len() && self.check[j] == s && !self.is_free(j)
    }

    /// Whether slot `j` is a child of `s` under one of the codes `1..=c`.
    pub open spec fn source(self, s: int, old_base: int, c: int, j: int) -> bool {
        1 <= j - old_base <= c && self.child_of(s, j)
    }

    /// Whether slot `j` is where a child of `s` under one of the codes
    /// `1..=c` goes.
    pub open spec fn target(self, s: int, old_base: int, new_base: int, c: int, j: int) -> bool {
        1 <= j - new_base <= c && self.child_of(s, j - new_base + old_base)
    }

    /// The slot that stands for `x` after the children of `s` under the codes
    /// `1..=c` were moved.
    pub open spec fn renamed(self, s: int, old_base: int, new_base: int, c: int, x: int) -> int {
        if self.source(s, old_base, c, x) {
            x - old_base + new_base
        } else {
            x
        }
    }

    /// Whether slot `j` of `later` holds what a clean move of the children of
    /// `s` under the codes `1..=c` leaves there.
    pub open spec fn slot_moved(
        self,
        later: Self,
        s: int,
        old_base: int,
        new_base: int,
        c: int,
        j: int,
    ) -> bool {
        if self.target(s, old_base, new_base, c, j) {
            later.base[j] == self.base[j - new_base + old_base] && later.check[j] == s
        } else if self.source(s, old_base, c, j) {
            later.base[j] == 0 && later.check[j] == 0
        } else if j < self.len() {
            later.base[j] == self.base[j] && later.check[j] == self.renamed(
                s,
                old_base,
                new_base,
                c,
                self.check[j],
            )
        } else {
            later.base[j] == 0 && later.check[j] == 0
        }
    }

    /// Whether `later` is what a clean move of the children of `s` under the
    /// codes `1..=c` makes of this trie.
    pub open spec fn moved(self, later: Self, s: int, old_base: int, new_base: int, c: int) -> bool {
        &&& later.len() >= self.len()
        &&& later.check.len() == later.base.len()
        &&& later.codes == self.codes
        &&& later.values == self.values
        &&& forall|j: int| #[trigger] self.target(s, old_base, new_base, c, j) ==> j < later.len()
        &&& forall|j: int|
            0 <= j < later.len() ==> #[trigger] self.slot_moved(later, s, old_base, new_base, c, j)
    }

    /// The target of a child, in a clean move, is a slot that is open or
    /// vacated before the child moves; it is not the parent, and not looked
    /// at after the child.
    pub proof fn lemma_target_open(
        self,
        spell: spec_fn(int) -> Seq<char>,
        s: int,
        old_base: int,
        new_base: int,
        c: int,
        j: int,
    )
        requires
            self.spelled_by(spell),
            self.in_use(s),
            0 <= old_base,
            1 <= new_base,
            0 <= c <= self.codes.len(),
            self.clean_move(s, old_base, new_base),
            self.target(s, old_base, new_base, c, j),
        ensures
            self.is_open(j) || self.vacated(s, old_base, j - new_base, j),
            j != s,
            j >= 2,
            new_base <= old_base || j > old_base + self.codes.len(),
    {
        assert(self.clean_at(s, old_base, new_base, j - new_base));
        if s > 0 {
            self.lemma_not_own_child(spell, s);
        }
    }

    /// A state is no child of its own.
    pub proof fn lemma_not_own_child(self, spell: spec_fn(int) -> Seq<char>, s: int)
        requires
            self.spelled_by(spell),
            s > 0,
        ensures
            !self.child_of(s, s),
    {
        if self.child_of(s, s) {
            assert(spell(s) == spell(self.check[s]).push(self.codes[s - self.offset(s) - 1]));
        }
    }

    /// The slot that stands for a parent is `x` only if the parent is `x`,
    /// where `x` is neither moved nor moved to.
    pub proof fn lemma_renamed_is(
        self,
        s: int,
        old_base: int,
        new_base: int,
        c: int,
        p: int,
        x: int,
    )
        requires
            !self.source(s, old_base, c, x),
            !self.target(s, old_base, new_base, c, x),
        ensures
            (self.renamed(s, old_base, new_base, c, p) == x) == (p == x),
    {
    }

    /// A clean move of the children of a state moves each child once, to its
    /// target, renames the parent of each grandchild, and changes nothing
    /// else.
    pub proof fn lemma_move_children_clean(
        self,
        spell: spec_fn(int) -> Seq<char>,
        s: int,
        old_base: int,
        new_base: int,
        c: int,
    )
        requires
            self.spelled_by(spell),
            self.in_use(s),
            0 <= old_base,
            1 <= new_base,
            0 <= c <= self.codes.len(),
            self.clean_move(s, old_base, new_base),
        ensures
            self.moved(self.move_children(s, old_base, new_base, c), s, old_base, new_base, c),
        decreases c,
    {
        let e = self.move_children(s, old_base, new_base, c);
        if c > 0 {
            self.lemma_move_children_clean(spell, s, old_base, new_base, c - 1);
            self.lemma_move_children(s, old_base, new_base, c - 1);
            let d = self.move_children(s, old_base, new_base, c - 1);
            let from = old_base + c;
            let to = new_base + c;
            if from < d.len() && d.check[from] == s {
                d.lemma_move_child(s, from, to);
                assert forall|j: int| #[trigger]
                    self.target(s, old_base, new_base, c, j) implies j < e.len() by {
                    if j != to {
                        assert(self.target(s, old_base, new_base, c - 1, j));
                    }
                }
                assert forall|j: int| 0 <= j < e.len() implies #[trigger] self.slot_moved(
                    e,
                    s,
                    old_base,
                    new_base,
                    c,
                    j,
                ) by {
                    self.lemma_slot_moved_step(spell, d, s, old_base, new_base, c, j);
                }
            } else {
                assert(!self.child_of(s, from)) by {
                    if self.child_of(s, from) {
                        if self.target(s, old_base, new_base, c - 1, from) {
                            self.lemma_target_open(spell, s, old_base, new_base, c - 1, from);
                        }
                        if s > 0 {
                            self.lemma_not_own_child(spell, s);
                        }
                        if self.target(s, old_base, new_base, c - 1, s) {
                            self.lemma_target_open(spell, s, old_base, new_base, c - 1, s);
                        }
                        self.lemma_renamed_is(s, old_base, new_base, c - 1, s, s);
                        assert(self.slot_moved(d, s, old_base, new_base, c - 1, from));
                    }
                }
                assert forall|j: int| #[trigger]
                    self.target(s, old_base, new_base, c, j) implies j < e.len() by {
                    assert(self.target(s, old_base, new_base, c - 1, j));
                }
                assert forall|j: int| 0 <= j < e.len() implies #[trigger] self.slot_moved(
                    e,
                    s,
                    old_base,
                    new_base,
                    c,
                    j,
                ) by {
                    assert(self.slot_moved(d, s, old_base, new_base, c - 1, j));
                }
            }
        } else {
            assert forall|j: int| 0 <= j < e.len() implies #[trigger] self.slot_moved(
                e,
                s,
                old_base,
                new_base,
                c,
                j,
            ) by {
            }
        }
    }

    /// One slot after one more child was moved.
    proof fn lemma_slot_moved_step(
        self,
        spell: spec_fn(int) -> Seq<char>,
        d: Self,
        s: int,
        old_base: int,
        new_base: int,
        c: int,
        j: int,
    )
        requires
            self.spelled_by(spell),
            self.in_use(s),
            0 <= old_base,
            1 <= new_base,
            1 <= c <= self.codes.len(),
            self.clean_move(s, old_base, new_base),
            d.wf(),
            self.moved(d, s, old_base, new_base, c - 1),
            old_base + c < d.len(),
            d.check[old_base + c] == s,
            0 <= j < d.move_child(s, old_base + c, new_base + c).len(),
        ensures
            self.slot_moved(
                d.move_child(s, old_base + c, new_base + c),
                s,
                old_base,
                new_base,
                c,
                j,
            ),
    {
        let from = old_base + c;
        let to = new_base + c;
        let e = d.move_child(s, from, to);
        d.lemma_grown(to + 1);
        d.lemma_move_child(s, from, to);
        // The parent is neither moved nor moved to.
        if s > 0 {
            self.lemma_not_own_child(spell, s);
        }
        if self.target(s, old_base, new_base, c, s) {
            self.lemma_target_open(spell, s, old_base, new_base, c, s);
        }
        assert(!self.source(s, old_base, c, s));
        assert(!self.target(s, old_base, new_base, c, s));
        // The slot looked at is no target of an earlier move.
        if self.target(s, old_base, new_base, c - 1, from) {
            self.lemma_target_open(spell, s, old_base, new_base, c - 1, from);
        }
        assert(!self.target(s, old_base, new_base, c - 1, from));
        assert(!self.source(s, old_base, c - 1, from));
        assert(self.slot_moved(d, s, old_base, new_base, c - 1, from));
        // It names the parent, so it may move, and its target is open.
        assert(self.may_move(s, from)) by {
            if from < self.len() {
                self.lemma_renamed_is(s, old_base, new_base, c - 1, self.check[from], s);
            }
        }
        assert(self.clean_at(s, old_base, new_base, c));
        assert(self.is_open(to) || self.source(s, old_base, c - 1, to));
        // The target is free by now.
        assert(!self.target(s, old_base, new_base, c - 1, to));
        assert(to < d.len() ==> d.is_free(to)) by {
            if to < d.len() {
                assert(self.slot_moved(d, s, old_base, new_base, c - 1, to));
            }
        }
        if j < d.len() {
            assert(self.slot_moved(d, s, old_base, new_base, c - 1, j));
        } else {
            if self.target(s, old_base, new_base, c - 1, j) {
            }
            assert(!self.target(s, old_base, new_base, c - 1, j));
        }
        if self.child_of(s, from) {
            assert(from != to);
            assert(from != s);
            if j == to {
                assert(self.target(s, old_base, new_base, c, j));
            } else if j == from {
                if self.target(s, old_base, new_base, c, j) {
                    self.lemma_target_open(spell, s, old_base, new_base, c, j);
                }
                assert(self.source(s, old_base, c, j));
            } else {
                assert(self.target(s, old_base, new_base, c, j) == self.target(
                    s,
                    old_base,
                    new_base,
                    c - 1,
                    j,
                ));
                assert(self.source(s, old_base, c, j) == self.source(s, old_base, c - 1, j));
                if self.target(s, old_base, new_base, c, j) {
                } else if self.source(s, old_base, c, j) {
                } else if j < self.len() {
                    let p = self.check[j];
                    let q = self.renamed(s, old_base, new_base, c - 1, p);
                    if p == from {
                    } else if self.source(s, old_base, c - 1, p) {
                        assert(self.target(s, old_base, new_base, c - 1, q));
                        assert(q != from);
                    } else {
                    }
                } else {
                }
            }
        } else {
            // A free slot that reads as a child of the root: nothing moves.
            assert(s == 0);
            assert(d.is_free(from));
            assert(forall|x: int|
                self.target(s, old_base, new_base, c, x) == self.target(
                    s,
                    old_base,
                    new_base,
                    c - 1,
                    x,
                ));
            assert(forall|x: int|
                self.source(s, old_base, c, x) == self.source(s, old_base, c - 1, x));
            assert forall|k: int| 0 <= k < d.len() implies #[trigger] d.check[k] != from by {
                assert(self.slot_moved(d, s, old_base, new_base, c - 1, k));
                if self.target(s, old_base, new_base, c - 1, k) {
                } else if self.source(s, old_base, c - 1, k) {
                } else if k < self.len() {
                    let p = self.check[k];
                    if k > 0 && !self.is_free(k) {
                        assert(self.in_use(p));
                    }
                    self.lemma_renamed_is(s, old_base, new_base, c - 1, p, from);
                } else {
                }
            }
            if j < d.len() {
                assert(e.base[j] == d.base[j]);
                assert(e.check[j] == d.check[j]);
                if j < self.len() {
                    assert(self.renamed(s, old_base, new_base, c, self.check[j]) == self.renamed(
                        s,
                        old_base,
                        new_base,
                        c - 1,
                        self.check[j],
                    ));
                }
            } else {
            }
        }
    }

    /// The spelling after a relocation: a child that moved is spelled as
    /// before it moved.
    pub open spec fn spell_relocated(
        self,
        spell: spec_fn(int) -> Seq<char>,
        s: int,
        old_base: int,
        new_base: int,
    ) -> spec_fn(int) -> Seq<char> {
        |j: int|
            if self.target(s, old_base, new_base, self.codes.len() as int, j) {
                spell(j - new_base + old_base)
            } else {
                spell(j)
            }
    }

    /// The state that stands for `x` after a relocation.
    pub open spec fn state_relocated(self, s: int, old_base: int, new_base: int) -> spec_fn(
        int,
    ) -> int {
        |x: int| self.renamed(s, old_base, new_base, self.codes.len() as int, x)
    }

    /// The state that `y` stood for before a relocation.
    pub open spec fn state_before(self, s: int, old_base: int, new_base: int) -> spec_fn(
        int,
    ) -> int {
        |y: int|
            if self.target(s, old_base, new_base, self.codes.len() as int, y) {
                y - new_base + old_base
            } else {
                y
            }
    }

    /// A clean relocation of the children of a state that is not accepting
    /// keeps a trie consistent and finds the same under every key.
    pub proof fn lemma_relocate_clean(self, spell: spec_fn(int) -> Seq<char>, s: int, new_base: int)
        requires
            self.spelled_by(spell),
            self.in_use(s),
            1 <= new_base <= self.len(),
            self.base[s] >= 0,
            self.clean_move(s, self.offset(s), new_base),
        ensures
            self.relocate(s, self.offset(s), new_base).spelled_by(
                self.spell_relocated(spell, s, self.offset(s), new_base),
            ),
            self.agrees(self.relocate(s, self.offset(s), new_base)),
    {
        let e = self.relocate(s, self.offset(s), new_base);
        self.lemma_relocate_spelled(spell, s, new_base);
        assert forall|key: Seq<char>| #[trigger] self.lookup(key) == e.lookup(key) by {
            self.lemma_relocated_lookup(spell, s, new_base, key);
        }
    }

    /// A clean relocation of the children of a state keeps a trie
    /// consistent, with the state where it was. The state then addresses its
    /// children from the new offset, and a slot under that offset that was
    /// open and received no child is open still.
    pub proof fn lemma_relocate_spelled(
        self,
        spell: spec_fn(int) -> Seq<char>,
        s: int,
        new_base: int,
    )
        requires
            self.spelled_by(spell),
            self.in_use(s),
            1 <= new_base <= self.len(),
            self.clean_move(s, self.offset(s), new_base),
        ensures
            self.relocate(s, self.offset(s), new_base).spelled_by(
                self.spell_relocated(spell, s, self.offset(s), new_base),
            ),
            self.relocate(s, self.offset(s), new_base).in_use(s),
            self.relocate(s, self.offset(s), new_base).offset(s) == new_base,
            self.relocate(s, self.offset(s), new_base).base[s] == new_base,
            self.spell_relocated(spell, s, self.offset(s), new_base)(s) == spell(s),
            forall|c: int|
                1 <= c <= self.codes.len() && self.is_open(new_base + c) && !self.child_of(
                    s,
                    self.offset(s) + c,
                ) ==> #[trigger] self.relocate(s, self.offset(s), new_base).is_open(new_base + c),
    {
        let n = self.codes.len() as int;
        let old_base = self.offset(s);
        let d = self.move_children(s, old_base, new_base, n);
        let e = self.relocate(s, old_base, new_base);
        let spelled = self.spell_relocated(spell, s, old_base, new_base);
        self.lemma_move_children_clean(spell, s, old_base, new_base, n);
        self.lemma_relocate(s, old_base, new_base);
        if s > 0 {
            self.lemma_not_own_child(spell, s);
        }
        if self.target(s, old_base, new_base, n, s) {
            self.lemma_target_open(spell, s, old_base, new_base, n, s);
        }
        assert(self.slot_moved(d, s, old_base, new_base, n, s));
        assert(e.in_use(s));
        assert forall|j: int| 0 < j < e.len() && !e.is_free(j) implies {
            let p = #[trigger] e.check[j];
            let c = j - e.offset(p);
            &&& e.in_use(p)
            &&& 1 <= c <= e.codes.len()
            &&& spelled(j) == spelled(p).push(e.codes[c - 1])
        } by {
            self.lemma_relocated_slot(spell, s, new_base, j);
        }
        assert forall|c: int|
            1 <= c <= self.codes.len() && self.is_open(new_base + c) && !self.child_of(
                s,
                self.offset(s) + c,
            ) implies #[trigger] e.is_open(new_base + c) by {
            let j = new_base + c;
            if j < e.len() {
                assert(self.slot_moved(d, s, old_base, new_base, n, j));
            }
        }
    }

    /// What is found under a key after a clean relocation.
    proof fn lemma_relocated_lookup(
        self,
        spell: spec_fn(int) -> Seq<char>,
        s: int,
        new_base: int,
        key: Seq<char>,
    )
        requires
            self.spelled_by(spell),
            self.in_use(s),
            1 <= new_base <= self.len(),
            self.base[s] >= 0,
            self.clean_move(s, self.offset(s), new_base),
            self.relocate(s, self.offset(s), new_base).spelled_by(
                self.spell_relocated(spell, s, self.offset(s), new_base),
            ),
        ensures
            self.relocate(s, self.offset(s), new_base).lookup(key) == self.lookup(key),
    {
        let n = self.codes.len() as int;
        let old_base = self.offset(s);
        let d = self.move_children(s, old_base, new_base, n);
        let e = self.relocate(s, old_base, new_base);
        let spelled = self.spell_relocated(spell, s, old_base, new_base);
        self.lemma_move_children_clean(spell, s, old_base, new_base, n);
        self.lemma_relocate(s, old_base, new_base);
        if self.target(s, old_base, new_base, n, s) {
            self.lemma_target_open(spell, s, old_base, new_base, n, s);
        }
        if s > 0 {
            self.lemma_not_own_child(spell, s);
        }
        assert(self.slot_moved(d, s, old_base, new_base, n, s));
        {
            let forth = self.state_relocated(s, old_base, new_base);
            let back = self.state_before(s, old_base, new_base);
            assert forall|x: int|
                self.in_use(x) && spell(x) == key && self.value_at(x) is Some implies {
                    &&& e.in_use(#[trigger] forth(x))
                    &&& spelled(forth(x)) == key
                    &&& e.value_at(forth(x)) == self.value_at(x)
                } by {
                let y = forth(x);
                if self.source(s, old_base, n, x) {
                    assert(self.target(s, old_base, new_base, n, y));
                    assert(self.slot_moved(d, s, old_base, new_base, n, y));
                } else {
                    if self.target(s, old_base, new_base, n, x) {
                        self.lemma_target_open(spell, s, old_base, new_base, n, x);
                    }
                    assert(self.slot_moved(d, s, old_base, new_base, n, x));
                }
            }
            assert forall|y: int|
                e.in_use(y) && spelled(y) == key && e.value_at(y) is Some implies {
                    &&& self.in_use(#[trigger] back(y))
                    &&& spell(back(y)) == key
                    &&& self.value_at(back(y)) == e.value_at(y)
                } by {
                assert(0 <= y < e.len());
                assert(self.slot_moved(d, s, old_base, new_base, n, y));
            }
            self.lemma_same_lookup(spell, e, spelled, forth, back, key);
        }
    }

    /// One slot in use after a clean relocation: its parent is in use, and it
    /// is spelled as its parent, then the character of its code.
    proof fn lemma_relocated_slot(
        self,
        spell: spec_fn(int) -> Seq<char>,
        s: int,
        new_base: int,
        j: int,
    )
        requires
            self.spelled_by(spell),
            self.in_use(s),
            1 <= new_base <= self.len(),
            self.clean_move(s, self.offset(s), new_base),
            0 < j < self.relocate(s, self.offset(s), new_base).len(),
            !self.relocate(s, self.offset(s), new_base).is_free(j),
        ensures
            ({
                let e = self.relocate(s, self.offset(s), new_base);
                let spelled = self.spell_relocated(spell, s, self.offset(s), new_base);
                let p = e.check[j];
                let c = j - e.offset(p);
                &&& e.in_use(p)
                &&& 1 <= c <= e.codes.len()
                &&& spelled(j) == spelled(p).push(e.codes[c - 1])
            }),
    {
        let n = self.codes.len() as int;
        let old_base = self.offset(s);
        let d = self.move_children(s, old_base, new_base, n);
        let e = self.relocate(s, old_base, new_base);
        let spelled = self.spell_relocated(spell, s, old_base, new_base);
        self.lemma_move_children_clean(spell, s, old_base, new_base, n);
        self.lemma_relocate(s, old_base, new_base);
        if s > 0 {
            self.lemma_not_own_child(spell, s);
        }
        if self.target(s, old_base, new_base, n, s) {
            self.lemma_target_open(spell, s, old_base, new_base, n, s);
        }
        assert(self.slot_moved(d, s, old_base, new_base, n, s));
        assert(self.slot_moved(d, s, old_base, new_base, n, j));
        if self.target(s, old_base, new_base, n, j) {
            let j0 = j - new_base + old_base;
            assert(self.check[j0] == s);
        } else if self.source(s, old_base, n, j) {
        } else if j < self.len() {
            let p = self.check[j];
            assert(!self.is_free(j));
            assert(self.in_use(p));
            if self.source(s, old_base, n, p) {
                let q = p - old_base + new_base;
                assert(self.target(s, old_base, new_base, n, q));
                assert(self.slot_moved(d, s, old_base, new_base, n, q));
            } else {
                assert(p != s) by {
                    if p == s {
                        assert(self.source(s, old_base, n, j));
                    }
                }
                if self.target(s, old_base, new_base, n, p) {
                    self.lemma_target_open(spell, s, old_base, new_base, n, p);
                }
                assert(self.slot_moved(d, s, old_base, new_base, n, p));
            }
        } else {
        }
    }
}

} // verus!
