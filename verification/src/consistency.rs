//! Consistency of a trie: every slot in use is a child of a slot in use, so
//! that each stands for one key prefix, and what that means for lookups.
use vstd::prelude::*;
use crate::model::DatView;

verus! {

impl<T> DatView<T> {
    /// Whether `j` is a state of the trie: the root, or a slot that is not
    /// free.
    pub open spec fn in_use(self, j: int) -> bool {
        j == 0 || (0 < j < self.len() && !self.is_free(j))
    }

    /// Whether `spell` names, for each state, the characters that lead to it
    /// from the root: nothing for the root, and for every other state what
    /// leads to its parent, then the character under whose code it is
    /// addressed from there.
    pub open spec fn spelled_by(self, spell: spec_fn(int) -> Seq<char>) -> bool {
        &&& self.wf()
        &&& spell(0) == Seq::<char>::empty()
        &&& forall|j: int|
            0 < j < self.len() && !self.is_free(j) ==> {
                let p = #[trigger] self.check[j];
                let c = j - self.offset(p);
                &&& self.in_use(p)
                &&& 1 <= c <= self.codes.len()
                &&& spell(j) == spell(p).push(self.codes[c - 1])
            }
    }

    /// Whether the arrays form a trie: every slot in use is a child of a
    /// state, under the code of some character.
    pub open spec fn consistent(self) -> bool {
        exists|spell: spec_fn(int) -> Seq<char>| self.spelled_by(spell)
    }

    /// Whether two tries find the same under every key.
    pub open spec fn agrees(self, other: Self) -> bool {
        forall|key: Seq<char>| #[trigger] self.lookup(key) == other.lookup(key)
    }

    /// A walk that ends in a state has followed what the state is spelled by.
    pub proof fn lemma_walk_spells(self, spell: spec_fn(int) -> Seq<char>, key: Seq<char>)
        requires
            self.spelled_by(spell),
            self.walk(key) is Some,
            self.in_use(self.walk(key).unwrap()),
        ensures
            spell(self.walk(key).unwrap()) == key,
        decreases key.len(),
    {
        if key.len() == 0 {
            assert(key =~= Seq::<char>::empty());
        } else {
            let p = self.walk(key.drop_last()).unwrap();
            let x = self.walk(key).unwrap();
            self.lemma_code_range(key.last());
            assert(self.check[x] == p);
            self.lemma_walk_spells(spell, key.drop_last());
            assert(key =~= key.drop_last().push(key.last()));
        }
    }

    /// The walk over what a state is spelled by ends in that state.
    pub proof fn lemma_spell_walks(self, spell: spec_fn(int) -> Seq<char>, x: int)
        requires
            self.spelled_by(spell),
            self.in_use(x),
        ensures
            self.walk(spell(x)) == Some(x),
        decreases spell(x).len(),
    {
        if x != 0 {
            let p = self.check[x];
            let c = x - self.offset(p);
            let ch = self.codes[c - 1];
            assert(spell(x).drop_last() =~= spell(p));
            self.lemma_spell_walks(spell, p);
            assert(self.codes.contains(ch));
            assert(self.codes.index_of(ch) == c - 1);
        } else {
        }
    }

    /// Two consistent tries find the same under `key` if each accepting state
    /// of the one has a state in the other that is spelled the same and
    /// holds the same value. `forth` and `back` name that state.
    pub proof fn lemma_same_lookup(
        self,
        spell: spec_fn(int) -> Seq<char>,
        other: Self,
        other_spell: spec_fn(int) -> Seq<char>,
        forth: spec_fn(int) -> int,
        back: spec_fn(int) -> int,
        key: Seq<char>,
    )
        requires
            self.spelled_by(spell),
            other.spelled_by(other_spell),
            forall|x: int|
                self.in_use(x) && spell(x) == key && self.value_at(x) is Some ==> ({
                    &&& other.in_use(#[trigger] forth(x))
                    &&& other_spell(forth(x)) == key
                    &&& other.value_at(forth(x)) == self.value_at(x)
                }),
            forall|y: int|
                other.in_use(y) && other_spell(y) == key && other.value_at(y) is Some ==> ({
                    &&& self.in_use(#[trigger] back(y))
                    &&& spell(back(y)) == key
                    &&& self.value_at(back(y)) == other.value_at(y)
                }),
        ensures
            other.lookup(key) == self.lookup(key),
    {
        if self.lookup(key) is Some {
            let x = self.walk(key).unwrap();
            assert(self.in_use(x));
            self.lemma_walk_spells(spell, key);
            other.lemma_spell_walks(other_spell, forth(x));
        } else if other.lookup(key) is Some {
            let y = other.walk(key).unwrap();
            assert(other.in_use(y));
            other.lemma_walk_spells(other_spell, key);
            self.lemma_spell_walks(spell, back(y));
        }
    }

    /// The empty trie is consistent.
    pub proof fn lemma_empty_consistent()
        ensures
            Self::empty().consistent(),
    {
        let spell = |j: int| Seq::<char>::empty();
        assert(Self::empty().spelled_by(spell));
    }
}

} // verus!
