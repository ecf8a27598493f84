//! The mathematical model of a double-array trie and of its queries.
use vstd::prelude::*;

verus! {

/// The largest array length, character code or value count that the integer
/// arrays can record.
pub const LIMIT: usize = 0x7fff_ffff;

/// The magnitude of an array entry.
pub open spec fn magnitude(x: int) -> int {
    if x < 0 {
        -x
    } else {
        x
    }
}

/// A double-array trie as plain mathematical data.
///
/// `base` and `check` are the two parallel arrays. `codes` is the alphabet in
/// the order in which the characters were first seen: the code of a character
/// is its position plus one. `values` is the side table: the value minted
/// under the id `-k` stands at position `k - 1`.
pub struct DatView<T> {
    pub base: Seq<int>,
    pub check: Seq<int>,
    pub codes: Seq<char>,
    pub values: Seq<T>,
}

impl<T> DatView<T> {
    /// The trie that holds nothing but the root state.
    pub open spec fn empty() -> Self {
        DatView { base: seq![1int], check: seq![0int], codes: Seq::empty(), values: Seq::empty() }
    }

    /// The number of slots.
    pub open spec fn len(self) -> int {
        self.base.len() as int
    }

    /// Structural validity: what every reachable trie satisfies, whatever was
    /// inserted into it.
    pub open spec fn wf(self) -> bool {
        &&& self.base.len() >= 1
        &&& self.check.len() == self.base.len()
        &&& self.check[0] == 0
        &&& self.codes.no_duplicates()
        &&& forall|j: int|
            0 <= j < self.base.len() ==> -self.values.len() <= #[trigger] self.base[j]
                <= self.base.len()
        &&& forall|j: int|
            0 <= j < self.check.len() ==> 0 <= #[trigger] self.check[j] < self.check.len()
    }

    /// Whether `ch` has been given a code.
    pub open spec fn has_code(self, ch: char) -> bool {
        self.codes.contains(ch)
    }

    /// The code of `ch`: dense, positive, in order of first sight.
    pub open spec fn code(self, ch: char) -> int
        recommends
            self.has_code(ch),
    {
        self.codes.index_of(ch) + 1
    }

    /// The offset from which the children of state `s` are addressed.
    pub open spec fn offset(self, s: int) -> int {
        magnitude(self.base[s])
    }

    /// Whether slot `j` is unclaimed.
    pub open spec fn is_free(self, j: int) -> bool {
        self.base[j] == 0 && self.check[j] == 0
    }

    /// The state reached from `s` over `ch`, if that transition exists.
    pub open spec fn next(self, s: int, ch: char) -> Option<int> {
        let t = self.offset(s) + self.code(ch);
        if self.has_code(ch) && t < self.len() && self.check[t] == s {
            Some(t)
        } else {
            None
        }
    }

    /// The state reached from the root over all of `key`, if every transition
    /// exists.
    pub open spec fn walk(self, key: Seq<char>) -> Option<int>
        decreases key.len(),
    {
        if key.len() == 0 {
            Some(0)
        } else {
            match self.walk(key.drop_last()) {
                Some(s) => self.next(s, key.last()),
                None => None,
            }
        }
    }

    /// The value that state `s` holds as an accepting state, if it is one.
    pub open spec fn value_at(self, s: int) -> Option<T> {
        let id = self.base[s];
        if id < 0 && -id <= self.values.len() {
            Some(self.values[-id - 1])
        } else {
            None
        }
    }

    /// What a lookup of `key` finds: the value of the state in which the walk
    /// over all of `key` ends. For the empty key that state is the root.
    pub open spec fn lookup(self, key: Seq<char>) -> Option<T> {
        match self.walk(key) {
            Some(s) => self.value_at(s),
            None => None,
        }
    }

    /// The stored keys among the first `n` prefixes of `query` that are not
    /// empty, shortest first, each with its value.
    pub open spec fn matches(self, query: Seq<char>, n: int) -> Seq<(Seq<char>, T)>
        decreases n,
    {
        if n <= 0 {
            Seq::empty()
        } else {
            let shorter = self.matches(query, n - 1);
            match self.lookup(query.take(n)) {
                Some(v) => shorter.push((query.take(n), v)),
                None => shorter,
            }
        }
    }
}

impl<T> DatView<T> {
    /// A walk that gets through `key` gets through each of its prefixes.
    pub proof fn lemma_walk_prefix(self, key: Seq<char>, n: int)
        requires
            0 <= n <= key.len(),
            self.walk(key) is Some,
        ensures
            self.walk(key.take(n)) is Some,
        decreases key.len(),
    {
        if n < key.len() {
            assert(key.drop_last().take(n) =~= key.take(n));
            self.lemma_walk_prefix(key.drop_last(), n);
        } else {
            assert(key.take(n) =~= key);
        }
    }

    /// Where the walk stops within the first `n` characters of `query`,
    /// nothing longer is found.
    pub proof fn lemma_matches_stop(self, query: Seq<char>, n: int, m: int)
        requires
            0 <= n <= m <= query.len(),
            self.walk(query.take(n)) is None,
        ensures
            self.matches(query, m) == self.matches(query, n - 1),
        decreases m - n,
    {
        assert(n > 0) by {
            assert(query.take(0).len() == 0);
        }
        if self.walk(query.take(m)) is Some {
            assert(query.take(m).take(n) =~= query.take(n));
            self.lemma_walk_prefix(query.take(m), n);
        }
        if m > n {
            self.lemma_matches_stop(query, n, m - 1);
        }
    }
}

} // verus!
