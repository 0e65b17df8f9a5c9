//! An insertion-ordered table of distinct words with constant-time lookup.

use vstd::hash_map::StringHashMap;
use vstd::prelude::*;

verus! {

/// Distinct words in the order in which they were inserted, each found again
/// by its text.
pub struct WordTable {
    words: Vec<String>,
    slots: StringHashMap<usize>,
}

impl View for WordTable {
    type V = Seq<Seq<char>>;

    closed spec fn view(&self) -> Seq<Seq<char>> {
        self.words.deep_view()
    }
}

impl WordTable {
    /// The lookup map holds, for every word of the table, its position, and
    /// nothing else.
    pub closed spec fn wf(&self) -> bool {
        &&& forall|w: Seq<char>| #[trigger]
            self.slots@.contains_key(w) ==> self.slots@[w] < self.words.len()
                && self.words[self.slots@[w] as int]@ == w
        &&& forall|i: int|
            0 <= i < self.words.len() ==> self.slots@.contains_key(#[trigger] self.words[i]@)
                && self.slots@[self.words[i]@] == i
    }

    /// No word stands twice in a well-formed table.
    pub proof fn lemma_distinct(&self)
        requires
            self.wf(),
        ensures
            self@.no_duplicates(),
    {
        assert forall|i: int, j: int|
            0 <= i < self@.len() && 0 <= j < self@.len() && i != j implies self@[i] != self@[j] by {
            assert(self.slots@[self.words[i]@] == i);
            assert(self.slots@[self.words[j]@] == j);
        }
    }

    /// The empty table.
    pub fn new() -> (table: Self)
        ensures
            table.wf(),
            table@ == Seq::<Seq<char>>::empty(),
    {
        WordTable { words: Vec::new(), slots: StringHashMap::new() }
    }

    /// The number of words.
    pub fn len(&self) -> (n: usize)
        ensures
            n == self@.len(),
    {
        self.words.len()
    }

    /// The word at position `i`.
    pub fn get(&self, i: usize) -> (word: &String)
        requires
            i < self@.len(),
        ensures
            word@ == self@[i as int],
    {
        &self.words[i]
    }

    /// The position of `word`, if the table holds it.
    pub fn find(&self, word: &str) -> (slot: Option<usize>)
        requires
            self.wf(),
        ensures
            match slot {
                Some(i) => i < self@.len() && self@[i as int] == word@,
                None => !self@.contains(word@),
            },
    {
        match self.slots.get(word) {
            Some(i) => Some(*i),
            None => None,
        }
    }

    /// Appends `word`, which the table does not hold yet, and returns its
    /// position.
    pub fn insert(&mut self, word: String) -> (slot: usize)
        requires
            old(self).wf(),
            !old(self)@.contains(word@),
        ensures
            final(self).wf(),
            final(self)@ == old(self)@.push(word@),
            slot == old(self)@.len(),
    {
        let slot = self.words.len();
        self.slots.insert(word.clone(), slot);
        self.words.push(word);
        proof {
            assert forall|i: int| 0 <= i < self.words.len() implies self.slots@.contains_key(
                #[trigger] self.words[i]@,
            ) && self.slots@[self.words[i]@] == i by {
                if i < slot {
                    assert(old(self).words[i]@ == self.words[i]@);
                    assert(old(self)@[i] == self.words[i]@);
                }
            }
        }
        slot
    }
}

} // verus!
