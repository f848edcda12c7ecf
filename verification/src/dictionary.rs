//! The frequency dictionary: how often each word was seen in training.

use vstd::prelude::*;
use vstd::hash_map::StringHashMap;
use crate::letters::is_word;

verus! {

/// A map from word to the number of times it was seen.
///
/// Its view is the map itself. Every key is a non-empty string of lower-case letters and
/// every count is at least one; `wf` states this, `new` establishes it and
/// `increment_word` keeps it.
pub struct Dictionary {
    words: StringHashMap<usize>,
}

impl View for Dictionary {
    type V = Map<Seq<char>, usize>;

    closed spec fn view(&self) -> Map<Seq<char>, usize> {
        self.words@
    }
}

/// The count that `counts` holds for `word`: zero for a word that is not a key.
pub open spec fn frequency(counts: Map<Seq<char>, usize>, word: Seq<char>) -> nat {
    if counts.contains_key(word) {
        counts[word] as nat
    } else {
        0
    }
}

/// `n` capped at the largest count the machine can hold.
pub open spec fn capped(n: nat) -> nat {
    if n <= usize::MAX {
        n
    } else {
        usize::MAX as nat
    }
}

impl Dictionary {
    /// Every key is a word and no key has a count of zero.
    pub open spec fn wf(&self) -> bool {
        forall|w: Seq<char>| #[trigger]
            self@.contains_key(w) ==> is_word(w) && self@[w] >= 1
    }

    /// A dictionary that has seen nothing.
    pub fn new() -> (d: Dictionary)
        ensures
            d@ == Map::<Seq<char>, usize>::empty(),
            d.wf(),
    {
        Dictionary { words: StringHashMap::new() }
    }

    /// The number of distinct words.
    pub fn len(&self) -> (n: usize)
        ensures
            n == self@.len(),
    {
        self.words.len()
    }

    /// Whether `word` is a key, compared character by character.
    pub fn contains(&self, word: &str) -> (known: bool)
        ensures
            known == self@.contains_key(word@),
    {
        self.words.contains_key(word)
    }

    /// The count of `word`, if it is a key.
    pub fn get(&self, word: &str) -> (count: Option<usize>)
        ensures
            count == if self@.contains_key(word@) {
                Some(self@[word@])
            } else {
                None
            },
    {
        match self.words.get(word) {
            Some(n) => Some(*n),
            None => None,
        }
    }
}

/// Counts one more occurrence of `word`.
///
/// A word that was not a key becomes one with a count of one. A count that has reached
/// `usize::MAX` stays there, so that counts never decrease. Every other entry is left as
/// it was.
pub fn increment_word(map: &mut Dictionary, word: String)
    requires
        old(map).wf(),
        is_word(word@),
    ensures
        final(map).wf(),
        final(map)@ == old(map)@.insert(
            word@,
            capped(frequency(old(map)@, word@) + 1) as usize,
        ),
{
    let seen = match map.words.get(word.as_str()) {
        Some(n) => *n,
        None => 0,
    };
    let count = if seen < usize::MAX {
        seen + 1
    } else {
        seen
    };
    map.words.insert(word, count);
    assert forall|w: Seq<char>| #[trigger] map@.contains_key(w) implies is_word(w) && map@[w] >= 1 by {
        if w != word@ {
            assert(old(map)@.contains_key(w));
        }
    }
}

} // verus!
