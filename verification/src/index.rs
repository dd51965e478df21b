//! An index from `(word, language)` to a position in a vector of entries.

use vstd::prelude::*;
use vstd::hash_map::StringHashMap;
use crate::language::{TargetLanguage, LANGUAGE_COUNT};

verus! {

/// A map from `(word, language)` to a position, one hash map per language.
pub struct EntryIndex {
    maps: Vec<StringHashMap<usize>>,
}

impl View for EntryIndex {
    type V = Map<(Seq<char>, TargetLanguage), usize>;

    closed spec fn view(&self) -> Map<(Seq<char>, TargetLanguage), usize> {
        Map::new(
            |p: (Seq<char>, TargetLanguage)|
                p.1.spec_index() < self.maps@.len() && self.maps@[p.1.spec_index()]@.contains_key(
                    p.0,
                ),
            |p: (Seq<char>, TargetLanguage)| self.maps@[p.1.spec_index()]@[p.0],
        )
    }
}

impl EntryIndex {
    #[verifier::type_invariant]
    closed spec fn well_formed(&self) -> bool {
        self.maps@.len() == LANGUAGE_COUNT
    }

    /// The empty index.
    pub fn new() -> (r: EntryIndex)
        ensures
            r@ == Map::<(Seq<char>, TargetLanguage), usize>::empty(),
    {
        let mut maps: Vec<StringHashMap<usize>> = Vec::new();
        let mut i: usize = 0;
        while i < LANGUAGE_COUNT
            invariant
                i <= LANGUAGE_COUNT,
                maps@.len() == i,
                forall|j: int| 0 <= j < i ==> maps@[j]@ == Map::<Seq<char>, usize>::empty(),
            decreases LANGUAGE_COUNT - i,
        {
            maps.push(StringHashMap::new());
            i += 1;
        }
        let r = EntryIndex { maps };
        assert(r@ =~= Map::<(Seq<char>, TargetLanguage), usize>::empty());
        r
    }

    /// Records that `(word, lang)` stands at `position`.
    pub fn insert(&mut self, word: String, lang: TargetLanguage, position: usize)
        ensures
            final(self)@ == old(self)@.insert((word@, lang), position),
    {
        proof {
            use_type_invariant(&*self);
        }
        let i = lang.index();
        let ghost before = self.maps@;
        self.maps[i].insert(word, position);
        assert(self.maps@.len() == before.len());
        assert(forall|j: int| 0 <= j < before.len() && j != i ==> self.maps@[j] == before[j]);
        assert(self@ =~= old(self)@.insert((word@, lang), position));
    }

    /// The position of `(word, lang)`, if it has one.
    pub fn get(&self, word: &str, lang: TargetLanguage) -> (r: Option<usize>)
        ensures
            r == if self@.contains_key((word@, lang)) {
                Some(self@[(word@, lang)])
            } else {
                None
            },
    {
        proof {
            use_type_invariant(self);
        }
        match self.maps[lang.index()].get(word) {
            Some(p) => Some(*p),
            None => None,
        }
    }
}

} // verus!
