//! The set of headwords: the `(word, language)` pairs that have an entry.

use vstd::prelude::*;
use vstd::hash_set::StringHashSet;
use crate::language::{TargetLanguage, LANGUAGE_COUNT};

verus! {

/// A set of `(word, language)` pairs, one hash set of words per language.
pub struct HeadwordSet {
    sets: Vec<StringHashSet>,
}

impl View for HeadwordSet {
    type V = Set<(Seq<char>, TargetLanguage)>;

    closed spec fn view(&self) -> Set<(Seq<char>, TargetLanguage)> {
        Set::new(
            |p: (Seq<char>, TargetLanguage)|
                p.1.spec_index() < self.sets@.len() && self.sets@[p.1.spec_index()]@.contains(p.0),
        )
    }
}

impl HeadwordSet {
    #[verifier::type_invariant]
    closed spec fn well_formed(&self) -> bool {
        self.sets@.len() == LANGUAGE_COUNT
    }

    /// The empty set.
    pub fn new() -> (r: HeadwordSet)
        ensures
            r@ == Set::<(Seq<char>, TargetLanguage)>::empty(),
    {
        let mut sets: Vec<StringHashSet> = Vec::new();
        let mut i: usize = 0;
        while i < LANGUAGE_COUNT
            invariant
                i <= LANGUAGE_COUNT,
                sets@.len() == i,
                forall|j: int| 0 <= j < i ==> sets@[j]@ == Set::<Seq<char>>::empty(),
            decreases LANGUAGE_COUNT - i,
        {
            sets.push(StringHashSet::new());
            i += 1;
        }
        let r = HeadwordSet { sets };
        assert(r@ =~= Set::<(Seq<char>, TargetLanguage)>::empty());
        r
    }

    /// Adds the pair `(word, lang)`; says whether it was new.
    pub fn insert(&mut self, word: String, lang: TargetLanguage) -> (r: bool)
        ensures
            final(self)@ == old(self)@.insert((word@, lang)),
            r == !old(self)@.contains((word@, lang)),
    {
        proof {
            use_type_invariant(&*self);
        }
        let i = lang.index();
        let ghost before = self.sets@;
        let r = self.sets[i].insert(word);
        assert(self.sets@.len() == before.len());
        assert(forall|j: int| 0 <= j < before.len() && j != i ==> self.sets@[j] == before[j]);
        assert(self@ =~= old(self)@.insert((word@, lang)));
        r
    }

    /// Whether the pair `(word, lang)` is in the set.
    pub fn contains(&self, word: &str, lang: TargetLanguage) -> (r: bool)
        ensures
            r == self@.contains((word@, lang)),
    {
        proof {
            use_type_invariant(self);
        }
        self.sets[lang.index()].contains(word)
    }
}

} // verus!
