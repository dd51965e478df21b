//! The lemma table: from an inflected form to its lemma.

use vstd::prelude::*;
use vstd::hash_map::StringHashMap;
use crate::text::{chars_of, string_of_range, trim_bounds, trimmed};

verus! {

/// The byte order mark, which may stand at the start of a line.
pub const BYTE_ORDER_MARK: char = '\u{feff}';

/// The lines of `s`: what stands between its line feeds.
pub open spec fn split_lines(s: Seq<char>) -> Seq<Seq<char>>
    decreases s.len(),
{
    if s.len() == 0 {
        seq![Seq::empty()]
    } else {
        let before = split_lines(s.drop_last());
        if s.last() == '\n' {
            before.push(Seq::empty())
        } else {
            before.drop_last().push(before.last().push(s.last()))
        }
    }
}

/// `s` without the byte order marks at its start.
pub open spec fn strip_marks(s: Seq<char>) -> Seq<char>
    decreases s.len(),
{
    if s.len() > 0 && s[0] == BYTE_ORDER_MARK {
        strip_marks(s.drop_first())
    } else {
        s
    }
}

/// The position of the first tab of `s`.
pub open spec fn first_tab(s: Seq<char>) -> Option<int>
    decreases s.len(),
{
    if s.len() == 0 {
        None
    } else {
        match first_tab(s.drop_last()) {
            Some(i) => Some(i),
            None => if s.last() == '\t' {
                Some(s.len() - 1)
            } else {
                None
            },
        }
    }
}

/// The lemma and the inflected form that a line holds: what stands before
/// and after the first tab of the line, once marks and the whitespace around
/// it are taken away. An empty line and a line without a tab hold none.
pub open spec fn pair_of_line(line: Seq<char>) -> Option<(Seq<char>, Seq<char>)> {
    let cleaned = trimmed(strip_marks(line));
    match first_tab(cleaned) {
        Some(i) => Some((cleaned.take(i), cleaned.skip(i + 1))),
        None => None,
    }
}

/// The table that lines make: the first line that holds an inflected form
/// decides its lemma.
pub open spec fn table_of_lines(lines: Seq<Seq<char>>) -> Map<Seq<char>, Seq<char>>
    decreases lines.len(),
{
    if lines.len() == 0 {
        Map::empty()
    } else {
        let table = table_of_lines(lines.drop_last());
        match pair_of_line(lines.last()) {
            Some((lemma, inflected)) => if table.contains_key(inflected) {
                table
            } else {
                table.insert(inflected, lemma)
            },
            None => table,
        }
    }
}

/// The table that a source text makes.
pub open spec fn table_of(source: Seq<char>) -> Map<Seq<char>, Seq<char>> {
    table_of_lines(split_lines(source))
}

/// The lemma of `word`: what the table gives for it, else the word itself.
pub open spec fn lemma_of(table: Map<Seq<char>, Seq<char>>, word: Seq<char>) -> Seq<char> {
    if table.contains_key(word) {
        table[word]
    } else {
        word
    }
}

/// What `first_tab` finds is the first tab.
pub proof fn lemma_first_tab(s: Seq<char>)
    ensures
        match first_tab(s) {
            Some(i) => 0 <= i < s.len() && s[i] == '\t' && forall|j: int|
                0 <= j < i ==> s[j] != '\t',
            None => forall|j: int| 0 <= j < s.len() ==> s[j] != '\t',
        },
    decreases s.len(),
{
    if s.len() > 0 {
        let head = s.drop_last();
        lemma_first_tab(head);
        assert forall|j: int| 0 <= j < head.len() implies head[j] == s[j] by {}
        match first_tab(s) {
            Some(i) => {
                assert forall|j: int| 0 <= j < i implies s[j] != '\t' by {
                    assert(head[j] == s[j]);
                }
            },
            None => {
                assert forall|j: int| 0 <= j < s.len() implies s[j] != '\t' by {
                    if j < head.len() {
                        assert(head[j] == s[j]);
                    }
                }
            },
        }
    }
}

/// A table from inflected forms to lemmas.
pub struct LemmaTable {
    map: StringHashMap<String>,
}

impl View for LemmaTable {
    type V = Map<Seq<char>, Seq<char>>;

    closed spec fn view(&self) -> Map<Seq<char>, Seq<char>> {
        Map::new(|w: Seq<char>| self.map@.contains_key(w), |w: Seq<char>| self.map@[w]@)
    }
}

impl LemmaTable {
    /// The empty table.
    pub fn new() -> (r: LemmaTable)
        ensures
            r@ == Map::<Seq<char>, Seq<char>>::empty(),
    {
        let r = LemmaTable { map: StringHashMap::new() };
        assert(r@ =~= Map::<Seq<char>, Seq<char>>::empty());
        r
    }

    /// Takes in one line of the source: the pair it holds is added unless
    /// its inflected form has a lemma already.
    pub fn add_line(&mut self, line: &Vec<char>)
        ensures
            final(self)@ == match pair_of_line(line@) {
                Some((lemma, inflected)) => if old(self)@.contains_key(inflected) {
                    old(self)@
                } else {
                    old(self)@.insert(inflected, lemma)
                },
                None => old(self)@,
            },
    {
        let n = line.len();
        let mut start: usize = 0;
        assert(line@.skip(0) =~= line@);
        while start < n && line[start] == BYTE_ORDER_MARK
            invariant
                start <= n == line.len(),
                strip_marks(line@) == strip_marks(line@.skip(start as int)),
            decreases n - start,
        {
            assert(line@.skip(start as int).drop_first() =~= line@.skip(start as int + 1));
            start += 1;
        }
        let mut stripped: Vec<char> = Vec::new();
        let mut k: usize = start;
        while k < n
            invariant
                start <= k <= n == line.len(),
                stripped@ == line@.subrange(start as int, k as int),
            decreases n - k,
        {
            stripped.push(line[k]);
            k += 1;
            assert(line@.subrange(start as int, k as int) =~= line@.subrange(
                start as int,
                k as int - 1,
            ).push(line@[k as int - 1]));
        }
        assert(stripped@ =~= line@.skip(start as int));
        assert(stripped@ == strip_marks(line@));
        let (a, b) = trim_bounds(&stripped);
        let ghost cleaned = stripped@.subrange(a as int, b as int);
        let mut t: usize = a;
        proof {
            lemma_first_tab(cleaned);
        }
        while t < b && stripped[t] != '\t'
            invariant
                a <= t <= b <= stripped.len(),
                cleaned == stripped@.subrange(a as int, b as int),
                forall|j: int| 0 <= j < t - a ==> cleaned[j] != '\t',
            decreases b - t,
        {
            assert(cleaned[t - a] == stripped@[t as int]);
            t += 1;
        }
        if t < b {
            assert(cleaned[t - a] == stripped@[t as int]);
            assert(first_tab(cleaned) == Some(t - a));
            let lemma = string_of_range(&stripped, a, t);
            let inflected = string_of_range(&stripped, t + 1, b);
            assert(lemma@ =~= cleaned.take(t - a));
            assert(inflected@ =~= cleaned.skip(t - a + 1));
            if !self.map.contains_key(inflected.as_str()) {
                self.map.insert(inflected, lemma);
                assert(self@ =~= old(self)@.insert(inflected@, lemma@));
            }
        } else {
            assert(first_tab(cleaned) is None);
        }
    }

    /// The table that a source text makes: each line holds a lemma, a tab
    /// and an inflected form, and the first line for an inflected form
    /// decides.
    pub fn from_source(source: &str) -> (r: LemmaTable)
        ensures
            r@ == table_of(source@),
    {
        let chars = chars_of(source);
        let mut table = LemmaTable::new();
        let mut line: Vec<char> = Vec::new();
        let mut i: usize = 0;
        assert(split_lines(chars@.take(0)) =~= seq![Seq::<char>::empty()]);
        assert(split_lines(chars@.take(0)).drop_last() =~= Seq::<Seq<char>>::empty());
        while i < chars.len()
            invariant
                i <= chars.len(),
                split_lines(chars@.take(i as int)).len() > 0,
                table@ == table_of_lines(split_lines(chars@.take(i as int)).drop_last()),
                line@ == split_lines(chars@.take(i as int)).last(),
            decreases chars.len() - i,
        {
            let ghost before = split_lines(chars@.take(i as int));
            assert(chars@.take(i as int + 1).drop_last() =~= chars@.take(i as int));
            if chars[i] == '\n' {
                table.add_line(&line);
                line = Vec::new();
                assert(before.push(Seq::<char>::empty()).drop_last() =~= before);
            } else {
                line.push(chars[i]);
                assert(before.drop_last().push(before.last().push(chars@[i as int])).drop_last()
                    =~= before.drop_last());
            }
            i += 1;
        }
        assert(chars@.take(chars.len() as int) =~= chars@);
        let ghost lines = split_lines(chars@);
        table.add_line(&line);
        assert(lines.drop_last().push(lines.last()) =~= lines);
        table
    }

    /// What the table gives for `word`, if it gives anything.
    pub fn lookup(&self, word: &str) -> (r: Option<String>)
        ensures
            r.deep_view() == if self@.contains_key(word@) {
                Some(self@[word@])
            } else {
                None
            },
    {
        match self.map.get(word) {
            Some(lemma) => Some(lemma.clone()),
            None => None,
        }
    }

    /// The lemma of `word`: what the table gives for it, else the word
    /// itself.
    pub fn lemmatize(&self, word: &str) -> (r: String)
        ensures
            r@ == lemma_of(self@, word@),
    {
        match self.map.get(word) {
            Some(lemma) => lemma.clone(),
            None => word.to_owned(),
        }
    }
}

} // verus!
