//! The builder: from the lines of the raw corpus to the compressed entries
//! of the dump.

use vstd::prelude::*;
use crate::codec::{compress_dictionary_data, compressed_all, lemma_compressed_all, CodecError};
use crate::dereference::{dereferenced, lemma_dereferenced_well_formed, process_dereferences};
use crate::entry::{
    all_well_formed, CompressedDictionaryElementWrapper, DictionaryElementData, EntryView,
};
use crate::extract::{entries_of_line, headwords_of_line, line_headwords, process_line};
use crate::headwords::HeadwordSet;
use crate::language::TargetLanguage;
use crate::merge::{
    all_fresh, distinct_keys, fresh, keyed_by_word, lemma_merged_well_formed, merge_duplicates,
    merged,
};
use crate::store::distinct_wrappers;

verus! {

/// The headwords of all lines.
pub open spec fn headwords_of_lines(lines: Seq<Seq<char>>) -> Set<(Seq<char>, TargetLanguage)>
    decreases lines.len(),
{
    if lines.len() == 0 {
        Set::empty()
    } else {
        headwords_of_lines(lines.drop_last()) + headwords_of_line(lines.last()).to_set()
    }
}

/// The entries of all lines, in order.
pub open spec fn entries_of_lines(
    lines: Seq<Seq<char>>,
    words: Set<(Seq<char>, TargetLanguage)>,
) -> Seq<EntryView>
    decreases lines.len(),
{
    if lines.len() == 0 {
        Seq::empty()
    } else {
        entries_of_lines(lines.drop_last(), words) + entries_of_line(lines.last(), words)
    }
}

/// The entries of the dictionary that the lines make: those of all lines,
/// built against the headwords of all lines, merged and dereferenced.
pub open spec fn dictionary_of(lines: Seq<Seq<char>>) -> Seq<EntryView> {
    dereferenced(merged(entries_of_lines(lines, headwords_of_lines(lines))))
}

/// The entries for `word` in `lang`, in order.
pub fn entries_for_word(
    dictionary_data: &Vec<DictionaryElementData>,
    word: &str,
    lang: TargetLanguage,
) -> (r: Vec<DictionaryElementData>)
    ensures
        r.deep_view() == dictionary_data.deep_view().filter(
            |e: EntryView| e.word == word@ && e.lang == lang,
        ),
{
    let ghost wanted = |e: EntryView| e.word == word@ && e.lang == lang;
    let mut r: Vec<DictionaryElementData> = Vec::new();
    let mut i: usize = 0;
    proof {
        reveal(Seq::filter);
    }
    assert(r.deep_view() =~= dictionary_data.deep_view().take(0).filter(wanted));
    while i < dictionary_data.len()
        invariant
            i <= dictionary_data.len(),
            wanted == |e: EntryView| e.word == word@ && e.lang == lang,
            r.deep_view() == dictionary_data.deep_view().take(i as int).filter(wanted),
        decreases dictionary_data.len() - i,
    {
        let e = &dictionary_data[i];
        let ghost before = r.deep_view();
        proof {
            let all = dictionary_data.deep_view();
            assert(all.take(i as int + 1) =~= all.take(i as int).push(e@));
            crate::text::lemma_filter_push(all.take(i as int), e@, wanted);
        }
        if crate::text::same_str(e.word.as_str(), word) && e.lang == lang {
            r.push(e.duplicate());
            assert(r.deep_view() =~= before.push(e@));
        }
        i += 1;
    }
    assert(dictionary_data.deep_view().take(dictionary_data.len() as int)
        =~= dictionary_data.deep_view());
    r
}

/// Adds the headwords of the lines to the set.
pub fn add_headwords(word_set: &mut HeadwordSet, lines: &Vec<String>)
    ensures
        final(word_set)@ == old(word_set)@ + headwords_of_lines(lines.deep_view()),
{
    let mut i: usize = 0;
    assert(word_set@ =~= old(word_set)@ + headwords_of_lines(lines.deep_view().take(0)));
    while i < lines.len()
        invariant
            i <= lines.len(),
            word_set@ == old(word_set)@ + headwords_of_lines(lines.deep_view().take(i as int)),
        decreases lines.len() - i,
    {
        let found = line_headwords(lines[i].as_str());
        let ghost before = word_set@;
        let ghost pairs = found.deep_view();
        assert(lines.deep_view().take(i as int + 1).drop_last() =~= lines.deep_view().take(
            i as int,
        ));
        assert(pairs == headwords_of_line(lines.deep_view()[i as int]));
        let mut k: usize = 0;
        assert(word_set@ =~= before + pairs.take(0).to_set());
        while k < found.len()
            invariant
                k <= found.len(),
                pairs == found.deep_view(),
                word_set@ == before + pairs.take(k as int).to_set(),
            decreases found.len() - k,
        {
            let ghost current = word_set@;
            word_set.insert(found[k].0.clone(), found[k].1);
            proof {
                let next = pairs.take(k as int + 1);
                assert(next =~= pairs.take(k as int).push(pairs[k as int]));
                assert(next.to_set() =~= pairs.take(k as int).to_set().insert(pairs[k as int])) by {
                    assert forall|p: (Seq<char>, TargetLanguage)| next.to_set().contains(p)
                        <==> pairs.take(k as int).to_set().insert(pairs[k as int]).contains(p) by {
                        if next.to_set().contains(p) {
                            let j = choose|j: int| 0 <= j < next.len() && next[j] == p;
                            if j < k {
                                assert(pairs.take(k as int)[j] == p);
                            }
                        }
                        if pairs.take(k as int).to_set().contains(p) {
                            let j = choose|j: int| 0 <= j < k && pairs.take(k as int)[j] == p;
                            assert(next[j] == p);
                        }
                        if p == pairs[k as int] {
                            assert(next[k as int] == p);
                        }
                    }
                }
                assert(pairs[k as int] == (found@[k as int].0@, found@[k as int].1));
                assert(word_set@ =~= before + next.to_set());
            }
            k += 1;
        }
        assert(pairs.take(found.len() as int) =~= pairs);
        assert(word_set@ =~= old(word_set)@ + headwords_of_lines(
            lines.deep_view().take(i as int + 1),
        ));
        i += 1;
    }
    assert(lines.deep_view().take(lines.len() as int) =~= lines.deep_view());
}

/// The set of the headwords of the lines: for each line that holds a record
/// with a word and a language code, the word in each language of the code.
pub fn build_word_set(lines: &Vec<String>) -> (r: HeadwordSet)
    ensures
        r@ == headwords_of_lines(lines.deep_view()),
{
    let mut word_set = HeadwordSet::new();
    add_headwords(&mut word_set, lines);
    assert(word_set@ =~= headwords_of_lines(lines.deep_view()));
    word_set
}

/// The entries of the lines, in order, before they are merged.
pub fn collect_entries(lines: &Vec<String>, word_set: &HeadwordSet) -> (r: Vec<
    DictionaryElementData,
>)
    ensures
        r.deep_view() == entries_of_lines(lines.deep_view(), word_set@),
        all_fresh(r.deep_view()),
{
    let mut r: Vec<DictionaryElementData> = Vec::new();
    let mut i: usize = 0;
    assert(r.deep_view() =~= entries_of_lines(lines.deep_view().take(0), word_set@));
    while i < lines.len()
        invariant
            i <= lines.len(),
            r.deep_view() == entries_of_lines(lines.deep_view().take(i as int), word_set@),
            all_fresh(r.deep_view()),
        decreases lines.len() - i,
    {
        let mut found = process_line(lines[i].as_str(), word_set);
        let ghost before = r.deep_view();
        let ghost added = found.deep_view();
        assert(lines.deep_view().take(i as int + 1).drop_last() =~= lines.deep_view().take(
            i as int,
        ));
        assert(added == entries_of_line(lines.deep_view()[i as int], word_set@));
        r.append(&mut found);
        assert(r.deep_view() =~= before + added);
        assert forall|k: int| 0 <= k < r.deep_view().len() implies fresh(
            #[trigger] r.deep_view()[k],
        ) by {
            if k < before.len() {
                assert(r.deep_view()[k] == before[k]);
            } else {
                assert(r.deep_view()[k] == added[k - before.len()]);
            }
        }
        i += 1;
    }
    assert(lines.deep_view().take(lines.len() as int) =~= lines.deep_view());
    r
}

/// The merged entries of the lines: one entry for each headword that a line
/// holds a record for. Every entry is well formed and stored under its own
/// word, and no two have the same key and language.
pub fn build_dictionary_data(lines: &Vec<String>, word_set: &HeadwordSet) -> (r: Vec<
    DictionaryElementData,
>)
    ensures
        r.deep_view() == merged(entries_of_lines(lines.deep_view(), word_set@)),
        all_well_formed(r.deep_view()),
        keyed_by_word(r.deep_view()),
        distinct_keys(r.deep_view()),
{
    let entries = collect_entries(lines, word_set);
    proof {
        lemma_merged_well_formed(entries.deep_view());
    }
    merge_duplicates(entries)
}

/// The dictionary that the lines make: headwords are collected, entries
/// built and merged, and references resolved. Every entry is well formed,
/// and no two have the same key and language.
pub fn build_dictionary(lines: &Vec<String>) -> (r: Vec<DictionaryElementData>)
    ensures
        r.deep_view() == dictionary_of(lines.deep_view()),
        all_well_formed(r.deep_view()),
        distinct_keys(r.deep_view()),
{
    let word_set = build_word_set(lines);
    let merged_entries = build_dictionary_data(lines, &word_set);
    proof {
        lemma_dereferenced_well_formed(merged_entries.deep_view());
    }
    process_dereferences(merged_entries)
}

/// Compressing keeps keys and languages, so that stored entries are as
/// distinct as the entries they were made of.
pub proof fn lemma_compressed_distinct(entries: Seq<EntryView>)
    requires
        distinct_keys(entries),
    ensures
        compressed_all(entries) matches Ok(stored) ==> distinct_wrappers(stored),
{
    lemma_compressed_all(entries);
    if let Ok(stored) = compressed_all(entries) {
        assert forall|i: int, j: int| 0 <= i < j < stored.len() implies !(stored[i].key
            == stored[j].key && stored[i].lang == stored[j].lang) by {
            assert(stored[i].key == entries[i].key && stored[j].key == entries[j].key);
        }
    }
}

/// The stored entries of the dictionary that the lines make, or the error
/// of the first entry that cannot be stored. No two stored entries have the
/// same key and language.
pub fn build_compressed_dictionary(lines: &Vec<String>) -> (r: Result<
    Vec<CompressedDictionaryElementWrapper>,
    CodecError,
>)
    ensures
        match compressed_all(dictionary_of(lines.deep_view())) {
            Ok(stored) => r matches Ok(v) && v.deep_view() == stored,
            Err(err) => r matches Err(x) && x == err,
        },
        r matches Ok(v) ==> distinct_wrappers(v.deep_view()),
{
    let entries = build_dictionary(lines);
    proof {
        lemma_compressed_distinct(entries.deep_view());
    }
    compress_dictionary_data(entries)
}

} // verus!
