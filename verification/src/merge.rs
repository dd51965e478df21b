//! Merging: the entries built for one `(word, language)` become one entry.

use vstd::prelude::*;
use crate::entry::{
    all_well_formed, distinct_texts, duplicate_definitions, duplicate_option, duplicate_strings,
    same_text, tags_sorted, Definition, DefinitionView, DictionaryElementData, EntryView, Fragment,
};
use crate::index::EntryIndex;
use crate::language::TargetLanguage;
use crate::order::{
    dedup_of, dedup_preserve_order, is_sorted, lemma_dedup_of, lemma_sort_of, reversed, sort_of,
    sort_strings,
};

verus! {

/// The position of the first definition with the body `text`.
pub open spec fn find_text(defs: Seq<DefinitionView>, text: Seq<Fragment>) -> Option<int>
    decreases defs.len(),
{
    if defs.len() == 0 {
        None
    } else {
        match find_text(defs.drop_last(), text) {
            Some(i) => Some(i),
            None => if defs.last().text == text {
                Some(defs.len() - 1)
            } else {
                None
            },
        }
    }
}

/// The tags of two definitions with one body: each tag once, in ascending
/// order.
pub open spec fn union_tags(a: Seq<Seq<char>>, b: Seq<Seq<char>>) -> Seq<Seq<char>> {
    sort_of(dedup_of(a + b))
}

/// The definitions with each body once: a body stands where it first
/// occurred, and a later occurrence adds its tags to that definition.
pub open spec fn consolidated(defs: Seq<DefinitionView>) -> Seq<DefinitionView>
    decreases defs.len(),
{
    if defs.len() == 0 {
        Seq::empty()
    } else {
        let acc = consolidated(defs.drop_last());
        let d = defs.last();
        match find_text(acc, d.text) {
            Some(i) => acc.update(
                i,
                DefinitionView { text: d.text, tags: union_tags(acc[i].tags, d.tags) },
            ),
            None => acc.push(d),
        }
    }
}

/// What `find_text` finds is the first definition with that body.
pub proof fn lemma_find_text(defs: Seq<DefinitionView>, text: Seq<Fragment>)
    ensures
        match find_text(defs, text) {
            Some(i) => 0 <= i < defs.len() && defs[i].text == text && forall|j: int|
                0 <= j < i ==> defs[j].text != text,
            None => forall|j: int| 0 <= j < defs.len() ==> defs[j].text != text,
        },
    decreases defs.len(),
{
    if defs.len() > 0 {
        let head = defs.drop_last();
        lemma_find_text(head, text);
        assert forall|j: int| 0 <= j < head.len() implies head[j] == defs[j] by {}
        match find_text(defs, text) {
            Some(i) => {
                assert forall|j: int| 0 <= j < i implies defs[j].text != text by {
                    assert(head[j] == defs[j]);
                }
            },
            None => {
                assert forall|j: int| 0 <= j < defs.len() implies defs[j].text != text by {
                    if j < head.len() {
                        assert(head[j] == defs[j]);
                    }
                }
            },
        }
    }
}

/// Consolidated definitions have distinct bodies, and sorted tags where the
/// definitions they were made of had sorted tags.
pub proof fn lemma_consolidated(defs: Seq<DefinitionView>)
    ensures
        distinct_texts(consolidated(defs)),
        consolidated(defs).len() <= defs.len(),
        tags_sorted(defs) ==> tags_sorted(consolidated(defs)),
    decreases defs.len(),
{
    if defs.len() > 0 {
        let acc = consolidated(defs.drop_last());
        let d = defs.last();
        lemma_consolidated(defs.drop_last());
        lemma_find_text(acc, d.text);
        let r = consolidated(defs);
        match find_text(acc, d.text) {
            Some(p) => {
                lemma_sort_of(dedup_of(acc[p].tags + d.tags));
                assert forall|i: int, j: int| 0 <= i < j < r.len() implies r[i].text
                    != r[j].text by {
                    assert(r[i].text == acc[i].text && r[j].text == acc[j].text);
                }
                if tags_sorted(defs) {
                    assert forall|i: int| 0 <= i < defs.drop_last().len() implies is_sorted(
                        #[trigger] defs.drop_last()[i].tags,
                    ) by {
                        assert(defs.drop_last()[i] == defs[i]);
                    }
                    assert forall|i: int| 0 <= i < r.len() implies is_sorted(
                        #[trigger] r[i].tags,
                    ) by {
                        if i != p {
                            assert(r[i] == acc[i]);
                        }
                    }
                }
            },
            None => {
                if tags_sorted(defs) {
                    assert forall|i: int| 0 <= i < defs.drop_last().len() implies is_sorted(
                        #[trigger] defs.drop_last()[i].tags,
                    ) by {
                        assert(defs.drop_last()[i] == defs[i]);
                    }
                    assert forall|i: int| 0 <= i < r.len() implies is_sorted(
                        #[trigger] r[i].tags,
                    ) by {
                        if i < acc.len() {
                            assert(r[i] == acc[i]);
                        } else {
                            assert(r[i] == defs[defs.len() - 1]);
                        }
                    }
                }
            },
        }
    }
}

/// The strings of `a` followed by those of `b`.
pub fn concat_strings(a: &Vec<String>, b: &Vec<String>) -> (r: Vec<String>)
    ensures
        r.deep_view() == a.deep_view() + b.deep_view(),
{
    let mut r = duplicate_strings(a);
    let mut i: usize = 0;
    assert(r.deep_view() =~= a.deep_view() + b.deep_view().take(0));
    while i < b.len()
        invariant
            i <= b.len(),
            r.deep_view() == a.deep_view() + b.deep_view().take(i as int),
        decreases b.len() - i,
    {
        let ghost before = r.deep_view();
        r.push(b[i].clone());
        assert(r.deep_view() =~= before.push(b@[i as int]@));
        assert(a.deep_view() + b.deep_view().take(i as int + 1) =~= (a.deep_view()
            + b.deep_view().take(i as int)).push(b@[i as int]@));
        i += 1;
    }
    assert(b.deep_view().take(b.len() as int) =~= b.deep_view());
    r
}

/// The definitions of `a` followed by those of `b`.
pub fn concat_definitions(a: &Vec<Definition>, b: &Vec<Definition>) -> (r: Vec<Definition>)
    ensures
        r.deep_view() == a.deep_view() + b.deep_view(),
{
    let mut r = duplicate_definitions(a);
    let mut i: usize = 0;
    assert(r.deep_view() =~= a.deep_view() + b.deep_view().take(0));
    while i < b.len()
        invariant
            i <= b.len(),
            r.deep_view() == a.deep_view() + b.deep_view().take(i as int),
        decreases b.len() - i,
    {
        let ghost before = r.deep_view();
        r.push(b[i].duplicate());
        assert(r.deep_view() =~= before.push(b@[i as int]@));
        assert(a.deep_view() + b.deep_view().take(i as int + 1) =~= (a.deep_view()
            + b.deep_view().take(i as int)).push(b@[i as int]@));
        i += 1;
    }
    assert(b.deep_view().take(b.len() as int) =~= b.deep_view());
    r
}

/// The position of the first definition of `defs` with the body `text`.
fn position_of_text(defs: &Vec<Definition>, text: &Vec<crate::entry::HyperlinkedText>) -> (r:
    Option<usize>)
    ensures
        match r {
            Some(p) => find_text(defs.deep_view(), text.deep_view()) == Some(p as int) && p
                < defs.len(),
            None => find_text(defs.deep_view(), text.deep_view()) is None,
        },
{
    let mut j: usize = 0;
    while j < defs.len()
        invariant
            j <= defs.len(),
            forall|k: int| 0 <= k < j ==> defs.deep_view()[k].text != text.deep_view(),
        decreases defs.len() - j,
    {
        if same_text(&defs[j].text, text) {
            proof {
                assert(defs.deep_view()[j as int].text == text.deep_view());
                lemma_find_text(defs.deep_view(), text.deep_view());
            }
            return Some(j);
        }
        assert(defs.deep_view()[j as int].text != text.deep_view());
        j += 1;
    }
    proof {
        lemma_find_text(defs.deep_view(), text.deep_view());
    }
    None
}

/// Leaves each body once: a body stays where it first occurred, and the tags
/// of its later occurrences are added to that definition, each tag once and
/// in ascending order.
pub fn consolidate_definitions(existing_definitions: &mut Vec<Definition>)
    ensures
        final(existing_definitions).deep_view() == consolidated(
            old(existing_definitions).deep_view(),
        ),
        distinct_texts(final(existing_definitions).deep_view()),
{
    let ghost input = existing_definitions.deep_view();
    let mut taken: Vec<Definition> = Vec::new();
    std::mem::swap(existing_definitions, &mut taken);
    let mut i: usize = 0;
    assert(existing_definitions.deep_view() =~= consolidated(input.take(0)));
    while i < taken.len()
        invariant
            i <= taken.len(),
            taken.deep_view() == input,
            existing_definitions.deep_view() == consolidated(input.take(i as int)),
        decreases taken.len() - i,
    {
        let ghost acc = existing_definitions.deep_view();
        proof {
            assert(input.take(i as int + 1).drop_last() =~= input.take(i as int));
            assert(input.take(i as int + 1).last() == taken@[i as int]@);
            lemma_find_text(acc, taken@[i as int]@.text);
        }
        match position_of_text(existing_definitions, &taken[i].text) {
            Some(p) => {
                let mut tags = concat_strings(&existing_definitions[p].tags, &taken[i].tags);
                dedup_preserve_order(&mut tags);
                let tags = sort_strings(tags);
                existing_definitions[p].tags = tags;
                assert(existing_definitions.deep_view() =~= acc.update(
                    p as int,
                    DefinitionView {
                        text: taken@[i as int]@.text,
                        tags: union_tags(acc[p as int].tags, taken@[i as int]@.tags),
                    },
                ));
            },
            None => {
                existing_definitions.push(taken[i].duplicate());
                assert(existing_definitions.deep_view() =~= acc.push(taken@[i as int]@));
            },
        }
        i += 1;
    }
    proof {
        assert(input.take(taken.len() as int) =~= input);
        lemma_consolidated(input);
    }
}

/// The position of the first entry for `(word, lang)`.
pub open spec fn find_word(
    entries: Seq<EntryView>,
    word: Seq<char>,
    lang: TargetLanguage,
) -> Option<int>
    decreases entries.len(),
{
    if entries.len() == 0 {
        None
    } else {
        match find_word(entries.drop_last(), word, lang) {
            Some(i) => Some(i),
            None => if entries.last().word == word && entries.last().lang == lang {
                Some(entries.len() - 1)
            } else {
                None
            },
        }
    }
}

/// An entry as it stands when it is the first for its word: audio and word
/// types without duplicates, definitions consolidated.
pub open spec fn normalized(e: EntryView) -> EntryView {
    EntryView {
        audio: dedup_of(e.audio),
        word_types: dedup_of(e.word_types),
        definitions: consolidated(e.definitions),
        ..e
    }
}

/// The entry `existing` after a later entry `e` for the same word has been
/// merged into it.
pub open spec fn merged_into(existing: EntryView, e: EntryView) -> EntryView {
    EntryView {
        audio: dedup_of(existing.audio + e.audio),
        ipa: if existing.ipa is None {
            e.ipa
        } else {
            existing.ipa
        },
        word_types: dedup_of(existing.word_types + e.word_types),
        definitions: consolidated(existing.definitions + e.definitions),
        ..existing
    }
}

/// One entry for each `(word, language)`, where the first entry for it
/// stood, with all entries for it merged in the order they came in.
pub open spec fn merged(elements: Seq<EntryView>) -> Seq<EntryView>
    decreases elements.len(),
{
    if elements.len() == 0 {
        Seq::empty()
    } else {
        let acc = merged(elements.drop_last());
        let e = elements.last();
        match find_word(acc, e.word, e.lang) {
            Some(i) => acc.update(i, merged_into(acc[i], e)),
            None => acc.push(normalized(e)),
        }
    }
}

/// What `find_word` finds is the first entry for that word and language.
pub proof fn lemma_find_word(entries: Seq<EntryView>, word: Seq<char>, lang: TargetLanguage)
    ensures
        match find_word(entries, word, lang) {
            Some(i) => 0 <= i < entries.len() && entries[i].word == word && entries[i].lang
                == lang && forall|j: int|
                0 <= j < i ==> !(entries[j].word == word && entries[j].lang == lang),
            None => forall|j: int|
                0 <= j < entries.len() ==> !(entries[j].word == word && entries[j].lang == lang),
        },
    decreases entries.len(),
{
    if entries.len() > 0 {
        let head = entries.drop_last();
        lemma_find_word(head, word, lang);
        assert forall|j: int| 0 <= j < head.len() implies head[j] == entries[j] by {}
        match find_word(entries, word, lang) {
            Some(i) => {
                assert forall|j: int| 0 <= j < i implies !(entries[j].word == word
                    && entries[j].lang == lang) by {
                    assert(head[j] == entries[j]);
                }
            },
            None => {
                assert forall|j: int| 0 <= j < entries.len() implies !(entries[j].word == word
                    && entries[j].lang == lang) by {
                    if j < head.len() {
                        assert(head[j] == entries[j]);
                    }
                }
            },
        }
    }
}

/// Whether no two entries have the same word and language.
pub open spec fn distinct_words(entries: Seq<EntryView>) -> bool {
    forall|i: int, j: int|
        0 <= i < j < entries.len() ==> !(entries[i].word == entries[j].word && entries[i].lang
            == entries[j].lang)
}

/// Whether no two entries have the same key and language.
pub open spec fn distinct_keys(entries: Seq<EntryView>) -> bool {
    forall|i: int, j: int|
        0 <= i < j < entries.len() ==> !(entries[i].key == entries[j].key && entries[i].lang
            == entries[j].lang)
}

/// Whether every entry is stored under its own word.
pub open spec fn keyed_by_word(entries: Seq<EntryView>) -> bool {
    forall|i: int| 0 <= i < entries.len() ==> (#[trigger] entries[i]).key == entries[i].word
}

/// Whether the tags of every definition of every entry are in ascending
/// order.
pub open spec fn all_tags_sorted(entries: Seq<EntryView>) -> bool {
    forall|i: int| 0 <= i < entries.len() ==> tags_sorted((#[trigger] entries[i]).definitions)
}

/// Whether no entry has two definitions with the same body.
pub open spec fn all_texts_distinct(entries: Seq<EntryView>) -> bool {
    forall|i: int| 0 <= i < entries.len() ==> distinct_texts((#[trigger] entries[i]).definitions)
}

/// After merging, no two entries have the same word and language, and no
/// entry has two definitions with the same body. Entries that were stored
/// under their own word still are, so no two have the same key and language
/// either. Tags that were in ascending order still are.
pub proof fn lemma_merged(elements: Seq<EntryView>)
    ensures
        distinct_words(merged(elements)),
        all_texts_distinct(merged(elements)),
        merged(elements).len() <= elements.len(),
        keyed_by_word(elements) ==> keyed_by_word(merged(elements)) && distinct_keys(
            merged(elements),
        ),
        all_tags_sorted(elements) ==> all_tags_sorted(merged(elements)),
    decreases elements.len(),
{
    if elements.len() > 0 {
        let head = elements.drop_last();
        let acc = merged(head);
        let e = elements.last();
        let r = merged(elements);
        lemma_merged(head);
        lemma_find_word(acc, e.word, e.lang);
        assert forall|i: int| 0 <= i < head.len() implies head[i] == elements[i] by {}
        if keyed_by_word(elements) {
            assert(keyed_by_word(head));
        }
        if all_tags_sorted(elements) {
            assert forall|i: int| 0 <= i < head.len() implies tags_sorted(
                (#[trigger] head[i]).definitions,
            ) by {
                assert(head[i] == elements[i]);
            }
            assert(tags_sorted(e.definitions));
        }
        match find_word(acc, e.word, e.lang) {
            Some(p) => {
                lemma_consolidated(acc[p].definitions + e.definitions);
                assert forall|i: int| 0 <= i < r.len() implies r[i].word == acc[i].word
                    && r[i].lang == acc[i].lang && r[i].key == acc[i].key by {}
                assert forall|i: int| 0 <= i < r.len() implies distinct_texts(
                    (#[trigger] r[i]).definitions,
                ) by {
                    if i != p {
                        assert(r[i] == acc[i]);
                    }
                }
                if all_tags_sorted(elements) {
                    let both = acc[p].definitions + e.definitions;
                    assert forall|k: int| 0 <= k < both.len() implies is_sorted(
                        #[trigger] both[k].tags,
                    ) by {
                        if k < acc[p].definitions.len() {
                            assert(both[k] == acc[p].definitions[k]);
                        } else {
                            assert(both[k] == e.definitions[k - acc[p].definitions.len()]);
                        }
                    }
                    assert forall|i: int| 0 <= i < r.len() implies tags_sorted(
                        (#[trigger] r[i]).definitions,
                    ) by {
                        if i != p {
                            assert(r[i] == acc[i]);
                        }
                    }
                }
                if keyed_by_word(elements) {
                    assert forall|i: int| 0 <= i < r.len() implies (#[trigger] r[i]).key
                        == r[i].word by {
                        assert(acc[i].key == acc[i].word);
                    }
                }
            },
            None => {
                lemma_consolidated(e.definitions);
                assert forall|i: int| 0 <= i < r.len() implies distinct_texts(
                    (#[trigger] r[i]).definitions,
                ) by {
                    if i < acc.len() {
                        assert(r[i] == acc[i]);
                    }
                }
                if all_tags_sorted(elements) {
                    assert forall|i: int| 0 <= i < r.len() implies tags_sorted(
                        (#[trigger] r[i]).definitions,
                    ) by {
                        if i < acc.len() {
                            assert(r[i] == acc[i]);
                        }
                    }
                }
                if keyed_by_word(elements) {
                    assert forall|i: int| 0 <= i < r.len() implies (#[trigger] r[i]).key
                        == r[i].word by {
                        if i < acc.len() {
                            assert(r[i] == acc[i]);
                        }
                    }
                }
            },
        }
        if keyed_by_word(elements) {
            assert forall|i: int, j: int| 0 <= i < j < r.len() implies !(r[i].key == r[j].key
                && r[i].lang == r[j].lang) by {
                assert(r[i].key == r[i].word && r[j].key == r[j].word);
            }
        }
    }
}

/// Whether an entry is as it is built from a record: stored under its own
/// word, not dereferenced, with the tags of its definitions in ascending
/// order.
pub open spec fn fresh(e: EntryView) -> bool {
    e.key == e.word && e.dereferenced_text is None && tags_sorted(e.definitions)
}

/// Whether every entry is as it is built from a record.
pub open spec fn all_fresh(entries: Seq<EntryView>) -> bool {
    forall|i: int| 0 <= i < entries.len() ==> fresh(#[trigger] entries[i])
}

/// After merging, audio and word types hold nothing twice, and no entry is
/// dereferenced unless one was before.
proof fn lemma_merged_lists(elements: Seq<EntryView>)
    ensures
        forall|i: int|
            0 <= i < merged(elements).len() ==> (#[trigger] merged(
                elements,
            )[i]).audio.no_duplicates()
                && merged(elements)[i].word_types.no_duplicates(),
        (forall|i: int|
            0 <= i < elements.len() ==> (#[trigger] elements[i]).dereferenced_text is None)
            ==> (forall|i: int|
            0 <= i < merged(elements).len() ==> (#[trigger] merged(
                elements,
            )[i]).dereferenced_text is None),
    decreases elements.len(),
{
    if elements.len() > 0 {
        let head = elements.drop_last();
        let acc = merged(head);
        let e = elements.last();
        let r = merged(elements);
        lemma_merged_lists(head);
        assert forall|i: int| 0 <= i < head.len() implies head[i] == elements[i] by {}
        lemma_find_word(acc, e.word, e.lang);
        match find_word(acc, e.word, e.lang) {
            Some(p) => {
                lemma_dedup_of(acc[p].audio + e.audio);
                lemma_dedup_of(acc[p].word_types + e.word_types);
                assert forall|i: int| 0 <= i < r.len() implies
                    (#[trigger] r[i]).audio.no_duplicates()
                    && r[i].word_types.no_duplicates() && r[i].dereferenced_text
                    == acc[i].dereferenced_text by {
                    if i != p {
                        assert(r[i] == acc[i]);
                    }
                }
            },
            None => {
                lemma_dedup_of(e.audio);
                lemma_dedup_of(e.word_types);
                assert forall|i: int| 0 <= i < r.len() implies
                    (#[trigger] r[i]).audio.no_duplicates()
                    && r[i].word_types.no_duplicates() by {
                    if i < acc.len() {
                        assert(r[i] == acc[i]);
                    }
                }
                if forall|i: int| 0 <= i < elements.len() ==>
                    (#[trigger] elements[i]).dereferenced_text is None {
                    assert(elements[elements.len() - 1].dereferenced_text is None);
                    assert forall|i: int| 0 <= i < r.len() implies
                        (#[trigger] r[i]).dereferenced_text is None by {
                        if i < acc.len() {
                            assert(r[i] == acc[i]);
                        }
                    }
                }
            },
        }
    }
}

/// Merging entries that were built from records gives well-formed entries,
/// each stored under its own word, no two with the same key and language.
pub proof fn lemma_merged_well_formed(elements: Seq<EntryView>)
    requires
        all_fresh(elements),
    ensures
        all_well_formed(merged(elements)),
        keyed_by_word(merged(elements)),
        distinct_keys(merged(elements)),
{
    lemma_merged(elements);
    lemma_merged_lists(elements);
    assert(keyed_by_word(elements)) by {
        assert forall|i: int| 0 <= i < elements.len() implies (#[trigger] elements[i]).key
            == elements[i].word by {
            assert(fresh(elements[i]));
        }
    }
    assert(all_tags_sorted(elements)) by {
        assert forall|i: int| 0 <= i < elements.len() implies tags_sorted(
            (#[trigger] elements[i]).definitions,
        ) by {
            assert(fresh(elements[i]));
        }
    }
    assert forall|i: int| 0 <= i < elements.len() implies
        (#[trigger] elements[i]).dereferenced_text is None by {
        assert(fresh(elements[i]));
    }
    let m = merged(elements);
    assert forall|i: int| 0 <= i < m.len() implies (#[trigger] m[i]).well_formed() by {
        assert(m[i].audio.no_duplicates());
        assert(distinct_texts(m[i].definitions));
        assert(tags_sorted(m[i].definitions));
        assert(m[i].key == m[i].word);
        assert(m[i].dereferenced_text is None);
    }
}

/// The entry `existing` with the later entry `e` for the same word merged
/// into it.
pub fn merge_entries(existing: &DictionaryElementData, e: &DictionaryElementData) -> (r:
    DictionaryElementData)
    ensures
        r@ == merged_into(existing@, e@),
{
    let mut audio = concat_strings(&existing.audio, &e.audio);
    dedup_preserve_order(&mut audio);
    let ipa = if existing.ipa.is_none() {
        duplicate_option(&e.ipa)
    } else {
        duplicate_option(&existing.ipa)
    };
    let mut word_types = concat_strings(&existing.word_types, &e.word_types);
    dedup_preserve_order(&mut word_types);
    let mut definitions = concat_definitions(&existing.definitions, &e.definitions);
    consolidate_definitions(&mut definitions);
    DictionaryElementData {
        key: existing.key.clone(),
        word: existing.word.clone(),
        lang: existing.lang,
        audio,
        ipa,
        word_types,
        definitions,
        dereferenced_text: duplicate_option(&existing.dereferenced_text),
    }
}

/// The entry `e` as the first for its word.
pub fn normalize_entry(e: DictionaryElementData) -> (r: DictionaryElementData)
    ensures
        r@ == normalized(e@),
{
    let mut r = e;
    dedup_preserve_order(&mut r.audio);
    dedup_preserve_order(&mut r.word_types);
    consolidate_definitions(&mut r.definitions);
    r
}

/// Merges the entries that share a word and a language. The merged entry
/// stands where the first of them stood among the results; the others add
/// their audio, word types and definitions to it, and the first
/// pronunciation that any of them has.
pub fn merge_duplicates(elements: Vec<DictionaryElementData>) -> (r: Vec<DictionaryElementData>)
    ensures
        r.deep_view() == merged(elements.deep_view()),
        distinct_words(r.deep_view()),
        all_texts_distinct(r.deep_view()),
{
    let ghost input = elements.deep_view();
    let n = elements.len();
    let mut rest = reversed(elements);
    let mut result: Vec<DictionaryElementData> = Vec::new();
    let mut index = EntryIndex::new();
    let mut i: usize = 0;
    assert(result.deep_view() =~= merged(input.take(0)));
    while rest.len() > 0
        invariant
            i + rest.len() == n,
            input.len() == n,
            forall|j: int| 0 <= j < rest.len() ==> rest@[j]@ == input[n - 1 - j],
            result.deep_view() == merged(input.take(i as int)),
            result.len() <= i,
            forall|w: Seq<char>, l: TargetLanguage| #[trigger]
                index@.contains_key((w, l)) ==> index@[(w, l)] < result.len()
                    && result.deep_view()[index@[(w, l)] as int].word == w
                    && result.deep_view()[index@[(w, l)] as int].lang == l,
            forall|j: int|
                0 <= j < result.len() ==> index@.contains_key(
                    (
                        (#[trigger] result.deep_view()[j]).word,
                        result.deep_view()[j].lang,
                    ),
                ) && index@[(result.deep_view()[j].word, result.deep_view()[j].lang)] == j,
        decreases rest.len(),
    {
        let e = rest.pop().unwrap();
        let ghost acc = result.deep_view();
        proof {
            assert(input.take(i as int + 1).drop_last() =~= input.take(i as int));
            assert(input.take(i as int + 1).last() == e@);
            lemma_find_word(acc, e@.word, e@.lang);
        }
        match index.get(e.word.as_str(), e.lang) {
            Some(p) => {
                assert(find_word(acc, e@.word, e@.lang) == Some(p as int)) by {
                    let q = find_word(acc, e@.word, e@.lang).unwrap();
                    assert(index@[(acc[q].word, acc[q].lang)] == q);
                }
                let m = merge_entries(&result[p], &e);
                result[p] = m;
                assert(result.deep_view() =~= acc.update(p as int, merged_into(acc[p as int], e@)));
                assert forall|j: int| 0 <= j < result.len() implies result.deep_view()[j].word
                    == acc[j].word && result.deep_view()[j].lang == acc[j].lang by {}
            },
            None => {
                assert(find_word(acc, e@.word, e@.lang) is None) by {
                    if find_word(acc, e@.word, e@.lang) is Some {
                        let q = find_word(acc, e@.word, e@.lang).unwrap();
                        assert(index@.contains_key((acc[q].word, acc[q].lang)));
                    }
                }
                index.insert(e.word.clone(), e.lang, result.len());
                result.push(normalize_entry(e));
                assert(result.deep_view() =~= acc.push(normalized(e@)));
                assert forall|j: int| 0 <= j < acc.len() implies result.deep_view()[j]
                    == acc[j] by {}
            },
        }
        i += 1;
    }
    proof {
        assert(input.take(n as int) =~= input);
        lemma_merged(input);
    }
    result
}

} // verus!
