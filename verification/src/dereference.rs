//! Dereferencing: an entry that only says "form of X" is replaced by a copy
//! of the entry of X, kept under its own key.

use vstd::prelude::*;
use vstd::hash_set::StringHashSet;
use crate::entry::{
    all_well_formed, distinct_texts, duplicate_option, duplicate_strings, ends_with_of,
    lemma_payloads_push, of_suffix, payloads, tags_sorted, DictionaryElementData, EntryView,
    Fragment, HyperlinkedText,
};
use crate::index::EntryIndex;
use crate::language::TargetLanguage;
use crate::merge::{all_tags_sorted, all_texts_distinct, distinct_keys, keyed_by_word};
use crate::order::reversed;
use crate::text::{
    chars_of, is_whitespace, lemma_whitespace_count_bound, push_char, same_str,
    string_of_range, trim_bounds, trimmed, whitespace_count,
};

verus! {

/// The most characters that may stand before the word "of".
pub const MAX_CHARS_BEFORE: usize = 100;

/// The most whitespace characters that may stand before the word "of".
pub const MAX_WHITESPACE_BEFORE: usize = 12;

/// The most characters that may follow the referenced link.
pub const MAX_CHARS_AFTER: usize = 30;

/// The word that introduces a reference.
pub open spec fn of_word() -> Seq<char> {
    seq!['o', 'f']
}

/// Whether a fragment is the word "of", whitespace around it aside.
pub open spec fn is_of(f: Fragment) -> bool {
    trimmed(f.payload()) == of_word()
}

/// The position of the link that fragment `i` refers to: the next fragment
/// if it is a link, else the one after it if that is a link.
pub open spec fn link_after(text: Seq<Fragment>, i: int) -> Option<int> {
    if i + 1 < text.len() && text[i + 1] is Link {
        Some(i + 1)
    } else if i + 2 < text.len() && text[i + 2] is Link {
        Some(i + 2)
    } else {
        None
    }
}

/// Whether fragment `i` is an "of" that is followed by a link.
pub open spec fn is_anchor(text: Seq<Fragment>, i: int) -> bool {
    0 <= i < text.len() && is_of(text[i]) && link_after(text, i) is Some
}

/// The first anchor at or after `from`.
pub open spec fn first_anchor_from(text: Seq<Fragment>, from: int) -> Option<int>
    decreases text.len() - from,
{
    if from < 0 || from >= text.len() {
        None
    } else if is_anchor(text, from) {
        Some(from)
    } else {
        first_anchor_from(text, from + 1)
    }
}

/// What a definition body refers to: the text before its first anchor,
/// trimmed and followed by " of", and the word of the link the anchor is
/// followed by. There is none where the body has no anchor, where more than
/// 100 characters or more than 12 whitespace characters precede the anchor,
/// or where more than 30 characters follow the link.
pub open spec fn dereference_of(text: Seq<Fragment>) -> Option<(Seq<char>, Seq<char>)> {
    match first_anchor_from(text, 0) {
        None => None,
        Some(i) => {
            let before = payloads(text.take(i));
            let link = link_after(text, i).unwrap();
            let after = payloads(text.skip(link + 1));
            if before.len() > MAX_CHARS_BEFORE || whitespace_count(before) > MAX_WHITESPACE_BEFORE
                || after.len() > MAX_CHARS_AFTER {
                None
            } else {
                Some((trimmed(before) + of_suffix(), text[link].payload()))
            }
        },
    }
}

/// The whitespace of two texts put together is that of both.
pub proof fn lemma_whitespace_count_concat(a: Seq<char>, b: Seq<char>)
    ensures
        whitespace_count(a + b) == whitespace_count(a) + whitespace_count(b),
    decreases b.len(),
{
    if b.len() == 0 {
        assert(a + b =~= a);
    } else {
        assert((a + b).drop_last() =~= a + b.drop_last());
        lemma_whitespace_count_concat(a, b.drop_last());
    }
}

/// The number of whitespace characters in `s`.
pub fn count_whitespace(s: &str) -> (n: usize)
    ensures
        n == whitespace_count(s@),
{
    let chars = chars_of(s);
    let mut n: usize = 0;
    let mut i: usize = 0;
    while i < chars.len()
        invariant
            i <= chars.len(),
            n <= i,
            n == whitespace_count(chars@.take(i as int)),
        decreases chars.len() - i,
    {
        assert(chars@.take(i as int + 1).drop_last() =~= chars@.take(i as int));
        if is_whitespace(chars[i]) {
            n += 1;
        }
        i += 1;
    }
    assert(chars@.take(chars.len() as int) =~= chars@);
    n
}

/// Whether the fragment is the word "of", whitespace around it aside.
fn fragment_is_of(f: &HyperlinkedText) -> (r: bool)
    ensures
        r == is_of(f@),
{
    let chars = chars_of(f.payload().as_str());
    let (a, b) = trim_bounds(&chars);
    if b - a == 2 && chars[a] == 'o' && chars[a + 1] == 'f' {
        assert(chars@.subrange(a as int, b as int) =~= of_word());
        true
    } else {
        assert(chars@.subrange(a as int, b as int) != of_word()) by {
            assert(of_word().len() == 2 && of_word()[0] == 'o' && of_word()[1] == 'f');
            if b - a == 2 {
                assert(chars@.subrange(a as int, b as int)[0] == chars@[a as int]);
                assert(chars@.subrange(a as int, b as int)[1] == chars@[a as int + 1]);
            }
        }
        false
    }
}

/// The position of the link that fragment `i` refers to.
fn find_link_after(text: &Vec<HyperlinkedText>, i: usize) -> (r: Option<usize>)
    requires
        i < text.len(),
    ensures
        match r {
            Some(p) => link_after(text.deep_view(), i as int) == Some(p as int) && p < text.len(),
            None => link_after(text.deep_view(), i as int) is None,
        },
{
    let n = text.len();
    assert(text.deep_view().len() == n);
    assert(forall|k: int| 0 <= k < n ==> text.deep_view()[k] == text@[k]@);
    if n - i > 1 && text[i + 1].is_link() {
        Some(i + 1)
    } else if n - i > 2 && text[i + 2].is_link() {
        Some(i + 2)
    } else {
        None
    }
}

/// Reads a definition body of the shape "... of X ..." and returns the label
/// that precedes X, which ends in " of", and the word X.
pub fn parse_dereference(text: &Vec<HyperlinkedText>) -> (r: Option<(String, String)>)
    ensures
        r.deep_view() == dereference_of(text.deep_view()),
{
    let ghost frags = text.deep_view();
    let n = text.len();
    // The first "of" that is followed by a link.
    let mut found: Option<(usize, usize)> = None;
    let mut i: usize = 0;
    while i < n && found.is_none()
        invariant
            i <= n == text.len(),
            frags == text.deep_view(),
            match found {
                Some((a, l)) => first_anchor_from(frags, 0) == Some(a as int) && link_after(
                    frags,
                    a as int,
                ) == Some(l as int) && a < l < n,
                None => first_anchor_from(frags, 0) == first_anchor_from(frags, i as int),
            },
        decreases n - i + if found is None { 1int } else { 0int },
    {
        if fragment_is_of(&text[i]) {
            match find_link_after(text, i) {
                Some(l) => {
                    found = Some((i, l));
                },
                None => {
                    i += 1;
                },
            }
        } else {
            i += 1;
        }
    }
    let (anchor, link) = match found {
        Some(p) => p,
        None => {
            return None;
        },
    };
    // The text before the anchor, with its length and whitespace bounded.
    let mut before: Vec<char> = Vec::new();
    let mut spaces: usize = 0;
    let mut j: usize = 0;
    while j < anchor
        invariant
            j <= anchor < n == text.len(),
            frags == text.deep_view(),
            before@ == payloads(frags.take(j as int)),
            before.len() <= MAX_CHARS_BEFORE,
            spaces == whitespace_count(before@),
            spaces <= MAX_WHITESPACE_BEFORE,
            first_anchor_from(frags, 0) == Some(anchor as int),
            link_after(frags, anchor as int) == Some(link as int),
        decreases anchor - j,
    {
        let chars = chars_of(text[j].payload().as_str());
        proof {
            assert(frags.take(j as int + 1) =~= frags.take(j as int).push(frags[j as int]));
            lemma_payloads_push(frags.take(j as int), frags[j as int]);
            lemma_whitespace_count_concat(before@, chars@);
            lemma_payloads_prefix_len(frags, j as int + 1, anchor as int);
            lemma_payloads_prefix_whitespace(frags, j as int + 1, anchor as int);
            lemma_whitespace_count_bound(chars@);
        }
        if chars.len() > MAX_CHARS_BEFORE - before.len() {
            return None;
        }
        let mut k: usize = 0;
        let ghost start = before@;
        proof {
            assert(before@ =~= start + chars@.take(0));
            lemma_whitespace_count_bound(before@);
        }
        while k < chars.len()
            invariant
                k <= chars.len(),
                before@ == start + chars@.take(k as int),
                start.len() + chars.len() <= MAX_CHARS_BEFORE,
                spaces == whitespace_count(before@),
                spaces <= before.len(),
            decreases chars.len() - k,
        {
            proof {
                assert(start + chars@.take(k as int + 1) =~= (start + chars@.take(k as int)).push(
                    chars@[k as int],
                ));
                assert((start + chars@.take(k as int)).push(chars@[k as int]).drop_last() =~= start
                    + chars@.take(k as int));
                lemma_whitespace_count_bound(before@);
            }
            if is_whitespace(chars[k]) {
                spaces += 1;
            }
            before.push(chars[k]);
            k += 1;
        }
        assert(chars@.take(chars.len() as int) =~= chars@);
        if spaces > MAX_WHITESPACE_BEFORE {
            return None;
        }
        j += 1;
    }
    assert(frags.take(anchor as int) =~= frags.take(j as int));
    // The text after the link, with its length bounded.
    let mut after: usize = 0;
    let mut m: usize = link + 1;
    while m < n
        invariant
            link < m <= n == text.len(),
            frags == text.deep_view(),
            after == payloads(frags.subrange(link as int + 1, m as int)).len(),
            after <= MAX_CHARS_AFTER,
            first_anchor_from(frags, 0) == Some(anchor as int),
            link_after(frags, anchor as int) == Some(link as int),
        decreases n - m,
    {
        let len = text[m].payload().as_str().unicode_len();
        proof {
            assert(frags[m as int] == text@[m as int]@);
            assert(frags.subrange(link as int + 1, m as int + 1) =~= frags.subrange(
                link as int + 1,
                m as int,
            ).push(frags[m as int]));
            lemma_payloads_push(frags.subrange(link as int + 1, m as int), frags[m as int]);
            lemma_payloads_range_len(frags, link as int + 1, m as int + 1, n as int);
            assert(frags.subrange(link as int + 1, n as int) =~= frags.skip(link as int + 1));
        }
        if len > MAX_CHARS_AFTER - after {
            return None;
        }
        after += len;
        m += 1;
    }
    assert(frags.subrange(link as int + 1, n as int) =~= frags.skip(link as int + 1));
    let (a, b) = trim_bounds(&before);
    let mut label = string_of_range(&before, a, b);
    push_char(&mut label, ' ');
    push_char(&mut label, 'o');
    push_char(&mut label, 'f');
    assert(label@ =~= trimmed(before@) + of_suffix());
    let word = text[link].payload().clone();
    Some((label, word))
}

/// A prefix of a body has no more characters than a longer prefix.
pub proof fn lemma_payloads_prefix_len(text: Seq<Fragment>, i: int, j: int)
    requires
        0 <= i <= j <= text.len(),
    ensures
        payloads(text.take(i)).len() <= payloads(text.take(j)).len(),
    decreases j - i,
{
    if i < j {
        assert(text.take(j) =~= text.take(j - 1).push(text[j - 1]));
        lemma_payloads_push(text.take(j - 1), text[j - 1]);
        lemma_payloads_prefix_len(text, i, j - 1);
    }
}

/// A prefix of a body has no more whitespace than a longer prefix.
pub proof fn lemma_payloads_prefix_whitespace(text: Seq<Fragment>, i: int, j: int)
    requires
        0 <= i <= j <= text.len(),
    ensures
        whitespace_count(payloads(text.take(i))) <= whitespace_count(payloads(text.take(j))),
    decreases j - i,
{
    if i < j {
        assert(text.take(j) =~= text.take(j - 1).push(text[j - 1]));
        lemma_payloads_push(text.take(j - 1), text[j - 1]);
        lemma_whitespace_count_concat(payloads(text.take(j - 1)), text[j - 1].payload());
        lemma_payloads_prefix_whitespace(text, i, j - 1);
    }
}

/// A range of a body that ends earlier has no more characters.
pub proof fn lemma_payloads_range_len(text: Seq<Fragment>, from: int, i: int, j: int)
    requires
        0 <= from <= i <= j <= text.len(),
    ensures
        payloads(text.subrange(from, i)).len() <= payloads(text.subrange(from, j)).len(),
    decreases j - i,
{
    if i < j {
        assert(text.subrange(from, j) =~= text.subrange(from, j - 1).push(text[j - 1]));
        lemma_payloads_push(text.subrange(from, j - 1), text[j - 1]);
        lemma_payloads_range_len(text, from, i, j - 1);
    }
}

/// The most definitions that an entry may have and still be dereferenced.
pub const MAX_DEFINITIONS: usize = 6;

/// The position of the first entry stored under `(key, lang)`.
pub open spec fn find_key(entries: Seq<EntryView>, key: Seq<char>, lang: TargetLanguage) -> Option<
    int,
>
    decreases entries.len(),
{
    if entries.len() == 0 {
        None
    } else {
        match find_key(entries.drop_last(), key, lang) {
            Some(i) => Some(i),
            None => if entries.last().key == key && entries.last().lang == lang {
                Some(entries.len() - 1)
            } else {
                None
            },
        }
    }
}

/// The entries as a map from `(key, language)` that keeps the order of
/// insertion: an entry whose key is taken replaces the one that has it.
pub open spec fn keyed(elements: Seq<EntryView>) -> Seq<EntryView>
    decreases elements.len(),
{
    if elements.len() == 0 {
        Seq::empty()
    } else {
        let acc = keyed(elements.drop_last());
        let e = elements.last();
        match find_key(acc, e.key, e.lang) {
            Some(i) => acc.update(i, e),
            None => acc.push(e),
        }
    }
}

/// Whether the tags say that the definition refers to another entry.
pub open spec fn marks_reference(tags: Seq<Seq<char>>) -> bool {
    tags.contains("Form-of"@) || tags.contains("Alt-of"@)
}

/// What an entry refers to: the label and the referenced word. Only an entry
/// of at most six definitions whose first definition is tagged `Form-of` or
/// `Alt-of` refers to anything.
pub open spec fn reference_of(e: EntryView) -> Option<(Seq<char>, Seq<char>)> {
    if e.definitions.len() == 0 || e.definitions.len() > MAX_DEFINITIONS {
        None
    } else if !marks_reference(e.definitions[0].tags) {
        None
    } else {
        dereference_of(e.definitions[0].text)
    }
}

/// Whether some entry that refers to another is stored under `key`, in
/// whatever language.
pub open spec fn is_candidate_key(slots: Seq<EntryView>, key: Seq<char>) -> bool {
    is_candidate_key_before(slots, key, slots.len() as int)
}

/// Whether one of the first `n` entries refers to another and is stored
/// under `key`.
pub open spec fn is_candidate_key_before(slots: Seq<EntryView>, key: Seq<char>, n: int) -> bool {
    exists|j: int|
        0 <= j < n && j < slots.len() && #[trigger] slots[j].key == key && reference_of(
            slots[j],
        ) is Some
}

/// One more entry adds its key where it refers to another.
proof fn lemma_candidate_key_step(slots: Seq<EntryView>, key: Seq<char>, n: int)
    requires
        0 <= n < slots.len(),
    ensures
        is_candidate_key_before(slots, key, n + 1) <==> is_candidate_key_before(slots, key, n) || (
        slots[n].key == key && reference_of(slots[n]) is Some),
{
    if is_candidate_key_before(slots, key, n + 1) {
        let j = choose|j: int|
            0 <= j < n + 1 && j < slots.len() && #[trigger] slots[j].key == key && reference_of(
                slots[j],
            ) is Some;
        if j < n {
            assert(is_candidate_key_before(slots, key, n));
        }
    }
    if is_candidate_key_before(slots, key, n) {
        let j = choose|j: int|
            0 <= j < n && j < slots.len() && #[trigger] slots[j].key == key && reference_of(
                slots[j],
            ) is Some;
        assert(0 <= j < n + 1 && slots[j].key == key);
    }
    if slots[n].key == key && reference_of(slots[n]) is Some {
        assert(is_candidate_key_before(slots, key, n + 1));
    }
}

/// A copy of `lemma` under the key of `form`, labelled, with the audio
/// and the pronunciation of `form` where `lemma` has none.
pub open spec fn grafted(lemma: EntryView, form: EntryView, label: Seq<char>) -> EntryView {
    EntryView {
        key: form.key,
        audio: if lemma.audio.len() == 0 {
            form.audio
        } else {
            lemma.audio
        },
        ipa: if lemma.ipa is None {
            form.ipa
        } else {
            lemma.ipa
        },
        dereferenced_text: Some(label),
        ..lemma
    }
}

/// Whether entry `i` is dereferenced: it refers to a word that no referring
/// entry is stored under, and that word has an entry in its language.
pub open spec fn is_dereferenced(slots: Seq<EntryView>, i: int) -> bool {
    match reference_of(slots[i]) {
        Some((label, word)) => !is_candidate_key(slots, word) && find_key(
            slots,
            word,
            slots[i].lang,
        ) is Some,
        None => false,
    }
}

/// Entry `i` after dereferencing.
pub open spec fn resolved(slots: Seq<EntryView>, i: int) -> EntryView {
    if is_dereferenced(slots, i) {
        let (label, word) = reference_of(slots[i]).unwrap();
        grafted(slots[find_key(slots, word, slots[i].lang).unwrap()], slots[i], label)
    } else {
        slots[i]
    }
}

/// The entries after dereferencing, one for each `(key, language)`.
pub open spec fn dereferenced(elements: Seq<EntryView>) -> Seq<EntryView> {
    let slots = keyed(elements);
    Seq::new(slots.len(), |i: int| resolved(slots, i))
}

/// What `find_key` finds is the first entry stored under that key and
/// language.
pub proof fn lemma_find_key(entries: Seq<EntryView>, key: Seq<char>, lang: TargetLanguage)
    ensures
        match find_key(entries, key, lang) {
            Some(i) => 0 <= i < entries.len() && entries[i].key == key && entries[i].lang == lang
                && forall|j: int|
                0 <= j < i ==> !(entries[j].key == key && entries[j].lang == lang),
            None => forall|j: int|
                0 <= j < entries.len() ==> !(entries[j].key == key && entries[j].lang == lang),
        },
    decreases entries.len(),
{
    if entries.len() > 0 {
        let head = entries.drop_last();
        lemma_find_key(head, key, lang);
        assert forall|j: int| 0 <= j < head.len() implies head[j] == entries[j] by {}
        match find_key(entries, key, lang) {
            Some(i) => {
                assert forall|j: int| 0 <= j < i implies !(entries[j].key == key
                    && entries[j].lang == lang) by {
                    assert(head[j] == entries[j]);
                }
            },
            None => {
                assert forall|j: int| 0 <= j < entries.len() implies !(entries[j].key == key
                    && entries[j].lang == lang) by {
                    if j < head.len() {
                        assert(head[j] == entries[j]);
                    }
                }
            },
        }
    }
}

/// In the keyed entries no two have the same key and language, and entries
/// that were stored under their own word still are.
pub proof fn lemma_keyed(elements: Seq<EntryView>)
    ensures
        distinct_keys(keyed(elements)),
        keyed(elements).len() <= elements.len(),
        keyed_by_word(elements) ==> keyed_by_word(keyed(elements)),
    decreases elements.len(),
{
    if elements.len() > 0 {
        let head = elements.drop_last();
        let acc = keyed(head);
        let e = elements.last();
        let r = keyed(elements);
        lemma_keyed(head);
        lemma_find_key(acc, e.key, e.lang);
        assert forall|i: int| 0 <= i < head.len() implies head[i] == elements[i] by {}
        if keyed_by_word(elements) {
            assert(keyed_by_word(head));
        }
        match find_key(acc, e.key, e.lang) {
            Some(p) => {
                assert forall|i: int| 0 <= i < r.len() implies r[i].key == acc[i].key && r[i].lang
                    == acc[i].lang by {}
                if keyed_by_word(elements) {
                    assert forall|i: int| 0 <= i < r.len() implies (#[trigger] r[i]).key
                        == r[i].word by {
                        if i != p {
                            assert(r[i] == acc[i]);
                        }
                    }
                }
            },
            None => {
                if keyed_by_word(elements) {
                    assert forall|i: int| 0 <= i < r.len() implies (#[trigger] r[i]).key
                        == r[i].word by {
                        if i < acc.len() {
                            assert(r[i] == acc[i]);
                        }
                    }
                }
            },
        }
    }
}

/// Every keyed entry is one of the entries that came in.
pub proof fn lemma_keyed_members(elements: Seq<EntryView>)
    ensures
        forall|i: int|
            0 <= i < keyed(elements).len() ==> elements.contains(#[trigger] keyed(elements)[i]),
    decreases elements.len(),
{
    if elements.len() > 0 {
        let head = elements.drop_last();
        let acc = keyed(head);
        let e = elements.last();
        let r = keyed(elements);
        lemma_keyed_members(head);
        lemma_find_key(acc, e.key, e.lang);
        assert forall|i: int| 0 <= i < r.len() implies elements.contains(#[trigger] r[i]) by {
            if r[i] == e {
                assert(elements[elements.len() - 1] == e);
            } else {
                assert(r[i] == acc[i]);
                assert(head.contains(acc[i]));
                let k = choose|k: int| 0 <= k < head.len() && head[k] == acc[i];
                assert(elements[k] == r[i]);
            }
        }
    }
}

/// Dereferencing makes no definitions of its own: where no entry that came
/// in has two definitions with the same body, none has afterwards, and
/// where all tags came in sorted, they still are.
pub proof fn lemma_dereferenced_definitions(elements: Seq<EntryView>)
    ensures
        all_texts_distinct(elements) ==> all_texts_distinct(dereferenced(elements)),
        all_tags_sorted(elements) ==> all_tags_sorted(dereferenced(elements)),
{
    let slots = keyed(elements);
    let r = dereferenced(elements);
    lemma_keyed_members(elements);
    assert forall|i: int| 0 <= i < r.len() implies exists|k: int|
        0 <= k < elements.len() && elements[k].definitions == (#[trigger] r[i]).definitions by {
        let source = if is_dereferenced(slots, i) {
            let (label, word) = reference_of(slots[i]).unwrap();
            lemma_find_key(slots, word, slots[i].lang);
            find_key(slots, word, slots[i].lang).unwrap()
        } else {
            i
        };
        assert(r[i].definitions == slots[source].definitions);
        assert(elements.contains(slots[source]));
        let k = choose|k: int| 0 <= k < elements.len() && elements[k] == slots[source];
        assert(elements[k].definitions == r[i].definitions);
    }
    if all_texts_distinct(elements) {
        assert forall|i: int| 0 <= i < r.len() implies distinct_texts(
            (#[trigger] r[i]).definitions,
        ) by {
            let k = choose|k: int|
                0 <= k < elements.len() && elements[k].definitions == r[i].definitions;
            assert(distinct_texts(elements[k].definitions));
        }
    }
    if all_tags_sorted(elements) {
        assert forall|i: int| 0 <= i < r.len() implies tags_sorted(
            (#[trigger] r[i]).definitions,
        ) by {
            let k = choose|k: int|
                0 <= k < elements.len() && elements[k].definitions == r[i].definitions;
            assert(tags_sorted(elements[k].definitions));
        }
    }
}

/// Dereferencing well-formed entries that are stored under their own words
/// gives well-formed entries.
pub proof fn lemma_dereferenced_well_formed(elements: Seq<EntryView>)
    requires
        all_well_formed(elements),
        keyed_by_word(elements),
    ensures
        all_well_formed(dereferenced(elements)),
{
    let slots = keyed(elements);
    let r = dereferenced(elements);
    lemma_keyed_members(elements);
    assert forall|i: int| 0 <= i < slots.len() implies (#[trigger] slots[i]).well_formed() by {
        assert(elements.contains(slots[i]));
        let k = choose|k: int| 0 <= k < elements.len() && elements[k] == slots[i];
        assert(elements[k].well_formed());
    }
    assert forall|i: int| 0 <= i < r.len() implies (#[trigger] r[i]).well_formed() by {
        assert(slots[i].well_formed());
        if is_dereferenced(slots, i) {
            let (label, word) = reference_of(slots[i]).unwrap();
            lemma_find_key(slots, word, slots[i].lang);
            let p = find_key(slots, word, slots[i].lang).unwrap();
            assert(slots[p].well_formed());
            lemma_dereferenced_entry(elements, i);
        }
    }
}

/// After dereferencing, no two entries have the same key and language.
pub proof fn lemma_dereferenced_keys(elements: Seq<EntryView>)
    ensures
        distinct_keys(dereferenced(elements)),
        dereferenced(elements).len() == keyed(elements).len(),
        forall|i: int|
            0 <= i < keyed(elements).len() ==> (#[trigger] dereferenced(elements)[i]).key == keyed(
                elements,
            )[i].key && dereferenced(elements)[i].lang == keyed(elements)[i].lang,
{
    let slots = keyed(elements);
    let r = dereferenced(elements);
    lemma_keyed(elements);
    assert forall|i: int| 0 <= i < slots.len() implies (#[trigger] r[i]).key == slots[i].key
        && r[i].lang == slots[i].lang by {
        if is_dereferenced(slots, i) {
            let (label, word) = reference_of(slots[i]).unwrap();
            lemma_find_key(slots, word, slots[i].lang);
        }
    }
    assert forall|i: int, j: int| 0 <= i < j < r.len() implies !(r[i].key == r[j].key && r[i].lang
        == r[j].lang) by {
        assert(r[i].key == slots[i].key && r[j].key == slots[j].key);
    }
}

/// A dereferenced entry carries a label that ends with " of" and, where
/// every entry came in stored under its own word, a word that differs from
/// its key: the word of the entry it refers to.
pub proof fn lemma_dereferenced_entry(elements: Seq<EntryView>, i: int)
    requires
        0 <= i < keyed(elements).len(),
        is_dereferenced(keyed(elements), i),
    ensures
        dereferenced(elements)[i].dereferenced_text is Some,
        ends_with_of(dereferenced(elements)[i].dereferenced_text.unwrap()),
        dereferenced(elements)[i].key == keyed(elements)[i].key,
        keyed_by_word(elements) ==> dereferenced(elements)[i].word != dereferenced(elements)[i].key,
{
    let slots = keyed(elements);
    let (label, word) = reference_of(slots[i]).unwrap();
    let text = slots[i].definitions[0].text;
    let anchor = first_anchor_from(text, 0).unwrap();
    let before = trimmed(payloads(text.take(anchor)));
    assert(label == before + of_suffix());
    assert(label.skip(label.len() - 3) =~= of_suffix());
    lemma_find_key(slots, word, slots[i].lang);
    lemma_keyed(elements);
    if keyed_by_word(elements) {
        let p = find_key(slots, word, slots[i].lang).unwrap();
        assert(slots[p].key == slots[p].word);
        if slots[p].word == slots[i].key {
            assert(is_candidate_key(slots, word));
        }
    }
}

/// Whether one of `tags` is `tag`.
fn has_tag(tags: &Vec<String>, tag: &str) -> (r: bool)
    ensures
        r == tags.deep_view().contains(tag@),
{
    let mut i: usize = 0;
    while i < tags.len()
        invariant
            i <= tags.len(),
            forall|j: int| 0 <= j < i ==> tags.deep_view()[j] != tag@,
        decreases tags.len() - i,
    {
        if same_str(tags[i].as_str(), tag) {
            assert(tags.deep_view()[i as int] == tag@);
            return true;
        }
        i += 1;
    }
    false
}

/// What the entry refers to, if it refers to anything.
pub fn entry_reference(e: &DictionaryElementData) -> (r: Option<(String, String)>)
    ensures
        r.deep_view() == reference_of(e@),
{
    if e.definitions.len() == 0 || e.definitions.len() > MAX_DEFINITIONS {
        return None;
    }
    let first = &e.definitions[0];
    assert(e@.definitions[0] == first@);
    if !has_tag(&first.tags, "Form-of") && !has_tag(&first.tags, "Alt-of") {
        return None;
    }
    parse_dereference(&first.text)
}

/// A copy of `lemma` under the key of `form`, labelled, with the audio
/// and the pronunciation of `form` where `lemma` has none.
pub fn graft(lemma: &DictionaryElementData, form: &DictionaryElementData, label: &String) -> (r:
    DictionaryElementData)
    ensures
        r@ == grafted(lemma@, form@, label@),
{
    let mut r = lemma.duplicate();
    r.key = form.key.clone();
    r.dereferenced_text = Some(label.clone());
    if r.audio.len() == 0 {
        r.audio = duplicate_strings(&form.audio);
    }
    if r.ipa.is_none() {
        r.ipa = duplicate_option(&form.ipa);
    }
    r
}

/// Replaces each entry that only refers to another by a copy of the entry it
/// refers to, kept under its own key. Entries come out one for each
/// `(key, language)`, in the order in which the keys first came in.
pub fn process_dereferences(elements: Vec<DictionaryElementData>) -> (r: Vec<DictionaryElementData>)
    ensures
        r.deep_view() == dereferenced(elements.deep_view()),
        distinct_keys(r.deep_view()),
{
    let ghost input = elements.deep_view();
    let n = elements.len();
    let mut rest = reversed(elements);
    // One slot for each key.
    let mut slots: Vec<DictionaryElementData> = Vec::new();
    let mut index = EntryIndex::new();
    let mut i: usize = 0;
    assert(slots.deep_view() =~= keyed(input.take(0)));
    while rest.len() > 0
        invariant
            i + rest.len() == n,
            input.len() == n,
            forall|j: int| 0 <= j < rest.len() ==> rest@[j]@ == input[n - 1 - j],
            slots.deep_view() == keyed(input.take(i as int)),
            forall|w: Seq<char>, l: TargetLanguage| #[trigger]
                index@.contains_key((w, l)) ==> index@[(w, l)] < slots.len()
                    && slots.deep_view()[index@[(w, l)] as int].key == w
                    && slots.deep_view()[index@[(w, l)] as int].lang == l,
            forall|j: int|
                0 <= j < slots.len() ==> index@.contains_key(
                    ((#[trigger] slots.deep_view()[j]).key, slots.deep_view()[j].lang),
                ) && index@[(slots.deep_view()[j].key, slots.deep_view()[j].lang)] == j,
        decreases rest.len(),
    {
        let e = rest.pop().unwrap();
        let ghost acc = slots.deep_view();
        proof {
            assert(e@ == input[i as int]);
            assert(input.take(i as int + 1).drop_last() =~= input.take(i as int));
            lemma_find_key(acc, e@.key, e@.lang);
        }
        match index.get(e.key.as_str(), e.lang) {
            Some(p) => {
                assert(find_key(acc, e@.key, e@.lang) == Some(p as int)) by {
                    let q = find_key(acc, e@.key, e@.lang).unwrap();
                    assert(index@[(acc[q].key, acc[q].lang)] == q);
                }
                slots[p] = e;
                assert(slots.deep_view() =~= acc.update(p as int, e@));
                assert forall|j: int| 0 <= j < slots.len() implies slots.deep_view()[j].key
                    == acc[j].key && slots.deep_view()[j].lang == acc[j].lang by {}
            },
            None => {
                assert(find_key(acc, e@.key, e@.lang) is None) by {
                    if find_key(acc, e@.key, e@.lang) is Some {
                        let q = find_key(acc, e@.key, e@.lang).unwrap();
                        assert(index@.contains_key((acc[q].key, acc[q].lang)));
                    }
                }
                index.insert(e.key.clone(), e.lang, slots.len());
                slots.push(e);
                assert(slots.deep_view() =~= acc.push(e@));
                assert forall|j: int| 0 <= j < acc.len() implies slots.deep_view()[j]
                    == acc[j] by {}
            },
        }
        i += 1;
    }
    assert(input.take(n as int) =~= input);
    // The entries as they are keyed, before any of them is replaced.
    let ghost base = slots.deep_view();
    let m = slots.len();
    // What each entry refers to, and the keys of those that refer to anything.
    let mut references: Vec<Option<(String, String)>> = Vec::new();
    let mut candidate_keys = StringHashSet::new();
    let mut j: usize = 0;
    while j < m
        invariant
            j <= m == slots.len(),
            slots.deep_view() == base,
            references.len() == j,
            forall|k: int|
                0 <= k < j ==>
                    (#[trigger] references@[k]).deep_view() == reference_of(base[k]),
            forall|key: Seq<char>|
                candidate_keys@.contains(key) <==> is_candidate_key_before(base, key, j as int),
        decreases m - j,
    {
        let reference = entry_reference(&slots[j]);
        let ghost keys_before = candidate_keys@;
        if reference.is_some() {
            candidate_keys.insert(slots[j].key.clone());
        }
        proof {
            assert forall|key: Seq<char>|
                candidate_keys@.contains(key) <==> is_candidate_key_before(
                    base,
                    key,
                    j as int + 1,
                ) by {
                lemma_candidate_key_step(base, key, j as int);
            }
        }
        references.push(reference);
        j += 1;
    }
    assert forall|key: Seq<char>| candidate_keys@.contains(key) <==> is_candidate_key(
        base,
        key,
    ) by {}
    // Each dereferenced entry takes the place of the entry that referred.
    let mut k: usize = 0;
    while k < m
        invariant
            k <= m == slots.len(),
            references.len() == m,
            base.len() == m,
            forall|q: int|
                0 <= q < m ==>
                    (#[trigger] references@[q]).deep_view() == reference_of(base[q]),
            forall|key: Seq<char>|
                candidate_keys@.contains(key) <==> is_candidate_key(base, key),
            forall|q: int|
                0 <= q < k ==> #[trigger] slots.deep_view()[q] == resolved(base, q),
            forall|q: int| k <= q < m ==> #[trigger] slots.deep_view()[q] == base[q],
            forall|w: Seq<char>, l: TargetLanguage| #[trigger]
                index@.contains_key((w, l)) ==> index@[(w, l)] < m
                    && base[index@[(w, l)] as int].key == w
                    && base[index@[(w, l)] as int].lang == l,
            forall|q: int|
                0 <= q < m ==> index@.contains_key(((#[trigger] base[q]).key, base[q].lang))
                    && index@[(base[q].key, base[q].lang)] == q,
        decreases m - k,
    {
        let ghost current = slots.deep_view();
        let mut replacement: Option<DictionaryElementData> = None;
        assert(current[k as int] == base[k as int]);
        match &references[k] {
            Some((label, word)) => {
                assert(references@[k as int].deep_view() == Some((label@, word@)));
                assert(reference_of(base[k as int]) == Some((label@, word@)));
                if !candidate_keys.contains(word.as_str()) {
                    let ghost found = find_key(base, word@, base[k as int].lang);
                    proof {
                        lemma_find_key(base, word@, base[k as int].lang);
                    }
                    match index.get(word.as_str(), slots[k].lang) {
                        Some(p) => {
                            proof {
                                assert(base[p as int].key == word@ && base[p as int].lang
                                    == base[k as int].lang);
                                assert(found is Some);
                                let q = found.unwrap();
                                assert(index@[(base[q].key, base[q].lang)] == q);
                                assert(q == p);
                                // The referenced entry refers to nothing, so it is
                                // still what it was.
                                if reference_of(base[p as int]) is Some {
                                    assert(is_candidate_key(base, word@));
                                }
                                assert(!is_dereferenced(base, p as int));
                                assert(current[p as int] == base[p as int]);
                                assert(is_dereferenced(base, k as int));
                            }
                            let e = graft(&slots[p], &slots[k], label);
                            assert(e@ == resolved(base, k as int));
                            replacement = Some(e);
                        },
                        None => {
                            proof {
                                if found is Some {
                                    let q = found.unwrap();
                                    assert(index@.contains_key((base[q].key, base[q].lang)));
                                }
                                assert(found is None);
                                assert(!is_dereferenced(base, k as int));
                            }
                        },
                    }
                } else {
                    assert(is_candidate_key(base, word@));
                    assert(!is_dereferenced(base, k as int));
                }
            },
            None => {
                assert(references@[k as int].deep_view() is None);
                assert(!is_dereferenced(base, k as int));
            },
        }
        assert(match replacement {
            Some(e) => e@ == resolved(base, k as int),
            None => base[k as int] == resolved(base, k as int),
        });
        match replacement {
            Some(e) => {
                slots[k] = e;
                assert(slots.deep_view() =~= current.update(k as int, e@));
            },
            None => {},
        }
        assert(slots.deep_view() == current.update(k as int, resolved(base, k as int)));
        assert forall|q: int| 0 <= q < k + 1 implies #[trigger] slots.deep_view()[q] == resolved(
            base,
            q,
        ) by {
            if q < k {
                assert(current[q] == resolved(base, q));
            }
        }
        assert forall|q: int| k + 1 <= q < m implies #[trigger] slots.deep_view()[q]
            == base[q] by {
            assert(current[q] == base[q]);
        }
        k += 1;
    }
    proof {
        assert(slots.deep_view() =~= dereferenced(input));
        lemma_dereferenced_keys(input);
    }
    slots
}

} // verus!
