//! The query store: the compressed entries of a dump in a concurrent map,
//! and the ladder of keys that a lookup tries.

use vstd::prelude::*;
use vstd::string::StringExecFns;
use crate::codec::{
    blob_entry, bytes_dump, decompress_blob, dump_bytes, dump_of, entry_blob, languages_exist,
    read_compressed_dict, wrappers_of, CodecError,
};
use crate::entry::{
    CompressedDictionaryElementWrapper, DictionaryElementData, EntryView, WrapperView,
};
use crate::language::TargetLanguage;
use crate::lemmas::LemmaTable;
use crate::order::reversed;
use crate::text::{
    char_to_uppercase, char_uppercase_of, chars_of, lowercase_of, same_str, string_of_range,
    to_lowercase, to_uppercase, uppercase_of,
};

verus! {

/// `dashmap::DashMap`: a concurrent hash map, used only through the
/// functions below.
#[verifier::external_type_specification]
#[verifier::external_body]
#[verifier::reject_recursive_types(K)]
#[verifier::reject_recursive_types(V)]
#[verifier::reject_recursive_types(S)]
pub struct ExDashMap<K, V, S>(dashmap::DashMap<K, V, S>);

/// The map that holds the compressed data, keyed by the number of the
/// language and the key.
pub type BlobMap = dashmap::DashMap<(u8, String), Vec<u8>>;

/// What a `BlobMap` holds.
pub uninterp spec fn blobs(m: BlobMap) -> Map<(u8, Seq<char>), Seq<u8>>;

/// The map that holds nothing.
pub open spec fn no_blobs() -> Map<(u8, Seq<char>), Seq<u8>> {
    Map::empty()
}

/// `DashMap::new`: a map that holds nothing.
#[verifier::external_body]
fn blobs_new() -> (m: BlobMap)
    ensures
        blobs(m) == no_blobs(),
{
    dashmap::DashMap::new()
}

/// `DashMap::insert`: afterwards the map holds `blob` under the key, and
/// under every other key what it held before. The map is taken by unique
/// reference, so that nothing else reads or changes it meanwhile.
#[verifier::external_body]
fn blobs_insert(m: &mut BlobMap, lang: u8, key: String, blob: Vec<u8>)
    ensures
        blobs(*final(m)) == blobs(*old(m)).insert((lang, key@), blob@),
{
    m.insert((lang, key), blob);
}

/// `DashMap::get`, with the value it refers to copied out: what the map
/// holds under the key, `None` where it holds nothing there.
#[verifier::external_body]
fn blobs_get(m: &BlobMap, lang: u8, key: String) -> (r: Option<Vec<u8>>)
    ensures
        match r {
            Some(b) => blobs(*m).contains_key((lang, key@)) && blobs(*m)[(lang, key@)] == b@,
            None => !blobs(*m).contains_key((lang, key@)),
        },
{
    m.get(&(lang, key)).map(|entry| entry.value().clone())
}

/// The number under which a language is kept in the map.
pub open spec fn language_number(lang: TargetLanguage) -> u8 {
    lang.spec_index() as u8
}

/// `key` with its first character in uppercase and the rest in lowercase.
pub open spec fn titled(key: Seq<char>) -> Seq<char> {
    if key.len() == 0 {
        Seq::empty()
    } else {
        char_uppercase_of(key[0]) + lowercase_of(key.drop_first())
    }
}

/// The lemma of `key`, given its lowercase form: what the table maps the
/// key to, or failing that its lowercase form, where that differs from the
/// key. There is none where the table maps neither, or only to the key
/// itself.
pub open spec fn lemma_in(
    lemmas: Map<Seq<char>, Seq<char>>,
    key: Seq<char>,
    lowercase: Seq<char>,
) -> Option<Seq<char>> {
    if lemmas.contains_key(key) && lemmas[key] != key {
        Some(lemmas[key])
    } else if lemmas.contains_key(lowercase) && lemmas[lowercase] != key {
        Some(lemmas[lowercase])
    } else {
        None
    }
}

/// The ladder, given the forms of the key: the key itself; its lowercase
/// form and its titled form, each where it differs from the key; and the
/// uppercase and the lowercase form of its lemma, where it has one.
pub open spec fn ladder_from(
    key: Seq<char>,
    lowercase: Seq<char>,
    titled: Seq<char>,
    lemma_forms: Option<(Seq<char>, Seq<char>)>,
) -> Seq<Seq<char>> {
    seq![key] + (if lowercase != key {
        seq![lowercase]
    } else {
        Seq::empty()
    }) + (if titled != key {
        seq![titled]
    } else {
        Seq::empty()
    }) + (match lemma_forms {
        Some((upper, lower)) => seq![upper, lower],
        None => Seq::empty(),
    })
}

/// The uppercase and the lowercase form of the lemma of a Czech key; none
/// for a key without a lemma and for every other language.
pub open spec fn lemma_forms_of(
    lang: TargetLanguage,
    key: Seq<char>,
    lemmas: Map<Seq<char>, Seq<char>>,
) -> Option<(Seq<char>, Seq<char>)> {
    if lang == TargetLanguage::Czech {
        match lemma_in(lemmas, key, lowercase_of(key)) {
            Some(lemma) => Some((uppercase_of(lemma), lowercase_of(lemma))),
            None => None,
        }
    } else {
        None
    }
}

/// The ladder: the keys that a lookup tries, in order.
pub open spec fn ladder(
    lang: TargetLanguage,
    key: Seq<char>,
    lemmas: Map<Seq<char>, Seq<char>>,
) -> Seq<Seq<char>> {
    ladder_from(key, lowercase_of(key), titled(key), lemma_forms_of(lang, key, lemmas))
}

/// The first of `probes` under which the map holds something for `lang`.
pub open spec fn first_present(
    contents: Map<(TargetLanguage, Seq<char>), Seq<u8>>,
    lang: TargetLanguage,
    probes: Seq<Seq<char>>,
) -> Option<Seq<char>>
    decreases probes.len(),
{
    if probes.len() == 0 {
        None
    } else if contents.contains_key((lang, probes[0])) {
        Some(probes[0])
    } else {
        first_present(contents, lang, probes.drop_first())
    }
}

/// What the map answers to a row of probes: the entry held under the first
/// of them that the map holds anything under; nothing where there is none.
pub open spec fn answer_to(
    contents: Map<(TargetLanguage, Seq<char>), Seq<u8>>,
    lang: TargetLanguage,
    probes: Seq<Seq<char>>,
) -> Option<EntryView> {
    match first_present(contents, lang, probes) {
        Some(k) => blob_entry(contents[(lang, k)], k, lang),
        None => None,
    }
}

/// What a lookup answers: what the map answers to the ladder of the key.
pub open spec fn answer(
    contents: Map<(TargetLanguage, Seq<char>), Seq<u8>>,
    lemmas: Map<Seq<char>, Seq<char>>,
    lang: TargetLanguage,
    key: Seq<char>,
) -> Option<EntryView> {
    answer_to(contents, lang, ladder(lang, key, lemmas))
}

/// The map that stored entries make: each is held under its language and
/// key, a later one in place of an earlier one with the same language and
/// key.
pub open spec fn stored(wrappers: Seq<WrapperView>) -> Map<(TargetLanguage, Seq<char>), Seq<u8>>
    decreases wrappers.len(),
{
    if wrappers.len() == 0 {
        Map::empty()
    } else {
        stored(wrappers.drop_last()).insert(
            (wrappers.last().lang, wrappers.last().key),
            wrappers.last().compressed_data,
        )
    }
}

/// The stored entries that a map holds.
pub open spec fn held(contents: Map<(TargetLanguage, Seq<char>), Seq<u8>>) -> Set<WrapperView> {
    Set::new(
        |w: WrapperView|
            contents.contains_key((w.lang, w.key)) && contents[(w.lang, w.key)]
                == w.compressed_data,
    )
}

/// Whether no two stored entries have the same key and language.
pub open spec fn distinct_wrappers(wrappers: Seq<WrapperView>) -> bool {
    forall|i: int, j: int|
        0 <= i < j < wrappers.len() ==> !(wrappers[i].key == wrappers[j].key && wrappers[i].lang
            == wrappers[j].lang)
}

/// The key itself is the first key of the ladder: where the map holds
/// anything under it, the lookup stops there.
pub proof fn lemma_exact_key_first(
    contents: Map<(TargetLanguage, Seq<char>), Seq<u8>>,
    lemmas: Map<Seq<char>, Seq<char>>,
    lang: TargetLanguage,
    key: Seq<char>,
)
    requires
        contents.contains_key((lang, key)),
    ensures
        first_present(contents, lang, ladder(lang, key, lemmas)) == Some(key),
{
    assert(ladder(lang, key, lemmas)[0] == key);
}

/// A lookup stops at the first key of the ladder that the map holds anything
/// under: no key that the ladder tries before it is held, and what the keys
/// after it hold does not matter.
pub proof fn lemma_ladder_monotone(
    contents: Map<(TargetLanguage, Seq<char>), Seq<u8>>,
    lang: TargetLanguage,
    probes: Seq<Seq<char>>,
    i: int,
)
    requires
        0 <= i < probes.len(),
        contents.contains_key((lang, probes[i])),
        forall|j: int| 0 <= j < i ==> !contents.contains_key((lang, #[trigger] probes[j])),
    ensures
        first_present(contents, lang, probes) == Some(probes[i]),
        first_present(contents, lang, probes) == first_present(contents, lang, probes.take(i + 1)),
    decreases i,
{
    if i > 0 {
        assert(!contents.contains_key((lang, probes[0])));
        assert forall|j: int| 0 <= j < i - 1 implies !contents.contains_key(
            (lang, #[trigger] probes.drop_first()[j]),
        ) by {
            assert(probes.drop_first()[j] == probes[j + 1]);
        }
        lemma_ladder_monotone(contents, lang, probes.drop_first(), i - 1);
        assert(probes.take(i + 1).drop_first() =~= probes.drop_first().take(i));
        assert(probes.take(i + 1)[0] == probes[0]);
    } else {
        assert(probes.take(1)[0] == probes[0]);
    }
}

/// Where no two stored entries have the same key and language, the map they
/// make holds exactly them, each once.
pub proof fn lemma_stored_holds(wrappers: Seq<WrapperView>)
    requires
        distinct_wrappers(wrappers),
    ensures
        held(stored(wrappers)) == wrappers.to_set(),
        wrappers.no_duplicates(),
    decreases wrappers.len(),
{
    if wrappers.len() == 0 {
        assert(held(stored(wrappers)) =~= wrappers.to_set());
    } else {
        let head = wrappers.drop_last();
        let last = wrappers.last();
        assert forall|i: int| 0 <= i < head.len() implies head[i] == wrappers[i] by {}
        assert(distinct_wrappers(head)) by {
            assert forall|i: int, j: int| 0 <= i < j < head.len() implies !(head[i].key
                == head[j].key && head[i].lang == head[j].lang) by {
                assert(head[i] == wrappers[i] && head[j] == wrappers[j]);
            }
        }
        lemma_stored_holds(head);
        assert(!stored(head).contains_key((last.lang, last.key))) by {
            if stored(head).contains_key((last.lang, last.key)) {
                let w = WrapperView {
                    key: last.key,
                    lang: last.lang,
                    compressed_data: stored(head)[(last.lang, last.key)],
                };
                assert(held(stored(head)).contains(w));
                assert(head.to_set().contains(w));
                let i = choose|i: int| 0 <= i < head.len() && head[i] == w;
                assert(wrappers[i].key == wrappers[wrappers.len() - 1].key);
            }
        }
        assert forall|w: WrapperView| held(stored(wrappers)).contains(w)
            <==> wrappers.to_set().contains(w) by {
            if held(stored(wrappers)).contains(w) {
                if w.lang == last.lang && w.key == last.key {
                    assert(wrappers[wrappers.len() - 1] == w);
                } else {
                    assert(held(stored(head)).contains(w));
                    assert(head.to_set().contains(w));
                    let i = choose|i: int| 0 <= i < head.len() && head[i] == w;
                    assert(wrappers[i] == w);
                }
            }
            if wrappers.to_set().contains(w) {
                let i = choose|i: int| 0 <= i < wrappers.len() && wrappers[i] == w;
                if i < head.len() {
                    assert(head[i] == w);
                    assert(head.to_set().contains(w));
                    assert(held(stored(head)).contains(w));
                }
            }
        }
        assert(held(stored(wrappers)) =~= wrappers.to_set());
    }
}

/// The compressed entries of a dictionary, ready for lookups. The map holds
/// the compressed data of each entry under the language and the key of the
/// entry.
pub struct DictionaryStore {
    datastore: BlobMap,
    czech_lemmas: LemmaTable,
}

impl View for DictionaryStore {
    type V = Map<(TargetLanguage, Seq<char>), Seq<u8>>;

    closed spec fn view(&self) -> Map<(TargetLanguage, Seq<char>), Seq<u8>> {
        Map::new(
            |k: (TargetLanguage, Seq<char>)|
                blobs(self.datastore).contains_key((language_number(k.0), k.1)),
            |k: (TargetLanguage, Seq<char>)| blobs(self.datastore)[(language_number(k.0), k.1)],
        )
    }
}

/// `word` with its first character in uppercase and the rest in lowercase.
pub fn lowercase_with_first_uppercase(word: &str) -> (r: String)
    ensures
        r@ == titled(word@),
{
    let chars = chars_of(word);
    if chars.len() == 0 {
        return String::new();
    }
    let mut r = char_to_uppercase(chars[0]);
    let rest = string_of_range(&chars, 1, chars.len());
    assert(chars@.subrange(1, chars.len() as int) =~= chars@.drop_first());
    let lower = to_lowercase(rest.as_str());
    r.append(lower.as_str());
    r
}

impl DictionaryStore {
    /// The lemma table of the store.
    pub closed spec fn lemmas(&self) -> Map<Seq<char>, Seq<char>> {
        self.czech_lemmas@
    }

    /// The store of the given stored entries, with the given table of Czech
    /// lemmas.
    pub fn from_elements(
        elements: Vec<CompressedDictionaryElementWrapper>,
        czech_lemmas: LemmaTable,
    ) -> (r: DictionaryStore)
        ensures
            r@ == stored(elements.deep_view()),
            r.lemmas() == czech_lemmas@,
    {
        let mut datastore = blobs_new();
        let ghost input = elements.deep_view();
        let n = elements.len();
        let mut rest = reversed(elements);
        let mut i: usize = 0;
        while rest.len() > 0
            invariant
                i + rest.len() == n,
                input.len() == n,
                forall|j: int| 0 <= j < rest.len() ==> rest@[j]@ == input[n - 1 - j],
                forall|l: TargetLanguage, k: Seq<char>|
                    stored(input.take(i as int)).contains_key((l, k)) <==> #[trigger] blobs(
                        datastore,
                    ).contains_key((language_number(l), k)),
                forall|l: TargetLanguage, k: Seq<char>|
                    stored(input.take(i as int)).contains_key((l, k)) ==> #[trigger] blobs(
                        datastore,
                    )[(language_number(l), k)] == stored(input.take(i as int))[(l, k)],
            decreases rest.len(),
        {
            let e = rest.pop().unwrap();
            assert(input.take(i as int + 1).drop_last() =~= input.take(i as int));
            assert(input.take(i as int + 1).last() == e@);
            let lang = e.lang;
            blobs_insert(&mut datastore, lang.index() as u8, e.key, e.compressed_data);
            assert forall|l: TargetLanguage| #[trigger]
                language_number(l) == language_number(lang) implies l == lang by {}
            i += 1;
        }
        assert(input.take(n as int) =~= input);
        let r = DictionaryStore { datastore, czech_lemmas };
        assert(r@ =~= stored(input));
        r
    }

    /// Loads the bytes of a dump. Bytes that are no dump are refused, and so
    /// is a dump that names a language that does not exist. The store of a
    /// dump that was written from stored entries holds what those entries
    /// make.
    pub fn from_elements_dump(bytes: &[u8], czech_lemmas: LemmaTable) -> (r: Result<
        DictionaryStore,
        CodecError,
    >)
        ensures
            match bytes_dump(bytes@) {
                Some(d) => if languages_exist(d) {
                    r matches Ok(store) && store@ == stored(wrappers_of(d)) && store.lemmas()
                        == czech_lemmas@
                } else {
                    r matches Err(e) && e == CodecError::UnknownLanguage
                },
                None => r matches Err(e) && e == CodecError::Deserialization,
            },
            forall|wrappers: Seq<WrapperView>|
                dump_bytes(dump_of(wrappers)) == Some(bytes@) ==> (r matches Ok(store) && store@
                    == stored(wrappers)),
    {
        match read_compressed_dict(bytes) {
            Ok(elements) => Ok(DictionaryStore::from_elements(elements, czech_lemmas)),
            Err(e) => Err(e),
        }
    }

    /// The entry held under `(lang, key)`, if the map holds anything there.
    /// The outer option says whether it does.
    fn probe(&self, lang: TargetLanguage, key: String) -> (r: Option<Option<DictionaryElementData>>)
        ensures
            match r {
                Some(e) => self@.contains_key((lang, key@)) && e.deep_view() == blob_entry(
                    self@[(lang, key@)],
                    key@,
                    lang,
                ),
                None => !self@.contains_key((lang, key@)),
            },
            forall|e: EntryView|
                self@.contains_key((lang, key@)) && key@ == e.key && lang == e.lang && entry_blob(e)
                    == Ok::<Seq<u8>, CodecError>(self@[(lang, key@)]) ==> (r matches Some(x)
                    && x.deep_view() == Some(e)),
    {
        match blobs_get(&self.datastore, lang.index() as u8, key.clone()) {
            Some(blob) => Some(decompress_blob(blob.as_slice(), key, lang)),
            None => None,
        }
    }

    /// The answer to a row of probes: the entry held under the first of them
    /// that the store holds anything under, and no probe after it is tried.
    /// Where what is held there was made by compressing an entry, the answer
    /// is that entry.
    pub fn first_hit(&self, lang: TargetLanguage, probes: &Vec<String>) -> (r: Option<
        DictionaryElementData,
    >)
        ensures
            r.deep_view() == answer_to(self@, lang, probes.deep_view()),
            forall|e: EntryView|
                first_present(self@, lang, probes.deep_view()) == Some(e.key) && lang == e.lang
                    && entry_blob(e) == Ok::<Seq<u8>, CodecError>(self@[(lang, e.key)])
                    ==> r.deep_view() == Some(e),
    {
        let ghost keys = probes.deep_view();
        let mut i: usize = 0;
        assert(keys.skip(0) =~= keys);
        while i < probes.len()
            invariant
                i <= probes.len(),
                keys == probes.deep_view(),
                first_present(self@, lang, keys) == first_present(self@, lang, keys.skip(i as int)),
            decreases probes.len() - i,
        {
            proof {
                assert(keys.skip(i as int)[0] == probes@[i as int]@);
                assert(keys.skip(i as int).drop_first() =~= keys.skip(i as int + 1));
            }
            match self.probe(lang, probes[i].clone()) {
                Some(e) => {
                    return e;
                },
                None => {},
            }
            i += 1;
        }
        None
    }

    /// Looks `key` up in `lang`. The keys of the ladder are tried in order:
    /// the key itself; its lowercase form; its titled form; and, for a Czech
    /// key that the lemma table maps to a lemma other than the key, the
    /// uppercase and the lowercase form of that lemma. The first key that
    /// the store holds anything under decides: the answer is the entry that
    /// is held there, and no further key is tried.
    pub fn query(&self, lang: TargetLanguage, key: &str) -> (r: Option<DictionaryElementData>)
        ensures
            r.deep_view() == answer(self@, self.lemmas(), lang, key@),
            forall|e: EntryView|
                first_present(self@, lang, ladder(lang, key@, self.lemmas())) == Some(e.key) && lang
                    == e.lang && entry_blob(e) == Ok::<Seq<u8>, CodecError>(self@[(lang, e.key)])
                    ==> r.deep_view() == Some(e),
    {
        let all_lowercase = to_lowercase(key);
        let with_first = lowercase_with_first_uppercase(key);
        let lemma_forms = if lang == TargetLanguage::Czech {
            match czech_lemma(&self.czech_lemmas, key, all_lowercase.as_str()) {
                Some(lemma) => Some((to_uppercase(lemma.as_str()), to_lowercase(lemma.as_str()))),
                None => None,
            }
        } else {
            None
        };
        let probes = ladder_keys(key, all_lowercase, with_first, lemma_forms);
        self.first_hit(lang, &probes)
    }
}

/// The lemma of `key`, given its lowercase form: what the table maps the
/// key to, or failing that its lowercase form, where that differs from the
/// key.
pub fn czech_lemma(table: &LemmaTable, key: &str, lowercase: &str) -> (r: Option<String>)
    ensures
        r.deep_view() == lemma_in(table@, key@, lowercase@),
{
    match table.lookup(key) {
        Some(lemma) => {
            if !same_str(lemma.as_str(), key) {
                return Some(lemma);
            }
        },
        None => {},
    }
    match table.lookup(lowercase) {
        Some(lemma) => {
            if !same_str(lemma.as_str(), key) {
                return Some(lemma);
            }
        },
        None => {},
    }
    None
}

/// The keys of the ladder, given the forms of the key.
pub fn ladder_keys(
    key: &str,
    lowercase: String,
    titled: String,
    lemma_forms: Option<(String, String)>,
) -> (r: Vec<String>)
    ensures
        r.deep_view() == ladder_from(key@, lowercase@, titled@, lemma_forms.deep_view()),
{
    let mut r: Vec<String> = Vec::new();
    r.push(key.to_owned());
    if !same_str(lowercase.as_str(), key) {
        r.push(lowercase);
    }
    if !same_str(titled.as_str(), key) {
        r.push(titled);
    }
    match lemma_forms {
        Some((upper, lower)) => {
            r.push(upper);
            r.push(lower);
        },
        None => {},
    }
    assert(r.deep_view() =~= ladder_from(key@, lowercase@, titled@, lemma_forms.deep_view()));
    r
}

} // verus!
