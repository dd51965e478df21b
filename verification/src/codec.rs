//! The dump codec: an entry is serialized and compressed on its own, and the
//! dump is the serialized vector of the compressed entries.
//!
//! Serialization is `bincode`'s and compression is `zstd`'s; what they
//! produce is only named here, together with the fact that each reads back
//! what it wrote. What is proved is how entries are laid out for them and
//! read back.

use vstd::prelude::*;
use vstd::slice::slice_to_vec;
use crate::entry::{
    duplicate_option, duplicate_strings, CompressedDictionaryElementWrapper, Definition,
    DefinitionView, DictionaryElementData, EntryView, Fragment, HyperlinkedText, WrapperView,
};
use crate::language::{language_at, TargetLanguage};
use crate::order::reversed;

verus! {

/// `bincode::ErrorKind`, of which nothing is read.
#[verifier::external_type_specification]
#[verifier::external_body]
pub struct ExBincodeErrorKind(bincode::ErrorKind);

/// `std::io::Error`, of which nothing is read.
#[verifier::external_type_specification]
#[verifier::external_body]
pub struct ExIoError(std::io::Error);

/// The level at which entries are compressed.
pub const COMPRESS_LVL: i32 = 4;

/// The number that stands for a plain fragment.
pub const KIND_PLAIN: u32 = 0;

/// The number that stands for a link.
pub const KIND_LINK: u32 = 1;

/// A definition as it is serialized: its fragments, each with the number of
/// its kind, and its tags.
pub type DefinitionRecord = (Vec<(u32, String)>, Vec<String>);

/// An entry as it is serialized: word, audio, pronunciation, word types,
/// definitions and label. Key and language stay outside.
pub type EntryRecord = (
    String,
    Vec<String>,
    Option<String>,
    Vec<String>,
    Vec<DefinitionRecord>,
    Option<String>,
);

/// A compressed entry as it is serialized: key, number of the language, and
/// compressed data.
pub type WrapperRecord = (String, u32, Vec<u8>);

/// What a `DefinitionRecord` is.
pub type DefinitionRecordView = (Seq<(u32, Seq<char>)>, Seq<Seq<char>>);

/// What an `EntryRecord` is.
pub type EntryRecordView = (
    Seq<char>,
    Seq<Seq<char>>,
    Option<Seq<char>>,
    Seq<Seq<char>>,
    Seq<DefinitionRecordView>,
    Option<Seq<char>>,
);

/// What a `WrapperRecord` is.
pub type WrapperRecordView = (Seq<char>, u32, Seq<u8>);

/// Why the codec failed.
#[derive(Clone, Copy, Debug, PartialEq, Eq, Structural)]
pub enum CodecError {
    /// Serialization reported an error.
    Serialization,
    /// Compression reported an error.
    Compression,
    /// The bytes are not a serialized dump.
    Deserialization,
    /// The dump names a language that does not exist.
    UnknownLanguage,
}

/// The bytes that an entry record is serialized to; none where
/// serialization fails.
pub uninterp spec fn record_bytes(record: EntryRecordView) -> Option<Seq<u8>>;

/// The entry record that bytes are deserialized to, if they hold one.
pub uninterp spec fn bytes_record(bytes: Seq<u8>) -> Option<EntryRecordView>;

/// The bytes that the records of a dump are serialized to; none where
/// serialization fails.
pub uninterp spec fn dump_bytes(dump: Seq<WrapperRecordView>) -> Option<Seq<u8>>;

/// The records that bytes are deserialized to, if they hold a dump.
pub uninterp spec fn bytes_dump(bytes: Seq<u8>) -> Option<Seq<WrapperRecordView>>;

/// The zstd frame that data is compressed to at a level; none where
/// compression fails.
pub uninterp spec fn zstd_frame(data: Seq<u8>, level: i32) -> Option<Seq<u8>>;

/// The data that zstd frames decompress to, if they are well formed.
pub uninterp spec fn zstd_content(frame: Seq<u8>) -> Option<Seq<u8>>;

/// `bincode::serialize` on an entry record: the bytes that the record is
/// serialized to, or an error where it cannot be serialized.
#[verifier::external_body]
fn serialize_record(record: &EntryRecord) -> (r: Result<Vec<u8>, Box<bincode::ErrorKind>>)
    ensures
        match r {
            Ok(bytes) => record_bytes(record.deep_view()) == Some(bytes@),
            Err(_) => record_bytes(record.deep_view()) is None,
        },
{
    bincode::serialize(record)
}

/// `bincode::deserialize` to an entry record: the record that the bytes
/// hold, or an error where they hold none. The bytes that a record was
/// serialized to hold that record.
#[verifier::external_body]
fn deserialize_record(bytes: &[u8]) -> (r: Result<EntryRecord, Box<bincode::ErrorKind>>)
    ensures
        match r {
            Ok(record) => bytes_record(bytes@) == Some(record.deep_view()),
            Err(_) => bytes_record(bytes@) is None,
        },
        forall|record: EntryRecordView| record_bytes(record) == Some(bytes@) ==> r is Ok,
        forall|record: EntryRecordView|
            record_bytes(record) == Some(bytes@) ==> (r matches Ok(v) ==> v.deep_view() == record),
{
    bincode::deserialize(bytes)
}

/// `bincode::serialize` on the records of a dump: the bytes that the
/// records are serialized to, or an error where they cannot be serialized.
#[verifier::external_body]
fn serialize_dump(dump: &Vec<WrapperRecord>) -> (r: Result<Vec<u8>, Box<bincode::ErrorKind>>)
    ensures
        match r {
            Ok(bytes) => dump_bytes(dump.deep_view()) == Some(bytes@),
            Err(_) => dump_bytes(dump.deep_view()) is None,
        },
{
    bincode::serialize(dump)
}

/// `bincode::deserialize` to the records of a dump: the records that the
/// bytes hold, or an error where they hold none. The bytes that records
/// were serialized to hold those records.
#[verifier::external_body]
fn deserialize_dump(bytes: &[u8]) -> (r: Result<Vec<WrapperRecord>, Box<bincode::ErrorKind>>)
    ensures
        match r {
            Ok(dump) => bytes_dump(bytes@) == Some(dump.deep_view()),
            Err(_) => bytes_dump(bytes@) is None,
        },
        forall|dump: Seq<WrapperRecordView>| dump_bytes(dump) == Some(bytes@) ==> r is Ok,
        forall|dump: Seq<WrapperRecordView>|
            dump_bytes(dump) == Some(bytes@) ==> (r matches Ok(v) ==> v.deep_view() == dump),
{
    bincode::deserialize(bytes)
}

/// `zstd::stream::encode_all` on a byte slice: the frame of the data at
/// that level, or an error where the data cannot be compressed.
#[verifier::external_body]
fn zstd_encode(data: &[u8], level: i32) -> (r: Result<Vec<u8>, std::io::Error>)
    ensures
        match r {
            Ok(frame) => zstd_frame(data@, level) == Some(frame@),
            Err(_) => zstd_frame(data@, level) is None,
        },
{
    zstd::stream::encode_all(data, level)
}

/// `zstd::stream::decode_all` on a byte slice: the data that the frames
/// hold, or an error where they are malformed. The frame that data was
/// compressed to holds that data.
#[verifier::external_body]
fn zstd_decode(frame: &[u8]) -> (r: Result<Vec<u8>, std::io::Error>)
    ensures
        match r {
            Ok(data) => zstd_content(frame@) == Some(data@),
            Err(_) => zstd_content(frame@) is None,
        },
        forall|data: Seq<u8>, level: i32| zstd_frame(data, level) == Some(frame@) ==> r is Ok,
        forall|data: Seq<u8>, level: i32|
            zstd_frame(data, level) == Some(frame@) ==> (r matches Ok(v) ==> v@ == data),
{
    zstd::stream::decode_all(frame)
}

/// A fragment as it is serialized.
pub open spec fn fragment_record(f: Fragment) -> (u32, Seq<char>) {
    match f {
        Fragment::Plain(s) => (KIND_PLAIN, s),
        Fragment::Link(s) => (KIND_LINK, s),
    }
}

/// The fragment that a serialized fragment stands for, if its kind exists.
pub open spec fn record_fragment(r: (u32, Seq<char>)) -> Option<Fragment> {
    if r.0 == KIND_PLAIN {
        Some(Fragment::Plain(r.1))
    } else if r.0 == KIND_LINK {
        Some(Fragment::Link(r.1))
    } else {
        None
    }
}

/// A definition as it is serialized.
pub open spec fn definition_record(d: DefinitionView) -> DefinitionRecordView {
    (d.text.map_values(|f: Fragment| fragment_record(f)), d.tags)
}

/// Whether every serialized fragment is of a kind that exists.
pub open spec fn kinds_exist(text: Seq<(u32, Seq<char>)>) -> bool {
    forall|i: int| 0 <= i < text.len() ==> (#[trigger] text[i]).0 <= KIND_LINK
}

/// The definition that a serialized definition stands for, if the kinds of
/// its fragments exist.
pub open spec fn record_definition(r: DefinitionRecordView) -> Option<DefinitionView> {
    if kinds_exist(r.0) {
        Some(
            DefinitionView {
                text: r.0.map_values(|f: (u32, Seq<char>)| record_fragment(f).unwrap()),
                tags: r.1,
            },
        )
    } else {
        None
    }
}

/// An entry as it is serialized.
pub open spec fn record_of(e: EntryView) -> EntryRecordView {
    (
        e.word,
        e.audio,
        e.ipa,
        e.word_types,
        e.definitions.map_values(|d: DefinitionView| definition_record(d)),
        e.dereferenced_text,
    )
}

/// Whether every serialized definition stands for a definition.
pub open spec fn definitions_exist(defs: Seq<DefinitionRecordView>) -> bool {
    forall|i: int| 0 <= i < defs.len() ==> kinds_exist((#[trigger] defs[i]).0)
}

/// The entry that a record stands for under a key and a language, if the
/// kinds of its fragments exist.
pub open spec fn entry_of_record(
    record: EntryRecordView,
    key: Seq<char>,
    lang: TargetLanguage,
) -> Option<EntryView> {
    if definitions_exist(record.4) {
        Some(
            EntryView {
                key: key,
                word: record.0,
                lang: lang,
                audio: record.1,
                ipa: record.2,
                word_types: record.3,
                definitions: record.4.map_values(
                    |d: DefinitionRecordView| record_definition(d).unwrap(),
                ),
                dereferenced_text: record.5,
            },
        )
    } else {
        None
    }
}

/// The record of an entry stands for that entry.
pub proof fn lemma_record_round_trip(e: EntryView)
    ensures
        entry_of_record(record_of(e), e.key, e.lang) == Some(e),
{
    let record = record_of(e);
    assert forall|i: int| 0 <= i < record.4.len() implies kinds_exist((#[trigger] record.4[i]).0)
        && record_definition(record.4[i]) == Some(e.definitions[i]) by {
        let d = e.definitions[i];
        let r = definition_record(d);
        assert(record.4[i] == r);
        assert forall|k: int| 0 <= k < r.0.len() implies (#[trigger] r.0[k]).0 <= KIND_LINK
            && record_fragment(r.0[k]) == Some(d.text[k]) by {
            assert(r.0[k] == fragment_record(d.text[k]));
        }
        assert(r.0.map_values(|f: (u32, Seq<char>)| record_fragment(f).unwrap()) =~= d.text);
    }
    assert(record.4.map_values(|d: DefinitionRecordView| record_definition(d).unwrap())
        =~= e.definitions);
}

/// The compressed data of an entry: the frame of its serialized record, or
/// the error of the step that fails.
pub open spec fn entry_blob(e: EntryView) -> Result<Seq<u8>, CodecError> {
    match record_bytes(record_of(e)) {
        Some(bytes) => match zstd_frame(bytes, COMPRESS_LVL) {
            Some(frame) => Ok(frame),
            None => Err(CodecError::Compression),
        },
        None => Err(CodecError::Serialization),
    }
}

/// An entry as it is stored, or the error of the step that fails.
pub open spec fn compressed_of(e: EntryView) -> Result<WrapperView, CodecError> {
    match entry_blob(e) {
        Ok(frame) => Ok(WrapperView { key: e.key, lang: e.lang, compressed_data: frame }),
        Err(err) => Err(err),
    }
}

/// The entries as they are stored, in order, or the error of the first
/// entry that cannot be stored.
pub open spec fn compressed_all(entries: Seq<EntryView>) -> Result<Seq<WrapperView>, CodecError>
    decreases entries.len(),
{
    if entries.len() == 0 {
        Ok(Seq::empty())
    } else {
        match compressed_all(entries.drop_last()) {
            Ok(before) => match compressed_of(entries.last()) {
                Ok(w) => Ok(before.push(w)),
                Err(err) => Err(err),
            },
            Err(err) => Err(err),
        }
    }
}

/// Where all entries can be stored, there is one stored entry for each, in
/// order, with its key and language.
pub proof fn lemma_compressed_all(entries: Seq<EntryView>)
    ensures
        compressed_all(entries) matches Ok(stored) ==> stored.len() == entries.len() && forall|
            i: int,
        |
            0 <= i < entries.len() ==> compressed_of(entries[i]) == Ok::<WrapperView, CodecError>(
                #[trigger] stored[i],
            ) && stored[i].key == entries[i].key && stored[i].lang == entries[i].lang,
    decreases entries.len(),
{
    if entries.len() > 0 {
        lemma_compressed_all(entries.drop_last());
        if let Ok(stored) = compressed_all(entries) {
            let before = compressed_all(entries.drop_last()).unwrap();
            assert forall|i: int| 0 <= i < entries.len() implies compressed_of(entries[i])
                == Ok::<WrapperView, CodecError>(#[trigger] stored[i]) && stored[i].key
                == entries[i].key && stored[i].lang == entries[i].lang by {
                if i < entries.len() - 1 {
                    assert(stored[i] == before[i]);
                    assert(entries.drop_last()[i] == entries[i]);
                }
            }
        }
    }
}

/// The entry that stored data holds under a key and a language, if it holds
/// one.
pub open spec fn blob_entry(blob: Seq<u8>, key: Seq<char>, lang: TargetLanguage) -> Option<
    EntryView,
> {
    match zstd_content(blob) {
        Some(bytes) => match bytes_record(bytes) {
            Some(record) => entry_of_record(record, key, lang),
            None => None,
        },
        None => None,
    }
}

/// The entry that a stored entry holds, if it holds one.
pub open spec fn decompressed_of(w: WrapperView) -> Option<EntryView> {
    blob_entry(w.compressed_data, w.key, w.lang)
}

/// The stored entries as the records of a dump.
pub open spec fn dump_of(wrappers: Seq<WrapperView>) -> Seq<WrapperRecordView> {
    wrappers.map_values(|w: WrapperView| (w.key, w.lang.spec_index() as u32, w.compressed_data))
}

/// Whether every record of a dump names a language that exists.
pub open spec fn languages_exist(dump: Seq<WrapperRecordView>) -> bool {
    forall|i: int| 0 <= i < dump.len() ==> language_at((#[trigger] dump[i]).1 as int) is Some
}

/// The stored entries that the records of a dump stand for.
pub open spec fn wrappers_of(dump: Seq<WrapperRecordView>) -> Seq<WrapperView> {
    dump.map_values(
        |r: WrapperRecordView|
            WrapperView { key: r.0, lang: language_at(r.1 as int).unwrap(), compressed_data: r.2 },
    )
}

/// The records of stored entries stand for those entries.
pub proof fn lemma_dump_round_trip(wrappers: Seq<WrapperView>)
    ensures
        languages_exist(dump_of(wrappers)),
        wrappers_of(dump_of(wrappers)) == wrappers,
{
    let dump = dump_of(wrappers);
    assert forall|i: int| 0 <= i < dump.len() implies language_at((#[trigger] dump[i]).1 as int)
        == Some(wrappers[i].lang) by {
        assert(dump[i].1 == wrappers[i].lang.spec_index() as u32);
    }
    assert(wrappers_of(dump) =~= wrappers);
}

/// The fragments of a definition body as they are serialized.
fn text_to_record(text: &Vec<HyperlinkedText>) -> (r: Vec<(u32, String)>)
    ensures
        r.deep_view() == text.deep_view().map_values(|f: Fragment| fragment_record(f)),
{
    let mut r: Vec<(u32, String)> = Vec::new();
    let mut i: usize = 0;
    while i < text.len()
        invariant
            i <= text.len(),
            r.len() == i,
            forall|k: int|
                0 <= k < i ==> (#[trigger] r@[k]).deep_view() == fragment_record(text@[k]@),
        decreases text.len() - i,
    {
        let f = match &text[i] {
            HyperlinkedText::Plain(s) => (KIND_PLAIN, s.clone()),
            HyperlinkedText::Link(s) => (KIND_LINK, s.clone()),
        };
        r.push(f);
        i += 1;
    }
    assert(r.deep_view() =~= text.deep_view().map_values(|f: Fragment| fragment_record(f)));
    r
}

/// The definitions of an entry as they are serialized.
fn definitions_to_record(definitions: &Vec<Definition>) -> (r: Vec<DefinitionRecord>)
    ensures
        r.deep_view() == definitions.deep_view().map_values(
            |d: DefinitionView| definition_record(d),
        ),
{
    let mut r: Vec<DefinitionRecord> = Vec::new();
    let mut i: usize = 0;
    while i < definitions.len()
        invariant
            i <= definitions.len(),
            r.len() == i,
            forall|k: int|
                0 <= k < i ==>
                    (#[trigger] r@[k]).deep_view() == definition_record(definitions@[k]@),
        decreases definitions.len() - i,
    {
        let d = &definitions[i];
        r.push((text_to_record(&d.text), duplicate_strings(&d.tags)));
        i += 1;
    }
    assert(r.deep_view() =~= definitions.deep_view().map_values(
        |d: DefinitionView| definition_record(d),
    ));
    r
}

/// The entry as it is serialized.
pub fn entry_to_record(e: &DictionaryElementData) -> (r: EntryRecord)
    ensures
        r.deep_view() == record_of(e@),
{
    (
        e.word.clone(),
        duplicate_strings(&e.audio),
        duplicate_option(&e.ipa),
        duplicate_strings(&e.word_types),
        definitions_to_record(&e.definitions),
        duplicate_option(&e.dereferenced_text),
    )
}

/// The fragments that serialized fragments stand for, if their kinds exist.
fn record_to_text(record: Vec<(u32, String)>) -> (r: Option<Vec<HyperlinkedText>>)
    ensures
        match r {
            Some(text) => kinds_exist(record.deep_view()) && text.deep_view()
                == record.deep_view().map_values(|f: (u32, Seq<char>)| record_fragment(f).unwrap()),
            None => !kinds_exist(record.deep_view()),
        },
{
    let mut text: Vec<HyperlinkedText> = Vec::new();
    let mut i: usize = 0;
    while i < record.len()
        invariant
            i <= record.len(),
            text.len() == i,
            forall|k: int| 0 <= k < i ==> (#[trigger] record.deep_view()[k]).0 <= KIND_LINK,
            forall|k: int|
                0 <= k < i ==> Some((#[trigger] text@[k])@) == record_fragment(
                    record.deep_view()[k],
                ),
        decreases record.len() - i,
    {
        let kind = record[i].0;
        assert(record.deep_view()[i as int] == (kind, record@[i as int].1@));
        if kind == KIND_PLAIN {
            text.push(HyperlinkedText::Plain(record[i].1.clone()));
        } else if kind == KIND_LINK {
            text.push(HyperlinkedText::Link(record[i].1.clone()));
        } else {
            return None;
        }
        i += 1;
    }
    assert(text.deep_view() =~= record.deep_view().map_values(
        |f: (u32, Seq<char>)| record_fragment(f).unwrap(),
    ));
    Some(text)
}

/// The definitions that serialized definitions stand for, if the kinds of
/// their fragments exist.
fn record_to_definitions(record: Vec<DefinitionRecord>) -> (r: Option<Vec<Definition>>)
    ensures
        match r {
            Some(defs) => definitions_exist(record.deep_view()) && defs.deep_view()
                == record.deep_view().map_values(
                |d: DefinitionRecordView| record_definition(d).unwrap(),
            ),
            None => !definitions_exist(record.deep_view()),
        },
{
    let ghost input = record.deep_view();
    let n = record.len();
    let mut rest = reversed(record);
    let mut defs: Vec<Definition> = Vec::new();
    let mut i: usize = 0;
    while rest.len() > 0
        invariant
            i + rest.len() == n,
            input.len() == n,
            input == record.deep_view(),
            defs.len() == i,
            forall|j: int|
                0 <= j < rest.len() ==> (#[trigger] rest@[j]).deep_view() == input[n - 1 - j],
            forall|k: int| 0 <= k < i ==> kinds_exist((#[trigger] input[k]).0),
            forall|k: int|
                0 <= k < i ==> Some((#[trigger] defs@[k])@) == record_definition(input[k]),
        decreases rest.len(),
    {
        let d = rest.pop().unwrap();
        assert(d.deep_view() == input[i as int]);
        let (text, tags) = d;
        assert(text.deep_view() == input[i as int].0);
        match record_to_text(text) {
            Some(text) => {
                defs.push(Definition { text, tags });
            },
            None => {
                assert(!kinds_exist(input[i as int].0));
                return None;
            },
        }
        i += 1;
    }
    assert(defs.deep_view() =~= input.map_values(
        |d: DefinitionRecordView| record_definition(d).unwrap(),
    ));
    Some(defs)
}

/// The entry that a record stands for under `key` and `lang`, if the kinds
/// of its fragments exist.
pub fn record_to_entry(record: EntryRecord, key: String, lang: TargetLanguage) -> (r: Option<
    DictionaryElementData,
>)
    ensures
        r.deep_view() == entry_of_record(record.deep_view(), key@, lang),
{
    let (word, audio, ipa, word_types, definitions, dereferenced_text) = record;
    match record_to_definitions(definitions) {
        Some(definitions) => Some(
            DictionaryElementData {
                key,
                word,
                lang,
                audio,
                ipa,
                word_types,
                definitions,
                dereferenced_text,
            },
        ),
        None => None,
    }
}

/// What serialization gave, as the library reports it.
pub fn serialized(bytes: Result<Vec<u8>, Box<bincode::ErrorKind>>) -> (r: Result<
    Vec<u8>,
    CodecError,
>)
    ensures
        match bytes {
            Ok(b) => r == Ok::<Vec<u8>, CodecError>(b),
            Err(_) => r == Err::<Vec<u8>, CodecError>(CodecError::Serialization),
        },
{
    match bytes {
        Ok(b) => Ok(b),
        Err(_) => Err(CodecError::Serialization),
    }
}

/// The stored form of the entry under `key` and `lang`, given what
/// compression made of its record.
pub fn wrap_frame(key: String, lang: TargetLanguage, frame: Result<Vec<u8>, std::io::Error>) -> (r:
    Result<CompressedDictionaryElementWrapper, CodecError>)
    ensures
        match frame {
            Ok(f) => r matches Ok(w) && w@ == (WrapperView {
                key: key@,
                lang: lang,
                compressed_data: f@,
            }),
            Err(_) => r matches Err(e) && e == CodecError::Compression,
        },
{
    match frame {
        Ok(f) => Ok(CompressedDictionaryElementWrapper { key, lang, compressed_data: f }),
        Err(_) => Err(CodecError::Compression),
    }
}

/// The entry under `key` and `lang` that a deserialized record stands for:
/// none where deserialization failed or the record stands for no entry.
pub fn entry_from(
    record: Result<EntryRecord, Box<bincode::ErrorKind>>,
    key: String,
    lang: TargetLanguage,
) -> (r: Option<DictionaryElementData>)
    ensures
        match record {
            Ok(rec) => r.deep_view() == entry_of_record(rec.deep_view(), key@, lang),
            Err(_) => r is None,
        },
{
    match record {
        Ok(rec) => record_to_entry(rec, key, lang),
        Err(_) => None,
    }
}

/// Serializes and compresses one entry: the entry as it is stored, or the
/// error of the step that fails.
pub fn compress_element(e: &DictionaryElementData) -> (r: Result<
    CompressedDictionaryElementWrapper,
    CodecError,
>)
    ensures
        match compressed_of(e@) {
            Ok(stored) => r matches Ok(w) && w@ == stored,
            Err(err) => r matches Err(x) && x == err,
        },
{
    let record = entry_to_record(e);
    let bytes = match serialized(serialize_record(&record)) {
        Ok(b) => b,
        Err(err) => {
            return Err(err);
        },
    };
    wrap_frame(e.key.clone(), e.lang, zstd_encode(bytes.as_slice(), COMPRESS_LVL))
}

/// Decompresses and deserializes the entry that is stored as `data` under
/// `key` and `lang`. The data that an entry was compressed to gives back
/// that entry.
pub fn decompress_blob(data: &[u8], key: String, lang: TargetLanguage) -> (r: Option<
    DictionaryElementData,
>)
    ensures
        r.deep_view() == blob_entry(data@, key@, lang),
        forall|e: EntryView|
            entry_blob(e) == Ok::<Seq<u8>, CodecError>(data@) && key@ == e.key && lang == e.lang
                ==> r.deep_view() == Some(e),
{
    match zstd_decode(data) {
        Ok(bytes) => {
            let r = entry_from(deserialize_record(bytes.as_slice()), key, lang);
            proof {
                assert forall|e: EntryView|
                    entry_blob(e) == Ok::<Seq<u8>, CodecError>(data@) && key@ == e.key && lang
                        == e.lang implies r.deep_view() == Some(e) by {
                    lemma_record_round_trip(e);
                    let serial = record_bytes(record_of(e)).unwrap();
                    assert(zstd_frame(serial, COMPRESS_LVL) == Some(data@));
                    assert(bytes@ == serial);
                }
            }
            r
        },
        Err(_) => None,
    }
}

/// The entry that a stored entry holds: none where its data is not what
/// compressing an entry gives. What was made by compressing an entry gives
/// back that entry.
pub fn decompress_element(compressed: &CompressedDictionaryElementWrapper) -> (r: Option<
    DictionaryElementData,
>)
    ensures
        r.deep_view() == decompressed_of(compressed@),
        forall|e: EntryView|
            compressed_of(e) == Ok::<WrapperView, CodecError>(compressed@) ==> r.deep_view()
                == Some(e),
{
    decompress_blob(compressed.compressed_data.as_slice(), compressed.key.clone(), compressed.lang)
}

/// Serializes and compresses every entry, in order. The result holds each
/// entry as it is stored, at the place of the entry and under its key and
/// language; where an entry cannot be stored, the result is the error of the
/// first such entry.
pub fn compress_dictionary_data(dictionary_data: Vec<DictionaryElementData>) -> (r: Result<
    Vec<CompressedDictionaryElementWrapper>,
    CodecError,
>)
    ensures
        match compressed_all(dictionary_data.deep_view()) {
            Ok(stored) => r matches Ok(v) && v.deep_view() == stored,
            Err(err) => r matches Err(x) && x == err,
        },
        r matches Ok(v) ==> v.len() == dictionary_data.len() && forall|i: int|
            0 <= i < v.len() ==> (#[trigger] v@[i])@.key == dictionary_data@[i]@.key && v@[i]@.lang
                == dictionary_data@[i]@.lang,
{
    let ghost input = dictionary_data.deep_view();
    let mut compressed: Vec<CompressedDictionaryElementWrapper> = Vec::new();
    let mut i: usize = 0;
    assert(compressed.deep_view() =~= Seq::<WrapperView>::empty());
    while i < dictionary_data.len()
        invariant
            i <= dictionary_data.len(),
            input == dictionary_data.deep_view(),
            compressed_all(input.take(i as int)) == Ok::<Seq<WrapperView>, CodecError>(
                compressed.deep_view(),
            ),
        decreases dictionary_data.len() - i,
    {
        let ghost before = compressed.deep_view();
        proof {
            assert(input.take(i as int + 1).drop_last() =~= input.take(i as int));
            assert(input.take(i as int + 1).last() == dictionary_data@[i as int]@);
        }
        match compress_element(&dictionary_data[i]) {
            Ok(w) => {
                compressed.push(w);
                assert(compressed.deep_view() =~= before.push(w@));
            },
            Err(err) => {
                proof {
                    lemma_compressed_all_fails(input, i as int + 1);
                }
                return Err(err);
            },
        }
        i += 1;
    }
    proof {
        assert(input.take(dictionary_data.len() as int) =~= input);
        lemma_compressed_all(input);
        assert forall|k: int| 0 <= k < compressed.len() implies (#[trigger] compressed@[k])@.key
            == dictionary_data@[k]@.key && compressed@[k]@.lang == dictionary_data@[k]@.lang by {
            assert(compressed.deep_view()[k] == compressed@[k]@);
            assert(input[k] == dictionary_data@[k]@);
        }
    }
    Ok(compressed)
}

/// An error among the first entries is the error of all.
proof fn lemma_compressed_all_fails(entries: Seq<EntryView>, n: int)
    requires
        0 <= n <= entries.len(),
        compressed_all(entries.take(n)) is Err,
    ensures
        compressed_all(entries) == compressed_all(entries.take(n)),
    decreases entries.len() - n,
{
    if n < entries.len() {
        assert(entries.take(n + 1).drop_last() =~= entries.take(n));
        lemma_compressed_all_fails(entries, n + 1);
    } else {
        assert(entries.take(n) =~= entries);
    }
}

/// The stored entries as the records of a dump.
fn wrappers_to_dump(wrappers: &Vec<CompressedDictionaryElementWrapper>) -> (r: Vec<WrapperRecord>)
    ensures
        r.deep_view() == dump_of(wrappers.deep_view()),
{
    let mut r: Vec<WrapperRecord> = Vec::new();
    let mut i: usize = 0;
    while i < wrappers.len()
        invariant
            i <= wrappers.len(),
            r.len() == i,
            forall|k: int|
                0 <= k < i ==> (#[trigger] r@[k]).deep_view() == (
                    wrappers@[k]@.key,
                    wrappers@[k]@.lang.spec_index() as u32,
                    wrappers@[k]@.compressed_data,
                ),
        decreases wrappers.len() - i,
    {
        let w = &wrappers[i];
        let data = slice_to_vec(w.compressed_data.as_slice());
        let item: WrapperRecord = (w.key.clone(), w.lang.index() as u32, data);
        assert(item.deep_view().2 =~= w@.compressed_data);
        r.push(item);
        i += 1;
    }
    assert(r.deep_view() =~= dump_of(wrappers.deep_view()));
    r
}

/// The stored entries that the records of a dump stand for, if every record
/// names a language that exists.
pub fn dump_to_wrappers(dump: Vec<WrapperRecord>) -> (r: Option<
    Vec<CompressedDictionaryElementWrapper>,
>)
    ensures
        match r {
            Some(w) => languages_exist(dump.deep_view()) && w.deep_view() == wrappers_of(
                dump.deep_view(),
            ),
            None => !languages_exist(dump.deep_view()),
        },
{
    let ghost input = dump.deep_view();
    let n = dump.len();
    let mut rest = reversed(dump);
    let mut wrappers: Vec<CompressedDictionaryElementWrapper> = Vec::new();
    let mut i: usize = 0;
    while rest.len() > 0
        invariant
            i + rest.len() == n,
            input.len() == n,
            input == dump.deep_view(),
            wrappers.len() == i,
            forall|j: int|
                0 <= j < rest.len() ==> (#[trigger] rest@[j]).deep_view() == input[n - 1 - j],
            forall|k: int| 0 <= k < i ==> language_at((#[trigger] input[k]).1 as int) is Some,
            forall|k: int|
                0 <= k < i ==> (#[trigger] wrappers@[k])@ == (WrapperView {
                    key: input[k].0,
                    lang: language_at(input[k].1 as int).unwrap(),
                    compressed_data: input[k].2,
                }),
        decreases rest.len(),
    {
        let d = rest.pop().unwrap();
        assert(d.deep_view() == input[i as int]);
        let (key, lang, compressed_data) = d;
        assert(compressed_data@ =~= input[i as int].2);
        match TargetLanguage::from_index(lang as usize) {
            Some(lang) => {
                wrappers.push(CompressedDictionaryElementWrapper { key, lang, compressed_data });
            },
            None => {
                assert(language_at(input[i as int].1 as int) is None);
                return None;
            },
        }
        i += 1;
    }
    assert(wrappers.deep_view() =~= wrappers_of(input));
    Some(wrappers)
}

/// The stored entries that a deserialized dump stands for.
pub fn wrappers_from(dump: Result<Vec<WrapperRecord>, Box<bincode::ErrorKind>>) -> (r: Result<
    Vec<CompressedDictionaryElementWrapper>,
    CodecError,
>)
    ensures
        match dump {
            Ok(d) => if languages_exist(d.deep_view()) {
                r matches Ok(w) && w.deep_view() == wrappers_of(d.deep_view())
            } else {
                r matches Err(e) && e == CodecError::UnknownLanguage
            },
            Err(_) => r matches Err(e) && e == CodecError::Deserialization,
        },
{
    match dump {
        Ok(d) => match dump_to_wrappers(d) {
            Some(w) => Ok(w),
            None => Err(CodecError::UnknownLanguage),
        },
        Err(_) => Err(CodecError::Deserialization),
    }
}

/// The bytes of the dump of the stored entries, or an error where they
/// cannot be serialized.
pub fn output_compressed_dict(compressed_data: &Vec<CompressedDictionaryElementWrapper>) -> (r:
    Result<Vec<u8>, CodecError>)
    ensures
        match dump_bytes(dump_of(compressed_data.deep_view())) {
            Some(written) => r matches Ok(bytes) && bytes@ == written,
            None => r matches Err(e) && e == CodecError::Serialization,
        },
{
    let dump = wrappers_to_dump(compressed_data);
    serialized(serialize_dump(&dump))
}

/// The stored entries that the bytes of a dump hold. The bytes that were
/// made of stored entries give back those entries.
pub fn read_compressed_dict(bytes: &[u8]) -> (r: Result<
    Vec<CompressedDictionaryElementWrapper>,
    CodecError,
>)
    ensures
        match bytes_dump(bytes@) {
            Some(d) => if languages_exist(d) {
                r matches Ok(w) && w.deep_view() == wrappers_of(d)
            } else {
                r matches Err(e) && e == CodecError::UnknownLanguage
            },
            None => r matches Err(e) && e == CodecError::Deserialization,
        },
        forall|wrappers: Seq<WrapperView>|
            dump_bytes(dump_of(wrappers)) == Some(bytes@) ==> (r matches Ok(w) && w.deep_view()
                == wrappers),
{
    let r = wrappers_from(deserialize_dump(bytes));
    proof {
        assert forall|wrappers: Seq<WrapperView>|
            dump_bytes(dump_of(wrappers)) == Some(bytes@) implies (r matches Ok(w) && w.deep_view()
            == wrappers) by {
            lemma_dump_round_trip(wrappers);
        }
    }
    r
}

} // verus!
