//! Reading raw records: one JSON object per line, of which the members that
//! the dictionary reads are taken into a record.

use vstd::prelude::*;
use crate::entry::{DictionaryElementData, EntryView};
use crate::headwords::HeadwordSet;
use crate::language::TargetLanguage;
use crate::merge::all_fresh;
use crate::record::{
    entries_of, headwords_of, process_json_entry, record_headwords, RawRecord, RawSense,
    RawSound, RecordView, SenseView, SoundView,
};

verus! {

/// `serde_json::Value`: a JSON value, read only through the functions
/// below.
#[verifier::external_type_specification]
#[verifier::external_body]
pub struct ExValue(serde_json::Value);

/// `serde_json::Error`, of which nothing is read.
#[verifier::external_type_specification]
#[verifier::external_body]
pub struct ExJsonError(serde_json::Error);

/// The JSON value that a text is, if it is one.
pub uninterp spec fn json_parsed(text: Seq<char>) -> Option<serde_json::Value>;

/// The characters of a JSON string; none for any other value.
pub uninterp spec fn json_text(v: serde_json::Value) -> Option<Seq<char>>;

/// The elements of a JSON array; none for any other value.
pub uninterp spec fn json_items(v: serde_json::Value) -> Option<Seq<serde_json::Value>>;

/// The member of a JSON object under `key`; none where the object has no
/// such member and for any other value.
pub uninterp spec fn json_member(v: serde_json::Value, key: Seq<char>) -> Option<serde_json::Value>;

/// `serde_json::from_str` at the type `Value`: the value that `text` is, or
/// an error where it is not JSON.
#[verifier::external_body]
fn parse_json(text: &str) -> (r: Result<serde_json::Value, serde_json::Error>)
    ensures
        match r {
            Ok(v) => json_parsed(text@) == Some(v),
            Err(_) => json_parsed(text@) is None,
        },
{
    serde_json::from_str::<serde_json::Value>(text)
}

/// `Value::as_str`: the string slice of a JSON string, `None` for any other
/// value.
#[verifier::external_body]
fn value_as_str<'a>(v: &'a serde_json::Value) -> (r: Option<&'a str>)
    ensures
        match r {
            Some(s) => json_text(*v) == Some(s@),
            None => json_text(*v) is None,
        },
{
    v.as_str()
}

/// `Value::as_array`: the vector of a JSON array, `None` for any other
/// value.
#[verifier::external_body]
fn value_as_array<'a>(v: &'a serde_json::Value) -> (r: Option<&'a Vec<serde_json::Value>>)
    ensures
        match r {
            Some(items) => json_items(*v) == Some(items@),
            None => json_items(*v) is None,
        },
{
    v.as_array()
}

/// `Value::get` with a string index: the member of a JSON object under
/// `key`, `None` where there is none or the value is no object.
#[verifier::external_body]
fn value_get<'a>(v: &'a serde_json::Value, key: &str) -> (r: Option<&'a serde_json::Value>)
    ensures
        match r {
            Some(m) => json_member(*v, key@) == Some(*m),
            None => json_member(*v, key@) is None,
        },
{
    v.get(key)
}

/// The string under `key`, where `v` is an object that has one there.
pub open spec fn member_text(v: serde_json::Value, key: Seq<char>) -> Option<Seq<char>> {
    match json_member(v, key) {
        Some(m) => json_text(m),
        None => None,
    }
}

/// The array under `key`, where `v` is an object that has one there.
pub open spec fn member_items(v: serde_json::Value, key: Seq<char>) -> Option<
    Seq<serde_json::Value>,
> {
    match json_member(v, key) {
        Some(m) => json_items(m),
        None => None,
    }
}

/// The sound that a JSON value holds.
pub open spec fn sound_of_json(v: serde_json::Value) -> SoundView {
    SoundView {
        ogg_url: match json_member(v, "ogg_url"@) {
            Some(url) => Some(json_text(url)),
            None => None,
        },
        mp3_url: member_text(v, "mp3_url"@),
        ipa: member_text(v, "ipa"@),
    }
}

/// The sense that a JSON value holds.
pub open spec fn sense_of_json(v: serde_json::Value) -> SenseView {
    SenseView {
        tags: match member_items(v, "tags"@) {
            Some(tags) => Some(tags.map_values(|t: serde_json::Value| json_text(t))),
            None => None,
        },
        gloss: match member_items(v, "glosses"@) {
            Some(glosses) => if glosses.len() > 0 {
                json_text(glosses[0])
            } else {
                None
            },
            None => None,
        },
    }
}

/// The record that a JSON value holds.
pub open spec fn record_of_json(v: serde_json::Value) -> RecordView {
    RecordView {
        word: member_text(v, "word"@),
        lang_code: member_text(v, "lang_code"@),
        pos: member_text(v, "pos"@),
        head_templates: match member_items(v, "head_templates"@) {
            Some(templates) => Some(
                templates.map_values(|t: serde_json::Value| member_text(t, "name"@)),
            ),
            None => None,
        },
        sounds: match member_items(v, "sounds"@) {
            Some(sounds) => Some(sounds.map_values(|s: serde_json::Value| sound_of_json(s))),
            None => None,
        },
        senses: match member_items(v, "senses"@) {
            Some(senses) => Some(senses.map_values(|s: serde_json::Value| sense_of_json(s))),
            None => None,
        },
    }
}

/// The entries of a line: those of the record it holds, none where it holds
/// no JSON.
pub open spec fn entries_of_line(line: Seq<char>, words: Set<(Seq<char>, TargetLanguage)>) -> Seq<
    EntryView,
> {
    match json_parsed(line) {
        Some(json) => entries_of(record_of_json(json), words),
        None => Seq::empty(),
    }
}

/// The headwords of a line: those of the record it holds, none where it
/// holds no JSON.
pub open spec fn headwords_of_line(line: Seq<char>) -> Seq<(Seq<char>, TargetLanguage)> {
    match json_parsed(line) {
        Some(json) => headwords_of(record_of_json(json)),
        None => Seq::empty(),
    }
}

/// The string under `key`, where `v` is an object that has one there.
pub fn get_str(v: &serde_json::Value, key: &str) -> (r: Option<String>)
    ensures
        r.deep_view() == member_text(*v, key@),
{
    match value_get(v, key) {
        Some(m) => match value_as_str(m) {
            Some(s) => Some(s.to_owned()),
            None => None,
        },
        None => None,
    }
}

/// The array under `key`, where `v` is an object that has one there.
pub fn get_array<'a>(v: &'a serde_json::Value, key: &str) -> (r: Option<&'a Vec<serde_json::Value>>)
    ensures
        match r {
            Some(items) => member_items(*v, key@) == Some(items@),
            None => member_items(*v, key@) is None,
        },
{
    match value_get(v, key) {
        Some(m) => value_as_array(m),
        None => None,
    }
}

/// The sound that a JSON value holds.
pub fn read_sound(v: &serde_json::Value) -> (r: RawSound)
    ensures
        r@ == sound_of_json(*v),
{
    let ogg_url = match value_get(v, "ogg_url") {
        Some(url) => Some(
            match value_as_str(url) {
                Some(s) => Some(s.to_owned()),
                None => None,
            },
        ),
        None => None,
    };
    RawSound { ogg_url, mp3_url: get_str(v, "mp3_url"), ipa: get_str(v, "ipa") }
}

/// The sense that a JSON value holds.
pub fn read_sense(v: &serde_json::Value) -> (r: RawSense)
    ensures
        r@ == sense_of_json(*v),
{
    let tags = match get_array(v, "tags") {
        Some(items) => {
            let mut tags: Vec<Option<String>> = Vec::new();
            let mut i: usize = 0;
            while i < items.len()
                invariant
                    i <= items.len(),
                    tags.len() == i,
                    forall|k: int|
                        0 <= k < i ==> (#[trigger] tags@[k]).deep_view() == json_text(items@[k]),
                decreases items.len() - i,
            {
                let tag = match value_as_str(&items[i]) {
                    Some(s) => Some(s.to_owned()),
                    None => None,
                };
                tags.push(tag);
                i += 1;
            }
            assert(tags.deep_view() =~= items@.map_values(|t: serde_json::Value| json_text(t)));
            Some(tags)
        },
        None => None,
    };
    let gloss = match get_array(v, "glosses") {
        Some(glosses) => if glosses.len() > 0 {
            match value_as_str(&glosses[0]) {
                Some(s) => Some(s.to_owned()),
                None => None,
            }
        } else {
            None
        },
        None => None,
    };
    RawSense { tags, gloss }
}

/// The record that a JSON value holds.
pub fn read_record(v: &serde_json::Value) -> (r: RawRecord)
    ensures
        r@ == record_of_json(*v),
{
    let head_templates = match get_array(v, "head_templates") {
        Some(items) => {
            let mut names: Vec<Option<String>> = Vec::new();
            let mut i: usize = 0;
            while i < items.len()
                invariant
                    i <= items.len(),
                    names.len() == i,
                    forall|k: int|
                        0 <= k < i ==> (#[trigger] names@[k]).deep_view() == member_text(
                            items@[k],
                            "name"@,
                        ),
                decreases items.len() - i,
            {
                names.push(get_str(&items[i], "name"));
                i += 1;
            }
            assert(names.deep_view() =~= items@.map_values(
                |t: serde_json::Value| member_text(t, "name"@),
            ));
            Some(names)
        },
        None => None,
    };
    let sounds = match get_array(v, "sounds") {
        Some(items) => {
            let mut sounds: Vec<RawSound> = Vec::new();
            let mut i: usize = 0;
            while i < items.len()
                invariant
                    i <= items.len(),
                    sounds.len() == i,
                    forall|k: int|
                        0 <= k < i ==> (#[trigger] sounds@[k])@ == sound_of_json(items@[k]),
                decreases items.len() - i,
            {
                sounds.push(read_sound(&items[i]));
                i += 1;
            }
            assert(sounds.deep_view() =~= items@.map_values(
                |s: serde_json::Value| sound_of_json(s),
            ));
            Some(sounds)
        },
        None => None,
    };
    let senses = match get_array(v, "senses") {
        Some(items) => {
            let mut senses: Vec<RawSense> = Vec::new();
            let mut i: usize = 0;
            while i < items.len()
                invariant
                    i <= items.len(),
                    senses.len() == i,
                    forall|k: int|
                        0 <= k < i ==> (#[trigger] senses@[k])@ == sense_of_json(items@[k]),
                decreases items.len() - i,
            {
                senses.push(read_sense(&items[i]));
                i += 1;
            }
            assert(senses.deep_view() =~= items@.map_values(
                |s: serde_json::Value| sense_of_json(s),
            ));
            Some(senses)
        },
        None => None,
    };
    RawRecord {
        word: get_str(v, "word"),
        lang_code: get_str(v, "lang_code"),
        pos: get_str(v, "pos"),
        head_templates,
        sounds,
        senses,
    }
}

/// The record that a line holds, if it holds JSON.
pub fn read_line(line: &str) -> (r: Option<RawRecord>)
    ensures
        r.deep_view() == match json_parsed(line@) {
            Some(json) => Some(record_of_json(json)),
            None => None,
        },
{
    match parse_json(line) {
        Ok(json) => Some(read_record(&json)),
        Err(_) => None,
    }
}

/// The entries of a line: those of the record it holds, none where it holds
/// no JSON.
pub fn process_line(line: &str, word_set: &HeadwordSet) -> (r: Vec<DictionaryElementData>)
    ensures
        r.deep_view() == entries_of_line(line@, word_set@),
        all_fresh(r.deep_view()),
{
    match read_line(line) {
        Some(record) => process_json_entry(&record, word_set),
        None => {
            let r: Vec<DictionaryElementData> = Vec::new();
            assert(r.deep_view() =~= Seq::<EntryView>::empty());
            r
        },
    }
}

/// The headwords of a line: those of the record it holds, none where it
/// holds no JSON.
pub fn line_headwords(line: &str) -> (r: Vec<(String, TargetLanguage)>)
    ensures
        r.deep_view() == headwords_of_line(line@),
{
    match read_line(line) {
        Some(record) => record_headwords(&record),
        None => {
            let r: Vec<(String, TargetLanguage)> = Vec::new();
            assert(r.deep_view() =~= Seq::<(Seq<char>, TargetLanguage)>::empty());
            r
        },
    }
}

} // verus!
