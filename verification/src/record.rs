//! Raw records: what one line of the corpus holds, as far as the dictionary
//! reads it, and the entries that a record gives.

use vstd::prelude::*;
use crate::brackets::{solve_unopened_brackets, unopened_solved};
use crate::entry::{
    duplicate_option, duplicate_strings, payloads, tags_sorted, Definition, DefinitionView,
    DictionaryElementData, EntryView,
};
use crate::headwords::HeadwordSet;
use crate::hyperlink::{hyperlink_text, hyperlinked, lemma_hyperlinked_payloads};
use crate::language::{languages_of_code, TargetLanguage};
use crate::merge::{all_fresh, fresh};
use crate::order::{is_sorted, sort_of, sort_strings};
use crate::text::{chars_of, push_char, same_str};

verus! {

/// One sound of a record.
#[derive(Clone, Debug, PartialEq, Eq)]
pub struct RawSound {
    /// What stands under `ogg_url`: nothing, something that is no string,
    /// or a string.
    pub ogg_url: Option<Option<String>>,
    /// The string under `mp3_url`, if one stands there.
    pub mp3_url: Option<String>,
    /// The string under `ipa`, if one stands there.
    pub ipa: Option<String>,
}

/// One sense of a record.
#[derive(Clone, Debug, PartialEq, Eq)]
pub struct RawSense {
    /// The elements of the array under `tags`, each as a string if it is
    /// one; none where no array stands there.
    pub tags: Option<Vec<Option<String>>>,
    /// The first gloss, if it is a string.
    pub gloss: Option<String>,
}

/// One record of the corpus.
#[derive(Clone, Debug, PartialEq, Eq)]
pub struct RawRecord {
    /// The string under `word`.
    pub word: Option<String>,
    /// The string under `lang_code`.
    pub lang_code: Option<String>,
    /// The string under `pos`.
    pub pos: Option<String>,
    /// The names of the head templates, each if it is a string; none where
    /// no array stands under `head_templates`.
    pub head_templates: Option<Vec<Option<String>>>,
    /// The sounds; none where no array stands under `sounds`.
    pub sounds: Option<Vec<RawSound>>,
    /// The senses; none where no array stands under `senses`.
    pub senses: Option<Vec<RawSense>>,
}

/// What a `RawSound` is.
pub struct SoundView {
    pub ogg_url: Option<Option<Seq<char>>>,
    pub mp3_url: Option<Seq<char>>,
    pub ipa: Option<Seq<char>>,
}

/// What a `RawSense` is.
pub struct SenseView {
    pub tags: Option<Seq<Option<Seq<char>>>>,
    pub gloss: Option<Seq<char>>,
}

/// What a `RawRecord` is.
pub struct RecordView {
    pub word: Option<Seq<char>>,
    pub lang_code: Option<Seq<char>>,
    pub pos: Option<Seq<char>>,
    pub head_templates: Option<Seq<Option<Seq<char>>>>,
    pub sounds: Option<Seq<SoundView>>,
    pub senses: Option<Seq<SenseView>>,
}

impl View for RawSound {
    type V = SoundView;

    open spec fn view(&self) -> SoundView {
        SoundView {
            ogg_url: self.ogg_url.deep_view(),
            mp3_url: self.mp3_url.deep_view(),
            ipa: self.ipa.deep_view(),
        }
    }
}

impl DeepView for RawSound {
    type V = SoundView;

    open spec fn deep_view(&self) -> SoundView {
        self@
    }
}

impl View for RawSense {
    type V = SenseView;

    open spec fn view(&self) -> SenseView {
        SenseView { tags: self.tags.deep_view(), gloss: self.gloss.deep_view() }
    }
}

impl DeepView for RawSense {
    type V = SenseView;

    open spec fn deep_view(&self) -> SenseView {
        self@
    }
}

impl View for RawRecord {
    type V = RecordView;

    open spec fn view(&self) -> RecordView {
        RecordView {
            word: self.word.deep_view(),
            lang_code: self.lang_code.deep_view(),
            pos: self.pos.deep_view(),
            head_templates: self.head_templates.deep_view(),
            sounds: self.sounds.deep_view(),
            senses: self.senses.deep_view(),
        }
    }
}

impl DeepView for RawRecord {
    type V = RecordView;

    open spec fn deep_view(&self) -> RecordView {
        self@
    }
}

/// The address of a sound: what stands under `ogg_url` if anything stands
/// there, else what stands under `mp3_url`, if that is a string.
pub open spec fn sound_url(sound: SoundView) -> Option<Seq<char>> {
    match sound.ogg_url {
        Some(url) => url,
        None => sound.mp3_url,
    }
}

/// The addresses of the sounds that have one, in order.
pub open spec fn audio_of_sounds(sounds: Seq<SoundView>) -> Seq<Seq<char>>
    decreases sounds.len(),
{
    if sounds.len() == 0 {
        Seq::empty()
    } else {
        match sound_url(sounds.last()) {
            Some(u) => audio_of_sounds(sounds.drop_last()).push(u),
            None => audio_of_sounds(sounds.drop_last()),
        }
    }
}

/// The audio of a record.
pub open spec fn audio_of(record: RecordView) -> Seq<Seq<char>> {
    match record.sounds {
        Some(sounds) => audio_of_sounds(sounds),
        None => Seq::empty(),
    }
}

/// The pronunciation of the first sound that has one.
pub open spec fn ipa_of_sounds(sounds: Seq<SoundView>) -> Option<Seq<char>>
    decreases sounds.len(),
{
    if sounds.len() == 0 {
        None
    } else {
        match ipa_of_sounds(sounds.drop_last()) {
            Some(ipa) => Some(ipa),
            None => sounds.last().ipa,
        }
    }
}

/// The pronunciation of a record.
pub open spec fn ipa_of(record: RecordView) -> Option<Seq<char>> {
    match record.sounds {
        Some(sounds) => ipa_of_sounds(sounds),
        None => None,
    }
}

/// The strings among `items`, in order.
pub open spec fn present(items: Seq<Option<Seq<char>>>) -> Seq<Seq<char>>
    decreases items.len(),
{
    if items.len() == 0 {
        Seq::empty()
    } else {
        match items.last() {
            Some(s) => present(items.drop_last()).push(s),
            None => present(items.drop_last()),
        }
    }
}

/// The word types of a record: its part of speech where it has one, else
/// the names of its head templates, else none.
pub open spec fn word_types_of(record: RecordView) -> Option<Seq<Seq<char>>> {
    match record.pos {
        Some(pos) => Some(seq![pos]),
        None => match record.head_templates {
            Some(templates) => Some(present(templates)),
            None => None,
        },
    }
}

/// Whether a tag only numbers a morphological class and is left out.
pub open spec fn is_filtered_tag(tag: Seq<char>) -> bool {
    tag == "class-1"@ || tag == "class-2"@ || tag == "class-3"@ || tag == "class-4"@ || tag
        == "class-5"@ || tag == "class-6"@ || tag == "class-7"@ || tag == "declension-1"@ || tag
        == "declension-2"@ || tag == "declension-3"@ || tag == "declension-4"@ || tag
        == "declension-5"@ || tag == "conjugation-1"@ || tag == "conjugation-2"@ || tag
        == "conjugation-3"@ || tag == "conjugation-4"@ || tag == "stress-pattern-1"@ || tag
        == "stress-pattern-2"@ || tag == "stress-pattern-3"@ || tag == "stress-pattern-4"@
}

/// The capital of a lowercase ASCII letter.
pub open spec fn ascii_capital(c: char) -> char {
    ((c as u8 - 32) as u8) as char
}

/// `tag` with a capital in place of a lowercase ASCII letter at its start.
pub open spec fn capitalized(tag: Seq<char>) -> Seq<char> {
    if tag.len() > 0 && 'a' <= tag[0] <= 'z' {
        seq![ascii_capital(tag[0])] + tag.drop_first()
    } else {
        tag
    }
}

/// The tags that are kept, capitalized, in the order of the record.
pub open spec fn kept_tags(tags: Seq<Option<Seq<char>>>) -> Seq<Seq<char>>
    decreases tags.len(),
{
    if tags.len() == 0 {
        Seq::empty()
    } else {
        match tags.last() {
            Some(tag) => if is_filtered_tag(tag) {
                kept_tags(tags.drop_last())
            } else {
                kept_tags(tags.drop_last()).push(capitalized(tag))
            },
            None => kept_tags(tags.drop_last()),
        }
    }
}

/// The tags of a sense, in ascending order.
pub open spec fn tags_of_sense(sense: SenseView) -> Seq<Seq<char>> {
    match sense.tags {
        Some(tags) => sort_of(kept_tags(tags)),
        None => Seq::empty(),
    }
}

/// The definition that a sense gives, if it has a gloss.
pub open spec fn definition_of_sense(
    sense: SenseView,
    words: Set<(Seq<char>, TargetLanguage)>,
    lang: TargetLanguage,
) -> Option<DefinitionView> {
    match sense.gloss {
        Some(gloss) => Some(
            DefinitionView {
                text: hyperlinked(unopened_solved(gloss), words, lang),
                tags: tags_of_sense(sense),
            },
        ),
        None => None,
    }
}

/// The payloads of the body of a definition, put together, are the gloss of
/// its sense after the repair of its brackets.
pub proof fn lemma_definition_payloads(
    sense: SenseView,
    words: Set<(Seq<char>, TargetLanguage)>,
    lang: TargetLanguage,
)
    requires
        sense.gloss is Some,
    ensures
        definition_of_sense(sense, words, lang) is Some,
        payloads(definition_of_sense(sense, words, lang).unwrap().text) == unopened_solved(
            sense.gloss.unwrap(),
        ),
{
    lemma_hyperlinked_payloads(unopened_solved(sense.gloss.unwrap()), words, lang);
}

/// The definitions of the senses that give one, in order.
pub open spec fn definitions_of_senses(
    senses: Seq<SenseView>,
    words: Set<(Seq<char>, TargetLanguage)>,
    lang: TargetLanguage,
) -> Seq<DefinitionView>
    decreases senses.len(),
{
    if senses.len() == 0 {
        Seq::empty()
    } else {
        match definition_of_sense(senses.last(), words, lang) {
            Some(d) => definitions_of_senses(senses.drop_last(), words, lang).push(d),
            None => definitions_of_senses(senses.drop_last(), words, lang),
        }
    }
}

/// The definitions of a record; none where it has no array of senses.
pub open spec fn definitions_of(
    record: RecordView,
    words: Set<(Seq<char>, TargetLanguage)>,
    lang: TargetLanguage,
) -> Option<Seq<DefinitionView>> {
    match record.senses {
        Some(senses) => Some(definitions_of_senses(senses, words, lang)),
        None => None,
    }
}

/// The entry of a record in one language: there is one where the word is a
/// headword of the language and the record has senses.
pub open spec fn entry_in(
    record: RecordView,
    word: Seq<char>,
    word_types: Seq<Seq<char>>,
    lang: TargetLanguage,
    words: Set<(Seq<char>, TargetLanguage)>,
) -> Option<EntryView> {
    if words.contains((word, lang)) {
        match definitions_of(record, words, lang) {
            Some(definitions) => Some(
                EntryView {
                    key: word,
                    word: word,
                    lang: lang,
                    audio: audio_of(record),
                    ipa: ipa_of(record),
                    word_types: word_types,
                    definitions: definitions,
                    dereferenced_text: None,
                },
            ),
            None => None,
        }
    } else {
        None
    }
}

/// The entries of a record in the given languages, in order.
pub open spec fn entries_in(
    record: RecordView,
    word: Seq<char>,
    word_types: Seq<Seq<char>>,
    languages: Seq<TargetLanguage>,
    words: Set<(Seq<char>, TargetLanguage)>,
) -> Seq<EntryView>
    decreases languages.len(),
{
    if languages.len() == 0 {
        Seq::empty()
    } else {
        let before = entries_in(record, word, word_types, languages.drop_last(), words);
        match entry_in(record, word, word_types, languages.last(), words) {
            Some(e) => before.push(e),
            None => before,
        }
    }
}

/// The entries of a record: one for each language of its language code in
/// which its word is a headword. A record without a word, a language code,
/// word types or senses has none.
pub open spec fn entries_of(record: RecordView, words: Set<(Seq<char>, TargetLanguage)>) -> Seq<
    EntryView,
> {
    match (record.word, record.lang_code, word_types_of(record)) {
        (Some(word), Some(code), Some(word_types)) => entries_in(
            record,
            word,
            word_types,
            languages_of_code(code),
            words,
        ),
        _ => Seq::empty(),
    }
}

/// The headwords of a record: its word, in each language of its language
/// code.
pub open spec fn headwords_of(record: RecordView) -> Seq<(Seq<char>, TargetLanguage)> {
    match (record.word, record.lang_code) {
        (Some(word), Some(code)) => languages_of_code(code).map_values(
            |l: TargetLanguage| (word, l),
        ),
        _ => Seq::empty(),
    }
}

/// The address of a sound.
fn get_sound_url(sound: &RawSound) -> (r: Option<String>)
    ensures
        r.deep_view() == sound_url(sound@),
{
    match &sound.ogg_url {
        Some(url) => duplicate_option(url),
        None => duplicate_option(&sound.mp3_url),
    }
}

/// The audio of a record: for each of its sounds the address under
/// `ogg_url`, or else the one under `mp3_url`.
pub fn get_audio(record: &RawRecord) -> (r: Vec<String>)
    ensures
        r.deep_view() == audio_of(record@),
{
    let mut r: Vec<String> = Vec::new();
    match &record.sounds {
        Some(sounds) => {
            let ghost all = sounds.deep_view();
            let mut i: usize = 0;
            assert(r.deep_view() =~= audio_of_sounds(all.take(0)));
            while i < sounds.len()
                invariant
                    i <= sounds.len(),
                    all == sounds.deep_view(),
                    r.deep_view() == audio_of_sounds(all.take(i as int)),
                decreases sounds.len() - i,
            {
                let ghost before = r.deep_view();
                assert(all.take(i as int + 1).drop_last() =~= all.take(i as int));
                assert(all.take(i as int + 1).last() == sounds@[i as int]@);
                match get_sound_url(&sounds[i]) {
                    Some(u) => {
                        r.push(u);
                        assert(r.deep_view() =~= before.push(u@));
                    },
                    None => {},
                }
                i += 1;
            }
            assert(all.take(sounds.len() as int) =~= all);
        },
        None => {
            assert(r.deep_view() =~= Seq::<Seq<char>>::empty());
        },
    }
    r
}

/// A pronunciation found among the first sounds is the pronunciation of all.
proof fn lemma_ipa_found(sounds: Seq<SoundView>, n: int)
    requires
        0 <= n <= sounds.len(),
        ipa_of_sounds(sounds.take(n)) is Some,
    ensures
        ipa_of_sounds(sounds) == ipa_of_sounds(sounds.take(n)),
    decreases sounds.len() - n,
{
    if n < sounds.len() {
        assert(sounds.take(n + 1).drop_last() =~= sounds.take(n));
        lemma_ipa_found(sounds, n + 1);
    } else {
        assert(sounds.take(n) =~= sounds);
    }
}

/// The pronunciation of a record: that of the first of its sounds that has
/// one.
pub fn get_ipa(record: &RawRecord) -> (r: Option<String>)
    ensures
        r.deep_view() == ipa_of(record@),
{
    match &record.sounds {
        Some(sounds) => {
            let ghost all = sounds.deep_view();
            let mut i: usize = 0;
            while i < sounds.len()
                invariant
                    i <= sounds.len(),
                    all == sounds.deep_view(),
                    record@.sounds == Some(all),
                    ipa_of_sounds(all.take(i as int)) is None,
                decreases sounds.len() - i,
            {
                assert(all.take(i as int + 1).drop_last() =~= all.take(i as int));
                assert(all.take(i as int + 1).last() == sounds@[i as int]@);
                match &sounds[i].ipa {
                    Some(ipa) => {
                        proof {
                            lemma_ipa_found(all, i as int + 1);
                        }
                        return Some(ipa.clone());
                    },
                    None => {},
                }
                i += 1;
            }
            assert(all.take(sounds.len() as int) =~= all);
            None
        },
        None => None,
    }
}

/// The strings among `items`, in order.
fn present_strings(items: &Vec<Option<String>>) -> (r: Vec<String>)
    ensures
        r.deep_view() == present(items.deep_view()),
{
    let ghost all = items.deep_view();
    let mut r: Vec<String> = Vec::new();
    let mut i: usize = 0;
    assert(r.deep_view() =~= present(all.take(0)));
    while i < items.len()
        invariant
            i <= items.len(),
            all == items.deep_view(),
            r.deep_view() == present(all.take(i as int)),
        decreases items.len() - i,
    {
        let ghost before = r.deep_view();
        assert(all.take(i as int + 1).drop_last() =~= all.take(i as int));
        assert(all.take(i as int + 1).last() == items@[i as int].deep_view());
        match &items[i] {
            Some(s) => {
                r.push(s.clone());
                assert(r.deep_view() =~= before.push(s@));
            },
            None => {},
        }
        i += 1;
    }
    assert(all.take(items.len() as int) =~= all);
    r
}

/// The word types of a record: its part of speech, or else the names of its
/// head templates.
pub fn get_word_types(record: &RawRecord) -> (r: Option<Vec<String>>)
    ensures
        r.deep_view() == word_types_of(record@),
{
    match &record.pos {
        Some(pos) => {
            let mut r: Vec<String> = Vec::new();
            r.push(pos.clone());
            assert(r.deep_view() =~= seq![pos@]);
            Some(r)
        },
        None => match &record.head_templates {
            Some(templates) => Some(present_strings(templates)),
            None => None,
        },
    }
}

/// Whether a tag only numbers a morphological class and is left out.
fn is_filter_tag(tag: &str) -> (r: bool)
    ensures
        r == is_filtered_tag(tag@),
{
    same_str(tag, "class-1") || same_str(tag, "class-2") || same_str(tag, "class-3") || same_str(
        tag,
        "class-4",
    ) || same_str(tag, "class-5") || same_str(tag, "class-6") || same_str(tag, "class-7")
        || same_str(tag, "declension-1") || same_str(tag, "declension-2") || same_str(
        tag,
        "declension-3",
    ) || same_str(tag, "declension-4") || same_str(tag, "declension-5") || same_str(
        tag,
        "conjugation-1",
    ) || same_str(tag, "conjugation-2") || same_str(tag, "conjugation-3") || same_str(
        tag,
        "conjugation-4",
    ) || same_str(tag, "stress-pattern-1") || same_str(tag, "stress-pattern-2") || same_str(
        tag,
        "stress-pattern-3",
    ) || same_str(tag, "stress-pattern-4")
}

/// `text` with a capital in place of a lowercase ASCII letter at its start.
pub fn uppercase_first_character_latin(text: &str) -> (r: String)
    ensures
        r@ == capitalized(text@),
{
    let chars = chars_of(text);
    if chars.len() == 0 {
        return text.to_owned();
    }
    let first = chars[0];
    if 'a' <= first && first <= 'z' {
        let mut r = String::new();
        push_char(&mut r, ((first as u8) - 32) as char);
        let mut i: usize = 1;
        assert(r@ =~= seq![ascii_capital(first)] + chars@.subrange(1, 1));
        while i < chars.len()
            invariant
                1 <= i <= chars.len(),
                r@ == seq![ascii_capital(first)] + chars@.subrange(1, i as int),
            decreases chars.len() - i,
        {
            push_char(&mut r, chars[i]);
            i += 1;
            assert(seq![ascii_capital(first)] + chars@.subrange(1, i as int) =~= (seq![
                ascii_capital(first),
            ] + chars@.subrange(1, i as int - 1)).push(chars@[i as int - 1]));
        }
        assert(chars@.subrange(1, chars.len() as int) =~= chars@.drop_first());
        r
    } else {
        text.to_owned()
    }
}

/// The tags of a sense: those that are kept, capitalized, in ascending
/// order.
pub fn get_tags(sense: &RawSense) -> (r: Vec<String>)
    ensures
        r.deep_view() == tags_of_sense(sense@),
        is_sorted(r.deep_view()),
{
    match &sense.tags {
        Some(tags) => {
            let ghost all = tags.deep_view();
            let mut kept: Vec<String> = Vec::new();
            let mut i: usize = 0;
            assert(kept.deep_view() =~= kept_tags(all.take(0)));
            while i < tags.len()
                invariant
                    i <= tags.len(),
                    all == tags.deep_view(),
                    kept.deep_view() == kept_tags(all.take(i as int)),
                decreases tags.len() - i,
            {
                let ghost before = kept.deep_view();
                assert(all.take(i as int + 1).drop_last() =~= all.take(i as int));
                assert(all.take(i as int + 1).last() == tags@[i as int].deep_view());
                match &tags[i] {
                    Some(tag) => {
                        if !is_filter_tag(tag.as_str()) {
                            let capital = uppercase_first_character_latin(tag.as_str());
                            kept.push(capital);
                            assert(kept.deep_view() =~= before.push(capitalized(tag@)));
                        }
                    },
                    None => {},
                }
                i += 1;
            }
            assert(all.take(tags.len() as int) =~= all);
            sort_strings(kept)
        },
        None => {
            let r: Vec<String> = Vec::new();
            assert(r.deep_view() =~= Seq::<Seq<char>>::empty());
            r
        },
    }
}

/// The definitions of a record in `language`: one for each sense that has a
/// gloss, with the gloss repaired and hyperlinked and the tags filtered,
/// capitalized and sorted. None where the record has no array of senses.
pub fn get_definitions(record: &RawRecord, word_set: &HeadwordSet, language: &TargetLanguage) -> (r:
    Option<Vec<Definition>>)
    ensures
        r.deep_view() == definitions_of(record@, word_set@, *language),
        r matches Some(d) ==> tags_sorted(d.deep_view()),
{
    let senses = match &record.senses {
        Some(s) => s,
        None => {
            return None;
        },
    };
    let ghost all = senses.deep_view();
    let mut out: Vec<Definition> = Vec::new();
    let mut i: usize = 0;
    assert(out.deep_view() =~= definitions_of_senses(all.take(0), word_set@, *language));
    while i < senses.len()
        invariant
            i <= senses.len(),
            all == senses.deep_view(),
            out.deep_view() == definitions_of_senses(all.take(i as int), word_set@, *language),
            tags_sorted(out.deep_view()),
        decreases senses.len() - i,
    {
        let ghost before = out.deep_view();
        assert(all.take(i as int + 1).drop_last() =~= all.take(i as int));
        assert(all.take(i as int + 1).last() == senses@[i as int]@);
        match &senses[i].gloss {
            Some(gloss) => {
                let tags = get_tags(&senses[i]);
                let solved = solve_unopened_brackets(gloss.clone());
                let text = hyperlink_text(solved, word_set, language);
                let d = Definition { text, tags };
                out.push(d);
                assert(out.deep_view() =~= before.push(d@));
                assert forall|k: int| 0 <= k < out.deep_view().len() implies is_sorted(
                    #[trigger] out.deep_view()[k].tags,
                ) by {
                    if k < before.len() {
                        assert(out.deep_view()[k] == before[k]);
                    }
                }
            },
            None => {},
        }
        i += 1;
    }
    assert(all.take(senses.len() as int) =~= all);
    Some(out)
}

/// The entries of a record: one for each language of its language code in
/// which its word is a headword.
pub fn process_json_entry(record: &RawRecord, word_set: &HeadwordSet) -> (r: Vec<
    DictionaryElementData,
>)
    ensures
        r.deep_view() == entries_of(record@, word_set@),
        all_fresh(r.deep_view()),
{
    let mut results: Vec<DictionaryElementData> = Vec::new();
    assert(results.deep_view() =~= Seq::<EntryView>::empty());
    let word = match &record.word {
        Some(w) => w,
        None => {
            return results;
        },
    };
    let lang_code = match &record.lang_code {
        Some(c) => c,
        None => {
            return results;
        },
    };
    let languages = TargetLanguage::from_wiktionary_language_code_n(lang_code.as_str());
    let audio = get_audio(record);
    let ipa = get_ipa(record);
    let word_types = match get_word_types(record) {
        Some(wt) => wt,
        None => {
            return results;
        },
    };
    let mut i: usize = 0;
    assert(results.deep_view() =~= entries_in(
        record@,
        word@,
        word_types.deep_view(),
        languages@.take(0),
        word_set@,
    ));
    while i < languages.len()
        invariant
            i <= languages.len(),
            audio.deep_view() == audio_of(record@),
            ipa.deep_view() == ipa_of(record@),
            results.deep_view() == entries_in(
                record@,
                word@,
                word_types.deep_view(),
                languages@.take(i as int),
                word_set@,
            ),
            all_fresh(results.deep_view()),
        decreases languages.len() - i,
    {
        let ghost before = results.deep_view();
        assert(languages@.take(i as int + 1).drop_last() =~= languages@.take(i as int));
        let lang = languages[i];
        if word_set.contains(word.as_str(), lang) {
            match get_definitions(record, word_set, &lang) {
                Some(definitions) => {
                    let e = DictionaryElementData {
                        key: word.clone(),
                        word: word.clone(),
                        lang: lang,
                        audio: duplicate_strings(&audio),
                        ipa: duplicate_option(&ipa),
                        word_types: duplicate_strings(&word_types),
                        definitions: definitions,
                        dereferenced_text: None,
                    };
                    results.push(e);
                    assert(results.deep_view() =~= before.push(e@));
                    assert forall|k: int| 0 <= k < results.deep_view().len() implies fresh(
                        #[trigger] results.deep_view()[k],
                    ) by {
                        if k < before.len() {
                            assert(results.deep_view()[k] == before[k]);
                        }
                    }
                },
                None => {},
            }
        }
        i += 1;
    }
    assert(languages@.take(languages.len() as int) =~= languages@);
    results
}

/// The headwords of a record: its word, in each language of its language
/// code.
pub fn record_headwords(record: &RawRecord) -> (r: Vec<(String, TargetLanguage)>)
    ensures
        r.deep_view() == headwords_of(record@),
{
    let mut r: Vec<(String, TargetLanguage)> = Vec::new();
    assert(r.deep_view() =~= Seq::<(Seq<char>, TargetLanguage)>::empty());
    let word = match &record.word {
        Some(w) => w,
        None => {
            return r;
        },
    };
    let lang_code = match &record.lang_code {
        Some(c) => c,
        None => {
            return r;
        },
    };
    let languages = TargetLanguage::from_wiktionary_language_code_n(lang_code.as_str());
    let mut i: usize = 0;
    while i < languages.len()
        invariant
            i <= languages.len(),
            r.len() == i,
            forall|k: int|
                0 <= k < i ==> (#[trigger] r@[k]).0@ == word@ && r@[k].1 == languages@[k],
        decreases languages.len() - i,
    {
        r.push((word.clone(), languages[i]));
        i += 1;
    }
    assert(r.deep_view() =~= headwords_of(record@));
    r
}

} // verus!
