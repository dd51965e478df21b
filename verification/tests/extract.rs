use dictdefinition::entry::{Definition, DictionaryElementData, HyperlinkedText};
use dictdefinition::extract::{
    get_array, get_str, line_headwords, process_line, read_line, read_record, read_sense,
    read_sound,
};
use dictdefinition::record::{
    get_audio, get_definitions, get_ipa, get_tags, get_word_types, process_json_entry,
    record_headwords, uppercase_first_character_latin, RawRecord, RawSense, RawSound,
};
use dictdefinition::headwords::HeadwordSet;
use dictdefinition::language::TargetLanguage;

fn strings(items: &[&str]) -> Vec<String> {
    items.iter().map(|s| s.to_string()).collect()
}

fn json(text: &str) -> serde_json::Value {
    serde_json::from_str(text).unwrap()
}

fn record(text: &str) -> RawRecord {
    read_record(&json(text))
}

fn some(s: &str) -> Option<String> {
    Some(s.to_string())
}

fn empty_record() -> RawRecord {
    RawRecord {
        word: None,
        lang_code: None,
        pos: None,
        head_templates: None,
        sounds: None,
        senses: None,
    }
}

fn plain(s: &str) -> HyperlinkedText {
    HyperlinkedText::Plain(s.to_string())
}

fn headwords(pairs: &[(&str, TargetLanguage)]) -> HeadwordSet {
    let mut set = HeadwordSet::new();
    for (w, l) in pairs {
        set.insert(w.to_string(), *l);
    }
    set
}

#[test]
fn haus_line_yields_the_entry() {
    let line = r#"{"word":"Haus","lang_code":"de","pos":"noun","senses":[{"glosses":["house"]}]}"#;
    let word_set = headwords(&[("Haus", TargetLanguage::German)]);
    let expected = DictionaryElementData {
        key: "Haus".to_string(),
        word: "Haus".to_string(),
        lang: TargetLanguage::German,
        audio: Vec::new(),
        ipa: None,
        word_types: strings(&["noun"]),
        definitions: vec![Definition { text: vec![plain("house")], tags: Vec::new() }],
        dereferenced_text: None,
    };
    assert_eq!(process_line(line, &word_set), vec![expected.clone()]);
    assert_eq!(process_json_entry(&record(line), &word_set), vec![expected.clone()]);
    let written = RawRecord {
        word: some("Haus"),
        lang_code: some("de"),
        pos: some("noun"),
        head_templates: None,
        sounds: None,
        senses: Some(vec![RawSense { tags: None, gloss: some("house") }]),
    };
    assert_eq!(record(line), written);
    assert_eq!(process_json_entry(&written, &word_set), vec![expected]);
}

#[test]
fn lines_that_yield_nothing() {
    let word_set = headwords(&[("Haus", TargetLanguage::German)]);
    for line in [
        "",
        "not json",
        "[1, 2]",
        r#"{"word":"Haus","lang_code":"de","pos":"noun""#,
        // No word, no language code, an unknown code.
        r#"{"lang_code":"de","pos":"noun","senses":[]}"#,
        r#"{"word":"Haus","pos":"noun","senses":[]}"#,
        r#"{"word":"Haus","lang_code":"tlh","pos":"noun","senses":[]}"#,
        r#"{"word":7,"lang_code":"de","pos":"noun","senses":[]}"#,
        // Not a headword of the language.
        r#"{"word":"Maus","lang_code":"de","pos":"noun","senses":[]}"#,
        r#"{"word":"Haus","lang_code":"fr","pos":"noun","senses":[]}"#,
        // Neither a part of speech nor head templates.
        r#"{"word":"Haus","lang_code":"de","senses":[]}"#,
        // No senses.
        r#"{"word":"Haus","lang_code":"de","pos":"noun"}"#,
        r#"{"word":"Haus","lang_code":"de","pos":"noun","senses":{}}"#,
    ] {
        assert!(process_line(line, &word_set).is_empty(), "{}", line);
    }
    // Senses may be empty: the entry then has no definitions.
    let bare = process_line(r#"{"word":"Haus","lang_code":"de","pos":"noun","senses":[]}"#, &word_set);
    assert_eq!(bare.len(), 1);
    assert!(bare[0].definitions.is_empty());
}

#[test]
fn one_line_fans_out_over_the_languages_of_its_code() {
    let line = r#"{"word":"voda","lang_code":"sh","pos":"noun","senses":[{"glosses":["water"]}]}"#;
    let both = headwords(&[
        ("voda", TargetLanguage::Serbian),
        ("voda", TargetLanguage::Croatian),
        ("water", TargetLanguage::Croatian),
    ]);
    let entries = process_line(line, &both);
    assert_eq!(entries.len(), 2);
    assert_eq!(entries[0].lang, TargetLanguage::Serbian);
    assert_eq!(entries[0].definitions[0].text, vec![plain("water")]);
    assert_eq!(entries[1].lang, TargetLanguage::Croatian);
    assert_eq!(
        entries[1].definitions[0].text,
        vec![HyperlinkedText::Link("water".to_string())]
    );
    let one = headwords(&[("voda", TargetLanguage::Croatian)]);
    let entries = process_line(line, &one);
    assert_eq!(entries.len(), 1);
    assert_eq!(entries[0].lang, TargetLanguage::Croatian);
    assert_eq!(
        line_headwords(line),
        vec![
            ("voda".to_string(), TargetLanguage::Serbian),
            ("voda".to_string(), TargetLanguage::Croatian)
        ]
    );
    assert!(line_headwords("{").is_empty());
    assert!(line_headwords(r#"{"word":"voda"}"#).is_empty());
}

#[test]
fn audio_prefers_ogg() {
    let record = record(
        r#"{"sounds":[
            {"ogg_url":"a.ogg","mp3_url":"a.mp3"},
            {"mp3_url":"b.mp3"},
            {"ipa":"/x/"},
            {"ogg_url":null,"mp3_url":"c.mp3"},
            {"ogg_url":"d.ogg"},
            "no object"
        ]}"#,
    );
    assert_eq!(get_audio(&record), strings(&["a.ogg", "b.mp3", "d.ogg"]));
    assert!(get_audio(&crate::record(r#"{"sounds":"none"}"#)).is_empty());
    assert!(get_audio(&crate::record(r#"{}"#)).is_empty());
    // The same, written down as a record.
    let mut written = empty_record();
    written.sounds = Some(vec![
        RawSound { ogg_url: Some(some("a.ogg")), mp3_url: some("a.mp3"), ipa: None },
        RawSound { ogg_url: None, mp3_url: some("b.mp3"), ipa: None },
        RawSound { ogg_url: None, mp3_url: None, ipa: some("/x/") },
        RawSound { ogg_url: Some(None), mp3_url: some("c.mp3"), ipa: None },
        RawSound { ogg_url: Some(some("d.ogg")), mp3_url: None, ipa: None },
        RawSound { ogg_url: None, mp3_url: None, ipa: None },
    ]);
    assert_eq!(record, written);
    assert_eq!(get_audio(&written), strings(&["a.ogg", "b.mp3", "d.ogg"]));
    assert_eq!(get_ipa(&written), some("/x/"));
}

#[test]
fn ipa_is_the_first() {
    let first = record(r#"{"sounds":[{"ogg_url":"a.ogg"},{"ipa":7},{"ipa":"/one/"},{"ipa":"/two/"}]}"#);
    assert_eq!(get_ipa(&first), Some("/one/".to_string()));
    assert_eq!(get_ipa(&record(r#"{"sounds":[{"ogg_url":"a.ogg"}]}"#)), None);
    assert_eq!(get_ipa(&record(r#"{"sounds":[]}"#)), None);
    assert_eq!(get_ipa(&record(r#"{"ipa":"/x/"}"#)), None);
}

#[test]
fn word_types_prefer_the_part_of_speech() {
    assert_eq!(
        get_word_types(&record(r#"{"pos":"noun","head_templates":[{"name":"de-noun"}]}"#)),
        Some(strings(&["noun"]))
    );
    assert_eq!(
        get_word_types(&record(
            r#"{"head_templates":[{"name":"de-noun"},{"args":{}},{"name":"head"},{"name":"de-noun"}]}"#
        )),
        Some(strings(&["de-noun", "head", "de-noun"]))
    );
    assert_eq!(
        get_word_types(&record(r#"{"pos":null,"head_templates":[]}"#)),
        Some(Vec::new())
    );
    assert_eq!(get_word_types(&record(r#"{"senses":[]}"#)), None);
    let mut written = empty_record();
    written.head_templates = Some(vec![some("de-noun"), None, some("head")]);
    assert_eq!(get_word_types(&written), Some(strings(&["de-noun", "head"])));
    written.pos = some("noun");
    assert_eq!(get_word_types(&written), Some(strings(&["noun"])));
}

#[test]
fn definitions_filter_capitalize_and_sort_tags() {
    let record = record(
        r#"{"senses":[
            {"tags":["neuter","class-3","strong","Archaic","declension-5",7,"éte","stress-pattern-1"],
             "glosses":["with accusative] above","ignored"]},
            {"tags":["form-of"]},
            {"glosses":[]},
            {"glosses":[3]},
            {"glosses":"text"},
            {"glosses":["plain"]}
        ]}"#,
    );
    let word_set = headwords(&[("above", TargetLanguage::German)]);
    let got = get_definitions(&record, &word_set, &TargetLanguage::German).unwrap();
    assert_eq!(
        got,
        vec![
            Definition {
                text: vec![
                    plain("["),
                    plain("with"),
                    plain(" "),
                    plain("accusative"),
                    plain("] "),
                    HyperlinkedText::Link("above".to_string()),
                ],
                tags: strings(&["Archaic", "Neuter", "Strong", "éte"]),
            },
            Definition { text: vec![plain("plain")], tags: Vec::new() },
        ]
    );
    assert_eq!(get_definitions(&crate::record("{}"), &word_set, &TargetLanguage::German), None);
    let sense = RawSense {
        tags: Some(vec![some("weak"), None, some("class-1"), some("archaic"), some("weak")]),
        gloss: None,
    };
    assert_eq!(get_tags(&sense), strings(&["Archaic", "Weak", "Weak"]));
    assert_eq!(get_tags(&RawSense { tags: None, gloss: None }), Vec::<String>::new());
}

#[test]
fn first_letter_capital() {
    assert_eq!(uppercase_first_character_latin("form-of"), "Form-of");
    assert_eq!(uppercase_first_character_latin("a"), "A");
    assert_eq!(uppercase_first_character_latin("z"), "Z");
    assert_eq!(uppercase_first_character_latin("Already"), "Already");
    assert_eq!(uppercase_first_character_latin("éte"), "éte");
    assert_eq!(uppercase_first_character_latin("1st"), "1st");
    assert_eq!(uppercase_first_character_latin(""), "");
}

#[test]
fn members_of_a_record() {
    let record = json(r#"{"word":"Haus","n":1,"list":["a",2],"nothing":null}"#);
    assert_eq!(get_str(&record, "word"), some("Haus"));
    assert_eq!(get_str(&record, "n"), None);
    assert_eq!(get_str(&record, "absent"), None);
    assert_eq!(get_str(&record, "nothing"), None);
    assert_eq!(get_array(&record, "list").map(|a| a.len()), Some(2));
    assert_eq!(get_array(&record, "word"), None);
    assert_eq!(get_str(&json(r#"["word"]"#), "word"), None);
    assert_eq!(
        record_headwords(&crate::record(r#"{"word":"Haus","lang_code":"de"}"#)),
        vec![("Haus".to_string(), TargetLanguage::German)]
    );
    assert_eq!(read_line("{"), None);
    assert_eq!(read_line("[]"), Some(empty_record()));
    assert_eq!(
        read_sound(&json(r#"{"ogg_url":1,"ipa":"/x/"}"#)),
        RawSound { ogg_url: Some(None), mp3_url: None, ipa: some("/x/") }
    );
    assert_eq!(
        read_sense(&json(r#"{"tags":["a",2],"glosses":["first","second"]}"#)),
        RawSense { tags: Some(vec![some("a"), None]), gloss: some("first") }
    );
    assert_eq!(
        read_sense(&json(r#"{"tags":"a","glosses":[]}"#)),
        RawSense { tags: None, gloss: None }
    );
}
