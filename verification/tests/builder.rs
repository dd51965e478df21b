use dictdefinition::builder::{
    add_headwords, build_compressed_dictionary, build_dictionary, build_dictionary_data,
    build_word_set, collect_entries, entries_for_word,
};
use dictdefinition::codec::decompress_element;
use dictdefinition::entry::HyperlinkedText;
use dictdefinition::headwords::HeadwordSet;
use dictdefinition::language::TargetLanguage;

fn corpus() -> Vec<String> {
    [
        r#"{"word":"bemerken","lang_code":"de","pos":"verb","sounds":[{"ipa":"/bəˈmɛʁkən/"},{"ogg_url":"bemerken.ogg"}],"senses":[{"glosses":["to notice"],"tags":["weak","class-1"]}]}"#,
        r#"{"word":"bemerkt","lang_code":"de","pos":"verb","sounds":[{"ipa":"/bəˈmɛʁkt/"}],"senses":[{"glosses":["past participle of bemerken"],"tags":["form-of","participle"]}]}"#,
        "this line is not JSON",
        r#"{"word":"notice","lang_code":"de","pos":"noun","senses":[{"glosses":["a notice)"]}]}"#,
        r#"{"word":"bemerken","lang_code":"de","pos":"verb","sounds":[{"mp3_url":"bemerken.mp3"}],"senses":[{"glosses":["to notice"],"tags":["transitive"]},{"glosses":["to remark"]}]}"#,
        r#"{"word":"bemerken","lang_code":"nl","head_templates":[{"name":"nl-verb"}],"senses":[{"glosses":["to notice"]}]}"#,
        r#"{"word":"unknown","lang_code":"tlh","pos":"noun","senses":[]}"#,
    ]
    .iter()
    .map(|s| s.to_string())
    .collect()
}

fn plain(s: &str) -> HyperlinkedText {
    HyperlinkedText::Plain(s.to_string())
}

fn link(s: &str) -> HyperlinkedText {
    HyperlinkedText::Link(s.to_string())
}

#[test]
fn word_set_of_the_lines() {
    let word_set = build_word_set(&corpus());
    assert!(word_set.contains("bemerken", TargetLanguage::German));
    assert!(word_set.contains("bemerkt", TargetLanguage::German));
    assert!(word_set.contains("notice", TargetLanguage::German));
    assert!(word_set.contains("bemerken", TargetLanguage::Dutch));
    assert!(!word_set.contains("bemerkt", TargetLanguage::Dutch));
    assert!(!word_set.contains("unknown", TargetLanguage::English));
    let mut more = HeadwordSet::new();
    more.insert("Haus".to_string(), TargetLanguage::German);
    add_headwords(&mut more, &corpus());
    assert!(more.contains("Haus", TargetLanguage::German));
    assert!(more.contains("notice", TargetLanguage::German));
}

#[test]
fn dictionary_data_is_merged() {
    let lines = corpus();
    let word_set = build_word_set(&lines);
    assert_eq!(collect_entries(&lines, &word_set).len(), 5);
    let data = build_dictionary_data(&lines, &word_set);
    let keys: Vec<(&str, TargetLanguage)> = data.iter().map(|e| (e.key.as_str(), e.lang)).collect();
    assert_eq!(
        keys,
        vec![
            ("bemerken", TargetLanguage::German),
            ("bemerkt", TargetLanguage::German),
            ("notice", TargetLanguage::German),
            ("bemerken", TargetLanguage::Dutch),
        ]
    );
    let bemerken = &data[0];
    assert_eq!(bemerken.audio, vec!["bemerken.ogg".to_string(), "bemerken.mp3".to_string()]);
    assert_eq!(bemerken.ipa, Some("/bəˈmɛʁkən/".to_string()));
    assert_eq!(bemerken.word_types, vec!["verb".to_string()]);
    assert_eq!(bemerken.definitions.len(), 2);
    assert_eq!(
        bemerken.definitions[0].text,
        vec![plain("to"), plain(" "), link("notice")]
    );
    assert_eq!(
        bemerken.definitions[0].tags,
        vec!["Transitive".to_string(), "Weak".to_string()]
    );
    assert_eq!(bemerken.definitions[1].text, vec![plain("to"), plain(" "), plain("remark")]);
    assert_eq!(
        data[2].definitions[0].text,
        vec![plain("("), plain("a"), plain(" "), link("notice"), plain(")")]
    );
    assert_eq!(data[3].word_types, vec!["nl-verb".to_string()]);
    assert_eq!(
        entries_for_word(&data, "bemerken", TargetLanguage::Dutch),
        vec![data[3].clone()]
    );
    assert!(entries_for_word(&data, "bemerken", TargetLanguage::Czech).is_empty());
}

#[test]
fn dictionary_is_dereferenced() {
    let dictionary = build_dictionary(&corpus());
    assert_eq!(dictionary.len(), 4);
    let bemerkt = &dictionary[1];
    assert_eq!(bemerkt.key, "bemerkt");
    assert_eq!(bemerkt.word, "bemerken");
    assert_eq!(bemerkt.dereferenced_text, Some("past participle of".to_string()));
    assert_eq!(bemerkt.definitions, dictionary[0].definitions);
    assert_eq!(bemerkt.audio, dictionary[0].audio);
    assert_eq!(bemerkt.ipa, dictionary[0].ipa);
    for e in &dictionary {
        for (i, d) in e.definitions.iter().enumerate() {
            let mut sorted = d.tags.clone();
            sorted.sort();
            assert_eq!(d.tags, sorted);
            for other in &e.definitions[i + 1..] {
                assert_ne!(d.text, other.text);
            }
        }
    }
}

#[test]
fn compressed_dictionary_holds_the_dictionary() {
    let lines = corpus();
    let dictionary = build_dictionary(&lines);
    let compressed = build_compressed_dictionary(&lines).unwrap();
    assert_eq!(compressed.len(), dictionary.len());
    for (w, e) in compressed.iter().zip(dictionary.iter()) {
        assert_eq!(decompress_element(w).as_ref(), Some(e));
    }
    for i in 0..compressed.len() {
        for j in (i + 1)..compressed.len() {
            assert!(compressed[i].key != compressed[j].key || compressed[i].lang != compressed[j].lang);
        }
    }
    // Built twice, the dump is the same.
    let again = build_compressed_dictionary(&lines).unwrap();
    for (x, y) in compressed.iter().zip(again.iter()) {
        assert_eq!(x.compressed_data, y.compressed_data);
    }
}
