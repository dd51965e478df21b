use dictdefinition::entry::{Definition, DictionaryElementData, HyperlinkedText};
use dictdefinition::language::TargetLanguage;
use dictdefinition::merge::{consolidate_definitions, merge_duplicates};

fn strings(items: &[&str]) -> Vec<String> {
    items.iter().map(|s| s.to_string()).collect()
}

fn definition(text: &str, tags: &[&str]) -> Definition {
    Definition {
        text: vec![HyperlinkedText::Plain(text.to_string())],
        tags: strings(tags),
    }
}

fn entry(word: &str, lang: TargetLanguage) -> DictionaryElementData {
    DictionaryElementData {
        key: word.to_string(),
        word: word.to_string(),
        lang,
        audio: Vec::new(),
        ipa: None,
        word_types: Vec::new(),
        definitions: Vec::new(),
        dereferenced_text: None,
    }
}

#[test]
fn consolidate_unites_tags_of_equal_bodies() {
    let mut defs = vec![
        definition("house", &["Neuter"]),
        definition("home", &["Figurative"]),
        definition("house", &["Archaic", "Neuter"]),
        definition("building", &[]),
        definition("home", &["Figurative"]),
    ];
    consolidate_definitions(&mut defs);
    assert_eq!(
        defs,
        vec![
            definition("house", &["Archaic", "Neuter"]),
            definition("home", &["Figurative"]),
            definition("building", &[]),
        ]
    );
}

#[test]
fn consolidate_tells_links_from_plain_text() {
    let plain = Definition {
        text: vec![HyperlinkedText::Plain("house".to_string())],
        tags: strings(&["A"]),
    };
    let link = Definition {
        text: vec![HyperlinkedText::Link("house".to_string())],
        tags: strings(&["B"]),
    };
    let mut defs = vec![plain.clone(), link.clone()];
    consolidate_definitions(&mut defs);
    assert_eq!(defs, vec![plain, link]);
}

#[test]
fn merge_duplicates_merges_per_word_and_language() {
    let mut first = entry("Haus", TargetLanguage::German);
    first.audio = strings(&["a.ogg", "a.ogg", "b.ogg"]);
    first.word_types = strings(&["noun"]);
    first.definitions = vec![definition("house", &["Neuter"])];

    let mut other_language = entry("Haus", TargetLanguage::Dutch);
    other_language.definitions = vec![definition("house", &[])];

    let mut second = entry("Haus", TargetLanguage::German);
    second.audio = strings(&["b.ogg", "c.ogg"]);
    second.ipa = Some("/haʊs/".to_string());
    second.word_types = strings(&["noun", "name"]);
    second.definitions = vec![definition("home", &[]), definition("house", &["Common"])];

    let mut third = entry("Haus", TargetLanguage::German);
    third.ipa = Some("/other/".to_string());

    let merged = merge_duplicates(vec![first, other_language.clone(), second, third]);

    let mut expected = entry("Haus", TargetLanguage::German);
    expected.audio = strings(&["a.ogg", "b.ogg", "c.ogg"]);
    expected.ipa = Some("/haʊs/".to_string());
    expected.word_types = strings(&["noun", "name"]);
    expected.definitions = vec![
        definition("house", &["Common", "Neuter"]),
        definition("home", &[]),
    ];
    assert_eq!(merged, vec![expected, other_language]);
}

#[test]
fn merge_duplicates_leaves_one_entry_per_word() {
    let words = ["a", "b", "a", "c", "b", "a"];
    let entries: Vec<DictionaryElementData> = words
        .iter()
        .map(|w| entry(w, TargetLanguage::French))
        .collect();
    let merged = merge_duplicates(entries);
    let got: Vec<&str> = merged.iter().map(|e| e.word.as_str()).collect();
    assert_eq!(got, vec!["a", "b", "c"]);
    assert!(merge_duplicates(Vec::new()).is_empty());
}
