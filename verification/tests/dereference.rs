use dictdefinition::dereference::{entry_reference, parse_dereference, process_dereferences};
use dictdefinition::entry::{Definition, DictionaryElementData, HyperlinkedText};
use dictdefinition::language::TargetLanguage;

fn plain(s: &str) -> HyperlinkedText {
    HyperlinkedText::Plain(s.to_string())
}

fn link(s: &str) -> HyperlinkedText {
    HyperlinkedText::Link(s.to_string())
}

#[test]
fn test_parse_dereference_bemerkt() {
    let input = vec![
        HyperlinkedText::Plain("past".to_string()),
        HyperlinkedText::Plain(" ".to_string()),
        HyperlinkedText::Plain("participle".to_string()),
        HyperlinkedText::Plain(" ".to_string()),
        HyperlinkedText::Plain("of".to_string()),
        HyperlinkedText::Plain(" ".to_string()),
        HyperlinkedText::Link("bemerken".to_string()),
    ];
    let expected = Some(("past participle of".to_string(), "bemerken".to_string()));
    assert_eq!(parse_dereference(&input), expected);
}

#[test]
fn test_parse_dereference_russian_with_phonetics() {
    let input = vec![
        HyperlinkedText::Plain("Alternative".to_string()),
        HyperlinkedText::Plain(" ".to_string()),
        HyperlinkedText::Plain("form".to_string()),
        HyperlinkedText::Plain(" ".to_string()),
        HyperlinkedText::Plain("of".to_string()),
        HyperlinkedText::Plain(" ".to_string()),
        HyperlinkedText::Link("дальше".to_string()),
        HyperlinkedText::Plain(" (".to_string()),
        HyperlinkedText::Plain("dálʹše".to_string()),
        HyperlinkedText::Plain("): ".to_string()),
        HyperlinkedText::Plain("farther".to_string()),
    ];
    let expected = Some(("Alternative form of".to_string(), "дальше".to_string()));
    assert_eq!(parse_dereference(&input), expected);
}

#[test]
fn test_parse_dereference_too_long_after() {
    let input = vec![
        HyperlinkedText::Plain("form".to_string()),
        HyperlinkedText::Plain(" ".to_string()),
        HyperlinkedText::Plain("of".to_string()),
        HyperlinkedText::Plain(" ".to_string()),
        HyperlinkedText::Link("word".to_string()),
        HyperlinkedText::Plain(" and a very long sentence follows here that should definitely fail the thirty character safety check".to_string()),
    ];
    assert_eq!(parse_dereference(&input), None);
}

#[test]
fn parse_dereference_link_next_to_of() {
    let input = vec![plain("plural"), plain(" "), plain(" of "), link("Haus")];
    assert_eq!(
        parse_dereference(&input),
        Some(("plural of".to_string(), "Haus".to_string()))
    );
}

#[test]
fn parse_dereference_skips_an_of_without_link() {
    let input = vec![
        plain("out"),
        plain(" "),
        plain("of"),
        plain(" "),
        plain("plural"),
        plain(" "),
        plain("of"),
        plain(" "),
        link("Haus"),
    ];
    assert_eq!(
        parse_dereference(&input),
        Some(("out of plural of".to_string(), "Haus".to_string()))
    );
}

#[test]
fn parse_dereference_without_of_is_none() {
    let input = vec![plain("a"), plain(" "), link("house")];
    assert_eq!(parse_dereference(&input), None);
    assert_eq!(parse_dereference(&Vec::new()), None);
}

#[test]
fn parse_dereference_bounds_before() {
    // 100 characters before "of" pass, 101 do not.
    let ok = vec![plain(&"x".repeat(100)), plain("of"), link("w")];
    assert_eq!(
        parse_dereference(&ok),
        Some((format!("{} of", "x".repeat(100)), "w".to_string()))
    );
    let long = vec![plain(&"x".repeat(101)), plain("of"), link("w")];
    assert_eq!(parse_dereference(&long), None);
    // 12 whitespace characters before "of" pass, 13 do not.
    let spaced = vec![plain("a"), plain(&" ".repeat(12)), plain("of"), link("w")];
    assert_eq!(
        parse_dereference(&spaced),
        Some(("a of".to_string(), "w".to_string()))
    );
    let too_spaced = vec![plain("a"), plain(&" ".repeat(13)), plain("of"), link("w")];
    assert_eq!(parse_dereference(&too_spaced), None);
}

#[test]
fn parse_dereference_bounds_after() {
    let ok = vec![plain("of"), link("w"), plain(&"y".repeat(30))];
    assert_eq!(
        parse_dereference(&ok),
        Some((" of".to_string(), "w".to_string()))
    );
    let long = vec![plain("of"), link("w"), plain(&"y".repeat(31))];
    assert_eq!(parse_dereference(&long), None);
}

fn strings(items: &[&str]) -> Vec<String> {
    items.iter().map(|s| s.to_string()).collect()
}

fn entry(key: &str, lang: TargetLanguage, definitions: Vec<Definition>) -> DictionaryElementData {
    DictionaryElementData {
        key: key.to_string(),
        word: key.to_string(),
        lang,
        audio: Vec::new(),
        ipa: None,
        word_types: strings(&["verb"]),
        definitions,
        dereferenced_text: None,
    }
}

fn form_of(label: &str, word: &str, tag: &str) -> Definition {
    Definition {
        text: vec![plain(label), plain(" "), plain("of"), plain(" "), link(word)],
        tags: strings(&[tag]),
    }
}

fn meaning(text: &str) -> Definition {
    Definition { text: vec![plain(text)], tags: Vec::new() }
}

#[test]
fn process_dereferences_grafts_the_lemma() {
    let mut lemma = entry("bemerken", TargetLanguage::German, vec![meaning("to notice")]);
    lemma.audio = strings(&["bemerken.ogg"]);
    let mut form = entry(
        "bemerkt",
        TargetLanguage::German,
        vec![form_of("past participle", "bemerken", "Form-of")],
    );
    form.audio = strings(&["bemerkt.ogg"]);
    form.ipa = Some("/bəˈmɛʁkt/".to_string());

    let result = process_dereferences(vec![form, lemma.clone()]);

    let mut expected = lemma.clone();
    expected.key = "bemerkt".to_string();
    expected.dereferenced_text = Some("past participle of".to_string());
    // The lemma has audio of its own but no pronunciation.
    expected.ipa = Some("/bəˈmɛʁkt/".to_string());
    assert_eq!(result, vec![expected.clone(), lemma]);
    assert_ne!(expected.word, expected.key);
    assert!(expected.dereferenced_text.unwrap().ends_with(" of"));
}

#[test]
fn process_dereferences_keeps_audio_of_the_form_where_the_lemma_has_none() {
    let lemma = entry("gehen", TargetLanguage::German, vec![meaning("to go")]);
    let mut form = entry(
        "ging",
        TargetLanguage::German,
        vec![form_of("preterite", "gehen", "Alt-of")],
    );
    form.audio = strings(&["ging.ogg"]);
    let result = process_dereferences(vec![lemma.clone(), form]);
    assert_eq!(result.len(), 2);
    assert_eq!(result[0], lemma);
    assert_eq!(result[1].key, "ging");
    assert_eq!(result[1].word, "gehen");
    assert_eq!(result[1].audio, strings(&["ging.ogg"]));
    assert_eq!(result[1].ipa, None);
    assert_eq!(result[1].definitions, vec![meaning("to go")]);
    assert_eq!(result[1].dereferenced_text, Some("preterite of".to_string()));
}

#[test]
fn process_dereferences_leaves_alone_what_it_must() {
    let lemma = entry("gehen", TargetLanguage::German, vec![meaning("to go")]);
    // No tag that marks a reference.
    let untagged = entry(
        "ging",
        TargetLanguage::German,
        vec![form_of("preterite", "gehen", "Past")],
    );
    // The referenced word has no entry in this language.
    let missing = entry(
        "allait",
        TargetLanguage::French,
        vec![form_of("imperfect", "gehen", "Form-of")],
    );
    // More than six definitions.
    let mut many = vec![form_of("preterite", "gehen", "Form-of")];
    for i in 0..6 {
        many.push(meaning(&format!("meaning {}", i)));
    }
    let crowded = entry("gingen", TargetLanguage::German, many);
    // No definitions at all.
    let empty = entry("leer", TargetLanguage::German, Vec::new());
    let input = vec![lemma, untagged, missing, crowded, empty];
    assert_eq!(process_dereferences(input.clone()), input);
}

#[test]
fn process_dereferences_six_definitions_are_few_enough() {
    let lemma = entry("gehen", TargetLanguage::German, vec![meaning("to go")]);
    let mut six = vec![form_of("preterite", "gehen", "Form-of")];
    for i in 0..5 {
        six.push(meaning(&format!("meaning {}", i)));
    }
    let form = entry("gingen", TargetLanguage::German, six);
    let result = process_dereferences(vec![lemma, form]);
    assert_eq!(result[1].word, "gehen");
    assert_eq!(result[1].dereferenced_text, Some("preterite of".to_string()));
}

#[test]
fn process_dereferences_forbids_chains() {
    let c = entry("c", TargetLanguage::German, vec![meaning("the lemma")]);
    let b = entry("bb", TargetLanguage::German, vec![form_of("form", "c", "Form-of")]);
    let a = entry("aa", TargetLanguage::German, vec![form_of("form", "bb", "Form-of")]);
    // A referring entry in another language under the key "dd" bars "dd" too.
    let d = entry("dd", TargetLanguage::German, vec![meaning("another lemma")]);
    let d_fr = entry("dd", TargetLanguage::French, vec![form_of("form", "zz", "Form-of")]);
    let e = entry("ee", TargetLanguage::German, vec![form_of("form", "dd", "Form-of")]);
    let result = process_dereferences(vec![
        a.clone(),
        b.clone(),
        c.clone(),
        d.clone(),
        d_fr.clone(),
        e.clone(),
    ]);
    let mut b_resolved = c.clone();
    b_resolved.key = "bb".to_string();
    b_resolved.dereferenced_text = Some("form of".to_string());
    assert_eq!(result, vec![a, b_resolved, c, d, d_fr, e]);
}

#[test]
fn process_dereferences_keys_are_unique() {
    let first = entry("x", TargetLanguage::German, vec![meaning("first")]);
    let other = entry("y", TargetLanguage::German, vec![meaning("other")]);
    let second = entry("x", TargetLanguage::German, vec![meaning("second")]);
    let french = entry("x", TargetLanguage::French, vec![meaning("french")]);
    let result = process_dereferences(vec![first, other.clone(), second.clone(), french.clone()]);
    // A later entry takes the place of an earlier one with its key.
    assert_eq!(result, vec![second, other, french]);
    for i in 0..result.len() {
        for j in (i + 1)..result.len() {
            assert!(result[i].key != result[j].key || result[i].lang != result[j].lang);
        }
    }
}

#[test]
fn entry_reference_reads_the_first_definition() {
    let form = entry(
        "ging",
        TargetLanguage::German,
        vec![form_of("preterite", "gehen", "Form-of"), meaning("went")],
    );
    assert_eq!(
        entry_reference(&form),
        Some(("preterite of".to_string(), "gehen".to_string()))
    );
    let later = entry(
        "ging",
        TargetLanguage::German,
        vec![meaning("went"), form_of("preterite", "gehen", "Form-of")],
    );
    assert_eq!(entry_reference(&later), None);
}
