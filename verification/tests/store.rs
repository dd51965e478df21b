use dictdefinition::codec::{compress_dictionary_data, compress_element, output_compressed_dict, CodecError};
use dictdefinition::entry::{CompressedDictionaryElementWrapper, DictionaryElementData};
use dictdefinition::language::TargetLanguage;
use dictdefinition::lemmas::LemmaTable;
use dictdefinition::store::{czech_lemma, ladder_keys, lowercase_with_first_uppercase, DictionaryStore};

const LEMMAS: &str = "Aachen\tAachenu\nabeceda\tabecedu\nabsentovat\tabsentovala\nAbrahám\tAbrahámu\n";

fn lemmatize_czech(word: &str) -> String {
    LemmaTable::from_source(LEMMAS).lemmatize(word)
}

fn entry(key: &str, lang: TargetLanguage, mark: &str) -> DictionaryElementData {
    DictionaryElementData {
        key: key.to_string(),
        word: key.to_string(),
        lang,
        audio: vec![mark.to_string()],
        ipa: None,
        word_types: Vec::new(),
        definitions: Vec::new(),
        dereferenced_text: None,
    }
}

fn store_of(entries: &[DictionaryElementData]) -> DictionaryStore {
    let compressed = compress_dictionary_data(entries.to_vec()).unwrap();
    DictionaryStore::from_elements(compressed, LemmaTable::from_source(LEMMAS))
}

#[test]
fn test_lemmatize_known_words() {
    assert_eq!(lemmatize_czech("Aachenu"), "Aachen");
    assert_eq!(lemmatize_czech("abecedu"), "abeceda");
    assert_eq!(lemmatize_czech("absentovala"), "absentovat");
}

#[test]
fn test_lemmatize_preserves_case() {
    assert_eq!(lemmatize_czech("Abrahámu"), "Abrahám");
}

#[test]
fn lemmatize_unknown_word_is_the_word() {
    assert_eq!(lemmatize_czech("neznámé"), "neznámé");
    assert_eq!(lemmatize_czech("aachenu"), "aachenu");
    assert_eq!(LemmaTable::new().lemmatize("Aachenu"), "Aachenu");
}

#[test]
fn lemma_table_source_format() {
    let source = "\u{feff}pes\tpsa\r\n\n   \npes\tpsovi  \n\u{feff}\u{feff}kočka\tkočky\nkůň\tpsa\nno tab here\nlemma\t\nmyš\tmyši\tmyší\nkonec\tkonce";
    let table = LemmaTable::from_source(source);
    assert_eq!(table.lemmatize("psa"), "pes");
    assert_eq!(table.lemmatize("psovi"), "pes");
    assert_eq!(table.lemmatize("kočky"), "kočka");
    assert_eq!(table.lemmatize("no tab here"), "no tab here");
    assert_eq!(table.lemmatize("myši\tmyší"), "myš");
    assert_eq!(table.lemmatize("myši"), "myši");
    assert_eq!(table.lemmatize("konce"), "konec");
    assert_eq!(table.lemmatize(""), "");
    assert_eq!(LemmaTable::from_source("").lemmatize("psa"), "psa");
}

#[test]
fn titled_form() {
    assert_eq!(lowercase_with_first_uppercase("hAUS"), "Haus");
    assert_eq!(lowercase_with_first_uppercase("Haus"), "Haus");
    assert_eq!(lowercase_with_first_uppercase("ßA"), "SSa");
    assert_eq!(lowercase_with_first_uppercase("éCOLE"), "École");
    assert_eq!(lowercase_with_first_uppercase(""), "");
}

#[test]
fn query_exact_key_first() {
    let store = store_of(&[
        entry("haus", TargetLanguage::German, "lower"),
        entry("Haus", TargetLanguage::German, "titled"),
        entry("HAUS", TargetLanguage::German, "upper"),
        entry("Haus", TargetLanguage::Dutch, "dutch"),
    ]);
    assert_eq!(
        store.query(TargetLanguage::German, "Haus"),
        Some(entry("Haus", TargetLanguage::German, "titled"))
    );
    assert_eq!(
        store.query(TargetLanguage::German, "HAUS"),
        Some(entry("HAUS", TargetLanguage::German, "upper"))
    );
    assert_eq!(
        store.query(TargetLanguage::Dutch, "Haus"),
        Some(entry("Haus", TargetLanguage::Dutch, "dutch"))
    );
    assert_eq!(store.query(TargetLanguage::French, "Haus"), None);
    assert_eq!(store.query(TargetLanguage::German, "Maus"), None);
}

#[test]
fn query_falls_back_to_lowercase_then_titled() {
    let store = store_of(&[
        entry("haus", TargetLanguage::German, "lower"),
        entry("Haus", TargetLanguage::German, "titled"),
        entry("Maus", TargetLanguage::German, "titled mouse"),
        entry("laus", TargetLanguage::German, "lower louse"),
    ]);
    // Lowercase comes before titled.
    assert_eq!(
        store.query(TargetLanguage::German, "HAUS"),
        Some(entry("haus", TargetLanguage::German, "lower"))
    );
    assert_eq!(
        store.query(TargetLanguage::German, "hAus"),
        Some(entry("haus", TargetLanguage::German, "lower"))
    );
    // Titled is tried where lowercase misses.
    assert_eq!(
        store.query(TargetLanguage::German, "MAUS"),
        Some(entry("Maus", TargetLanguage::German, "titled mouse"))
    );
    assert_eq!(
        store.query(TargetLanguage::German, "maus"),
        Some(entry("Maus", TargetLanguage::German, "titled mouse"))
    );
    assert_eq!(
        store.query(TargetLanguage::German, "Laus"),
        Some(entry("laus", TargetLanguage::German, "lower louse"))
    );
    // No other casing is tried.
    assert_eq!(store.query(TargetLanguage::German, "lAUS2"), None);
}

#[test]
fn query_czech_lemma() {
    let store = store_of(&[
        entry("Aachen", TargetLanguage::German, "german"),
        entry("aachen", TargetLanguage::Czech, "czech lower"),
        entry("ABECEDA", TargetLanguage::Czech, "czech upper"),
        entry("abeceda", TargetLanguage::Czech, "czech lower abc"),
    ]);
    assert_eq!(
        store.query(TargetLanguage::Czech, "Aachenu"),
        store.query(TargetLanguage::Czech, "Aachen")
    );
    assert_eq!(
        store.query(TargetLanguage::Czech, "Aachenu"),
        Some(entry("aachen", TargetLanguage::Czech, "czech lower"))
    );
    // The uppercase form of the lemma comes before its lowercase form.
    assert_eq!(
        store.query(TargetLanguage::Czech, "abecedu"),
        Some(entry("ABECEDA", TargetLanguage::Czech, "czech upper"))
    );
    // The lowercase form of the key is lemmatized where the key itself has no lemma.
    assert_eq!(
        store.query(TargetLanguage::Czech, "ABECEDU"),
        Some(entry("ABECEDA", TargetLanguage::Czech, "czech upper"))
    );
    // Only Czech has lemmas.
    assert_eq!(store.query(TargetLanguage::German, "Aachenu"), None);
    assert_eq!(store.query(TargetLanguage::Czech, "neznámé"), None);
}

#[test]
fn query_czech_lemma_either_casing() {
    let upper_only = store_of(&[entry("AACHEN", TargetLanguage::Czech, "upper")]);
    assert_eq!(
        upper_only.query(TargetLanguage::Czech, "Aachenu"),
        Some(entry("AACHEN", TargetLanguage::Czech, "upper"))
    );
    let titled_only = store_of(&[entry("Aachen", TargetLanguage::Czech, "titled")]);
    assert_eq!(
        titled_only.query(TargetLanguage::Czech, "Aachen"),
        Some(entry("Aachen", TargetLanguage::Czech, "titled"))
    );
    // The lemma is tried in uppercase and in lowercase only.
    assert_eq!(titled_only.query(TargetLanguage::Czech, "Aachenu"), None);
}

#[test]
fn query_a_hit_that_holds_no_entry_ends_the_lookup() {
    let broken = CompressedDictionaryElementWrapper {
        key: "Haus".to_string(),
        lang: TargetLanguage::German,
        compressed_data: vec![0, 1, 2],
    };
    let good = compress_element(&entry("haus", TargetLanguage::German, "lower")).unwrap();
    let store = DictionaryStore::from_elements(vec![broken, good], LemmaTable::new());
    assert_eq!(store.query(TargetLanguage::German, "Haus"), None);
    assert_eq!(
        store.query(TargetLanguage::German, "HAUS"),
        Some(entry("haus", TargetLanguage::German, "lower"))
    );
}

#[test]
fn loading_a_dump_gives_back_its_entries() {
    let entries = vec![
        entry("Haus", TargetLanguage::German, "1"),
        entry("haus", TargetLanguage::German, "2"),
        entry("Haus", TargetLanguage::Dutch, "3"),
        entry("дом", TargetLanguage::Russian, "4"),
    ];
    let compressed = compress_dictionary_data(entries.clone()).unwrap();
    let bytes = output_compressed_dict(&compressed).unwrap();
    let store = DictionaryStore::from_elements_dump(&bytes, LemmaTable::new()).unwrap();
    for e in &entries {
        assert_eq!(store.query(e.lang, &e.key).as_ref(), Some(e));
    }
    assert_eq!(store.query(TargetLanguage::Russian, "haus"), None);
}

#[test]
fn loading_a_later_entry_replaces_an_earlier_one() {
    let compressed = compress_dictionary_data(vec![
        entry("Haus", TargetLanguage::German, "first"),
        entry("Haus", TargetLanguage::German, "second"),
    ])
    .unwrap();
    let store = DictionaryStore::from_elements(compressed, LemmaTable::new());
    assert_eq!(
        store.query(TargetLanguage::German, "Haus"),
        Some(entry("Haus", TargetLanguage::German, "second"))
    );
}

#[test]
fn loading_refuses_what_is_no_dump() {
    assert_eq!(
        DictionaryStore::from_elements_dump(&[7, 7, 7], LemmaTable::new()).err(),
        Some(CodecError::Deserialization)
    );
    let unknown: Vec<(String, u32, Vec<u8>)> = vec![("k".to_string(), 12, vec![])];
    let bytes = bincode::serialize(&unknown).unwrap();
    assert_eq!(
        DictionaryStore::from_elements_dump(&bytes, LemmaTable::new()).err(),
        Some(CodecError::UnknownLanguage)
    );
}

#[test]
fn wiktionary_link() {
    let mut e = entry("guten Tag", TargetLanguage::German, "x");
    assert_eq!(
        e.get_wiktionary_link(),
        "https://en.wiktionary.org/wiki/gutenTag#German"
    );
    e.word = "voda".to_string();
    e.lang = TargetLanguage::Croatian;
    assert_eq!(
        e.get_wiktionary_link(),
        "https://en.wiktionary.org/wiki/voda#Serbo-Croatian"
    );
}

#[test]
fn query_czech_key_without_lemma_tries_no_lemma_forms() {
    // Nothing in the table for "Abc" or "abc": the uppercase key is not tried.
    let store = store_of(&[entry("ABC", TargetLanguage::Czech, "upper")]);
    assert_eq!(store.query(TargetLanguage::Czech, "Abc"), None);
    assert_eq!(store.query(TargetLanguage::Czech, "abc"), None);
    assert_eq!(
        store.query(TargetLanguage::Czech, "ABC"),
        Some(entry("ABC", TargetLanguage::Czech, "upper"))
    );
}

#[test]
fn czech_lemma_needs_a_mapping_to_another_word() {
    let table = LemmaTable::from_source("pes\tpsa\nsame\tsame\nPes\tPSOVI\nkey\tother\nKey\tkey\n");
    assert_eq!(table.lookup("psa"), Some("pes".to_string()));
    assert_eq!(table.lookup("pes"), None);
    assert_eq!(czech_lemma(&table, "psa", "psa"), Some("pes".to_string()));
    // The lowercase form is looked up where the key itself is not mapped.
    assert_eq!(czech_lemma(&table, "PSA", "psa"), Some("pes".to_string()));
    assert_eq!(czech_lemma(&table, "PSOVI", "psovi"), Some("Pes".to_string()));
    // No mapping, or a mapping to the key itself, is no lemma.
    assert_eq!(czech_lemma(&table, "kost", "kost"), None);
    assert_eq!(czech_lemma(&table, "Kost", "kost"), None);
    assert_eq!(czech_lemma(&table, "same", "same"), None);
    // A mapping of the lowercase form to the key is none either.
    assert_eq!(czech_lemma(&table, "Key", "key"), None);
}

#[test]
fn ladder_from_given_forms() {
    let s = |x: &str| x.to_string();
    assert_eq!(ladder_keys("haus", s("haus"), s("Haus"), None), vec![s("haus"), s("Haus")]);
    assert_eq!(ladder_keys("Haus", s("haus"), s("Haus"), None), vec![s("Haus"), s("haus")]);
    assert_eq!(
        ladder_keys("hAus", s("haus"), s("Haus"), Some((s("DUM"), s("dum")))),
        vec![s("hAus"), s("haus"), s("Haus"), s("DUM"), s("dum")]
    );
    assert_eq!(ladder_keys("", s(""), s(""), None), vec![s("")]);
}

#[test]
fn first_hit_stops_at_the_first_key_held() {
    let store = store_of(&[
        entry("b", TargetLanguage::German, "b"),
        entry("c", TargetLanguage::German, "c"),
        entry("a", TargetLanguage::French, "a"),
    ]);
    let probes: Vec<String> = ["a", "c", "b"].iter().map(|s| s.to_string()).collect();
    assert_eq!(
        store.first_hit(TargetLanguage::German, &probes),
        Some(entry("c", TargetLanguage::German, "c"))
    );
    assert_eq!(
        store.first_hit(TargetLanguage::French, &probes),
        Some(entry("a", TargetLanguage::French, "a"))
    );
    assert_eq!(store.first_hit(TargetLanguage::Czech, &probes), None);
    assert_eq!(store.first_hit(TargetLanguage::German, &Vec::new()), None);
}
