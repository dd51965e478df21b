use dictdefinition::codec::{
    compress_dictionary_data, compress_element, decompress_blob, decompress_element,
    entry_from, entry_to_record, output_compressed_dict, read_compressed_dict, record_to_entry,
    serialized, wrap_frame, wrappers_from, CodecError,
};
use dictdefinition::entry::{
    CompressedDictionaryElementWrapper, Definition, DictionaryElementData, HyperlinkedText,
};
use dictdefinition::language::TargetLanguage;

fn strings(items: &[&str]) -> Vec<String> {
    items.iter().map(|s| s.to_string()).collect()
}

fn sample(key: &str, lang: TargetLanguage) -> DictionaryElementData {
    DictionaryElementData {
        key: key.to_string(),
        word: "bemerken".to_string(),
        lang,
        audio: strings(&["a.ogg", "b.mp3"]),
        ipa: Some("/bəˈmɛʁkən/".to_string()),
        word_types: strings(&["verb"]),
        definitions: vec![
            Definition {
                text: vec![
                    HyperlinkedText::Plain("to ".to_string()),
                    HyperlinkedText::Link("notice".to_string()),
                ],
                tags: strings(&["Transitive", "Weak"]),
            },
            Definition { text: Vec::new(), tags: Vec::new() },
        ],
        dereferenced_text: Some("past participle of".to_string()),
    }
}

fn empty(key: &str, lang: TargetLanguage) -> DictionaryElementData {
    DictionaryElementData {
        key: key.to_string(),
        word: String::new(),
        lang,
        audio: Vec::new(),
        ipa: None,
        word_types: Vec::new(),
        definitions: Vec::new(),
        dereferenced_text: None,
    }
}

fn io_error() -> std::io::Error {
    std::io::Error::new(std::io::ErrorKind::Other, "failed")
}

fn bincode_error() -> Box<bincode::ErrorKind> {
    Box::new(bincode::ErrorKind::SizeLimit)
}

#[test]
fn decompress_gives_back_what_was_compressed() {
    for e in [
        sample("bemerkt", TargetLanguage::German),
        empty("", TargetLanguage::English),
        empty("дальше", TargetLanguage::Russian),
    ] {
        let w = compress_element(&e).unwrap();
        assert_eq!(w.key, e.key);
        assert_eq!(w.lang, e.lang);
        assert_eq!(decompress_element(&w), Some(e));
    }
}

#[test]
fn compressed_data_is_a_zstd_frame_of_the_record() {
    let e = sample("bemerkt", TargetLanguage::German);
    let w = compress_element(&e).unwrap();
    let record = entry_to_record(&e);
    let serialized_record = bincode::serialize(&record).unwrap();
    assert_ne!(w.compressed_data, serialized_record);
    assert_eq!(&w.compressed_data[..4], &[0x28, 0xb5, 0x2f, 0xfd]);
    assert_eq!(
        zstd::stream::decode_all(&w.compressed_data[..]).unwrap(),
        serialized_record
    );
    // Key and language stay outside the compressed data.
    let other = decompress_blob(&w.compressed_data, "other".to_string(), TargetLanguage::Czech).unwrap();
    assert_eq!(other.key, "other");
    assert_eq!(other.lang, TargetLanguage::Czech);
    assert_eq!(other.word, e.word);
    assert_eq!(other.definitions, e.definitions);
}

#[test]
fn decompress_refuses_what_is_no_entry() {
    let mut w = CompressedDictionaryElementWrapper {
        key: "k".to_string(),
        lang: TargetLanguage::German,
        compressed_data: vec![1, 2, 3],
    };
    assert_eq!(decompress_element(&w), None);
    // A frame that holds no record.
    w.compressed_data = zstd::stream::encode_all(&[1u8, 2, 3][..], 4).unwrap();
    assert_eq!(decompress_element(&w), None);
    // A record with a fragment of a kind that does not exist.
    let mut record = entry_to_record(&sample("k", TargetLanguage::German));
    record.4[0].0[1].0 = 2;
    let bytes = bincode::serialize(&record).unwrap();
    w.compressed_data = zstd::stream::encode_all(&bytes[..], 4).unwrap();
    assert_eq!(decompress_element(&w), None);
    assert_eq!(record_to_entry(record, "k".to_string(), TargetLanguage::German), None);
}

#[test]
fn record_round_trip() {
    let e = sample("bemerkt", TargetLanguage::German);
    let record = entry_to_record(&e);
    assert_eq!(record.0, "bemerken");
    assert_eq!(record.4[0].0, vec![(0, "to ".to_string()), (1, "notice".to_string())]);
    assert_eq!(
        record_to_entry(record.clone(), "bemerkt".to_string(), TargetLanguage::German),
        Some(e.clone())
    );
    assert_eq!(
        entry_from(Ok(record), "bemerkt".to_string(), TargetLanguage::German),
        Some(e)
    );
    assert_eq!(
        entry_from(Err(bincode_error()), "bemerkt".to_string(), TargetLanguage::German),
        None
    );
}

#[test]
fn compress_dictionary_data_keeps_order_and_keys() {
    let entries = vec![
        sample("b", TargetLanguage::German),
        empty("a", TargetLanguage::French),
        sample("c", TargetLanguage::Czech),
    ];
    let compressed = compress_dictionary_data(entries.clone()).unwrap();
    assert_eq!(compressed.len(), 3);
    for (w, e) in compressed.iter().zip(entries.iter()) {
        assert_eq!(w.key, e.key);
        assert_eq!(w.lang, e.lang);
        assert_eq!(decompress_element(w).as_ref(), Some(e));
    }
    assert!(compress_dictionary_data(Vec::new()).unwrap().is_empty());
}

#[test]
fn dump_round_trip() {
    let entries = vec![
        sample("b", TargetLanguage::German),
        empty("a", TargetLanguage::French),
    ];
    let compressed = compress_dictionary_data(entries).unwrap();
    let bytes = output_compressed_dict(&compressed).unwrap();
    let back = read_compressed_dict(&bytes).unwrap();
    assert_eq!(back.len(), compressed.len());
    for (x, y) in back.iter().zip(compressed.iter()) {
        assert_eq!(x.key, y.key);
        assert_eq!(x.lang, y.lang);
        assert_eq!(x.compressed_data, y.compressed_data);
    }
    // The dump is the serialized vector of key, language number and data.
    let empty_dump = output_compressed_dict(&Vec::new()).unwrap();
    assert_eq!(empty_dump, vec![0u8; 8]);
    let one = vec![CompressedDictionaryElementWrapper {
        key: "ab".to_string(),
        lang: TargetLanguage::German,
        compressed_data: vec![9, 8],
    }];
    assert_eq!(
        output_compressed_dict(&one).unwrap(),
        vec![
            1, 0, 0, 0, 0, 0, 0, 0, // one record
            2, 0, 0, 0, 0, 0, 0, 0, b'a', b'b', // key
            1, 0, 0, 0, // German
            2, 0, 0, 0, 0, 0, 0, 0, 9, 8, // data
        ]
    );
}

#[test]
fn read_compressed_dict_errors() {
    assert_eq!(
        read_compressed_dict(&[1, 2, 3]).err(),
        Some(CodecError::Deserialization)
    );
    let unknown: Vec<(String, u32, Vec<u8>)> = vec![("k".to_string(), 99, vec![])];
    let bytes = bincode::serialize(&unknown).unwrap();
    assert_eq!(
        read_compressed_dict(&bytes).err(),
        Some(CodecError::UnknownLanguage)
    );
    assert_eq!(
        wrappers_from(Ok(unknown)).err(),
        Some(CodecError::UnknownLanguage)
    );
    assert_eq!(
        wrappers_from(Err(bincode_error())).err(),
        Some(CodecError::Deserialization)
    );
    assert!(read_compressed_dict(&[0u8; 8]).unwrap().is_empty());
}

#[test]
fn outside_failures_are_reported() {
    assert_eq!(serialized(Ok(vec![1, 2])), Ok(vec![1, 2]));
    assert_eq!(serialized(Err(bincode_error())), Err(CodecError::Serialization));
    let wrapped = wrap_frame("k".to_string(), TargetLanguage::Czech, Ok(vec![7])).unwrap();
    assert_eq!(wrapped.key, "k");
    assert_eq!(wrapped.lang, TargetLanguage::Czech);
    assert_eq!(wrapped.compressed_data, vec![7]);
    assert_eq!(
        wrap_frame("k".to_string(), TargetLanguage::Czech, Err(io_error())).err(),
        Some(CodecError::Compression)
    );
}
