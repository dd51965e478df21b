use dictdefinition::dereference::count_whitespace;
use dictdefinition::index::EntryIndex;
use dictdefinition::language::TargetLanguage;
use dictdefinition::order::{chars_le, dedup_preserve_order, reversed, sort_strings};
use dictdefinition::text::{chars_of, same_str, string_of_range, trim_bounds};

fn strings(items: &[&str]) -> Vec<String> {
    items.iter().map(|s| s.to_string()).collect()
}

#[test]
fn count_whitespace_counts_unicode_whitespace() {
    assert_eq!(count_whitespace(""), 0);
    assert_eq!(count_whitespace("abc"), 0);
    assert_eq!(count_whitespace(" a\tb\nc\u{a0}d\u{3000}"), 5);
}

#[test]
fn trim_is_the_standard_trim() {
    for s in ["", "   ", " a b ", "\t\nx", "x\u{a0}", "é  ", "no"] {
        let chars = chars_of(s);
        let (from, to) = trim_bounds(&chars);
        assert!(from <= to && to <= chars.len());
        assert_eq!(string_of_range(&chars, from, to), s.trim());
    }
}

#[test]
fn chars_round_trip() {
    for s in ["", "abc", "дальше", "dálʹše", "a\u{301}"] {
        let chars = chars_of(s);
        assert_eq!(chars, s.chars().collect::<Vec<char>>());
        assert_eq!(string_of_range(&chars, 0, chars.len()), s);
    }
    assert!(same_str("abc", "abc"));
    assert!(!same_str("abc", "abd"));
    assert!(!same_str("abc", "ab"));
}

#[test]
fn sort_strings_sorts_as_strings_do() {
    let input = strings(&["b", "a", "", "ab", "B", "é", "a", "Z", "aa", "я", "z"]);
    let mut expected = input.clone();
    expected.sort();
    assert_eq!(sort_strings(input), expected);
    assert_eq!(sort_strings(Vec::new()), Vec::<String>::new());
}

#[test]
fn dedup_keeps_first_occurrences() {
    let mut v = strings(&["b", "a", "b", "c", "a", "b"]);
    dedup_preserve_order(&mut v);
    assert_eq!(v, strings(&["b", "a", "c"]));
    let mut empty: Vec<String> = Vec::new();
    dedup_preserve_order(&mut empty);
    assert!(empty.is_empty());
}

#[test]
fn reversed_turns_the_order_round() {
    assert_eq!(reversed(vec![1, 2, 3]), vec![3, 2, 1]);
    assert_eq!(reversed(Vec::<u8>::new()), Vec::<u8>::new());
    assert_eq!(reversed(strings(&["a"])), strings(&["a"]));
}

#[test]
fn order_of_characters() {
    let pairs = [("", ""), ("", "a"), ("a", "ab"), ("ab", "b"), ("Z", "a"), ("z", "é"), ("é", "я")];
    for (a, b) in pairs {
        assert!(chars_le(&chars_of(a), &chars_of(b)), "{} {}", a, b);
        assert_eq!(chars_le(&chars_of(b), &chars_of(a)), a == b, "{} {}", b, a);
        assert_eq!(a <= b, true);
    }
}

#[test]
fn entry_index_keeps_the_last_position() {
    let mut index = EntryIndex::new();
    assert_eq!(index.get("Haus", TargetLanguage::German), None);
    index.insert("Haus".to_string(), TargetLanguage::German, 3);
    index.insert("Haus".to_string(), TargetLanguage::Dutch, 4);
    assert_eq!(index.get("Haus", TargetLanguage::German), Some(3));
    assert_eq!(index.get("Haus", TargetLanguage::Dutch), Some(4));
    assert_eq!(index.get("haus", TargetLanguage::German), None);
    index.insert("Haus".to_string(), TargetLanguage::German, 7);
    assert_eq!(index.get("Haus", TargetLanguage::German), Some(7));
}
