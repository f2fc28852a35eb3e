use mise_config::keyed::KeyedVec;
use mise_config::model::Version;
use mise_config::text::{append_texts, contains_text, copy_text, copy_texts, decimal};

#[test]
fn keyed_new_is_empty() {
    let m: KeyedVec<String> = KeyedVec::new();
    assert_eq!(m.len(), 0);
    assert!(m.is_empty());
    assert!(m.get("a").is_none());
    assert!(!m.contains_key("a"));
    assert_eq!(m.index_of("a"), None);
}

#[test]
fn keyed_insert_appends_new_keys_in_order() {
    let mut m: KeyedVec<String> = KeyedVec::new();
    m.insert("b".to_string(), "1".to_string());
    m.insert("a".to_string(), "2".to_string());
    m.insert("c".to_string(), "3".to_string());
    assert_eq!(m.len(), 3);
    assert!(!m.is_empty());
    assert_eq!(m.key_at(0).unwrap(), "b");
    assert_eq!(m.key_at(1).unwrap(), "a");
    assert_eq!(m.key_at(2).unwrap(), "c");
    assert_eq!(m.value_at(1).unwrap(), "2");
    assert_eq!(m.index_of("c"), Some(2));
    assert_eq!(m.get("a"), Some(&"2".to_string()));
}

#[test]
fn keyed_insert_replaces_in_place() {
    let mut m: KeyedVec<String> = KeyedVec::new();
    m.insert("b".to_string(), "1".to_string());
    m.insert("a".to_string(), "2".to_string());
    m.insert("b".to_string(), "9".to_string());
    assert_eq!(m.len(), 2);
    assert_eq!(m.key_at(0).unwrap(), "b");
    assert_eq!(m.value_at(0).unwrap(), "9");
    assert_eq!(m.get("b"), Some(&"9".to_string()));
    assert_eq!(m.get("a"), Some(&"2".to_string()));
}

#[test]
fn keyed_positions_beyond_the_length_hold_nothing() {
    let mut m: KeyedVec<String> = KeyedVec::new();
    assert_eq!(m.entry_at(0), None);
    assert_eq!(m.key_at(0), None);
    assert_eq!(m.value_at(0), None);
    m.insert("k".to_string(), "v".to_string());
    assert_eq!(m.entry_at(0), Some((&"k".to_string(), &"v".to_string())));
    assert_eq!(m.entry_at(1), None);
    assert_eq!(m.key_at(1), None);
    assert_eq!(m.value_at(usize::MAX), None);
}

#[test]
fn keyed_keys_are_compared_as_whole_strings() {
    let mut m: KeyedVec<String> = KeyedVec::new();
    m.insert("node".to_string(), "1".to_string());
    assert!(m.get("nod").is_none());
    assert!(m.get("nodes").is_none());
    assert!(m.get("").is_none());
    m.insert("".to_string(), "empty".to_string());
    assert_eq!(m.get(""), Some(&"empty".to_string()));
}

#[test]
fn version_at_least_compares_major_minor_patch() {
    let v = Version::new(2024, 1, 16);
    assert_eq!(v, Version { major: 2024, minor: 1, patch: 16 });
    assert!(v.at_least(&Version::new(2024, 1, 16)));
    assert!(v.at_least(&Version::new(2024, 1, 15)));
    assert!(v.at_least(&Version::new(2024, 0, 99)));
    assert!(v.at_least(&Version::new(2023, 12, 40)));
    assert!(!v.at_least(&Version::new(2024, 1, 17)));
    assert!(!v.at_least(&Version::new(2024, 2, 0)));
    assert!(!v.at_least(&Version::new(2025, 0, 0)));
    assert!(Version::new(0, 0, 0).at_least(&Version::new(0, 0, 0)));
    assert!(!Version::new(1, 9, 9).at_least(&Version::new(2, 0, 0)));
    assert!(Version::new(u64::MAX, 0, 0).at_least(&Version::new(1, u64::MAX, u64::MAX)));
}

#[test]
fn decimal_writes_numbers_without_leading_zeros() {
    assert_eq!(decimal(0), "0");
    assert_eq!(decimal(7), "7");
    assert_eq!(decimal(9), "9");
    assert_eq!(decimal(10), "10");
    assert_eq!(decimal(105), "105");
    assert_eq!(decimal(2024), "2024");
    assert_eq!(decimal(1234567890), "1234567890");
    assert_eq!(decimal(u64::MAX), "18446744073709551615");
}

#[test]
fn version_text_has_dots_between_the_numbers() {
    assert_eq!(Version::new(2024, 1, 16).text(), "2024.1.16");
    assert_eq!(Version::new(0, 0, 0).text(), "0.0.0");
    assert_eq!(Version::new(1, 20, 300).text(), "1.20.300");
}

#[test]
fn text_helpers_copy_and_search() {
    let v = vec!["a".to_string(), "bc".to_string(), "".to_string()];
    assert_eq!(copy_text("abc"), "abc");
    assert_eq!(copy_texts(&v), v);
    assert!(contains_text(&v, "bc"));
    assert!(contains_text(&v, ""));
    assert!(!contains_text(&v, "b"));
    assert!(!contains_text(&Vec::new(), "a"));
    let mut out = vec!["x".to_string()];
    append_texts(&mut out, &v);
    assert_eq!(out, vec!["x".to_string(), "a".to_string(), "bc".to_string(), "".to_string()]);
    append_texts(&mut out, &Vec::new());
    assert_eq!(out.len(), 4);
}
