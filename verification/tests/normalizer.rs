//! Normalizers and find-and-replace.
use std::borrow::Cow;
use tokie::normalizer::Normalizer;
use tokie::replace::{fnr, FnrFinder};

#[test]
fn test_fnr_basic() {
    // Single replacement
    let result = fnr("hello world", "world", "rust");
    assert_eq!(result, "hello rust");
    assert!(matches!(result, Cow::Owned(_)));
}

#[test]
fn test_fnr_multiple() {
    // Multiple replacements
    let result = fnr("foo bar foo baz foo", "foo", "x");
    assert_eq!(result, "x bar x baz x");
}

#[test]
fn test_fnr_no_match() {
    // No match - should borrow
    let result = fnr("hello world", "xyz", "abc");
    assert!(matches!(result, Cow::Borrowed(_)));
    assert_eq!(result, "hello world");
}

#[test]
fn test_fnr_empty_needle() {
    // Empty needle - should borrow
    let result = fnr("hello", "", "x");
    assert!(matches!(result, Cow::Borrowed(_)));
}

#[test]
fn test_fnr_empty_text() {
    // Empty text - should borrow
    let result = fnr("", "foo", "bar");
    assert!(matches!(result, Cow::Borrowed(_)));
}

#[test]
fn test_fnr_empty_replacement() {
    // Empty replacement (deletion)
    let result = fnr("hello world", " ", "");
    assert_eq!(result, "helloworld");
}

#[test]
fn test_fnr_longer_replacement() {
    // Replacement longer than needle
    let result = fnr("a b c", " ", "---");
    assert_eq!(result, "a---b---c");
}

#[test]
fn test_fnr_at_boundaries() {
    // At start
    let result = fnr("foo bar", "foo", "baz");
    assert_eq!(result, "baz bar");

    // At end
    let result = fnr("bar foo", "foo", "baz");
    assert_eq!(result, "bar baz");

    // Entire string
    let result = fnr("foo", "foo", "bar");
    assert_eq!(result, "bar");
}

#[test]
fn test_fnr_unicode() {
    let result = fnr("héllo wörld", "ö", "o");
    assert_eq!(result, "héllo world");
}

#[test]
fn test_fnr_finder_reuse() {
    let finder = FnrFinder::new("foo");

    let r1 = finder.replace("foo bar foo", "baz");
    assert_eq!(r1, "baz bar baz");

    let r2 = finder.replace("no match", "baz");
    assert!(matches!(r2, Cow::Borrowed(_)));
    assert_eq!(r2, "no match");

    assert!(finder.contains("has foo"));
    assert!(!finder.contains("no match"));
}

#[test]
fn test_none_normalizer() {
    let norm = Normalizer::Absent;
    let text = "Hello World!";
    let result = norm.normalize(text);
    assert!(matches!(result, Cow::Borrowed(_)));
    assert_eq!(result, "Hello World!");
}

#[test]
fn test_bert_uncased_lowercase() {
    let norm = Normalizer::BertUncased;

    // Has uppercase - should allocate
    let result = norm.normalize("Hello World!");
    assert!(matches!(result, Cow::Owned(_)));
    assert_eq!(result, "hello world!");

    // Already lowercase - should borrow
    let result = norm.normalize("hello world!");
    assert!(matches!(result, Cow::Borrowed(_)));
    assert_eq!(result, "hello world!");
}

#[test]
fn test_bert_uncased_unicode() {
    let norm = Normalizer::BertUncased;

    // Unicode uppercase - accents are stripped for uncased
    let result = norm.normalize("HÉLLO");
    assert_eq!(result, "hello"); // é → e (accent stripped)

    // German sharp S stays as is (lowercase of ß is ß)
    let result = norm.normalize("straße");
    assert_eq!(result, "straße"); // ß has no accent to strip

    // Test accent stripping
    let result = norm.normalize("café résumé naïve");
    assert_eq!(result, "cafe resume naive");
}

#[test]
fn test_nfc_normalizer() {
    let norm = Normalizer::Nfc;

    // Already NFC - should borrow
    let result = norm.normalize("hello");
    assert!(matches!(result, Cow::Borrowed(_)));

    // NFD decomposed é (e + combining acute) -> NFC é
    let nfd = "e\u{0301}"; // e + combining acute accent
    let result = norm.normalize(nfd);
    assert!(matches!(result, Cow::Owned(_)));
    assert_eq!(result, "é");
}

#[test]
fn test_bert_cased() {
    let norm = Normalizer::BertCased;
    let text = "Hello World!";
    let result = norm.normalize(text);
    assert!(matches!(result, Cow::Borrowed(_)));
    assert_eq!(result, "Hello World!"); // No change
}
