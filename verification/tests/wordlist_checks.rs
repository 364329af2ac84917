use std::collections::HashSet;

use xkpwgen::wordlist::{builtin_words, WORDLIST_SIZE};

#[test]
fn builtin_wordlist_has_the_expected_size() {
    assert_eq!(WORDLIST_SIZE, 7776);
    assert_eq!(builtin_words().len(), 7776);
}

#[test]
fn builtin_wordlist_has_no_duplicates() {
    let words = builtin_words();
    let distinct: HashSet<&str> = words.iter().map(|w| w.as_str()).collect();
    assert_eq!(distinct.len(), words.len());
}

#[test]
fn builtin_wordlist_has_no_empty_entries() {
    for word in builtin_words() {
        assert!(!word.is_empty());
    }
}

#[test]
fn builtin_wordlist_has_no_whitespace_in_entries() {
    for word in builtin_words() {
        assert!(!word.chars().any(|c| c.is_whitespace()), "whitespace in {:?}", word);
    }
}

#[test]
fn builtin_words_are_short_lowercase_words() {
    for word in builtin_words() {
        assert_eq!(word.chars().count(), 5);
        assert!(word.chars().all(|c| c.is_ascii_lowercase()));
    }
}
