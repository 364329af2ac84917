use std::collections::HashSet;

use xkpwgen::wordlist::builtin_words;
use xkpwgen::{generate_password, generate_passwords, PasswordError, DEFAULT_LENGTH, DEFAULT_NUMBER};

const DEFAULT_SEPARATOR: &str = " ";

#[test]
fn it_uses_only_words_from_the_wordlist() {
    let words = builtin_words();
    let known: HashSet<&str> = words.iter().map(|w| w.as_str()).collect();
    for _ in 0..10 {
        let passwords =
            generate_passwords(&words, DEFAULT_NUMBER, DEFAULT_LENGTH, DEFAULT_SEPARATOR).unwrap();
        for password in &passwords {
            for word in password.split(' ') {
                assert!(known.contains(word), "Word {} not in wordlist!", word);
            }
        }
    }
}

#[test]
fn it_generates_five_phrases_by_default() {
    let words = builtin_words();
    for _ in 0..10 {
        let passwords =
            generate_passwords(&words, DEFAULT_NUMBER, DEFAULT_LENGTH, DEFAULT_SEPARATOR).unwrap();
        assert_eq!(passwords.len(), 5);
    }
}

#[test]
fn it_generates_the_given_number_of_passwords() {
    let words = builtin_words();
    for _ in 0..10 {
        let passwords =
            generate_passwords(&words, 10, DEFAULT_LENGTH, DEFAULT_SEPARATOR).unwrap();
        assert_eq!(passwords.len(), 10);
    }
}

#[test]
fn it_generates_four_words_per_password_by_default() {
    let words = builtin_words();
    for _ in 0..10 {
        let passwords =
            generate_passwords(&words, DEFAULT_NUMBER, DEFAULT_LENGTH, DEFAULT_SEPARATOR).unwrap();
        for password in &passwords {
            assert_eq!(password.split(' ').count(), 4);
        }
    }
}

#[test]
fn it_generates_the_given_number_of_words_per_password() {
    let words = builtin_words();
    for _ in 0..10 {
        let passwords =
            generate_passwords(&words, DEFAULT_NUMBER, 9, DEFAULT_SEPARATOR).unwrap();
        for password in &passwords {
            assert_eq!(password.split(' ').count(), 9);
        }
    }
}

#[test]
fn it_uses_the_given_separator() {
    let words = builtin_words();
    for _ in 0..10 {
        let passwords = generate_passwords(&words, DEFAULT_NUMBER, DEFAULT_LENGTH, ":").unwrap();
        for password in &passwords {
            assert_eq!(password.split(':').count(), 4);
        }
    }
}

#[test]
fn it_generates_different_passwords() {
    let words = builtin_words();
    for _ in 0..10 {
        let passwords =
            generate_passwords(&words, 100, DEFAULT_LENGTH, DEFAULT_SEPARATOR).unwrap();
        let mut seen_passwords = HashSet::with_capacity(100);
        let mut duplicate_passwords = HashSet::new();
        for password in &passwords {
            if !seen_passwords.insert(password) {
                duplicate_passwords.insert(password.clone());
            }
        }
        assert!(
            duplicate_passwords.is_empty(),
            "Duplicate passwords found: {}",
            duplicate_passwords.into_iter().collect::<Vec<_>>().join(", ")
        );
    }
}

#[test]
fn zero_length_yields_the_empty_string() {
    let words = builtin_words();
    let password = generate_password(&words, 0, DEFAULT_SEPARATOR).unwrap();
    assert_eq!(password, "");
    let batch = generate_passwords(&words, 3, 0, "-").unwrap();
    assert_eq!(batch, vec!["", "", ""]);
}

#[test]
fn each_password_is_distinct_words_from_the_list() {
    let words = builtin_words();
    let known: HashSet<&str> = words.iter().map(|w| w.as_str()).collect();
    for length in [1usize, 2, 3, 10, 25] {
        let password = generate_password(&words, length, DEFAULT_SEPARATOR).unwrap();
        let parts: Vec<&str> = password.split(' ').collect();
        assert_eq!(parts.len(), length);
        let distinct: HashSet<&str> = parts.iter().copied().collect();
        assert_eq!(distinct.len(), length);
        for part in parts {
            assert!(known.contains(part));
        }
    }
}

#[test]
fn a_password_can_use_the_whole_list() {
    let words = builtin_words();
    let password = generate_password(&words, words.len(), DEFAULT_SEPARATOR).unwrap();
    let parts: HashSet<&str> = password.split(' ').collect();
    let known: HashSet<&str> = words.iter().map(|w| w.as_str()).collect();
    assert_eq!(parts, known);
}

#[test]
fn separator_appears_once_between_consecutive_words() {
    let words = builtin_words();
    let password = generate_password(&words, 6, "::").unwrap();
    assert_eq!(password.matches("::").count(), 5);
    let dashed = generate_password(&words, 1, "-").unwrap();
    assert_eq!(dashed.matches('-').count(), 0);
}

#[test]
fn insufficient_words_is_reported() {
    let small: Vec<String> =
        ["ant", "bee", "cat", "dog", "elk"].iter().map(|w| w.to_string()).collect();
    let result = generate_password(&small, 6, "-");
    assert_eq!(
        result,
        Err(PasswordError::InsufficientWords { requested: 6, available: 5 })
    );
    let words = builtin_words();
    let result = generate_passwords(&words, 2, words.len() + 1, " ");
    assert_eq!(
        result,
        Err(PasswordError::InsufficientWords { requested: 7777, available: 7776 })
    );
}

#[test]
fn three_words_from_a_five_word_list() {
    let list: Vec<String> =
        ["ant", "bee", "cat", "dog", "elk"].iter().map(|w| w.to_string()).collect();
    let known: HashSet<&str> = list.iter().map(|w| w.as_str()).collect();
    for _ in 0..100 {
        let password = generate_password(&list, 3, "-").unwrap();
        let parts: Vec<&str> = password.split('-').collect();
        assert_eq!(parts.len(), 3);
        let distinct: HashSet<&str> = parts.iter().copied().collect();
        assert_eq!(distinct.len(), 3);
        for part in parts {
            assert!(known.contains(part));
        }
    }
}

#[test]
fn successive_passwords_rarely_collide() {
    let words = builtin_words();
    let mut previous = generate_password(&words, 2, DEFAULT_SEPARATOR).unwrap();
    let mut duplicates = 0usize;
    for _ in 0..1000 {
        let next = generate_password(&words, 2, DEFAULT_SEPARATOR).unwrap();
        if next == previous {
            duplicates += 1;
        }
        previous = next;
    }
    assert!(duplicates < 10, "Too many duplicate passwords: {}", duplicates);
}
