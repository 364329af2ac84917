use xkpwgen::wordlist::{builtin_words, WordlistStatistics};

fn mean(stats: &WordlistStatistics) -> f64 {
    if stats.count == 0 {
        0.0
    } else {
        stats.total_length as f64 / stats.count as f64
    }
}

#[test]
fn statistics_of_an_empty_list_are_all_zero() {
    let words: Vec<String> = Vec::new();
    let stats = WordlistStatistics::from_words(&words);
    assert_eq!(stats.count, 0);
    assert_eq!(stats.min, 0);
    assert_eq!(stats.max, 0);
    assert_eq!(mean(&stats), 0.0);
    assert_eq!(stats.median, 0);
}

#[test]
fn statistics_of_three_words() {
    let words: Vec<String> = ["a", "bb", "ccc"].iter().map(|w| w.to_string()).collect();
    let stats = WordlistStatistics::from_words(&words);
    assert_eq!(stats.count, 3);
    assert_eq!(stats.min, 1);
    assert_eq!(stats.max, 3);
    assert_eq!(mean(&stats), 2.0);
    assert_eq!(stats.median, 2);
}

#[test]
fn median_of_an_even_count_truncates() {
    let words: Vec<String> = ["dddd", "a", "ccc", "bb"].iter().map(|w| w.to_string()).collect();
    let stats = WordlistStatistics::from_words(&words);
    assert_eq!(stats.count, 4);
    assert_eq!(stats.min, 1);
    assert_eq!(stats.max, 4);
    assert_eq!(stats.total_length, 10);
    assert_eq!(stats.median, 2);
}

#[test]
fn lengths_are_counted_in_characters_not_bytes() {
    let words: Vec<String> = vec!["caf\u{e9}".to_string()];
    assert_eq!(words[0].len(), 5);
    let stats = WordlistStatistics::from_words(&words);
    assert_eq!(stats.count, 1);
    assert_eq!(stats.min, 4);
    assert_eq!(stats.max, 4);
    assert_eq!(stats.total_length, 4);
    assert_eq!(stats.median, 4);
}

#[test]
fn statistics_of_the_builtin_wordlist() {
    let stats = WordlistStatistics::from_words(&builtin_words());
    assert_eq!(stats.count, 7776);
    assert_eq!(stats.min, 5);
    assert_eq!(stats.max, 5);
    assert_eq!(stats.total_length, 5 * 7776);
    assert_eq!(mean(&stats), 5.0);
    assert_eq!(stats.median, 5);
}
