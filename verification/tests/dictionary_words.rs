//! Tests for dictionary loading and word selection.

use wordle_clone::dictionary::load_dictionary;

fn lines(words: &[&str]) -> Vec<String> {
    words.iter().map(|w| w.to_string()).collect()
}

#[test]
fn test_load_groups_by_length_and_lowercases() {
    let dict = load_dictionary(&lines(&["The", "cat", "sat", "Mat", "apple"]));
    let threes = dict.get_set(3).unwrap();
    assert_eq!(threes.len(), 4);
    assert!(threes.contains(&"the".to_string()));
    assert!(threes.contains(&"cat".to_string()));
    assert!(threes.contains(&"sat".to_string()));
    assert!(threes.contains(&"mat".to_string()));
    assert!(!threes.contains(&"The".to_string()));
    let fives = dict.get_set(5).unwrap();
    assert_eq!(fives.len(), 1);
    assert!(fives.contains(&"apple".to_string()));
    assert!(dict.get_set(4).is_none());
}

#[test]
fn test_load_deduplicates() {
    let dict = load_dictionary(&lines(&["cat", "cat", "Cat"]));
    let threes = dict.get_set(3).unwrap();
    assert_eq!(threes.len(), 1);
    assert_eq!(threes[0], "cat");
}

#[test]
fn test_keys_lists_every_length_once() {
    let dict = load_dictionary(&lines(&["a", "bb", "cc", "ddd"]));
    let mut keys = dict.keys();
    keys.sort();
    assert_eq!(keys, vec![1, 2, 3]);
}

#[test]
fn test_gen_word_draws_from_the_requested_group() {
    let dict = load_dictionary(&lines(&["apple", "cat"]));
    assert_eq!(dict.gen_word(5), "apple");
    assert_eq!(dict.gen_word(3), "cat");
}
