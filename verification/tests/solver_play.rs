//! Tests for the constraint model, filtering, and the automated solver.

use wordle_clone::dictionary::load_dictionary;
use wordle_clone::game::Game;
use wordle_clone::solver::{filter_set, solve_game, word_check, WordMap};
use wordle_clone::{guess_status, GameError};

fn lines(words: &[&str]) -> Vec<String> {
    words.iter().map(|w| w.to_string()).collect()
}

fn empty_map() -> WordMap {
    WordMap {
        correct: Vec::new(),
        wrong_pos: Vec::new(),
        incorrect: Vec::new(),
    }
}

#[test]
fn test_word_check_against_mixed_feedback() {
    // Feedback of "word" against secret "fred": w,o absent; r present but
    // not at index 2; d fixed at index 3.
    let mut map = empty_map();
    map.update_map(&guess_status("word", "fred"));
    assert!(word_check("fred", &map));
    assert!(word_check("raid", &map)); // has r away from index 2, ends in d
    assert!(!word_check("ward", &map)); // contains excluded w
    assert!(!word_check("dirt", &map)); // d not at index 3
    assert!(!word_check("earn", &map)); // lacks the final d
}

#[test]
fn test_filter_keeps_exactly_the_satisfying_words() {
    let mut map = empty_map();
    map.update_map(&guess_status("word", "fred"));
    let candidates = lines(&["fred", "raid", "ward", "dirt", "cord"]);
    let left = filter_set(candidates, &map);
    assert_eq!(left, lines(&["fred", "raid"]));
}

#[test]
fn test_filter_with_repeated_letter_secret() {
    // Secret "sheep", guess "eeeee": the naive evaluator reports every
    // non-matching 'e' as WrongPosition, and the last Correct (index 3)
    // overwrites the earlier one (index 2) in the fixed-position map. The
    // filter applies those facts literally.
    let mut map = empty_map();
    map.update_map(&guess_status("eeeee", "sheep"));
    let candidates = lines(&["sheep", "eagle", "sweep", "elope", "eerie"]);
    let left = filter_set(candidates, &map);
    assert_eq!(left, lines(&["sheep", "sweep"]));
}

#[test]
fn test_solver_finds_the_secret() {
    let dict = load_dictionary(&lines(&["fred", "word", "cord", "ward", "raid"]));
    let mut game = Game::new(4, &dict);
    let solution = solve_game(&mut game).unwrap();
    assert!(game.is_success());
    assert_eq!(game.get_correct_word(), Some(solution.as_str()));
    assert!(game.attempt_count() >= 1);
}

#[test]
fn test_solver_reports_empty_candidate_set() {
    // A word set that does not hold the secret is an external data
    // inconsistency; the solver must surface it, not loop or panic.
    let dict = load_dictionary(&lines(&["aa"]));
    let mut game = Game::new(2, &dict);
    game.word_set = lines(&["bb"]);
    assert_eq!(solve_game(&mut game), Err(GameError::NoCandidatesRemaining));
}

#[test]
fn test_update_map_accumulates() {
    let mut map = empty_map();
    map.update_map(&guess_status("ab", "bc"));
    // 'a' absent, 'b' present but not at index 1.
    assert_eq!(map.incorrect, vec!['a']);
    assert_eq!(map.correct, vec![]);
    assert_eq!(map.wrong_pos.len(), 1);
    assert_eq!(map.wrong_pos[0].0, 'b');
    assert_eq!(map.wrong_pos[0].1, vec![1]);
    map.update_map(&guess_status("bc", "bc"));
    assert_eq!(map.incorrect, vec!['a']);
    assert_eq!(map.correct.len(), 2);
    assert!(map.correct.contains(&('b', 0)));
    assert!(map.correct.contains(&('c', 1)));
}
