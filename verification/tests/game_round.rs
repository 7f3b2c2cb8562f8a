//! Tests for the round controller and its rendering.

use colored::Colorize;

use wordle_clone::dictionary::load_dictionary;
use wordle_clone::game::{Game, GameState};
use wordle_clone::{GameError, Status};

fn lines(words: &[&str]) -> Vec<String> {
    words.iter().map(|w| w.to_string()).collect()
}

#[test]
fn test_state_fmt() {
    let guesses = vec![vec![('a', Status::Correct)]];
    let mut state = GameState {
        correct_word: "a".to_string(),
        guesses,
    };
    assert_eq!(
        state.display_string(),
        format!("{}\n", format!("a").green().to_string())
    );
    state.update_state(vec![
        ('a', Status::Incorrect),
        ('b', Status::WrongPosition),
        ('c', Status::Correct),
    ]);
    let second = format!(
        "{}{}{}",
        format!("a").red(),
        format!("b").yellow(),
        format!("c").green()
    );
    assert_eq!(
        state.display_string(),
        format!("{}\n{second}\n", format!("a").green(), second = second)
    );
}

#[test]
fn test_validate_length_mismatch() {
    let dict = load_dictionary(&lines(&["word", "cord", "ward"]));
    let game = Game::new(4, &dict);
    assert_eq!(game.invalid_guess("cat"), Err(GameError::LengthMismatch));
}

#[test]
fn test_validate_not_in_dictionary() {
    let dict = load_dictionary(&lines(&["bread", "braid", "sheep"]));
    let game = Game::new(5, &dict);
    assert_eq!(game.invalid_guess("zzzzz"), Err(GameError::NotInDictionary));
    assert_eq!(game.invalid_guess("bread"), Ok(true));
}

#[test]
fn test_validate_is_idempotent() {
    let dict = load_dictionary(&lines(&["bread", "braid"]));
    let game = Game::new(5, &dict);
    let before = game.status_display();
    for _ in 0..5 {
        assert_eq!(game.invalid_guess("zzzzz"), Err(GameError::NotInDictionary));
        assert_eq!(game.invalid_guess("bread"), Ok(true));
    }
    assert_eq!(game.attempt_count(), 0);
    assert_eq!(game.status_display(), before);
}

#[test]
fn test_winning_guess_reveals_secret() {
    let dict = load_dictionary(&lines(&["apple"]));
    let mut game = Game::new(5, &dict);
    assert!(game.get_correct_word().is_none());
    game.play_game("apple".to_string());
    assert!(game.is_success());
    assert_eq!(game.get_correct_word(), Some("apple"));
    let last = game.last_status().unwrap();
    assert!(last.iter().all(|(_, s)| *s == Status::Correct));
    assert_eq!(game.attempt_count(), 1);
}

#[test]
fn test_attempt_count_grows_by_one_per_submit() {
    let dict = load_dictionary(&lines(&["ab", "ba"]));
    let mut game = Game::new(2, &dict);
    assert_eq!(game.attempt_count(), 0);
    game.play_game("ab".to_string());
    assert_eq!(game.attempt_count(), 1);
    game.play_game("ba".to_string());
    assert_eq!(game.attempt_count(), 2);
}

#[test]
fn test_status_display_colors_by_status() {
    let dict = load_dictionary(&lines(&["ab"]));
    let mut game = Game::new(2, &dict);
    game.play_game("ab".to_string());
    let expected = format!("{}{}\n", format!("a").green(), format!("b").green());
    assert_eq!(game.status_display(), expected);
}

#[test]
fn test_wrong_guess_is_not_success() {
    let dict = load_dictionary(&lines(&["ab", "ba"]));
    let mut game = Game::new(2, &dict);
    game.play_game("ab".to_string());
    game.play_game("ba".to_string());
    // Whatever the secret, the two guesses disagree, so at most one of the
    // submissions can have been fully correct, and the history keeps both.
    assert_eq!(game.attempt_count(), 2);
    let won_word = game.get_correct_word();
    if game.is_success() {
        assert!(won_word == Some("ba"));
    } else {
        assert!(won_word.is_none());
    }
}
