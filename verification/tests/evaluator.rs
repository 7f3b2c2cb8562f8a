//! Tests for the guess evaluator.

use wordle_clone::{guess_status, Status};

#[test]
fn test_guess_status() {
    assert_eq!(guess_status("a", "a"), vec![('a', Status::Correct)]);
    assert_eq!(guess_status("a", "b"), vec![('a', Status::Incorrect)]);
    assert_eq!(
        guess_status("ab", "ba"),
        vec![('a', Status::WrongPosition), ('b', Status::WrongPosition)]
    );

    assert_eq!(
        guess_status("word", "fred"),
        vec![
            ('w', Status::Incorrect),
            ('o', Status::Incorrect),
            ('r', Status::WrongPosition),
            ('d', Status::Correct)
        ]
    );
}

#[test]
fn test_evaluate_braid_against_bread() {
    // Derived by hand from the per-position rule: match, else membership
    // anywhere in the secret, else absent.
    assert_eq!(
        guess_status("braid", "bread"),
        vec![
            ('b', Status::Correct),
            ('r', Status::Correct),
            ('a', Status::WrongPosition),
            ('i', Status::Incorrect),
            ('d', Status::Correct)
        ]
    );
}

#[test]
fn test_evaluate_repeated_letters_naive() {
    // The naive membership rule: every non-matching 'e' is reported
    // WrongPosition, even though "sheep" has only two of them.
    assert_eq!(
        guess_status("eeeee", "sheep"),
        vec![
            ('e', Status::WrongPosition),
            ('e', Status::WrongPosition),
            ('e', Status::Correct),
            ('e', Status::Correct),
            ('e', Status::WrongPosition)
        ]
    );
}

#[test]
fn test_evaluate_empty() {
    assert_eq!(guess_status("", ""), vec![]);
}
