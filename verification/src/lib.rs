//! A Wordle-style word-guessing game: a hidden word is scored letter by
//! letter against each guess, and an automated solver narrows a candidate
//! word set from the feedback until the hidden word is found.

use vstd::prelude::*;

pub mod dictionary;
pub mod game;
pub mod solver;

verus! {

/// The recoverable failures of the game core: the two ways a guess can be
/// rejected by validation, and the solver's report that its candidate set
/// ran dry (which can only happen when the legal word set did not contain
/// the secret word).
#[derive(PartialEq, Eq, Structural, Debug, Clone, Copy)]
pub enum GameError {
    LengthMismatch,
    NotInDictionary,
    NoCandidatesRemaining,
}

/// Per-position feedback for one guessed character.
#[derive(PartialEq, Eq, Structural, Debug, Clone, Copy)]
pub enum Status {
    Incorrect,
    Correct,
    WrongPosition,
}

/// The status the evaluator assigns to guessed character `c` at position `i`
/// when scored against `secret`.
///
/// This is deliberately a naive membership rule: a non-matching character
/// that occurs *anywhere* in the secret is reported `WrongPosition`, with no
/// duplicate-letter accounting. A guess with more copies of a letter than the
/// secret over-reports `WrongPosition`; the solver's filtering is written
/// against exactly this rule, so it must not be "corrected".
pub open spec fn char_status(c: char, i: int, secret: Seq<char>) -> Status {
    if secret[i] == c {
        Status::Correct
    } else if secret.contains(c) {
        Status::WrongPosition
    } else {
        Status::Incorrect
    }
}

/// The full evaluation of `guess` against `secret`: one `(char, Status)`
/// pair per guess position.
pub open spec fn spec_guess_status(guess: Seq<char>, secret: Seq<char>) -> Seq<(char, Status)> {
    Seq::new(guess.len(), |i: int| (guess[i], char_status(guess[i], i, secret)))
}

/// Score `guess` against `word`, one status per position.
///
/// Precondition: the two inputs have the same character length; the
/// evaluator may assume this and callers must guarantee it (e.g. by
/// validating the guess first).
pub fn guess_status(guess: &str, word: &str) -> (statuses: Vec<(char, Status)>)
    requires
        guess@.len() == word@.len(),
    ensures
        statuses@ == spec_guess_status(guess@, word@),
        statuses@.len() == guess@.len(),
        forall|i: int|
            0 <= i < guess@.len() ==> (#[trigger] statuses@[i]).0 == guess@[i],
        forall|i: int|
            0 <= i < guess@.len()
                ==> ((#[trigger] statuses@[i]).1 == Status::Correct <==> guess@[i] == word@[i]),
        forall|i: int|
            0 <= i < guess@.len() && guess@[i] != word@[i]
                ==> ((#[trigger] statuses@[i]).1 == Status::WrongPosition <==> word@.contains(
                guess@[i],
            )),
        forall|i: int|
            0 <= i < guess@.len() && guess@[i] != word@[i] && !word@.contains(guess@[i])
                ==> (#[trigger] statuses@[i]).1 == Status::Incorrect,
{
    let len = guess.unicode_len();
    let mut statuses: Vec<(char, Status)> = Vec::new();
    let mut count: usize = 0;
    while count < len
        invariant
            len == guess@.len() == word@.len(),
            count <= len,
            statuses@ == spec_guess_status(guess@, word@).take(count as int),
        decreases len - count,
    {
        let c = guess.get_char(count);
        let status = if c == word.get_char(count) {
            Status::Correct
        } else if str_contains_char(word, c) {
            Status::WrongPosition
        } else {
            Status::Incorrect
        };
        statuses.push((c, status));
        proof {
            assert(statuses@ =~= spec_guess_status(guess@, word@).take(count as int + 1));
        }
        count = count + 1;
    }
    proof {
        assert(statuses@ =~= spec_guess_status(guess@, word@));
    }
    statuses
}

/// The words of a list, seen as character sequences, in order.
pub open spec fn word_views(words: Seq<String>) -> Seq<Seq<char>> {
    words.map_values(|w: String| w@)
}

/// Whether two string slices hold the same characters.
pub fn str_eq(a: &str, b: &str) -> (r: bool)
    ensures
        r == (a@ == b@),
{
    let a_len = a.unicode_len();
    let b_len = b.unicode_len();
    if a_len != b_len {
        return false;
    }
    let mut i: usize = 0;
    while i < a_len
        invariant
            a_len == a@.len() == b@.len(),
            i <= a_len,
            forall|j: int| 0 <= j < i ==> a@[j] == b@[j],
        decreases a_len - i,
    {
        if a.get_char(i) != b.get_char(i) {
            return false;
        }
        i = i + 1;
    }
    proof {
        assert(a@ =~= b@);
    }
    true
}

/// Whether `w` occurs among `words`, compared character by character.
pub fn words_contain(words: &Vec<String>, w: &str) -> (r: bool)
    ensures
        r == word_views(words@).contains(w@),
{
    let mut i: usize = 0;
    while i < words.len()
        invariant
            i <= words@.len(),
            forall|j: int| 0 <= j < i ==> word_views(words@)[j] != w@,
        decreases words@.len() - i,
    {
        if str_eq(words[i].as_str(), w) {
            proof {
                assert(word_views(words@)[i as int] == w@);
            }
            return true;
        }
        i = i + 1;
    }
    false
}

/// Whether the character `c` occurs anywhere in `s`.
pub fn str_contains_char(s: &str, c: char) -> (r: bool)
    ensures
        r == s@.contains(c),
{
    let len = s.unicode_len();
    let mut i: usize = 0;
    while i < len
        invariant
            len == s@.len(),
            i <= len,
            forall|j: int| 0 <= j < i ==> s@[j] != c,
        decreases len - i,
    {
        if s.get_char(i) == c {
            return true;
        }
        i = i + 1;
    }
    false
}

} // verus!
