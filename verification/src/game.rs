//! One round of the game: the secret word, the legal word set used for
//! validation, and the append-only history of evaluated guesses.

use vstd::prelude::*;

use colored::Colorize;

use crate::dictionary::Dictionary;
use crate::guess_status;
use crate::spec_guess_status;
use crate::word_views;
use crate::words_contain;
use crate::GameError;
use crate::Status;

verus! {

/// The mutable part of a round: the secret word and the evaluations of the
/// guesses submitted so far, in submission order.
pub struct GameState {
    pub correct_word: String,
    pub guesses: Vec<Vec<(char, Status)>>,
}

impl GameState {
    /// The history of evaluations, as character/status sequences.
    pub open spec fn spec_history(self) -> Seq<Seq<(char, Status)>> {
        self.guesses@.map_values(|g: Vec<(char, Status)>| g@)
    }

    /// Append the evaluation of one more guess to the history.
    pub fn update_state(&mut self, status: Vec<(char, Status)>)
        ensures
            final(self).correct_word == old(self).correct_word,
            final(self).spec_history() == old(self).spec_history().push(status@),
    {
        self.guesses.push(status);
        proof {
            assert(final(self).spec_history() =~= old(self).spec_history().push(status@));
        }
    }

    /// The secret word of this round.
    pub fn get_correct_word(&self) -> (w: &str)
        ensures
            w@ == self.correct_word@,
    {
        self.correct_word.as_str()
    }

    /// Render the whole history, one colour-coded line per guess. With no
    /// guesses yet the result is empty.
    pub fn display_string(&self) -> (r: String)
        ensures
            display_rendered(self.spec_history(), r@),
    {
        let mut out = String::new();
        let ghost mut lines: Seq<Seq<char>> = Seq::empty();
        let ghost withnl = |l: Seq<char>| l.push('\n');
        let mut i: usize = 0;
        proof {
            assert(out@ =~= lines.map_values(withnl).flatten());
        }
        while i < self.guesses.len()
            invariant
                i <= self.guesses@.len(),
                lines.len() == i,
                forall|j: int|
                    0 <= j < i ==> line_rendered(#[trigger] self.spec_history()[j], #[trigger] lines[j]),
                out@ == lines.map_values(withnl).flatten(),
                withnl == (|l: Seq<char>| l.push('\n')),
            decreases self.guesses@.len() - i,
        {
            let line = print_status(&self.guesses[i]);
            let ghost prev_lines = lines;
            let ghost flat0 = out@;
            out.append(line.as_str());
            out.append("\n");
            proof {
                reveal_strlit("\n");
                assert("\n"@ =~= seq!['\n']);
                assert(out@ =~= flat0 + withnl(line@));
                prev_lines.map_values(withnl).lemma_flatten_push(withnl(line@));
                lines = prev_lines.push(line@);
                assert(lines.map_values(withnl) =~= prev_lines.map_values(withnl).push(
                    withnl(line@),
                ));
                assert(out@ == lines.map_values(withnl).flatten());
            }
            i = i + 1;
        }
        proof {
            assert(display_rendered(self.spec_history(), out@)) by {
                assert(lines.len() == self.spec_history().len());
                assert(out@ == lines.map_values(|l: Seq<char>| l.push('\n')).flatten()) by {
                    assert(lines.map_values(withnl) =~= lines.map_values(
                        |l: Seq<char>| l.push('\n'),
                    ));
                }
            }
        }
        out
    }
}

/// Whether an evaluation reports every position as `Correct`.
pub open spec fn all_correct(e: Seq<(char, Status)>) -> bool {
    forall|i: int| 0 <= i < e.len() ==> (#[trigger] e[i]).1 == Status::Correct
}

/// Set up a fresh round: draw a secret word of the requested length.
pub fn init_game(word_length: usize, dictionary: &Dictionary) -> (state: GameState)
    requires
        dictionary.wf(),
        dictionary.has_len(word_length),
    ensures
        dictionary.words_of(word_length).contains(state.correct_word@),
        state.correct_word@.len() == word_length,
        state.spec_history() == Seq::<Seq<(char, Status)>>::empty(),
{
    let word = dictionary.gen_word(word_length).to_owned();
    let state = GameState { correct_word: word, guesses: Vec::new() };
    proof {
        assert(state.spec_history() =~= Seq::<Seq<(char, Status)>>::empty());
    }
    state
}

/// One round: the legal word set, the configured word length, and the
/// round's state.
pub struct Game {
    pub word_set: Vec<String>,
    pub word_length: usize,
    pub state: GameState,
}

impl Game {
    /// The legal words, as character sequences.
    pub open spec fn set_words(self) -> Seq<Seq<char>> {
        word_views(self.word_set@)
    }

    /// The secret word, as a character sequence.
    pub open spec fn secret(self) -> Seq<char> {
        self.state.correct_word@
    }

    /// The history of evaluations so far, in submission order.
    pub open spec fn history(self) -> Seq<Seq<(char, Status)>> {
        self.state.spec_history()
    }

    /// Well-formedness: the secret and every legal word have the round's
    /// word length.
    pub open spec fn wf(self) -> bool {
        &&& self.secret().len() == self.word_length
        &&& forall|i: int|
            0 <= i < self.set_words().len() ==> (#[trigger] self.set_words()[i]).len()
                == self.word_length
    }

    /// Whether the secret word is a member of the legal word set. `new`
    /// establishes this; it is what makes the solver's success certain.
    pub open spec fn secret_in_set(self) -> bool {
        self.set_words().contains(self.secret())
    }

    /// Whether the round has been won: some guess was submitted and the
    /// latest one came back all `Correct`.
    pub open spec fn won(self) -> bool {
        self.history().len() > 0 && all_correct(self.history().last())
    }

    /// What validation says about a guess: its length must match the
    /// round's word length, and it must be a legal word.
    pub open spec fn spec_validate(self, guess: Seq<char>) -> Result<bool, GameError> {
        if guess.len() != self.word_length {
            Err(GameError::LengthMismatch)
        } else if !self.set_words().contains(guess) {
            Err(GameError::NotInDictionary)
        } else {
            Ok(true)
        }
    }

    /// Start a round: draw a secret of the requested length and keep the
    /// legal word set of that length for validation.
    pub fn new(word_length: usize, dictionary: &Dictionary) -> (game: Game)
        requires
            dictionary.wf(),
            dictionary.has_len(word_length),
        ensures
            game.wf(),
            game.word_length == word_length,
            game.set_words() == dictionary.words_of(word_length),
            game.secret_in_set(),
            game.history().len() == 0,
    {
        let state = init_game(word_length, dictionary);
        let set_opt = dictionary.get_set(word_length);
        let word_set = match set_opt {
            Some(set) => clone_words(set),
            None => vstd::pervasive::unreached(),
        };
        let game = Game { word_set, word_length, state };
        proof {
            assert(game.set_words() =~= dictionary.words_of(word_length));
            assert forall|i: int| 0 <= i < game.set_words().len() implies (
            #[trigger] game.set_words()[i]).len() == word_length by {
                dictionary.lemma_words_of_contains(word_length, game.set_words()[i]);
                assert(dictionary.words_of(word_length).contains(game.set_words()[i]));
            }
        }
        game
    }

    /// Evaluate a guess against the secret and append the outcome to the
    /// history. Callers must have validated the guess: its length is the
    /// round's word length.
    pub fn play_game(&mut self, guess: String)
        requires
            old(self).wf(),
            guess@.len() == old(self).word_length,
        ensures
            final(self).wf(),
            final(self).word_set == old(self).word_set,
            final(self).word_length == old(self).word_length,
            final(self).secret() == old(self).secret(),
            final(self).history() == old(self).history().push(
                spec_guess_status(guess@, old(self).secret()),
            ),
            final(self).history().len() == old(self).history().len() + 1,
    {
        let status = guess_status(guess.as_str(), self.state.get_correct_word());
        self.state.update_state(status);
        proof {
            assert(self.set_words() =~= old(self).set_words());
            assert forall|i: int| 0 <= i < self.set_words().len() implies (
            #[trigger] self.set_words()[i]).len() == self.word_length by {
                assert(old(self).set_words()[i].len() == old(self).word_length);
            }
        }
    }

    /// Whether the latest evaluation reported every position `Correct`.
    pub fn is_success(&self) -> (r: bool)
        ensures
            r == self.won(),
    {
        let n = self.state.guesses.len();
        if n == 0 {
            return false;
        }
        let last_result = &self.state.guesses[n - 1];
        proof {
            assert(self.history().last() == last_result@);
        }
        let mut i: usize = 0;
        while i < last_result.len()
            invariant
                i <= last_result@.len(),
                self.history().len() > 0,
                self.history().last() == last_result@,
                forall|j: int| 0 <= j < i ==> (#[trigger] last_result@[j]).1 == Status::Correct,
            decreases last_result@.len() - i,
        {
            let failed = match last_result[i].1 {
                Status::Incorrect => true,
                Status::WrongPosition => true,
                Status::Correct => false,
            };
            if failed {
                return false;
            }
            i = i + 1;
        }
        true
    }

    /// Reveal the secret word, but only once the round is won.
    pub fn get_correct_word(&self) -> (r: Option<&str>)
        ensures
            r is Some <==> self.won(),
            match r {
                Some(w) => w@ == self.secret(),
                None => true,
            },
    {
        if self.is_success() {
            return Some(self.state.get_correct_word());
        }
        None
    }

    /// Validate a guess without touching any state: `Err(LengthMismatch)`
    /// when its length is wrong, `Err(NotInDictionary)` when it is not a
    /// legal word, `Ok(true)` otherwise. The shared borrow means no number
    /// of validation calls can change the round.
    pub fn invalid_guess(&self, guess: &str) -> (r: Result<bool, GameError>)
        ensures
            r == self.spec_validate(guess@),
    {
        if guess.unicode_len() != self.word_length {
            Err(GameError::LengthMismatch)
        } else if !words_contain(&self.word_set, guess) {
            Err(GameError::NotInDictionary)
        } else {
            Ok(true)
        }
    }

    /// Validation is a pure reading of the round's fixed parts: two
    /// rounds with the same word length and the same legal word set judge
    /// every guess alike, whatever their histories. Together with the
    /// shared borrow that `invalid_guess` takes, any number of validation
    /// calls leaves the round exactly as it was.
    pub proof fn lemma_validate_reads_only_fixed_parts(g1: Game, g2: Game, guess: Seq<char>)
        requires
            g1.word_length == g2.word_length,
            g1.set_words() == g2.set_words(),
        ensures
            g1.spec_validate(guess) == g2.spec_validate(guess),
    {
    }

    /// The latest evaluation, if any guess has been submitted.
    pub fn last_status(&self) -> (r: Option<&Vec<(char, Status)>>)
        ensures
            r is Some <==> self.history().len() > 0,
            match r {
                Some(e) => e@ == self.history().last(),
                None => true,
            },
    {
        let n = self.state.guesses.len();
        if n == 0 {
            None
        } else {
            Some(&self.state.guesses[n - 1])
        }
    }

    /// How many guesses have been submitted so far.
    pub fn attempt_count(&self) -> (n: usize)
        ensures
            n == self.history().len(),
    {
        self.state.guesses.len()
    }

    /// Render the round's history, one colour-coded line per guess.
    pub fn status_display(&self) -> (r: String)
        ensures
            display_rendered(self.history(), r@),
    {
        self.state.display_string()
    }
}

/// The ANSI escape that colored terminal output wraps `s` in, for a given
/// two-digit foreground colour code.
pub open spec fn ansi_wrapped(code: Seq<char>, s: Seq<char>) -> Seq<char> {
    seq!['\u{1b}', '['] + code + seq!['m'] + s + seq!['\u{1b}', '[', '0', 'm']
}

/// The foreground colour code each status is rendered with: red for
/// `Incorrect`, green for `Correct`, yellow for `WrongPosition`.
pub open spec fn status_code(st: Status) -> Seq<char> {
    match st {
        Status::Incorrect => seq!['3', '1'],
        Status::Correct => seq!['3', '2'],
        Status::WrongPosition => seq!['3', '3'],
    }
}

/// What rendering one guessed character may produce: the bare character
/// when colours are disabled for the process, else the character wrapped
/// in its status's colour escape.
pub open spec fn cell_rendered(c: char, st: Status, out: Seq<char>) -> bool {
    out == seq![c] || out == ansi_wrapped(status_code(st), seq![c])
}

/// Whether `out` is a rendering of the evaluation `e`: one cell per
/// position, concatenated in order.
pub open spec fn line_rendered(e: Seq<(char, Status)>, out: Seq<char>) -> bool {
    exists|cells: Seq<Seq<char>>|
        {
            &&& cells.len() == e.len()
            &&& forall|i: int|
                0 <= i < e.len() ==> cell_rendered((#[trigger] e[i]).0, e[i].1, #[trigger] cells[i])
            &&& out == cells.flatten()
        }
}

/// Whether `out` is a rendering of a whole history: one rendered line per
/// evaluation, each followed by a newline.
pub open spec fn display_rendered(h: Seq<Seq<(char, Status)>>, out: Seq<char>) -> bool {
    exists|lines: Seq<Seq<char>>|
        {
            &&& lines.len() == h.len()
            &&& forall|i: int| 0 <= i < h.len() ==> line_rendered(#[trigger] h[i], #[trigger] lines[i])
            &&& out == lines.map_values(|l: Seq<char>| l.push('\n')).flatten()
        }
}

/// Relies on colored's `Colorize::red` and the `Display` of its
/// `ColoredString`: the character unchanged when colouring is off for the
/// process, else wrapped in the red (31) escape.
#[verifier::external_body]
fn paint_red(c: char) -> (r: String)
    ensures
        r@ == seq![c] || r@ == ansi_wrapped(seq!['3', '1'], seq![c]),
{
    format!("{}", format!("{}", c).red())
}

/// Relies on colored's `Colorize::green` and the `Display` of its
/// `ColoredString`: the character unchanged when colouring is off for the
/// process, else wrapped in the green (32) escape.
#[verifier::external_body]
fn paint_green(c: char) -> (r: String)
    ensures
        r@ == seq![c] || r@ == ansi_wrapped(seq!['3', '2'], seq![c]),
{
    format!("{}", format!("{}", c).green())
}

/// Relies on colored's `Colorize::yellow` and the `Display` of its
/// `ColoredString`: the character unchanged when colouring is off for the
/// process, else wrapped in the yellow (33) escape.
#[verifier::external_body]
fn paint_yellow(c: char) -> (r: String)
    ensures
        r@ == seq![c] || r@ == ansi_wrapped(seq!['3', '3'], seq![c]),
{
    format!("{}", format!("{}", c).yellow())
}

/// Render one guessed character in its status's colour.
fn colored_char(c: char, st: Status) -> (r: String)
    ensures
        cell_rendered(c, st, r@),
{
    match st {
        Status::Incorrect => paint_red(c),
        Status::Correct => paint_green(c),
        Status::WrongPosition => paint_yellow(c),
    }
}

/// Render one evaluation as a colour-coded line (without a newline).
pub fn print_status(guess: &Vec<(char, Status)>) -> (r: String)
    ensures
        line_rendered(guess@, r@),
{
    let mut out = String::new();
    let ghost mut cells: Seq<Seq<char>> = Seq::empty();
    let mut i: usize = 0;
    proof {
        assert(out@ =~= cells.flatten());
    }
    while i < guess.len()
        invariant
            i <= guess@.len(),
            cells.len() == i,
            forall|j: int|
                0 <= j < i ==> cell_rendered((#[trigger] guess@[j]).0, guess@[j].1, #[trigger] cells[j]),
            out@ == cells.flatten(),
        decreases guess@.len() - i,
    {
        let pair = guess[i];
        let cell = colored_char(pair.0, pair.1);
        out.append(cell.as_str());
        proof {
            cells.lemma_flatten_push(cell@);
            cells = cells.push(cell@);
        }
        i = i + 1;
    }
    proof {
        assert(line_rendered(guess@, out@)) by {
            assert(cells.len() == guess@.len() && out@ == cells.flatten());
        }
    }
    out
}

/// Copy a list of words, character for character.
pub(crate) fn clone_words(words: &Vec<String>) -> (r: Vec<String>)
    ensures
        word_views(r@) == word_views(words@),
{
    let mut r: Vec<String> = Vec::new();
    let mut i: usize = 0;
    while i < words.len()
        invariant
            i <= words@.len(),
            r@.len() == i,
            forall|j: int| 0 <= j < i ==> (#[trigger] r@[j])@ == words@[j]@,
        decreases words@.len() - i,
    {
        r.push(words[i].clone());
        i = i + 1;
    }
    proof {
        assert(word_views(r@) =~= word_views(words@));
    }
    r
}

} // verus!
