//! The automated solver: derives constraints from evaluation feedback and
//! filters its candidate word set until the secret word is found.

use vstd::prelude::*;

use crate::char_status;
use crate::dictionary::pick_random_word;
use crate::game::all_correct;
use crate::game::clone_words;
use crate::game::Game;
use crate::spec_guess_status;
use crate::word_views;
use crate::GameError;
use crate::Status;

verus! {

/// The solver's accumulated constraint model, derived from all evaluation
/// feedback seen so far in one round:
/// - `correct`: characters pinned to a position by a `Correct` status (one
///   entry per character; a later `Correct` for the same character
///   overwrites the position);
/// - `wrong_pos`: characters known to be present but not at the listed
///   positions, from `WrongPosition` statuses;
/// - `incorrect`: characters reported absent by an `Incorrect` status.
///
/// The model only accumulates; it never retracts a fact.
pub struct WordMap {
    pub correct: Vec<(char, usize)>,
    pub wrong_pos: Vec<(char, Vec<usize>)>,
    pub incorrect: Vec<char>,
}

impl WordMap {
    /// Each character never appears in more than one `correct` entry, one
    /// `wrong_pos` entry, or one `incorrect` entry.
    pub open spec fn keys_unique(self) -> bool {
        &&& forall|a: int, b: int|
            #![trigger self.correct@[a], self.correct@[b]]
            0 <= a < b < self.correct@.len() ==> self.correct@[a].0 != self.correct@[b].0
        &&& forall|a: int, b: int|
            #![trigger self.wrong_pos@[a], self.wrong_pos@[b]]
            0 <= a < b < self.wrong_pos@.len() ==> self.wrong_pos@[a].0 != self.wrong_pos@[b].0
        &&& forall|a: int, b: int|
            #![trigger self.incorrect@[a], self.incorrect@[b]]
            0 <= a < b < self.incorrect@.len() ==> self.incorrect@[a] != self.incorrect@[b]
    }

    /// All recorded positions lie below `len`.
    pub open spec fn bounded(self, len: int) -> bool {
        &&& forall|i: int|
            0 <= i < self.correct@.len() ==> (#[trigger] self.correct@[i]).1 < len
        &&& forall|i: int, j: int|
            #![trigger self.wrong_pos@[i].1@[j]]
            0 <= i < self.wrong_pos@.len() && 0 <= j < self.wrong_pos@[i].1@.len()
                ==> self.wrong_pos@[i].1@[j] < len
    }

    /// Whether some `correct` entry pins the character `c`.
    pub open spec fn has_correct_key(self, c: char) -> bool {
        exists|i: int| 0 <= i < self.correct@.len() && (#[trigger] self.correct@[i]).0 == c
    }

    /// Whether some `wrong_pos` entry carries the character `c`.
    pub open spec fn has_wp_key(self, c: char) -> bool {
        exists|i: int| 0 <= i < self.wrong_pos@.len() && (#[trigger] self.wrong_pos@[i]).0 == c
    }

    /// Whether the model forbids character `c` at position `p`.
    pub open spec fn wp_contains(self, c: char, p: usize) -> bool {
        exists|i: int|
            0 <= i < self.wrong_pos@.len() && (#[trigger] self.wrong_pos@[i]).0 == c
                && self.wrong_pos@[i].1@.contains(p)
    }

    /// Every fact of the model is true of `secret`: pinned characters sit
    /// at their position, present-but-displaced characters occur somewhere
    /// but not at the forbidden positions, and excluded characters occur
    /// nowhere.
    pub open spec fn holds_for(self, secret: Seq<char>) -> bool {
        &&& forall|i: int|
            0 <= i < self.correct@.len() ==> (#[trigger] self.correct@[i]).1 < secret.len()
                && secret[self.correct@[i].1 as int] == self.correct@[i].0
        &&& forall|i: int|
            0 <= i < self.wrong_pos@.len() ==> secret.contains((#[trigger] self.wrong_pos@[i]).0)
        &&& forall|i: int, j: int|
            #![trigger self.wrong_pos@[i].1@[j]]
            0 <= i < self.wrong_pos@.len() && 0 <= j < self.wrong_pos@[i].1@.len()
                ==> self.wrong_pos@[i].1@[j] < secret.len() && secret[self.wrong_pos@[i].1@[j] as int]
                != self.wrong_pos@[i].0
        &&& forall|i: int|
            0 <= i < self.incorrect@.len() ==> !secret.contains(#[trigger] self.incorrect@[i])
    }
}

/// The filtering predicate: whether a candidate word satisfies every
/// accumulated constraint. Exclusion is applied literally, even when it
/// collides with another rule for the same character (a documented quirk
/// of the naive evaluator, not corrected here).
pub open spec fn spec_word_check(word: Seq<char>, m: WordMap) -> bool {
    &&& forall|i: int|
        0 <= i < m.correct@.len() ==> (#[trigger] m.correct@[i]).1 < word.len()
            && word[m.correct@[i].1 as int] == m.correct@[i].0
    &&& forall|i: int|
        0 <= i < m.wrong_pos@.len() ==> word.contains((#[trigger] m.wrong_pos@[i]).0)
    &&& forall|i: int, j: int|
        #![trigger m.wrong_pos@[i].1@[j]]
        0 <= i < m.wrong_pos@.len() && 0 <= j < m.wrong_pos@[i].1@.len()
            ==> m.wrong_pos@[i].1@[j] < word.len() && word[m.wrong_pos@[i].1@[j] as int]
            != m.wrong_pos@[i].0
    &&& forall|i: int| 0 <= i < word.len() ==> !m.incorrect@.contains(#[trigger] word[i])
}

/// Whether the feedback `ws` is what evaluating its characters against
/// `secret` produces.
pub open spec fn consistent_feedback(ws: Seq<(char, Status)>, secret: Seq<char>) -> bool {
    &&& ws.len() == secret.len()
    &&& forall|i: int|
        0 <= i < ws.len() ==> (#[trigger] ws[i]).1 == char_status(ws[i].0, i, secret)
}

/// Whether `ws` reports a `Correct` for the character `c` somewhere.
pub open spec fn feedback_has_correct(ws: Seq<(char, Status)>, c: char) -> bool {
    exists|i: int| 0 <= i < ws.len() && #[trigger] ws[i] == (c, Status::Correct)
}

/// Whether `ws` reports a `WrongPosition` for the character `c` somewhere.
pub open spec fn feedback_has_wp(ws: Seq<(char, Status)>, c: char) -> bool {
    exists|i: int| 0 <= i < ws.len() && #[trigger] ws[i] == (c, Status::WrongPosition)
}

/// Whether `ws` reports an `Incorrect` for the character `c` somewhere.
pub open spec fn feedback_has_incorrect(ws: Seq<(char, Status)>, c: char) -> bool {
    exists|i: int| 0 <= i < ws.len() && #[trigger] ws[i] == (c, Status::Incorrect)
}

/// Whether position `p` holds the last `Correct` report for `c` in `ws`.
pub open spec fn last_correct_at(ws: Seq<(char, Status)>, c: char, p: usize) -> bool {
    &&& 0 <= p < ws.len()
    &&& ws[p as int] == (c, Status::Correct)
    &&& forall|q: int| p < q < ws.len() ==> #[trigger] ws[q] != (c, Status::Correct)
}

/// Whether the character `c` occurs in `v`.
fn char_in_vec(v: &Vec<char>, c: char) -> (r: bool)
    ensures
        r == v@.contains(c),
{
    let mut i: usize = 0;
    while i < v.len()
        invariant
            i <= v@.len(),
            forall|j: int| 0 <= j < i ==> v@[j] != c,
        decreases v@.len() - i,
    {
        if v[i] == c {
            return true;
        }
        i = i + 1;
    }
    false
}

/// Whether the position `x` occurs in `v`.
fn pos_in_vec(v: &Vec<usize>, x: usize) -> (r: bool)
    ensures
        r == v@.contains(x),
{
    let mut i: usize = 0;
    while i < v.len()
        invariant
            i <= v@.len(),
            forall|j: int| 0 <= j < i ==> v@[j] != x,
        decreases v@.len() - i,
    {
        if v[i] == x {
            return true;
        }
        i = i + 1;
    }
    false
}

impl WordMap {
    /// The position of the `correct` entry for `c`, if one exists.
    fn find_correct(&self, c: char) -> (r: Option<usize>)
        ensures
            match r {
                Some(j) => j < self.correct@.len() && self.correct@[j as int].0 == c,
                None => !self.has_correct_key(c),
            },
    {
        let mut j: usize = 0;
        while j < self.correct.len()
            invariant
                j <= self.correct@.len(),
                forall|i: int| 0 <= i < j ==> (#[trigger] self.correct@[i]).0 != c,
            decreases self.correct@.len() - j,
        {
            if self.correct[j].0 == c {
                return Some(j);
            }
            j = j + 1;
        }
        None
    }

    /// The position of the `wrong_pos` entry for `c`, if one exists.
    fn find_wp(&self, c: char) -> (r: Option<usize>)
        ensures
            match r {
                Some(j) => j < self.wrong_pos@.len() && self.wrong_pos@[j as int].0 == c,
                None => !self.has_wp_key(c),
            },
    {
        let mut j: usize = 0;
        while j < self.wrong_pos.len()
            invariant
                j <= self.wrong_pos@.len(),
                forall|i: int| 0 <= i < j ==> (#[trigger] self.wrong_pos@[i]).0 != c,
            decreases self.wrong_pos@.len() - j,
        {
            if self.wrong_pos[j].0 == c {
                return Some(j);
            }
            j = j + 1;
        }
        None
    }

    /// Record that `c` sits at `pos`, overwriting any position recorded
    /// for `c` earlier.
    fn insert_correct(&mut self, c: char, pos: usize)
        requires
            old(self).keys_unique(),
        ensures
            final(self).keys_unique(),
            final(self).wrong_pos == old(self).wrong_pos,
            final(self).incorrect == old(self).incorrect,
            forall|a: (char, usize)|
                #[trigger] final(self).correct@.contains(a) <==> ((old(self).correct@.contains(a)
                    && a.0 != c) || a == (c, pos)),
    {
        let found = self.find_correct(c);
        match found {
            Some(j) => {
                let ghost old_s = self.correct@;
                let ghost ll = old_s.len() as int;
                let ghost jj = j as int;
                self.correct.swap_remove(j);
                self.correct.push((c, pos));
                proof {
                    let new_s = self.correct@;
                    assert forall|i: int|
                        0 <= i < ll && i != jj implies (#[trigger] old_s[i]).0 != c by {
                        if i < jj {
                            assert(old_s[i].0 != old_s[jj].0);
                        } else {
                            assert(old_s[jj].0 != old_s[i].0);
                        }
                    }
                    assert(new_s.len() == ll);
                    assert forall|i: int| 0 <= i < ll - 1 && i != jj implies new_s[i]
                        == old_s[i] by {}
                    if jj < ll - 1 {
                        assert(new_s[jj] == old_s[ll - 1]);
                    }
                    assert(new_s[ll - 1] == (c, pos));
                    assert forall|a: (char, usize)| #[trigger]
                        new_s.contains(a) implies ((old_s.contains(a) && a.0 != c) || a == (
                        c,
                        pos,
                    )) by {
                        let i = choose|i: int| 0 <= i < new_s.len() && new_s[i] == a;
                        if i < ll - 1 {
                            if i == jj {
                                assert(old_s.contains(a)) by {
                                    assert(old_s[ll - 1] == a);
                                }
                            } else {
                                assert(old_s.contains(a)) by {
                                    assert(old_s[i] == a);
                                }
                            }
                        }
                    }
                    assert forall|a: (char, usize)|
                        (old_s.contains(a) && a.0 != c) || a == (c, pos) implies #[trigger]
                        new_s.contains(a) by {
                        if old_s.contains(a) && a.0 != c {
                            let i = choose|i: int| 0 <= i < old_s.len() && old_s[i] == a;
                            if i == ll - 1 && jj < ll - 1 {
                                assert(new_s[jj] == a);
                            } else if i == ll - 1 {
                                assert(i == jj && a.0 == c);
                            } else {
                                assert(new_s[i] == a);
                            }
                        } else {
                            assert(new_s[ll - 1] == a);
                        }
                    }
                    assert forall|a: int, b: int|
                        #![trigger new_s[a], new_s[b]]
                        0 <= a < b < new_s.len() implies new_s[a].0 != new_s[b].0 by {
                        if b == ll - 1 {
                            assert(new_s.contains(new_s[a])) by {}
                            assert(new_s[a].0 != c || new_s[a] == (c, pos));
                            if new_s[a] == (c, pos) {
                                assert(old_s.contains(new_s[a]) || new_s[a].0 != c || a == ll
                                    - 1);
                            }
                            assert(new_s[a].0 != c);
                        } else {
                            let oa = if a == jj { ll - 1 } else { a };
                            let ob = if b == jj { ll - 1 } else { b };
                            assert(new_s[a] == old_s[oa]);
                            assert(new_s[b] == old_s[ob]);
                            if oa < ob {
                                assert(old_s[oa].0 != old_s[ob].0);
                            } else {
                                assert(old_s[ob].0 != old_s[oa].0);
                            }
                        }
                    }
                }
            },
            None => {
                let ghost old_s = self.correct@;
                self.correct.push((c, pos));
                proof {
                    let new_s = self.correct@;
                    let ll = old_s.len() as int;
                    assert forall|i: int| 0 <= i < ll implies (#[trigger] old_s[i]).0 != c by {
                        assert(!old(self).has_correct_key(c));
                    }
                    assert forall|a: (char, usize)| #[trigger]
                        new_s.contains(a) implies ((old_s.contains(a) && a.0 != c) || a == (
                        c,
                        pos,
                    )) by {
                        let i = choose|i: int| 0 <= i < new_s.len() && new_s[i] == a;
                        if i < ll {
                            assert(old_s[i] == a);
                            assert(old_s.contains(a));
                        }
                    }
                    assert forall|a: (char, usize)|
                        (old_s.contains(a) && a.0 != c) || a == (c, pos) implies #[trigger]
                        new_s.contains(a) by {
                        if old_s.contains(a) && a.0 != c {
                            let i = choose|i: int| 0 <= i < old_s.len() && old_s[i] == a;
                            assert(new_s[i] == a);
                        } else {
                            assert(new_s[ll] == a);
                        }
                    }
                }
            },
        }
    }

    /// Record that `c` is present but not at `pos`.
    fn insert_wrong_pos(&mut self, c: char, pos: usize)
        requires
            old(self).keys_unique(),
        ensures
            final(self).keys_unique(),
            final(self).correct == old(self).correct,
            final(self).incorrect == old(self).incorrect,
            forall|ch: char, p: usize|
                #[trigger] final(self).wp_contains(ch, p) <==> (old(self).wp_contains(ch, p) || (ch
                    == c && p == pos)),
            forall|ch: char|
                #[trigger] final(self).has_wp_key(ch) <==> (old(self).has_wp_key(ch) || ch == c),
            forall|len: int|
                old(self).bounded(len) && pos < len ==> #[trigger] final(self).bounded(len),
    {
        let found = self.find_wp(c);
        match found {
            Some(j) => {
                let ghost old_s = self.wrong_pos@;
                let ghost ll = old_s.len() as int;
                let ghost jj = j as int;
                let mut entry = self.wrong_pos.swap_remove(j);
                if !pos_in_vec(&entry.1, pos) {
                    entry.1.push(pos);
                }
                self.wrong_pos.push(entry);
                proof {
                    let new_s = self.wrong_pos@;
                    assert(new_s.len() == ll);
                    assert forall|i: int| 0 <= i < ll - 1 && i != jj implies new_s[i]
                        == old_s[i] by {}
                    if jj < ll - 1 {
                        assert(new_s[jj] == old_s[ll - 1]);
                    }
                    assert(new_s[ll - 1].0 == c);
                    assert(forall|p: usize|
                        new_s[ll - 1].1@.contains(p) <==> (old_s[jj].1@.contains(p) || p == pos))
                        by {
                        if old_s[jj].1@.contains(pos) {
                        } else {
                            assert forall|p: usize| #[trigger]
                                new_s[ll - 1].1@.contains(p) implies (old_s[jj].1@.contains(p) || p
                                == pos) by {
                                let gval = new_s[ll - 1].1@;
                                let k = choose|k: int| 0 <= k < gval.len() && gval[k] == p;
                                if k < old_s[jj].1@.len() {
                                    assert(old_s[jj].1@[k] == p);
                                }
                            }
                            assert forall|p: usize|
                                old_s[jj].1@.contains(p) || p == pos implies #[trigger] new_s[ll
                                - 1].1@.contains(p) by {
                                if old_s[jj].1@.contains(p) {
                                    let k = choose|k: int|
                                        0 <= k < old_s[jj].1@.len() && old_s[jj].1@[k] == p;
                                    assert(new_s[ll - 1].1@[k] == p);
                                } else {
                                    assert(new_s[ll - 1].1@.last() == p);
                                }
                            }
                        }
                    }
                    assert forall|i: int|
                        0 <= i < ll && i != jj implies (#[trigger] old_s[i]).0 != c by {
                        if i < jj {
                            assert(old_s[i].0 != old_s[jj].0);
                        } else {
                            assert(old_s[jj].0 != old_s[i].0);
                        }
                    }
                    let oi = |i: int| if i == ll - 1 { jj } else if i == jj { ll - 1 } else { i };
                    assert forall|i: int| 0 <= i < ll implies (#[trigger] new_s[i]).0
                        == old_s[oi(i)].0 by {}
                    assert forall|ch: char, p: usize| #[trigger]
                        self.wp_contains(ch, p) implies (old(self).wp_contains(ch, p) || (ch == c
                        && p == pos)) by {
                        let i = choose|i: int|
                            0 <= i < new_s.len() && (#[trigger] new_s[i]).0 == ch
                                && new_s[i].1@.contains(p);
                        if i == ll - 1 {
                            if old_s[jj].1@.contains(p) {
                                assert(old(self).wp_contains(ch, p));
                            }
                        } else {
                            assert(old_s[oi(i)].0 == ch && old_s[oi(i)].1@.contains(p));
                            assert(old(self).wp_contains(ch, p));
                        }
                    }
                    assert forall|ch: char, p: usize|
                        old(self).wp_contains(ch, p) || (ch == c && p == pos) implies #[trigger]
                        self.wp_contains(ch, p) by {
                        if old(self).wp_contains(ch, p) {
                            let i = choose|i: int|
                                0 <= i < old_s.len() && (#[trigger] old_s[i]).0 == ch
                                    && old_s[i].1@.contains(p);
                            if i == jj {
                                assert(new_s[ll - 1].0 == ch && new_s[ll - 1].1@.contains(p));
                            } else {
                                let ni = if i == ll - 1 { jj } else { i };
                                assert(new_s[ni].0 == ch && new_s[ni].1@.contains(p));
                            }
                        } else {
                            assert(new_s[ll - 1].0 == ch && new_s[ll - 1].1@.contains(p));
                        }
                    }
                    assert forall|ch: char| #[trigger]
                        self.has_wp_key(ch) implies (old(self).has_wp_key(ch) || ch == c) by {
                        let i = choose|i: int|
                            0 <= i < new_s.len() && (#[trigger] new_s[i]).0 == ch;
                        assert(old_s[oi(i)].0 == ch);
                    }
                    assert forall|ch: char|
                        old(self).has_wp_key(ch) || ch == c implies #[trigger] self.has_wp_key(
                        ch,
                    ) by {
                        if old(self).has_wp_key(ch) {
                            let i = choose|i: int|
                                0 <= i < old_s.len() && (#[trigger] old_s[i]).0 == ch;
                            assert(new_s[oi(i)].0 == ch);
                        } else {
                            assert(new_s[ll - 1].0 == ch);
                        }
                    }
                    assert forall|a: int, b: int|
                        #![trigger new_s[a], new_s[b]]
                        0 <= a < b < new_s.len() implies new_s[a].0 != new_s[b].0 by {
                        assert(oi(a) != oi(b));
                        if oi(a) < oi(b) {
                            assert(old_s[oi(a)].0 != old_s[oi(b)].0);
                        } else {
                            assert(old_s[oi(b)].0 != old_s[oi(a)].0);
                        }
                    }
                    assert forall|len: int|
                        old(self).bounded(len) && pos < len implies #[trigger] self.bounded(
                        len,
                    ) by {
                        assert forall|i: int, k: int|
                            #![trigger new_s[i].1@[k]]
                            0 <= i < new_s.len() && 0 <= k < new_s[i].1@.len() implies new_s[i].1@[k]
                            < len by {
                            if i == ll - 1 {
                                if k < old_s[jj].1@.len() {
                                    assert(old_s[jj].1@[k] < len);
                                } else {
                                    assert(new_s[i].1@[k] == pos);
                                }
                            } else {
                                assert(new_s[i] == old_s[oi(i)]);
                                assert(old_s[oi(i)].1@[k] < len);
                            }
                        }
                    }
                }
            },
            None => {
                let ghost old_s = self.wrong_pos@;
                let mut positions: Vec<usize> = Vec::new();
                positions.push(pos);
                self.wrong_pos.push((c, positions));
                proof {
                    let new_s = self.wrong_pos@;
                    let ll = old_s.len() as int;
                    assert forall|i: int| 0 <= i < ll implies new_s[i] == old_s[i] by {}
                    assert(new_s[ll].0 == c);
                    assert(new_s[ll].1@ =~= seq![pos]);
                    assert forall|i: int| 0 <= i < ll implies (#[trigger] old_s[i]).0 != c by {
                        assert(!old(self).has_wp_key(c));
                    }
                    assert forall|ch: char, p: usize| #[trigger]
                        self.wp_contains(ch, p) implies (old(self).wp_contains(ch, p) || (ch == c
                        && p == pos)) by {
                        let i = choose|i: int|
                            0 <= i < new_s.len() && (#[trigger] new_s[i]).0 == ch
                                && new_s[i].1@.contains(p);
                        if i < ll {
                            assert(old(self).wp_contains(ch, p));
                        } else {
                            assert(new_s[ll].1@[0] == pos);
                        }
                    }
                    assert forall|ch: char, p: usize|
                        old(self).wp_contains(ch, p) || (ch == c && p == pos) implies #[trigger]
                        self.wp_contains(ch, p) by {
                        if old(self).wp_contains(ch, p) {
                            let i = choose|i: int|
                                0 <= i < old_s.len() && (#[trigger] old_s[i]).0 == ch
                                    && old_s[i].1@.contains(p);
                            assert(new_s[i].0 == ch && new_s[i].1@.contains(p));
                        } else {
                            assert(new_s[ll].1@[0] == pos);
                            assert(new_s[ll].1@.contains(p));
                        }
                    }
                    assert forall|ch: char| #[trigger]
                        self.has_wp_key(ch) implies (old(self).has_wp_key(ch) || ch == c) by {
                        let i = choose|i: int|
                            0 <= i < new_s.len() && (#[trigger] new_s[i]).0 == ch;
                        if i < ll {
                            assert(old_s[i].0 == ch);
                        }
                    }
                    assert forall|ch: char|
                        old(self).has_wp_key(ch) || ch == c implies #[trigger] self.has_wp_key(
                        ch,
                    ) by {
                        if old(self).has_wp_key(ch) {
                            let i = choose|i: int|
                                0 <= i < old_s.len() && (#[trigger] old_s[i]).0 == ch;
                            assert(new_s[i].0 == ch);
                        } else {
                            assert(new_s[ll].0 == ch);
                        }
                    }
                    assert forall|len: int|
                        old(self).bounded(len) && pos < len implies #[trigger] self.bounded(
                        len,
                    ) by {
                        assert forall|i: int, k: int|
                            #![trigger new_s[i].1@[k]]
                            0 <= i < new_s.len() && 0 <= k < new_s[i].1@.len() implies new_s[i].1@[k]
                            < len by {
                            if i < ll {
                                assert(old_s[i].1@[k] < len);
                            } else {
                                assert(new_s[i].1@[k] == pos);
                            }
                        }
                    }
                }
            },
        }
    }

    /// Record that `c` is absent from the secret word.
    fn insert_incorrect(&mut self, c: char)
        requires
            old(self).keys_unique(),
        ensures
            final(self).keys_unique(),
            final(self).correct == old(self).correct,
            final(self).wrong_pos == old(self).wrong_pos,
            forall|ch: char|
                #[trigger] final(self).incorrect@.contains(ch) <==> (old(self).incorrect@.contains(ch) || ch == c),
    {
        if !char_in_vec(&self.incorrect, c) {
            let ghost old_s = self.incorrect@;
            self.incorrect.push(c);
            proof {
                let new_s = self.incorrect@;
                let ll = old_s.len() as int;
                assert forall|ch: char| #[trigger]
                    new_s.contains(ch) implies (old_s.contains(ch) || ch == c) by {
                    let i = choose|i: int| 0 <= i < new_s.len() && new_s[i] == ch;
                    if i < ll {
                        assert(old_s[i] == ch);
                    }
                }
                assert forall|ch: char| old_s.contains(ch) || ch == c implies #[trigger]
                    new_s.contains(ch) by {
                    if old_s.contains(ch) {
                        let i = choose|i: int| 0 <= i < old_s.len() && old_s[i] == ch;
                        assert(new_s[i] == ch);
                    } else {
                        assert(new_s[ll] == ch);
                    }
                }
                assert forall|a: int, b: int|
                    #![trigger new_s[a], new_s[b]]
                    0 <= a < b < new_s.len() implies new_s[a] != new_s[b] by {
                    if b == ll {
                        assert(old_s.contains(new_s[a])) by {
                            assert(old_s[a] == new_s[a]);
                        }
                    }
                }
            }
        }
    }
}

/// How each feedback predicate over a prefix grows when the prefix is
/// extended by one position.
proof fn lemma_feedback_take_step(ws: Seq<(char, Status)>, i: int)
    requires
        0 <= i < ws.len(),
    ensures
        forall|ch: char|
            #[trigger] feedback_has_incorrect(ws.take(i + 1), ch) <==> (feedback_has_incorrect(
                ws.take(i),
                ch,
            ) || ws[i] == (ch, Status::Incorrect)),
        forall|ch: char|
            #[trigger] feedback_has_wp(ws.take(i + 1), ch) <==> (feedback_has_wp(ws.take(i), ch)
                || ws[i] == (ch, Status::WrongPosition)),
        forall|ch: char|
            #[trigger] feedback_has_correct(ws.take(i + 1), ch) <==> (feedback_has_correct(
                ws.take(i),
                ch,
            ) || ws[i] == (ch, Status::Correct)),
        forall|ch: char, p: usize|
            #[trigger] last_correct_at(ws.take(i + 1), ch, p) <==> ((last_correct_at(
                ws.take(i),
                ch,
                p,
            ) && ws[i] != (ch, Status::Correct)) || (p == i && ws[i] == (ch, Status::Correct))),
{
    let pre = ws.take(i);
    let post = ws.take(i + 1);
    assert forall|ch: char| #[trigger]
        feedback_has_incorrect(post, ch) implies (feedback_has_incorrect(pre, ch) || ws[i] == (
        ch,
        Status::Incorrect,
    )) by {
        let q = choose|q: int| 0 <= q < post.len() && #[trigger] post[q] == (ch, Status::Incorrect);
        if q < i {
            assert(pre[q] == (ch, Status::Incorrect));
        }
    }
    assert forall|ch: char|
        feedback_has_incorrect(pre, ch) || ws[i] == (ch, Status::Incorrect) implies #[trigger]
        feedback_has_incorrect(post, ch) by {
        if feedback_has_incorrect(pre, ch) {
            let q = choose|q: int|
                0 <= q < pre.len() && #[trigger] pre[q] == (ch, Status::Incorrect);
            assert(post[q] == (ch, Status::Incorrect));
        } else {
            assert(post[i] == (ch, Status::Incorrect));
        }
    }
    assert forall|ch: char| #[trigger]
        feedback_has_wp(post, ch) implies (feedback_has_wp(pre, ch) || ws[i] == (
        ch,
        Status::WrongPosition,
    )) by {
        let q = choose|q: int|
            0 <= q < post.len() && #[trigger] post[q] == (ch, Status::WrongPosition);
        if q < i {
            assert(pre[q] == (ch, Status::WrongPosition));
        }
    }
    assert forall|ch: char|
        feedback_has_wp(pre, ch) || ws[i] == (ch, Status::WrongPosition) implies #[trigger]
        feedback_has_wp(post, ch) by {
        if feedback_has_wp(pre, ch) {
            let q = choose|q: int|
                0 <= q < pre.len() && #[trigger] pre[q] == (ch, Status::WrongPosition);
            assert(post[q] == (ch, Status::WrongPosition));
        } else {
            assert(post[i] == (ch, Status::WrongPosition));
        }
    }
    assert forall|ch: char| #[trigger]
        feedback_has_correct(post, ch) implies (feedback_has_correct(pre, ch) || ws[i] == (
        ch,
        Status::Correct,
    )) by {
        let q = choose|q: int| 0 <= q < post.len() && #[trigger] post[q] == (ch, Status::Correct);
        if q < i {
            assert(pre[q] == (ch, Status::Correct));
        }
    }
    assert forall|ch: char|
        feedback_has_correct(pre, ch) || ws[i] == (ch, Status::Correct) implies #[trigger]
        feedback_has_correct(post, ch) by {
        if feedback_has_correct(pre, ch) {
            let q = choose|q: int| 0 <= q < pre.len() && #[trigger] pre[q] == (ch, Status::Correct);
            assert(post[q] == (ch, Status::Correct));
        } else {
            assert(post[i] == (ch, Status::Correct));
        }
    }
    assert forall|ch: char, p: usize| #[trigger]
        last_correct_at(post, ch, p) implies ((last_correct_at(pre, ch, p) && ws[i] != (
        ch,
        Status::Correct,
    )) || (p == i && ws[i] == (ch, Status::Correct))) by {
        assert(post[p as int] == ws[p as int]);
        if p < i {
            assert(ws[i] != (ch, Status::Correct)) by {
                assert(post[i] == ws[i]);
            }
            assert forall|q: int| p < q < pre.len() implies #[trigger] pre[q] != (
            ch,
            Status::Correct,
            ) by {
                assert(post[q] == pre[q]);
            }
        }
    }
    assert forall|ch: char, p: usize|
        (last_correct_at(pre, ch, p) && ws[i] != (ch, Status::Correct)) || (p == i && ws[i] == (
        ch,
        Status::Correct,
    )) implies #[trigger] last_correct_at(post, ch, p) by {
        if last_correct_at(pre, ch, p) && ws[i] != (ch, Status::Correct) {
            assert(post[p as int] == pre[p as int]);
            assert forall|q: int| p < q < post.len() implies #[trigger] post[q] != (
            ch,
            Status::Correct,
            ) by {
                if q < i {
                    assert(post[q] == pre[q]);
                } else {
                    assert(post[q] == ws[i]);
                }
            }
        } else {
            assert(post[p as int] == ws[i]);
        }
    }
}


/// Two models with the same `wrong_pos` entries forbid the same positions
/// and carry the same keys there.
proof fn lemma_same_wrong_pos(m1: WordMap, m2: WordMap)
    requires
        m1.wrong_pos@ == m2.wrong_pos@,
    ensures
        forall|ch: char, p: usize| #[trigger] m1.wp_contains(ch, p) <==> m2.wp_contains(ch, p),
        forall|ch: char| #[trigger] m1.has_wp_key(ch) <==> m2.has_wp_key(ch),
{
    assert forall|ch: char, p: usize| #[trigger]
        m1.wp_contains(ch, p) implies m2.wp_contains(ch, p) by {
        let i = choose|i: int|
            0 <= i < m1.wrong_pos@.len() && (#[trigger] m1.wrong_pos@[i]).0 == ch
                && m1.wrong_pos@[i].1@.contains(p);
        assert(m2.wrong_pos@[i].0 == ch && m2.wrong_pos@[i].1@.contains(p));
    }
    assert forall|ch: char, p: usize|
        m2.wp_contains(ch, p) implies #[trigger] m1.wp_contains(ch, p) by {
        let i = choose|i: int|
            0 <= i < m2.wrong_pos@.len() && (#[trigger] m2.wrong_pos@[i]).0 == ch
                && m2.wrong_pos@[i].1@.contains(p);
        assert(m1.wrong_pos@[i].0 == ch && m1.wrong_pos@[i].1@.contains(p));
    }
    assert forall|ch: char| #[trigger] m1.has_wp_key(ch) implies m2.has_wp_key(ch) by {
        let i = choose|i: int| 0 <= i < m1.wrong_pos@.len() && (#[trigger] m1.wrong_pos@[i]).0 == ch;
        assert(m2.wrong_pos@[i].0 == ch);
    }
    assert forall|ch: char| m2.has_wp_key(ch) implies #[trigger] m1.has_wp_key(ch) by {
        let i = choose|i: int| 0 <= i < m2.wrong_pos@.len() && (#[trigger] m2.wrong_pos@[i]).0 == ch;
        assert(m1.wrong_pos@[i].0 == ch);
    }
}

/// Two models with the same `correct` and `wrong_pos` entries are bounded
/// by the same lengths.
proof fn lemma_same_bounded(m1: WordMap, m2: WordMap)
    requires
        m1.correct@ == m2.correct@,
        m1.wrong_pos@ == m2.wrong_pos@,
    ensures
        forall|len: int| #[trigger] m1.bounded(len) <==> m2.bounded(len),
{
    assert forall|len: int| #[trigger] m1.bounded(len) <==> m2.bounded(len) by {
        if m1.bounded(len) {
            assert forall|i: int, j: int|
                #![trigger m2.wrong_pos@[i].1@[j]]
                0 <= i < m2.wrong_pos@.len() && 0 <= j < m2.wrong_pos@[i].1@.len()
                implies m2.wrong_pos@[i].1@[j] < len by {
                assert(m1.wrong_pos@[i].1@[j] < len);
            }
            assert forall|i: int|
                0 <= i < m2.correct@.len() implies (#[trigger] m2.correct@[i]).1 < len by {
                assert(m1.correct@[i].1 < len);
            }
        }
        if m2.bounded(len) {
            assert forall|i: int, j: int|
                #![trigger m1.wrong_pos@[i].1@[j]]
                0 <= i < m1.wrong_pos@.len() && 0 <= j < m1.wrong_pos@[i].1@.len()
                implies m1.wrong_pos@[i].1@[j] < len by {
                assert(m2.wrong_pos@[i].1@[j] < len);
            }
            assert forall|i: int|
                0 <= i < m1.correct@.len() implies (#[trigger] m1.correct@[i]).1 < len by {
                assert(m2.correct@[i].1 < len);
            }
        }
    }
}

impl WordMap {
    /// Fold one evaluation into the model: each `Correct` pins its
    /// character to its position (a later report overwrites an earlier
    /// one), each `WrongPosition` forbids its position for its character,
    /// and each `Incorrect` excludes its character outright. Everything
    /// the model held before and still follows these rules is kept, and
    /// every fact true of the secret the feedback came from stays true.
    pub fn update_map(&mut self, word_status: &Vec<(char, Status)>)
        requires
            old(self).keys_unique(),
        ensures
            final(self).keys_unique(),
            forall|len: int|
                old(self).bounded(len) && word_status@.len() <= len ==> #[trigger] final(self).bounded(len),
            forall|ch: char|
                #[trigger] final(self).incorrect@.contains(ch) <==> (old(self).incorrect@.contains(ch) || feedback_has_incorrect(word_status@, ch)),
            forall|ch: char, p: usize|
                #[trigger] final(self).wp_contains(ch, p) <==> (old(self).wp_contains(ch, p) || (
                p < word_status@.len() && word_status@[p as int] == (
                    ch,
                    Status::WrongPosition,
                ))),
            forall|ch: char|
                #[trigger] final(self).has_wp_key(ch) <==> (old(self).has_wp_key(ch)
                    || feedback_has_wp(word_status@, ch)),
            forall|a: (char, usize)|
                #[trigger] final(self).correct@.contains(a) <==> ((old(self).correct@.contains(a)
                    && !feedback_has_correct(word_status@, a.0)) || last_correct_at(
                    word_status@,
                    a.0,
                    a.1,
                )),
            forall|secret: Seq<char>|
                old(self).holds_for(secret) && consistent_feedback(word_status@, secret)
                    ==> #[trigger] final(self).holds_for(secret),
    {
        let ghost ws = word_status@;
        let mut i: usize = 0;
        proof {
            assert(ws.take(0) =~= Seq::<(char, Status)>::empty());
        }
        while i < word_status.len()
            invariant
                ws == word_status@,
                i <= ws.len(),
                self.keys_unique(),
                forall|len: int|
                    old(self).bounded(len) && i <= len ==> #[trigger] self.bounded(len),
                forall|ch: char|
                    #[trigger] self.incorrect@.contains(ch) <==> (old(self).incorrect@.contains(ch)
                        || feedback_has_incorrect(ws.take(i as int), ch)),
                forall|ch: char, p: usize|
                    #[trigger] self.wp_contains(ch, p) <==> (old(self).wp_contains(ch, p) || (p < i
                        && ws[p as int] == (ch, Status::WrongPosition))),
                forall|ch: char|
                    #[trigger] self.has_wp_key(ch) <==> (old(self).has_wp_key(ch)
                        || feedback_has_wp(ws.take(i as int), ch)),
                forall|a: (char, usize)|
                    #[trigger] self.correct@.contains(a) <==> ((old(self).correct@.contains(a)
                        && !feedback_has_correct(ws.take(i as int), a.0)) || last_correct_at(
                        ws.take(i as int),
                        a.0,
                        a.1,
                    )),
            decreases ws.len() - i,
        {
            let ghost prev = *self;
            let pair = word_status[i];
            let c = pair.0;
            match pair.1 {
                Status::Incorrect => self.insert_incorrect(c),
                Status::Correct => self.insert_correct(c, i),
                Status::WrongPosition => self.insert_wrong_pos(c, i),
            }
            proof {
                lemma_feedback_take_step(ws, i as int);
                assert(ws[i as int] == (c, pair.1));
                match pair.1 {
                    Status::Incorrect => {
                        lemma_same_wrong_pos(*self, prev);
                        lemma_same_bounded(*self, prev);
                        assert forall|a: (char, usize)| #[trigger]
                            self.correct@.contains(a) <==> ((old(self).correct@.contains(a)
                            && !feedback_has_correct(ws.take(i as int + 1), a.0))
                            || last_correct_at(ws.take(i as int + 1), a.0, a.1)) by {
                            assert(self.correct@ == prev.correct@);
                            assert(ws[i as int] != (a.0, Status::Correct));
                        }
                    },
                    Status::Correct => {
                        lemma_same_wrong_pos(*self, prev);
                        assert forall|a: (char, usize)| #[trigger]
                            self.correct@.contains(a) <==> ((old(self).correct@.contains(a)
                            && !feedback_has_correct(ws.take(i as int + 1), a.0))
                            || last_correct_at(ws.take(i as int + 1), a.0, a.1)) by {
                            if a == (c, i) {
                                assert(ws[i as int] == (a.0, Status::Correct));
                                assert(last_correct_at(ws.take(i as int + 1), a.0, a.1));
                            } else if a.0 == c {
                                assert(!(last_correct_at(ws.take(i as int), a.0, a.1) && ws[i as int]
                                    != (a.0, Status::Correct)));
                            }
                        }
                        assert forall|len: int|
                            old(self).bounded(len) && i + 1 <= len implies #[trigger] self.bounded(
                            len,
                        ) by {
                            assert(prev.bounded(len));
                            assert forall|idx: int|
                                0 <= idx < self.correct@.len() implies (
                            #[trigger] self.correct@[idx]).1 < len by {
                                let a = self.correct@[idx];
                                assert(self.correct@.contains(a));
                                if prev.correct@.contains(a) && a.0 != c {
                                    let k = choose|k: int|
                                        0 <= k < prev.correct@.len() && prev.correct@[k] == a;
                                    assert(prev.correct@[k].1 < len);
                                } else {
                                    assert(a == (c, i));
                                }
                            }
                            assert forall|idx: int, k: int|
                                #![trigger self.wrong_pos@[idx].1@[k]]
                                0 <= idx < self.wrong_pos@.len() && 0 <= k
                                < self.wrong_pos@[idx].1@.len() implies self.wrong_pos@[idx].1@[k]
                                < len by {
                                assert(prev.wrong_pos@[idx].1@[k] < len);
                            }
                        }
                    },
                    Status::WrongPosition => {
                        assert forall|a: (char, usize)| #[trigger]
                            self.correct@.contains(a) <==> ((old(self).correct@.contains(a)
                            && !feedback_has_correct(ws.take(i as int + 1), a.0))
                            || last_correct_at(ws.take(i as int + 1), a.0, a.1)) by {
                            assert(self.correct@ == prev.correct@);
                            assert(ws[i as int] != (a.0, Status::Correct));
                        }
                        assert forall|len: int|
                            old(self).bounded(len) && i + 1 <= len implies #[trigger] self.bounded(
                            len,
                        ) by {
                            assert(prev.bounded(len) && (i as int) < len);
                        }
                    },
                }
            }
            i = i + 1;
        }
        proof {
            assert(ws.take(ws.len() as int) =~= ws);
            assert forall|secret: Seq<char>|
                old(self).holds_for(secret) && consistent_feedback(ws, secret) implies #[trigger]
                self.holds_for(secret) by {
                assert forall|idx: int| 0 <= idx < self.correct@.len() implies (
                #[trigger] self.correct@[idx]).1 < secret.len() && secret[self.correct@[idx].1 as int]
                    == self.correct@[idx].0 by {
                    let a = self.correct@[idx];
                    assert(self.correct@.contains(a));
                    if old(self).correct@.contains(a) && !feedback_has_correct(ws, a.0) {
                        let k = choose|k: int|
                            0 <= k < old(self).correct@.len() && old(self).correct@[k] == a;
                        assert(old(self).correct@[k].1 < secret.len());
                    } else {
                        assert(ws[a.1 as int] == (a.0, Status::Correct));
                        assert(char_status(a.0, a.1 as int, secret) == Status::Correct);
                    }
                }
                assert forall|idx: int| 0 <= idx < self.wrong_pos@.len() implies secret.contains(
                    (#[trigger] self.wrong_pos@[idx]).0,
                ) by {
                    let ch = self.wrong_pos@[idx].0;
                    assert(self.has_wp_key(ch));
                    if old(self).has_wp_key(ch) {
                        let k = choose|k: int|
                            0 <= k < old(self).wrong_pos@.len() && (#[trigger] old(self).wrong_pos@[k]).0 == ch;
                        assert(secret.contains(old(self).wrong_pos@[k].0));
                    } else {
                        let q = choose|q: int|
                            0 <= q < ws.len() && #[trigger] ws[q] == (ch, Status::WrongPosition);
                        assert(char_status(ch, q, secret) == Status::WrongPosition);
                    }
                }
                assert forall|idx: int, k: int|
                    #![trigger self.wrong_pos@[idx].1@[k]]
                    0 <= idx < self.wrong_pos@.len() && 0 <= k < self.wrong_pos@[idx].1@.len()
                    implies self.wrong_pos@[idx].1@[k] < secret.len() && secret[self.wrong_pos@[idx].1@[k] as int]
                    != self.wrong_pos@[idx].0 by {
                    let ch = self.wrong_pos@[idx].0;
                    let p = self.wrong_pos@[idx].1@[k];
                    assert(self.wrong_pos@[idx].1@.contains(p));
                    assert(self.wp_contains(ch, p));
                    if old(self).wp_contains(ch, p) {
                        let k2 = choose|k2: int|
                            0 <= k2 < old(self).wrong_pos@.len() && (#[trigger] old(self).wrong_pos@[k2]).0 == ch && old(self).wrong_pos@[k2].1@.contains(p);
                        let k3 = choose|k3: int|
                            0 <= k3 < old(self).wrong_pos@[k2].1@.len() && old(self).wrong_pos@[k2].1@[k3] == p;
                        assert(old(self).wrong_pos@[k2].1@[k3] < secret.len());
                    } else {
                        assert(ws[p as int] == (ch, Status::WrongPosition));
                        assert(char_status(ch, p as int, secret) == Status::WrongPosition);
                    }
                }
                assert forall|idx: int| 0 <= idx < self.incorrect@.len() implies !secret.contains(
                    #[trigger] self.incorrect@[idx],
                ) by {
                    let ch = self.incorrect@[idx];
                    assert(self.incorrect@.contains(ch));
                    if old(self).incorrect@.contains(ch) {
                        let k = choose|k: int|
                            0 <= k < old(self).incorrect@.len() && old(self).incorrect@[k] == ch;
                        assert(!secret.contains(old(self).incorrect@[k]));
                    } else {
                        let q = choose|q: int|
                            0 <= q < ws.len() && #[trigger] ws[q] == (ch, Status::Incorrect);
                        assert(char_status(ch, q, secret) == Status::Incorrect);
                    }
                }
            }
        }
    }
}

/// The candidate words of `set` that satisfy every constraint of `m`, in
/// their original order.
pub open spec fn check_filter(set: Seq<Seq<char>>, m: WordMap) -> Seq<Seq<char>> {
    set.filter(|w: Seq<char>| spec_word_check(w, m))
}

/// Filtering the empty candidate list leaves it empty.
proof fn lemma_check_filter_empty(m: WordMap)
    ensures
        check_filter(Seq::<Seq<char>>::empty(), m) == Seq::<Seq<char>>::empty(),
{
    reveal(Seq::filter);
}

/// How filtering treats one more word at the end of the candidate list.
proof fn lemma_check_filter_push(set: Seq<Seq<char>>, x: Seq<char>, m: WordMap)
    ensures
        check_filter(set.push(x), m) == if spec_word_check(x, m) {
            check_filter(set, m).push(x)
        } else {
            check_filter(set, m)
        },
{
    reveal(Seq::filter);
    assert(set.push(x).drop_last() =~= set);
    assert(set.push(x).last() == x);
}

/// A word survives filtering exactly when it was a candidate and satisfies
/// every constraint.
proof fn lemma_check_filter_member(set: Seq<Seq<char>>, m: WordMap, x: Seq<char>)
    ensures
        check_filter(set, m).contains(x) <==> (set.contains(x) && spec_word_check(x, m)),
    decreases set.len(),
{
    reveal(Seq::filter);
    if set.len() == 0 {
        assert(!set.contains(x));
    } else {
        let pre = set.drop_last();
        let last = set.last();
        lemma_check_filter_member(pre, m, x);
        assert(pre.push(last) =~= set);
        lemma_check_filter_push(pre, last, m);
        assert(set.contains(x) <==> (pre.contains(x) || last == x)) by {
            if set.contains(x) {
                let i = choose|i: int| 0 <= i < set.len() && set[i] == x;
                if i < set.len() - 1 {
                    assert(pre[i] == x);
                }
            }
            if pre.contains(x) {
                let i = choose|i: int| 0 <= i < pre.len() && pre[i] == x;
                assert(set[i] == x);
            }
        }
        if spec_word_check(last, m) {
            let f = check_filter(pre, m);
            assert(check_filter(set, m) == f.push(last));
            assert(f.push(last).contains(x) <==> (f.contains(x) || last == x)) by {
                if f.push(last).contains(x) {
                    let i = choose|i: int| 0 <= i < f.push(last).len() && f.push(last)[i] == x;
                    if i < f.len() {
                        assert(f[i] == x);
                    }
                }
                if f.contains(x) {
                    let i = choose|i: int| 0 <= i < f.len() && f[i] == x;
                    assert(f.push(last)[i] == x);
                }
                assert(f.push(last)[f.len() as int] == last);
            }
        }
    }
}

/// Filtering never grows the candidate list.
proof fn lemma_check_filter_len(set: Seq<Seq<char>>, m: WordMap)
    ensures
        check_filter(set, m).len() <= set.len(),
    decreases set.len(),
{
    reveal(Seq::filter);
    if set.len() == 0 {
    } else {
        let pre = set.drop_last();
        lemma_check_filter_len(pre, m);
        assert(pre.push(set.last()) =~= set);
        lemma_check_filter_push(pre, set.last(), m);
    }
}

/// Filtering a list with a word that fails some constraint makes the list
/// strictly shorter.
proof fn lemma_check_filter_skip(set: Seq<Seq<char>>, m: WordMap, j: int)
    requires
        0 <= j < set.len(),
        !spec_word_check(set[j], m),
    ensures
        check_filter(set, m).len() < set.len(),
    decreases set.len(),
{
    reveal(Seq::filter);
    let pre = set.drop_last();
    assert(pre.push(set.last()) =~= set);
    lemma_check_filter_push(pre, set.last(), m);
    if j == set.len() - 1 {
        lemma_check_filter_len(pre, m);
    } else {
        assert(pre[j] == set[j]);
        lemma_check_filter_skip(pre, m, j);
    }
}

/// A model whose facts all hold of the secret cannot reject the secret.
pub proof fn lemma_secret_passes(m: WordMap, secret: Seq<char>)
    requires
        m.holds_for(secret),
    ensures
        spec_word_check(secret, m),
{
    assert forall|i: int| 0 <= i < secret.len() implies !m.incorrect@.contains(
        #[trigger] secret[i],
    ) by {
        if m.incorrect@.contains(secret[i]) {
            let k = choose|k: int| 0 <= k < m.incorrect@.len() && m.incorrect@[k] == secret[i];
            assert(!secret.contains(m.incorrect@[k]));
            assert(secret.contains(secret[i]));
        }
    }
}

/// After its own feedback is folded into the model, a guess that was not
/// fully correct no longer satisfies the constraints.
proof fn lemma_guess_refuted(m: WordMap, ws: Seq<(char, Status)>, guess: Seq<char>)
    requires
        ws.len() <= usize::MAX,
        ws.len() == guess.len(),
        forall|i: int| 0 <= i < ws.len() ==> (#[trigger] ws[i]).0 == guess[i],
        exists|i: int| 0 <= i < ws.len() && (#[trigger] ws[i]).1 != Status::Correct,
        forall|i: int|
            0 <= i < ws.len() && (#[trigger] ws[i]).1 == Status::Incorrect
                ==> m.incorrect@.contains(ws[i].0),
        forall|i: int|
            0 <= i < ws.len() && (#[trigger] ws[i]).1 == Status::WrongPosition ==> m.wp_contains(
                ws[i].0,
                i as usize,
            ),
    ensures
        !spec_word_check(guess, m),
{
    let i0 = choose|i: int| 0 <= i < ws.len() && (#[trigger] ws[i]).1 != Status::Correct;
    if spec_word_check(guess, m) {
        match ws[i0].1 {
            Status::Correct => {
                assert(false);
            },
            Status::Incorrect => {
                assert(m.incorrect@.contains(guess[i0]));
                assert(!m.incorrect@.contains(guess[i0]));
            },
            Status::WrongPosition => {
                assert(m.wp_contains(ws[i0].0, i0 as usize));
                let k = choose|k: int|
                    0 <= k < m.wrong_pos@.len() && (#[trigger] m.wrong_pos@[k]).0 == ws[i0].0
                        && m.wrong_pos@[k].1@.contains(i0 as usize);
                let k2 = choose|k2: int|
                    0 <= k2 < m.wrong_pos@[k].1@.len() && m.wrong_pos@[k].1@[k2] == i0 as usize;
                assert(guess[m.wrong_pos@[k].1@[k2] as int] != m.wrong_pos@[k].0);
                assert(guess[i0] == ws[i0].0);
            },
        }
    }
}

/// One filtering step of the solver: the candidate set never grows, and
/// as long as every accumulated fact holds of the secret (which
/// `update_map` guarantees for feedback evaluated against that secret),
/// the secret survives the filtering.
pub proof fn lemma_solver_step_preserves_secret(set: Seq<Seq<char>>, m: WordMap, secret: Seq<char>)
    requires
        m.holds_for(secret),
        set.contains(secret),
    ensures
        check_filter(set, m).len() <= set.len(),
        check_filter(set, m).contains(secret),
{
    lemma_secret_passes(m, secret);
    lemma_check_filter_len(set, m);
    lemma_check_filter_member(set, m, secret);
}

/// Whether `word` satisfies every constraint accumulated in `map`: the
/// pinned characters sit at their positions, each present-but-displaced
/// character occurs somewhere but at none of its forbidden positions, and
/// no excluded character occurs at all.
pub fn word_check(word: &str, map: &WordMap) -> (r: bool)
    requires
        map.bounded(word@.len() as int),
    ensures
        r == spec_word_check(word@, *map),
{
    let mut i: usize = 0;
    while i < map.correct.len()
        invariant
            map.bounded(word@.len() as int),
            i <= map.correct@.len(),
            forall|j: int|
                0 <= j < i ==> word@[(#[trigger] map.correct@[j]).1 as int] == map.correct@[j].0,
        decreases map.correct@.len() - i,
    {
        let entry = map.correct[i];
        if word.get_char(entry.1) != entry.0 {
            return false;
        }
        i = i + 1;
    }
    let mut i: usize = 0;
    while i < map.wrong_pos.len()
        invariant
            map.bounded(word@.len() as int),
            i <= map.wrong_pos@.len(),
            forall|j: int| 0 <= j < i ==> word@.contains((#[trigger] map.wrong_pos@[j]).0),
            forall|j: int, k: int|
                #![trigger map.wrong_pos@[j].1@[k]]
                0 <= j < i && 0 <= k < map.wrong_pos@[j].1@.len()
                    ==> word@[map.wrong_pos@[j].1@[k] as int] != map.wrong_pos@[j].0,
        decreases map.wrong_pos@.len() - i,
    {
        let c = map.wrong_pos[i].0;
        if !crate::str_contains_char(word, c) {
            return false;
        }
        let positions = &map.wrong_pos[i].1;
        let mut k: usize = 0;
        while k < positions.len()
            invariant
                map.bounded(word@.len() as int),
                i < map.wrong_pos@.len(),
                positions@ == map.wrong_pos@[i as int].1@,
                c == map.wrong_pos@[i as int].0,
                k <= positions@.len(),
                forall|q: int| 0 <= q < k ==> word@[(#[trigger] positions@[q]) as int] != c,
            decreases positions@.len() - k,
        {
            let p = positions[k];
            if word.get_char(p) == c {
                return false;
            }
            k = k + 1;
        }
        i = i + 1;
    }
    let len = word.unicode_len();
    let mut i: usize = 0;
    while i < len
        invariant
            len == word@.len(),
            i <= len,
            forall|j: int| 0 <= j < i ==> !map.incorrect@.contains(#[trigger] word@[j]),
        decreases len - i,
    {
        if char_in_vec(&map.incorrect, word.get_char(i)) {
            return false;
        }
        i = i + 1;
    }
    true
}

/// Keep exactly the candidate words that satisfy every constraint of
/// `map`, in their original order.
pub fn filter_set(set: Vec<String>, map: &WordMap) -> (r: Vec<String>)
    requires
        forall|i: int|
            0 <= i < set@.len() ==> map.bounded((#[trigger] set@[i])@.len() as int),
    ensures
        word_views(r@) == check_filter(word_views(set@), *map),
{
    let mut r: Vec<String> = Vec::new();
    let mut i: usize = 0;
    proof {
        assert(word_views(set@).take(0) =~= Seq::<Seq<char>>::empty());
        lemma_check_filter_empty(*map);
        assert(word_views(r@) =~= Seq::<Seq<char>>::empty());
    }
    while i < set.len()
        invariant
            i <= set@.len(),
            forall|j: int|
                0 <= j < set@.len() ==> map.bounded((#[trigger] set@[j])@.len() as int),
            word_views(r@) == check_filter(word_views(set@).take(i as int), *map),
        decreases set@.len() - i,
    {
        let ghost pre = word_views(r@);
        let keep = word_check(set[i].as_str(), map);
        if keep {
            r.push(set[i].clone());
        }
        proof {
            let views = word_views(set@);
            assert(views.take(i as int + 1) =~= views.take(i as int).push(views[i as int]));
            lemma_check_filter_push(views.take(i as int), views[i as int], *map);
            if keep {
                assert(word_views(r@) =~= pre.push(views[i as int]));
            }
        }
        i = i + 1;
    }
    proof {
        assert(word_views(set@).take(set@.len() as int) =~= word_views(set@));
    }
    r
}

/// Play a round to completion without human input: pick a random word
/// from the candidate set, submit it, fold the feedback into the
/// constraint model, filter the candidates, and repeat. Succeeds whenever
/// the legal word set contains the secret (which `Game::new` guarantees);
/// reports `NoCandidatesRemaining` exactly when it does not.
pub fn solve_game(game: &mut Game) -> (r: Result<String, GameError>)
    requires
        old(game).wf(),
    ensures
        final(game).wf(),
        final(game).word_set == old(game).word_set,
        final(game).word_length == old(game).word_length,
        final(game).secret() == old(game).secret(),
        match r {
            Ok(w) => w@ == old(game).secret() && final(game).won() && old(game).secret_in_set(),
            Err(e) => e == GameError::NoCandidatesRemaining && !old(game).secret_in_set(),
        },
{
    let mut map = WordMap { correct: Vec::new(), wrong_pos: Vec::new(), incorrect: Vec::new() };
    let mut set = clone_words(&game.word_set);
    let ghost secret = game.secret();
    let ghost ll = game.word_length as int;
    proof {
        assert(word_views(set@) == old(game).set_words());
        assert forall|w: Seq<char>| #[trigger]
            word_views(set@).contains(w) implies old(game).set_words().contains(w) by {
            let i = choose|i: int| 0 <= i < word_views(set@).len() && word_views(set@)[i] == w;
            assert(old(game).set_words()[i] == w);
        }
        assert forall|i: int|
            0 <= i < word_views(set@).len() implies (#[trigger] word_views(set@)[i]).len()
            == ll by {
            assert(old(game).set_words()[i].len() == old(game).word_length);
        }
    }
    loop
        invariant
            game.wf(),
            game.word_set == old(game).word_set,
            game.word_length == old(game).word_length,
            game.secret() == secret,
            secret == old(game).secret(),
            ll == game.word_length as int,
            map.keys_unique(),
            map.bounded(ll),
            map.holds_for(secret),
            forall|i: int|
                0 <= i < word_views(set@).len() ==> (#[trigger] word_views(set@)[i]).len() == ll,
            forall|w: Seq<char>|
                #[trigger] word_views(set@).contains(w) ==> old(game).set_words().contains(w),
            old(game).secret_in_set() ==> word_views(set@).contains(secret),
        decreases set@.len(),
    {
        if set.is_empty() {
            proof {
                if old(game).secret_in_set() {
                    let i = choose|i: int|
                        0 <= i < word_views(set@).len() && word_views(set@)[i] == secret;
                }
            }
            return Err(GameError::NoCandidatesRemaining);
        }
        let picked = pick_random_word(&set);
        let guess: String = picked.to_owned();
        proof {
            assert(word_views(set@).contains(guess@));
            let gi = choose|gi: int|
                0 <= gi < word_views(set@).len() && word_views(set@)[gi] == guess@;
            assert(word_views(set@)[gi].len() == ll);
            assert(old(game).set_words().contains(guess@));
        }
        game.play_game(guess.clone());
        let ghost ws = spec_guess_status(guess@, secret);
        let won = game.is_success();
        if won {
            proof {
                assert(game.history().last() == ws);
                assert(all_correct(ws));
                assert forall|i: int| 0 <= i < guess@.len() implies guess@[i] == secret[i] by {
                    assert(ws[i].1 == char_status(guess@[i], i, secret));
                }
                assert(guess@ =~= secret);
            }
            return Ok(guess);
        }
        let last_opt = game.last_status();
        match last_opt {
            Some(ls) => {
                proof {
                    assert(ls@ == ws);
                }
                map.update_map(ls);
                proof {
                    assert(consistent_feedback(ws, secret)) by {
                        assert forall|i: int| 0 <= i < ws.len() implies (#[trigger] ws[i]).1
                            == char_status(ws[i].0, i, secret) by {
                            assert(ws[i].0 == guess@[i]);
                        }
                    }
                    assert(map.holds_for(secret));
                    assert(map.bounded(ll));
                }
            },
            None => {
                proof {
                    assert(false);
                }
            },
        }
        let ghost pre_filter = word_views(set@);
        proof {
            assert forall|i: int|
                0 <= i < set@.len() implies map.bounded((#[trigger] set@[i])@.len() as int) by {
                assert(word_views(set@)[i].len() == ll);
            }
        }
        set = filter_set(set, &map);
        proof {
            // The guess itself fails the new constraints, so the set shrinks.
            assert(!game.won());
            assert(ws.len() == secret.len());
            assert(exists|i: int| 0 <= i < ws.len() && (#[trigger] ws[i]).1 != Status::Correct) by {
                assert(!all_correct(ws));
            }
            assert forall|i: int|
                0 <= i < ws.len() && (#[trigger] ws[i]).1 == Status::Incorrect
                implies map.incorrect@.contains(ws[i].0) by {
                assert(ws[i] == (ws[i].0, Status::Incorrect));
                assert(feedback_has_incorrect(ws, ws[i].0));
            }
            assert forall|i: int|
                0 <= i < ws.len() && (#[trigger] ws[i]).1 == Status::WrongPosition
                implies map.wp_contains(ws[i].0, i as usize) by {
                assert(ws[i] == (ws[i].0, Status::WrongPosition));
            }
            assert forall|i: int| 0 <= i < ws.len() implies (#[trigger] ws[i]).0 == guess@[i] by {}
            lemma_guess_refuted(map, ws, guess@);
            let gi = choose|gi: int| 0 <= gi < pre_filter.len() && pre_filter[gi] == guess@;
            lemma_check_filter_skip(pre_filter, map, gi);
            assert(word_views(set@).len() < pre_filter.len());
            // The other invariants carry through the filtering.
            assert forall|i: int|
                0 <= i < word_views(set@).len() implies (#[trigger] word_views(set@)[i]).len()
                == ll by {
                let w = word_views(set@)[i];
                assert(word_views(set@).contains(w));
                lemma_check_filter_member(pre_filter, map, w);
                let k = choose|k: int| 0 <= k < pre_filter.len() && pre_filter[k] == w;
            }
            assert forall|w: Seq<char>| #[trigger]
                word_views(set@).contains(w) implies old(game).set_words().contains(w) by {
                lemma_check_filter_member(pre_filter, map, w);
            }
            if old(game).secret_in_set() {
                lemma_solver_step_preserves_secret(pre_filter, map, secret);
            }
        }
    }
}

} // verus!
