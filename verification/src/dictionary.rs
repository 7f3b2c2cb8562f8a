//! The dictionary: legal words grouped by character length, with random
//! selection of a secret word.

use vstd::prelude::*;

use rand::seq::SliceRandom;

use crate::word_views;
use crate::words_contain;

verus! {

/// What `str::to_lowercase` returns for a given character sequence: a fixed
/// function of the characters alone, left unspecified here.
pub uninterp spec fn lower_of(s: Seq<char>) -> Seq<char>;

/// Relies on `str::to_lowercase`: returns the lowercase equivalent of `s`,
/// a pure function of the characters of `s`.
#[verifier::external_body]
fn lowercase(s: &str) -> (r: String)
    ensures
        r@ == lower_of(s@),
{
    s.to_lowercase()
}

/// Relies on rand's `SliceRandom::choose`: returns a uniformly chosen
/// element of the slice; `None` only when the slice is empty.
#[verifier::external_body]
pub fn pick_random_word(set: &Vec<String>) -> (r: &str)
    requires
        set@.len() > 0,
    ensures
        word_views(set@).contains(r@),
{
    let mut rng = rand::thread_rng();
    set.as_slice().choose(&mut rng).unwrap().as_str()
}

/// Each line of `lines`, lowercased.
pub open spec fn lowered(lines: Seq<String>) -> Seq<Seq<char>> {
    lines.map_values(|s: String| lower_of(s@))
}

/// Whether some word of `words` has character length `k`.
pub open spec fn has_word_of_len(words: Seq<Seq<char>>, k: int) -> bool {
    exists|i: int| 0 <= i < words.len() && (#[trigger] words[i]).len() == k
}

/// All legal words, grouped by character length: each entry pairs a length
/// with the distinct lowercase words of that length.
pub struct Dictionary(pub Vec<(usize, Vec<String>)>);

impl Dictionary {
    /// The number of length groups.
    pub open spec fn num_groups(self) -> int {
        self.0@.len() as int
    }

    /// The length key of the group at position `i`.
    pub open spec fn key_at(self, i: int) -> usize {
        self.0@[i].0
    }

    /// The words of the group at position `i`, as character sequences.
    pub open spec fn group_at(self, i: int) -> Seq<Seq<char>> {
        word_views(self.0@[i].1@)
    }

    /// Well-formedness: one group per length, no group empty, every word of
    /// a group has the group's length, and no word repeated within a group.
    pub open spec fn wf(self) -> bool {
        &&& forall|i: int, j: int|
            #![trigger self.key_at(i), self.key_at(j)]
            0 <= i < j < self.num_groups() ==> self.key_at(i) != self.key_at(j)
        &&& forall|i: int| 0 <= i < self.num_groups() ==> (#[trigger] self.group_at(i)).len() > 0
        &&& forall|i: int, j: int|
            0 <= i < self.num_groups() && 0 <= j < self.group_at(i).len()
                ==> (#[trigger] self.group_at(i)[j]).len() == self.key_at(i)
        &&& forall|i: int, j: int, k: int|
            #![trigger self.group_at(i)[j], self.group_at(i)[k]]
            0 <= i < self.num_groups() && 0 <= j < k < self.group_at(i).len()
                ==> self.group_at(i)[j] != self.group_at(i)[k]
    }

    /// Whether some group carries the length `len`.
    pub open spec fn has_len(self, len: usize) -> bool {
        exists|i: int| 0 <= i < self.num_groups() && #[trigger] self.key_at(i) == len
    }

    /// The position of the group for `len` (meaningful only when
    /// `has_len(len)` holds).
    pub open spec fn len_index(self, len: usize) -> int {
        choose|i: int| 0 <= i < self.num_groups() && #[trigger] self.key_at(i) == len
    }

    /// The legal words of length `len`, as character sequences.
    pub open spec fn words_of(self, len: usize) -> Seq<Seq<char>> {
        if self.has_len(len) {
            self.group_at(self.len_index(len))
        } else {
            Seq::empty()
        }
    }

    /// Whether `w` is one of the dictionary's words.
    pub open spec fn contains_word(self, w: Seq<char>) -> bool {
        exists|i: int| 0 <= i < self.num_groups() && (#[trigger] self.group_at(i)).contains(w)
    }

    /// In a well-formed dictionary, any group whose key is `len` is the
    /// group that `words_of(len)` denotes.
    pub proof fn lemma_group_with_key(self, len: usize, j: int)
        requires
            self.wf(),
            0 <= j < self.num_groups(),
            self.key_at(j) == len,
        ensures
            self.has_len(len),
            self.len_index(len) == j,
            self.words_of(len) == self.group_at(j),
    {
        assert(self.has_len(len));
        let i = self.len_index(len);
        assert(0 <= i < self.num_groups() && self.key_at(i) == len);
        if i != j {
            if i < j {
                assert(self.key_at(i) != self.key_at(j));
            } else {
                assert(self.key_at(j) != self.key_at(i));
            }
            assert(false);
        }
    }

    /// In a well-formed dictionary, the words of length `len` are exactly
    /// the dictionary words whose character length is `len`.
    pub proof fn lemma_words_of_contains(self, len: usize, w: Seq<char>)
        requires
            self.wf(),
        ensures
            self.words_of(len).contains(w) <==> (self.contains_word(w) && w.len() == len),
    {
        if self.words_of(len).contains(w) {
            let j = self.len_index(len);
            assert(self.group_at(j).contains(w));
            let k = choose|k: int| 0 <= k < self.group_at(j).len() && self.group_at(j)[k] == w;
            assert(self.group_at(j)[k].len() == self.key_at(j));
            assert(self.contains_word(w));
        }
        if self.contains_word(w) && w.len() == len {
            let i = choose|i: int|
                0 <= i < self.num_groups() && (#[trigger] self.group_at(i)).contains(w);
            let k = choose|k: int| 0 <= k < self.group_at(i).len() && self.group_at(i)[k] == w;
            assert(self.group_at(i)[k].len() == self.key_at(i));
            assert(self.key_at(i) == len);
            self.lemma_group_with_key(len, i);
        }
    }

    /// Keys of a well-formed dictionary are pairwise distinct, whatever the
    /// order of the two positions.
    proof fn lemma_keys_distinct(self)
        requires
            self.wf(),
        ensures
            forall|a: int, b: int|
                #![trigger self.key_at(a), self.key_at(b)]
                0 <= a < self.num_groups() && 0 <= b < self.num_groups() && a != b
                    ==> self.key_at(a) != self.key_at(b),
    {
        assert forall|a: int, b: int|
            #![trigger self.key_at(a), self.key_at(b)]
            0 <= a < self.num_groups() && 0 <= b < self.num_groups() && a
                != b implies self.key_at(a) != self.key_at(b) by {
            if a < b {
                assert(self.key_at(a) != self.key_at(b));
            } else {
                assert(self.key_at(b) != self.key_at(a));
            }
        }
    }

    /// After pushing `w` onto the group at `j` (now moved to the back, with
    /// the back group moved into `j`), the dictionary is still well formed
    /// and holds exactly the old words plus `w`.
    proof fn lemma_insert_existing(self, old_d: Dictionary, wv: Seq<char>, j: int)
        requires
            old_d.wf(),
            0 <= j < old_d.num_groups(),
            old_d.key_at(j) as int == wv.len(),
            !old_d.group_at(j).contains(wv),
            self.num_groups() == old_d.num_groups(),
            forall|i: int|
                0 <= i < self.num_groups() - 1 && i != j ==> #[trigger] self.0@[i] == old_d.0@[i],
            j < self.num_groups() - 1 ==> self.0@[j] == old_d.0@[self.num_groups() - 1],
            self.0@[self.num_groups() - 1].0 == old_d.0@[j].0,
            self.group_at(self.num_groups() - 1) == old_d.group_at(j).push(wv),
        ensures
            self.wf(),
            forall|x: Seq<char>|
                #[trigger] self.contains_word(x) <==> (old_d.contains_word(x) || x == wv),
            forall|k: usize|
                #[trigger] self.has_len(k) <==> (old_d.has_len(k) || k as int == wv.len()),
    {
        old_d.lemma_keys_distinct();
        let ll = self.num_groups();
        // Where each new position came from in the old dictionary.
        let oi = |i: int| if i == ll - 1 { j } else if i == j { ll - 1 } else { i };
        assert forall|i: int| 0 <= i < ll implies #[trigger] self.key_at(i) == old_d.key_at(
            oi(i),
        ) by {}
        assert forall|i: int| 0 <= i < ll && i != ll - 1 implies #[trigger] self.group_at(i)
            == old_d.group_at(oi(i)) by {}
        // Pairwise distinct keys, carried over through the relocation.
        assert forall|a: int, b: int|
            #![trigger self.key_at(a), self.key_at(b)]
            0 <= a < b < ll implies self.key_at(a) != self.key_at(b) by {
            assert(oi(a) != oi(b));
        }
        // Group sizes and per-word lengths.
        assert forall|i: int| 0 <= i < ll implies (#[trigger] self.group_at(i)).len() > 0 by {
            assert(old_d.group_at(oi(i)).len() > 0);
        }
        assert forall|i: int, a: int|
            0 <= i < ll && 0 <= a < self.group_at(i).len() implies (#[trigger] self.group_at(
            i,
        )[a]).len() == self.key_at(i) by {
            if i == ll - 1 && a == self.group_at(i).len() - 1 {
                assert(self.group_at(i)[a] == wv);
            } else {
                assert(self.group_at(i)[a] == old_d.group_at(oi(i))[a]);
            }
        }
        // No duplicates within a group.
        assert forall|i: int, a: int, b: int|
            #![trigger self.group_at(i)[a], self.group_at(i)[b]]
            0 <= i < ll && 0 <= a < b < self.group_at(i).len() implies self.group_at(i)[a]
            != self.group_at(i)[b] by {
            if i == ll - 1 && b == self.group_at(i).len() - 1 {
                assert(self.group_at(i)[a] == old_d.group_at(j)[a]);
                assert(old_d.group_at(j).contains(old_d.group_at(j)[a]));
            } else {
                assert(self.group_at(i)[a] == old_d.group_at(oi(i))[a]);
                assert(self.group_at(i)[b] == old_d.group_at(oi(i))[b]);
            }
        }
        // The words are the old words plus `w`.
        assert forall|x: Seq<char>| #[trigger]
            self.contains_word(x) implies (old_d.contains_word(x) || x == wv) by {
            let i = choose|i: int| 0 <= i < ll && (#[trigger] self.group_at(i)).contains(x);
            if i == ll - 1 {
                let a = choose|a: int|
                    0 <= a < self.group_at(i).len() && self.group_at(i)[a] == x;
                if a < old_d.group_at(j).len() {
                    assert(old_d.group_at(j)[a] == x);
                    assert(old_d.group_at(j).contains(x));
                    assert(old_d.contains_word(x));
                } else {
                    assert(x == wv);
                }
            } else {
                assert(old_d.group_at(oi(i)).contains(x));
                assert(old_d.contains_word(x));
            }
        }
        assert forall|x: Seq<char>| old_d.contains_word(x) || x == wv implies #[trigger]
            self.contains_word(x) by {
            if old_d.contains_word(x) {
                let i = choose|i: int| 0 <= i < ll && (#[trigger] old_d.group_at(i)).contains(x);
                let a = choose|a: int|
                    0 <= a < old_d.group_at(i).len() && old_d.group_at(i)[a] == x;
                if i == j {
                    assert(self.group_at(ll - 1)[a] == x);
                    assert(self.group_at(ll - 1).contains(x));
                } else {
                    let ni = if i == ll - 1 { j } else { i };
                    assert(self.group_at(ni) == old_d.group_at(i));
                    assert(self.group_at(ni).contains(x));
                }
            } else {
                assert(self.group_at(ll - 1).last() == wv);
                assert(self.group_at(ll - 1).contains(x));
            }
        }
        // The lengths present are unchanged (the length of `w` was present).
        assert forall|k: usize| #[trigger]
            self.has_len(k) implies (old_d.has_len(k) || k as int == wv.len()) by {
            let i = choose|i: int| 0 <= i < ll && #[trigger] self.key_at(i) == k;
            assert(old_d.key_at(oi(i)) == k);
            assert(old_d.has_len(k));
        }
        assert forall|k: usize| old_d.has_len(k) || k as int == wv.len() implies #[trigger]
            self.has_len(k) by {
            if old_d.has_len(k) {
                let i = choose|i: int| 0 <= i < ll && #[trigger] old_d.key_at(i) == k;
                let ni = if i == j { ll - 1 } else if i == ll - 1 { j } else { i };
                assert(self.key_at(ni) == k);
            } else {
                assert(self.key_at(ll - 1) == old_d.key_at(j));
            }
        }
    }

    /// After pushing a fresh one-word group for `w`, the dictionary is
    /// still well formed and holds exactly the old words plus `w`.
    proof fn lemma_insert_new(self, old_d: Dictionary, wv: Seq<char>)
        requires
            old_d.wf(),
            !old_d.has_len(self.key_at(self.num_groups() - 1)),
            self.num_groups() == old_d.num_groups() + 1,
            forall|i: int|
                0 <= i < old_d.num_groups() ==> #[trigger] self.0@[i] == old_d.0@[i],
            self.key_at(self.num_groups() - 1) as int == wv.len(),
            self.group_at(self.num_groups() - 1) == seq![wv],
        ensures
            self.wf(),
            forall|x: Seq<char>|
                #[trigger] self.contains_word(x) <==> (old_d.contains_word(x) || x == wv),
            forall|k: usize|
                #[trigger] self.has_len(k) <==> (old_d.has_len(k) || k as int == wv.len()),
    {
        old_d.lemma_keys_distinct();
        let ll = self.num_groups();
        assert forall|i: int| 0 <= i < ll - 1 implies #[trigger] self.key_at(i) == old_d.key_at(
            i,
        ) by {
            assert(self.0@[i] == old_d.0@[i]);
        }
        assert forall|i: int| 0 <= i < ll - 1 implies #[trigger] self.group_at(i) == old_d.group_at(
            i,
        ) by {
            assert(self.0@[i] == old_d.0@[i]);
        }
        assert forall|a: int, b: int|
            #![trigger self.key_at(a), self.key_at(b)]
            0 <= a < b < ll implies self.key_at(a) != self.key_at(b) by {
            if b == ll - 1 {
                if self.key_at(a) == self.key_at(b) {
                    assert(old_d.key_at(a) == self.key_at(ll - 1));
                    assert(old_d.has_len(self.key_at(ll - 1)));
                }
            } else {
                assert(self.key_at(a) == old_d.key_at(a));
                assert(self.key_at(b) == old_d.key_at(b));
                assert(old_d.key_at(a) != old_d.key_at(b));
            }
        }
        assert(self.group_at(ll - 1).len() == 1);
        assert forall|i: int| 0 <= i < ll implies (#[trigger] self.group_at(i)).len() > 0 by {
            if i < ll - 1 {
                assert(old_d.group_at(i).len() > 0);
            }
        }
        assert forall|i: int, a: int|
            0 <= i < ll && 0 <= a < self.group_at(i).len() implies (#[trigger] self.group_at(
            i,
        )[a]).len() == self.key_at(i) by {
            if i < ll - 1 {
                assert(old_d.group_at(i)[a].len() == old_d.key_at(i));
            } else {
                assert(self.group_at(i)[a] == wv);
            }
        }
        assert forall|i: int, a: int, b: int|
            #![trigger self.group_at(i)[a], self.group_at(i)[b]]
            0 <= i < ll && 0 <= a < b < self.group_at(i).len() implies self.group_at(i)[a]
            != self.group_at(i)[b] by {
            if i < ll - 1 {
                assert(old_d.group_at(i)[a] != old_d.group_at(i)[b]);
            }
        }
        assert forall|x: Seq<char>| #[trigger]
            self.contains_word(x) implies (old_d.contains_word(x) || x == wv) by {
            let i = choose|i: int| 0 <= i < ll && (#[trigger] self.group_at(i)).contains(x);
            if i == ll - 1 {
                assert(x == self.group_at(ll - 1)[0]);
            } else {
                assert(old_d.group_at(i).contains(x));
                assert(old_d.contains_word(x));
            }
        }
        assert forall|x: Seq<char>| old_d.contains_word(x) || x == wv implies #[trigger]
            self.contains_word(x) by {
            if old_d.contains_word(x) {
                let i = choose|i: int| 0 <= i < ll - 1 && (#[trigger] old_d.group_at(i)).contains(
                    x,
                );
                assert(self.group_at(i).contains(x));
            } else {
                assert(self.group_at(ll - 1)[0] == x);
                assert(self.group_at(ll - 1).contains(x));
            }
        }
        assert forall|k: usize| #[trigger]
            self.has_len(k) implies (old_d.has_len(k) || k as int == wv.len()) by {
            let i = choose|i: int| 0 <= i < ll && #[trigger] self.key_at(i) == k;
            if i < ll - 1 {
                assert(old_d.key_at(i) == k);
            }
        }
        assert forall|k: usize| old_d.has_len(k) || k as int == wv.len() implies #[trigger]
            self.has_len(k) by {
            if old_d.has_len(k) {
                let i = choose|i: int| 0 <= i < ll - 1 && #[trigger] old_d.key_at(i) == k;
                assert(self.key_at(i) == k);
            } else {
                assert(self.key_at(ll - 1) == k);
            }
        }
    }

    /// The position of the first group carrying `len`, if any.
    fn find_group(&self, len: usize) -> (r: Option<usize>)
        ensures
            match r {
                Some(j) => j < self.0@.len() && self.key_at(j as int) == len,
                None => !self.has_len(len),
            },
    {
        let mut j: usize = 0;
        while j < self.0.len()
            invariant
                j <= self.0@.len(),
                forall|i: int| 0 <= i < j ==> #[trigger] self.key_at(i) != len,
            decreases self.0@.len() - j,
        {
            if self.0[j].0 == len {
                return Some(j);
            }
            j = j + 1;
        }
        None
    }

    /// Return the set of legal words of the requested length, if the
    /// dictionary has any.
    pub fn get_set(&self, word_length: usize) -> (r: Option<&Vec<String>>)
        requires
            self.wf(),
        ensures
            match r {
                Some(set) => self.has_len(word_length) && word_views(set@) == self.words_of(
                    word_length,
                ),
                None => !self.has_len(word_length),
            },
    {
        let found = self.find_group(word_length);
        match found {
            Some(j) => {
                proof {
                    self.lemma_group_with_key(word_length, j as int);
                }
                Some(&self.0[j].1)
            },
            None => None,
        }
    }

    /// Draw a random word of the requested length from the dictionary.
    pub fn gen_word(&self, word_length: usize) -> (r: &str)
        requires
            self.wf(),
            self.has_len(word_length),
        ensures
            self.words_of(word_length).contains(r@),
            r@.len() == word_length,
    {
        let set_opt = self.get_set(word_length);
        match set_opt {
            Some(set) => {
                proof {
                    let j = self.len_index(word_length);
                    assert(self.group_at(j).len() > 0);
                    assert(word_views(set@).len() == set@.len());
                }
                let w = pick_random_word(set);
                proof {
                    assert(self.words_of(word_length).contains(w@));
                    self.lemma_words_of_contains(word_length, w@);
                }
                w
            },
            None => vstd::pervasive::unreached(),
        }
    }

    /// The length keys present in the dictionary, in group order.
    pub fn keys(&self) -> (r: Vec<usize>)
        ensures
            r@.len() == self.num_groups(),
            forall|i: int| 0 <= i < r@.len() ==> r@[i] == self.key_at(i),
    {
        let mut r: Vec<usize> = Vec::new();
        let mut j: usize = 0;
        while j < self.0.len()
            invariant
                j <= self.0@.len(),
                r@.len() == j,
                forall|i: int| 0 <= i < j ==> r@[i] == self.key_at(i),
            decreases self.0@.len() - j,
        {
            r.push(self.0[j].0);
            j = j + 1;
        }
        r
    }

    /// Add one lowercase word to the group of its own length, creating the
    /// group if needed and keeping groups free of duplicates.
    fn insert_word(&mut self, w: String)
        requires
            old(self).wf(),
        ensures
            final(self).wf(),
            forall|x: Seq<char>|
                #[trigger] final(self).contains_word(x) <==> (old(self).contains_word(x) || x
                    == w@),
            forall|k: usize|
                #[trigger] final(self).has_len(k) <==> (old(self).has_len(k) || k as int
                    == w@.len()),
    {
        let ghost wv = w@;
        let k = w.unicode_len();
        let found = self.find_group(k);
        match found {
            Some(j) => {
                proof {
                    old(self).lemma_group_with_key(k, j as int);
                }
                if !words_contain(&self.0[j].1, w.as_str()) {
                    let ghost old_s = self.0@;
                    let ghost ll = old_s.len() as int;
                    let mut group = self.0.swap_remove(j);
                    group.1.push(w);
                    self.0.push(group);
                    proof {
                        let new_s = self.0@;
                        let jj = j as int;
                        assert(new_s.len() == ll);
                        assert forall|i: int| 0 <= i < ll - 1 && i != jj implies new_s[i]
                            == old_s[i] by {}
                        if jj < ll - 1 {
                            assert(new_s[jj] == old_s[ll - 1]);
                        }
                        assert(new_s[ll - 1].0 == old_s[jj].0);
                        assert(self.group_at(ll - 1) =~= old(self).group_at(jj).push(wv));
                        self.lemma_insert_existing(*old(self), wv, jj);
                    }
                } else {
                    proof {
                        assert(old(self).group_at(j as int).contains(wv));
                        assert(old(self).contains_word(wv));
                    }
                }
            },
            None => {
                let ghost old_s = self.0@;
                let mut group_words: Vec<String> = Vec::new();
                group_words.push(w);
                self.0.push((k, group_words));
                proof {
                    let new_s = self.0@;
                    let ll = old_s.len() as int;
                    assert(new_s.len() == ll + 1);
                    assert forall|i: int| 0 <= i < ll implies new_s[i] == old_s[i] by {}
                    assert(self.group_at(ll) =~= seq![wv]);
                    self.lemma_insert_new(*old(self), wv);
                }
            },
        }
    }
}

/// Build a dictionary from raw word-list lines: each line is lowercased and
/// filed under its own character length, without duplicates.
pub fn load_dictionary(lines: &Vec<String>) -> (d: Dictionary)
    ensures
        d.wf(),
        forall|x: Seq<char>| #[trigger] d.contains_word(x) <==> lowered(lines@).contains(x),
        forall|k: usize|
            #[trigger] d.has_len(k) <==> has_word_of_len(lowered(lines@), k as int),
{
    let mut d = Dictionary(Vec::new());
    let mut i: usize = 0;
    proof {
        assert(forall|x: Seq<char>| !d.contains_word(x));
        assert(forall|k: usize| !d.has_len(k));
    }
    while i < lines.len()
        invariant
            i <= lines@.len(),
            d.wf(),
            forall|x: Seq<char>|
                #[trigger] d.contains_word(x) <==> lowered(lines@).take(i as int).contains(x),
            forall|k: usize|
                #[trigger] d.has_len(k) <==> has_word_of_len(
                    lowered(lines@).take(i as int),
                    k as int,
                ),
        decreases lines@.len() - i,
    {
        let w = lowercase(lines[i].as_str());
        proof {
            assert(lowered(lines@)[i as int] == w@);
        }
        d.insert_word(w);
        proof {
            let pre = lowered(lines@).take(i as int);
            let post = lowered(lines@).take(i as int + 1);
            assert(post =~= pre.push(lowered(lines@)[i as int]));
            assert forall|x: Seq<char>| #[trigger] post.contains(x) implies (pre.contains(x) || x
                == lowered(lines@)[i as int]) by {
                let a = choose|a: int| 0 <= a < post.len() && post[a] == x;
                if a < pre.len() {
                    assert(pre[a] == x);
                }
            }
            assert forall|x: Seq<char>| pre.contains(x) || x == lowered(lines@)[i as int]
                implies #[trigger] post.contains(x) by {
                if pre.contains(x) {
                    let a = choose|a: int| 0 <= a < pre.len() && pre[a] == x;
                    assert(post[a] == x);
                } else {
                    assert(post.last() == x);
                }
            }
            assert forall|k: usize| #[trigger] has_word_of_len(post, k as int) implies (
            has_word_of_len(pre, k as int) || k as int == lowered(lines@)[i as int].len()) by {
                let a = choose|a: int| 0 <= a < post.len() && (#[trigger] post[a]).len() == k;
                if a < pre.len() {
                    assert(pre[a].len() == k);
                }
            }
            assert forall|k: usize| has_word_of_len(pre, k as int) || k as int == lowered(
                lines@,
            )[i as int].len() implies #[trigger] has_word_of_len(post, k as int) by {
                if has_word_of_len(pre, k as int) {
                    let a = choose|a: int| 0 <= a < pre.len() && (#[trigger] pre[a]).len() == k;
                    assert(post[a].len() == k);
                } else {
                    assert(post.last().len() == k);
                }
            }
        }
        i = i + 1;
    }
    proof {
        assert(lowered(lines@).take(lines@.len() as int) =~= lowered(lines@));
    }
    d
}

} // verus!
