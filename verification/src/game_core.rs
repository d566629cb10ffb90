//! The game engine: the dictionary index, the letter pool, formability,
//! the longest-word search, and the outcome of one round.

use vstd::multiset::Multiset;
use vstd::prelude::*;

use crate::formability::{
    lemma_empty_subset, lemma_formable_len, lemma_pool_sorted_remove, lemma_subset_insert_remove,
    lemma_to_multiset_first, pool_search,
};
use crate::model::{
    best_of, char_total, dict_lens_ok, dict_sorted, dict_view, display_of, drawn_from, entry_lt,
    fold_char, fold_seq, formable, freq_of, parse_lines, pool_sorted, strip_cr, table_count,
    table_unique, table_valid, upper_of, weight_sum,
};
use crate::order::{cmp_entries, lemma_entry_order};
use crate::parse::{
    insert_entry_sorted, lemma_char_total_multiset, lemma_first_newline_at, lemma_parse_lines_wf,
};
use crate::pool::{draw_weighted_letter, insert_char_sorted, upper_char};
use vstd::string::StringExecFns;

verus! {

broadcast use vstd::seq_lib::group_seq_lib_default, vstd::multiset::group_multiset_axioms,
    vstd::seq_lib::group_to_multiset_ensures;

/// The two languages the game can be played in.
pub enum Language {
    English,
    Spanish,
}

/// The four ways one submission can end.
pub enum GameResult {
    Tie(String),
    YouLose(String),
    DoesntExist,
    CantForm,
}

/// One game session: a dictionary sorted by (word, character count), the
/// letter-frequency table derived from it, and the letters currently in play.
pub struct Game<'a> {
    dictionary: Vec<(&'a str, usize)>,
    letter_count: Vec<(char, u64)>,
    available_letters: Vec<char>,
}

impl<'a> Game<'a> {
    /// The dictionary as a sequence of (word, recorded character count).
    pub closed spec fn dict(self) -> Seq<(Seq<char>, int)> {
        dict_view(self.dictionary@)
    }

    /// The letter-frequency table as a sequence of (letter, weight).
    pub closed spec fn table(self) -> Seq<(char, u64)> {
        self.letter_count@
    }

    /// The letters currently in play, in their stored order.
    pub closed spec fn pool(self) -> Seq<char> {
        self.available_letters@
    }

    /// The session invariant: the dictionary is sorted by entry order and
    /// records true character counts, the pool is sorted, and the letter
    /// table can be drawn from.
    pub open spec fn wf(self) -> bool {
        &&& dict_sorted(self.dict())
        &&& dict_lens_ok(self.dict())
        &&& pool_sorted(self.pool())
        &&& table_valid(self.table())
    }

    /// Reads a raw word list, one word per line: empty lines are discarded,
    /// each word is paired with its character count, and the entries come
    /// out sorted by (word, count).
    pub fn parse_dictionary(dict_str: &str) -> (r: Vec<(&str, usize)>)
        ensures
            dict_sorted(dict_view(r@)),
            dict_lens_ok(dict_view(r@)),
            dict_view(r@).to_multiset() == parse_lines(dict_str@).to_multiset(),
            char_total(dict_view(r@)) <= dict_str@.len(),
            dict_str@.len() <= usize::MAX,
    {
        let n = dict_str.unicode_len();
        let mut dict: Vec<(&str, usize)> = Vec::new();
        let mut p: usize = 0;
        proof {
            assert(dict_view(dict@) =~= Seq::<(Seq<char>, int)>::empty());
            assert(dict_view(dict@).to_multiset() =~= Multiset::empty());
            assert(dict_str@.skip(0) =~= dict_str@);
            assert(parse_lines(dict_str@).to_multiset() =~= dict_view(
                dict@,
            ).to_multiset().add(parse_lines(dict_str@.skip(p as int)).to_multiset()));
        }
        while p < n
            invariant
                p <= n,
                n == dict_str@.len(),
                dict@.len() <= p,
                dict_sorted(dict_view(dict@)),
                dict_lens_ok(dict_view(dict@)),
                char_total(dict_view(dict@)) <= p,
                parse_lines(dict_str@).to_multiset() == dict_view(dict@).to_multiset().add(
                    parse_lines(dict_str@.skip(p as int)).to_multiset(),
                ),
            decreases n - p,
        {
            let mut q: usize = p;
            loop
                invariant
                    p <= q <= n,
                    n == dict_str@.len(),
                    forall|j: int| p <= j < q ==> dict_str@[j] != '\n',
                ensures
                    p <= q <= n,
                    forall|j: int| p <= j < q ==> dict_str@[j] != '\n',
                    q < n ==> dict_str@[q as int] == '\n',
                decreases n - q,
            {
                if q == n {
                    break ;
                }
                if dict_str.get_char(q) == '\n' {
                    break ;
                }
                q = q + 1;
            }
            let line_end = if q > p && dict_str.get_char(q - 1) == '\r' {
                q - 1
            } else {
                q
            };
            if line_end > p {
                let w = dict_str.substring_char(p, line_end);
                insert_entry_sorted(&mut dict, (w, line_end - p));
            }
            proof {
                let text = dict_str@;
                let s = text.skip(p as int);
                let k = (q - p) as int;
                assert forall|j: int| 0 <= j < k implies s[j] != '\n' by {
                    assert(s[j] == text[p + j]);
                }
                lemma_first_newline_at(s, k);
                let line = strip_cr(s.take(k));
                assert(s.take(k) =~= text.subrange(p as int, q as int));
                assert(line =~= text.subrange(p as int, line_end as int)) by {
                    if q > p && text[q - 1] == '\r' {
                        assert(s.take(k).last() == text[q - 1]);
                        assert(s.take(k).drop_last() =~= text.subrange(
                            p as int,
                            line_end as int,
                        ));
                    } else {
                        if s.take(k).len() > 0 {
                            assert(s.take(k).last() == text[q - 1]);
                        }
                    }
                }
                assert(line.len() == line_end - p);
                let rest = if k < s.len() {
                    parse_lines(s.skip(k + 1))
                } else {
                    Seq::<(Seq<char>, int)>::empty()
                };
                assert(parse_lines(s) == if line.len() == 0 {
                    rest
                } else {
                    seq![(line, line.len() as int)] + rest
                });
                if line.len() > 0 {
                    vstd::seq_lib::lemma_multiset_commutative(
                        seq![(line, line.len() as int)],
                        rest,
                    );
                    assert(seq![(line, line.len() as int)] =~= Seq::<(Seq<char>, int)>::empty()
                        .push((line, line.len() as int)));
                    assert(Seq::<(Seq<char>, int)>::empty().to_multiset() =~= Multiset::empty());
                    assert(seq![(line, line.len() as int)].to_multiset() =~= Multiset::empty()
                        .insert((line, line.len() as int)));
                }
                if q < n {
                    assert(s.skip(k + 1) =~= text.skip(q + 1));
                } else {
                    assert(k == s.len());
                    assert(text.skip(n as int) =~= Seq::<char>::empty());
                    assert(parse_lines(text.skip(n as int)).to_multiset() =~= Multiset::empty());
                }
                let np: int = if q == n {
                    n as int
                } else {
                    q + 1
                };
                assert(parse_lines(text).to_multiset() =~= dict_view(dict@).to_multiset().add(
                    parse_lines(text.skip(np)).to_multiset(),
                ));
            }
            p = if q == n {
                n
            } else {
                q + 1
            };
        }
        proof {
            assert(dict_str@.skip(n as int) =~= Seq::<char>::empty());
            assert(parse_lines(dict_str@.skip(n as int)).to_multiset() =~= Multiset::empty());
            assert(parse_lines(dict_str@).to_multiset() =~= dict_view(dict@).to_multiset());
        }
        dict
    }

    /// Opens a session over the given word list: the dictionary is parsed
    /// and sorted, the letter-frequency table is derived from it, and a pool
    /// of `size` letters is drawn from that table. The word list must hold
    /// at least one word, so that the table has something to draw from.
    pub fn new(dict_str: &'a str, size: usize) -> (r: Game<'a>)
        requires
            parse_lines(dict_str@).len() > 0,
        ensures
            r.wf(),
            r.dict().to_multiset() == parse_lines(dict_str@).to_multiset(),
            forall|c: char| #[trigger] table_count(r.table(), c) == freq_of(r.dict(), c),
            weight_sum(r.table()) == char_total(r.dict()),
            table_unique(r.table()),
            r.pool().len() == size,
            forall|j: int| 0 <= j < size ==> drawn_from(r.table(), #[trigger] r.pool()[j]),
    {
        let dictionary = Self::parse_dictionary(dict_str);
        proof {
            let pl = parse_lines(dict_str@);
            let dv = dict_view(dictionary@);
            lemma_parse_lines_wf(dict_str@);
            lemma_char_total_multiset(dv, pl);
            crate::frequency::lemma_char_total_nonneg(pl.drop_first());
            assert(char_total(pl) == pl[0].0.len() + char_total(pl.drop_first()));
            assert(char_total(dv) > 0);
            assert(usize::MAX <= u64::MAX);
        }
        let letter_count = crate::frequency::build_letter_frequency(&dictionary);
        proof {
            if letter_count@.len() == 0 {
                assert(weight_sum(letter_count@) == 0);
            }
        }
        let mut game = Game { dictionary, letter_count, available_letters: Vec::new() };
        proof {
            assert(game.pool() =~= Seq::<char>::empty());
            assert(game.wf());
        }
        game.generate_available_letters(size);
        game
    }

    /// Folds one character: accented vowels lose their accent, every other
    /// character passes through unchanged.
    pub fn remove_accents(c: char) -> (r: char)
        ensures
            r == fold_char(c),
    {
        match c {
            'á' => 'a',
            'é' => 'e',
            'í' => 'i',
            'ó' => 'o',
            'ú' | 'ü' => 'u',
            a => a,
        }
    }

    /// Whether the word can be spelled from the letters in play: its folded
    /// characters, repetitions included, must all be available. The pool is
    /// not changed; the check consumes letters from a private copy.
    pub fn is_formable(&self, word: &str) -> (r: bool)
        requires
            self.wf(),
        ensures
            r == formable(word@, self.pool()),
    {
        let mut letters = self.available_letters.clone();
        proof {
            assert forall|j: int| 0 <= j < letters@.len() implies letters@[j]
                == self.available_letters@[j] by {}
            assert(letters@ =~= self.available_letters@);
        }
        let wl = word.unicode_len();
        let mut i: usize = 0;
        proof {
            assert(word@.skip(0) =~= word@);
        }
        while i < wl
            invariant
                i <= wl,
                wl == word@.len(),
                pool_sorted(letters@),
                formable(word@, self.pool()) <==> fold_seq(
                    word@.skip(i as int),
                ).to_multiset().subset_of(letters@.to_multiset()),
            decreases wl - i,
        {
            let c = Game::remove_accents(word.get_char(i));
            let ghost rem = fold_seq(word@.skip(i as int));
            proof {
                assert(rem.len() == wl - i);
                assert(rem[0] == fold_char(word@[i as int]));
                assert(rem.drop_first() =~= fold_seq(word@.skip(i + 1))) by {
                    assert forall|j: int| 0 <= j < rem.len() - 1 implies rem.drop_first()[j]
                        == fold_seq(word@.skip(i + 1))[j] by {
                        assert(rem[j + 1] == fold_char(word@.skip(i as int)[j + 1]));
                        assert(fold_seq(word@.skip(i + 1))[j] == fold_char(word@.skip(i + 1)[j]));
                        assert(word@.skip(i as int)[j + 1] == word@[i + 1 + j]);
                        assert(word@.skip(i + 1)[j] == word@[i + 1 + j]);
                    }
                }
                lemma_to_multiset_first(rem);
                lemma_subset_insert_remove(
                    rem.drop_first().to_multiset(),
                    letters@.to_multiset(),
                    c,
                );
            }
            match pool_search(&letters, c) {
                Some(idx) => {
                    proof {
                        lemma_pool_sorted_remove(letters@, idx as int);
                        assert(letters@.to_multiset().count(c) > 0);
                    }
                    let ghost before = letters@;
                    letters.remove(idx);
                    proof {
                        assert(letters@.to_multiset() =~= before.to_multiset().remove(c));
                    }
                },
                None => {
                    proof {
                        assert(letters@.to_multiset().count(c) == 0);
                        assert(rem.to_multiset().count(c) > 0) by {
                            assert(rem.to_multiset() == rem.drop_first().to_multiset().insert(c));
                        }
                        assert(!rem.to_multiset().subset_of(letters@.to_multiset()));
                    }
                    return false;
                },
            }
            i = i + 1;
        }
        proof {
            assert(fold_seq(word@.skip(wl as int)).len() == 0);
            lemma_empty_subset(fold_seq(word@.skip(wl as int)), letters@.to_multiset());
        }
        true
    }

    /// Whether the word, spelled exactly as given, is a dictionary entry:
    /// a binary search for the pair (word, character count) in the sorted
    /// dictionary. No folding is applied here.
    pub fn exist(&self, word: &str) -> (r: bool)
        requires
            self.wf(),
        ensures
            r == self.dict().contains((word@, word@.len() as int)),
    {
        let size = word.unicode_len();
        let ghost key = (word@, word@.len() as int);
        let mut lo: usize = 0;
        let mut hi: usize = self.dictionary.len();
        while lo < hi
            invariant
                lo <= hi <= self.dict().len(),
                self.wf(),
                key == (word@, word@.len() as int),
                size == word@.len(),
                forall|j: int| 0 <= j < lo ==> entry_lt(#[trigger] self.dict()[j], key),
                forall|j: int|
                    hi <= j < self.dict().len() ==> entry_lt(key, #[trigger] self.dict()[j]),
            decreases hi - lo,
        {
            let mid = lo + (hi - lo) / 2;
            let e = self.dictionary[mid];
            proof {
                assert(self.dict()[mid as int] == (e.0@, e.1 as int));
            }
            let c = cmp_entries((word, size), e);
            if c == 0 {
                proof {
                    assert(self.dict()[mid as int] == key);
                }
                return true;
            }
            if c == -1 {
                proof {
                    assert forall|j: int|
                        mid <= j < self.dict().len() implies entry_lt(
                        key,
                        #[trigger] self.dict()[j],
                    ) by {
                        lemma_entry_order(key, self.dict()[mid as int], self.dict()[j]);
                    }
                }
                hi = mid;
            } else {
                proof {
                    assert forall|j: int| 0 <= j < mid + 1 implies entry_lt(
                        #[trigger] self.dict()[j],
                        key,
                    ) by {
                        lemma_entry_order(self.dict()[j], self.dict()[mid as int], key);
                    }
                }
                lo = mid + 1;
            }
        }
        proof {
            if self.dict().contains(key) {
                let j = choose|j: int| 0 <= j < self.dict().len() && self.dict()[j] == key;
                lemma_entry_order(key, key, key);
            }
        }
        false
    }

    /// Scans the whole dictionary in its sorted order for the longest word
    /// formable from the pool, with its length; an entry longer than the
    /// pool is skipped without the formability test. Ties keep the earliest
    /// entry, so the result is the lexicographically smallest word of the
    /// greatest formable length, or the empty word if nothing is formable.
    pub fn find_longest_word(&self) -> (r: (&str, usize))
        requires
            self.wf(),
        ensures
            (r.0@, r.1 as int) == best_of(self.dict(), self.pool()),
            r.1 <= self.pool().len(),
    {
        let mut best: &str = "";
        let mut best_len: usize = 0;
        let n = self.dictionary.len();
        let mut i: usize = 0;
        proof {
            reveal_strlit("");
            assert(best@ =~= Seq::<char>::empty());
            assert(self.dict().take(0) =~= Seq::<(Seq<char>, int)>::empty());
        }
        while i < n
            invariant
                i <= n,
                n == self.dict().len(),
                self.wf(),
                best_len <= self.pool().len(),
                (best@, best_len as int) == best_of(self.dict().take(i as int), self.pool()),
            decreases n - i,
        {
            let e = self.dictionary[i];
            proof {
                assert(self.dict()[i as int] == (e.0@, e.1 as int));
                assert(self.dict().take(i + 1).drop_last() =~= self.dict().take(i as int));
                assert(self.dict().take(i + 1).last() == self.dict()[i as int]);
            }
            if e.1 <= self.available_letters.len() && e.1 > best_len {
                if self.is_formable(e.0) {
                    proof {
                        lemma_formable_len(e.0@, self.pool());
                    }
                    best = e.0;
                    best_len = e.1;
                }
            } else {
                proof {
                    if e.1 > best_len && formable(e.0@, self.pool()) {
                        lemma_formable_len(e.0@, self.pool());
                    }
                }
            }
            i = i + 1;
        }
        proof {
            assert(self.dict().take(n as int) =~= self.dict());
        }
        (best, best_len)
    }

    /// Replaces the pool with exactly the given letters, sorted ascending;
    /// the weighting is bypassed. The dictionary and the letter table are
    /// untouched.
    pub fn set_available_letters(&mut self, letters: Vec<char>)
        ensures
            pool_sorted(final(self).pool()),
            final(self).pool().to_multiset() == letters@.to_multiset(),
            final(self).dict() == old(self).dict(),
            final(self).table() == old(self).table(),
            old(self).wf() ==> final(self).wf(),
    {
        let mut sorted: Vec<char> = Vec::new();
        let n = letters.len();
        let mut i: usize = 0;
        proof {
            assert(letters@.take(0) =~= Seq::<char>::empty());
            assert(sorted@.to_multiset() =~= letters@.take(0).to_multiset());
        }
        while i < n
            invariant
                i <= n,
                n == letters@.len(),
                sorted@.len() == i,
                pool_sorted(sorted@),
                sorted@.to_multiset() == letters@.take(i as int).to_multiset(),
            decreases n - i,
        {
            proof {
                assert(letters@.take(i + 1) =~= letters@.take(i as int).push(letters@[i as int]));
            }
            insert_char_sorted(&mut sorted, letters[i]);
            i = i + 1;
        }
        proof {
            assert(letters@.take(n as int) =~= letters@);
        }
        self.available_letters = sorted;
    }

    /// Replaces the pool with `size` letters drawn independently from the
    /// letter table, each with probability proportional to its weight, and
    /// stores them sorted. The dictionary and the letter table are
    /// untouched; which letters come out is left to the generator, beyond
    /// that each carries a positive table weight.
    pub fn generate_available_letters(&mut self, size: usize)
        requires
            old(self).wf(),
        ensures
            final(self).pool().len() == size,
            pool_sorted(final(self).pool()),
            forall|j: int|
                0 <= j < size ==> drawn_from(old(self).table(), #[trigger] final(self).pool()[j]),
            final(self).dict() == old(self).dict(),
            final(self).table() == old(self).table(),
            final(self).wf(),
    {
        let mut letters: Vec<char> = Vec::new();
        let mut k: usize = 0;
        while k < size
            invariant
                k <= size,
                *self == *old(self),
                self.wf(),
                letters@.len() == k,
                pool_sorted(letters@),
                forall|j: int|
                    0 <= j < k ==> drawn_from(self.table(), #[trigger] letters@[j]),
            decreases size - k,
        {
            let c = draw_weighted_letter(&self.letter_count);
            insert_char_sorted(&mut letters, c);
            k = k + 1;
        }
        self.available_letters = letters;
    }

    /// The pool's letters for display: each uppercased and followed by one
    /// space, in the pool's sorted order. The pool itself is untouched, so
    /// two calls without a regeneration in between answer alike.
    pub fn get_available_letters(&self) -> (r: String)
        ensures
            r@ == display_of(self.pool()),
    {
        let mut out = String::new();
        let n = self.available_letters.len();
        let mut i: usize = 0;
        proof {
            assert(self.pool().skip(0) =~= self.pool());
            assert(out@ + display_of(self.pool().skip(0)) =~= display_of(self.pool()));
        }
        while i < n
            invariant
                i <= n,
                n == self.pool().len(),
                display_of(self.pool()) == out@ + display_of(self.pool().skip(i as int)),
            decreases n - i,
        {
            let u = upper_char(self.available_letters[i]);
            let ghost prev = out@;
            out.append(u.as_str());
            out.append(" ");
            proof {
                reveal_strlit(" ");
                assert(" "@ =~= seq![' ']);
                let rest = self.pool().skip(i as int);
                assert(rest[0] == self.pool()[i as int]);
                assert(rest.drop_first() =~= self.pool().skip(i + 1));
                assert(display_of(rest) == upper_of(rest[0]) + seq![' '] + display_of(
                    rest.drop_first(),
                ));
                assert(out@ + display_of(self.pool().skip(i + 1)) =~= prev + display_of(rest));
            }
            i = i + 1;
        }
        proof {
            assert(self.pool().skip(n as int) =~= Seq::<char>::empty());
            assert(out@ + display_of(self.pool().skip(n as int)) =~= out@);
        }
        out
    }

    /// The number of letters currently in play.
    pub fn pool_len(&self) -> (n: usize)
        ensures
            n == self.pool().len(),
    {
        self.available_letters.len()
    }

    /// One round of the game, against the unchanged dictionary and pool:
    /// a submission that cannot be formed from the pool ends in `CantForm`;
    /// one that is formable but not a dictionary entry ends in
    /// `DoesntExist`; otherwise the engine searches for its own best word
    /// and answers `Tie` when the submission matches its length, `YouLose`
    /// when it does not, naming that best word either way.
    pub fn play(&self, user_input: &str) -> (r: GameResult)
        requires
            self.wf(),
        ensures
            (r is CantForm) <==> !formable(user_input@, self.pool()),
            (r is DoesntExist) <==> formable(user_input@, self.pool()) && !self.dict().contains(
                (user_input@, user_input@.len() as int),
            ),
            formable(user_input@, self.pool()) && self.dict().contains(
                (user_input@, user_input@.len() as int),
            ) && user_input@.len() == best_of(self.dict(), self.pool()).1 ==> (r matches
                GameResult::Tie(w) && w@ == best_of(self.dict(), self.pool()).0),
            formable(user_input@, self.pool()) && self.dict().contains(
                (user_input@, user_input@.len() as int),
            ) && user_input@.len() != best_of(self.dict(), self.pool()).1 ==> (r matches
                GameResult::YouLose(w) && w@ == best_of(self.dict(), self.pool()).0),
    {
        if !self.is_formable(user_input) {
            return GameResult::CantForm;
        }
        if !self.exist(user_input) {
            return GameResult::DoesntExist;
        }
        let (best, best_len) = self.find_longest_word();
        let input_len = user_input.unicode_len();
        let best = best.to_owned();
        if input_len == best_len {
            GameResult::Tie(best)
        } else {
            GameResult::YouLose(best)
        }
    }
}

} // verus!
