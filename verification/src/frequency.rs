//! The letter-frequency model: one pass over the dictionary counts every
//! folded character, so that pools can be drawn with natural letter weights.

use vstd::prelude::*;

use crate::game_core::Game;
use crate::model::{
    char_total, dict_view, fold_char, fold_seq, freq_of, table_count, table_unique, weight_sum,
};

verus! {

broadcast use vstd::seq_lib::group_seq_lib_default, vstd::multiset::group_multiset_axioms,
    vstd::seq_lib::group_to_multiset_ensures;

/// A dictionary's character total splits at any index.
pub proof fn lemma_char_total_split(d: Seq<(Seq<char>, int)>, k: int)
    requires
        0 <= k <= d.len(),
    ensures
        char_total(d) == char_total(d.take(k)) + char_total(d.skip(k)),
    decreases k,
{
    if k == 0 {
        assert(d.take(0) =~= Seq::<(Seq<char>, int)>::empty());
        assert(d.skip(0) =~= d);
    } else {
        assert(d.take(k)[0] == d[0]);
        assert(d.take(k).drop_first() =~= d.drop_first().take(k - 1));
        assert(d.skip(k) =~= d.drop_first().skip(k - 1));
        lemma_char_total_split(d.drop_first(), k - 1);
    }
}

/// A character total is never negative.
pub proof fn lemma_char_total_nonneg(d: Seq<(Seq<char>, int)>)
    ensures
        char_total(d) >= 0,
    decreases d.len(),
{
    if d.len() > 0 {
        lemma_char_total_nonneg(d.drop_first());
    }
}

/// How updating one table row moves a character's recorded weight and the
/// total.
proof fn lemma_table_update(t: Seq<(char, u64)>, j: int, pair: (char, u64), c: char)
    requires
        0 <= j < t.len(),
    ensures
        table_count(t.update(j, pair), c) == table_count(t, c) - (if t[j].0 == c {
            t[j].1 as int
        } else {
            0
        }) + (if pair.0 == c {
            pair.1 as int
        } else {
            0
        }),
        weight_sum(t.update(j, pair)) == weight_sum(t) - t[j].1 + pair.1,
    decreases t.len(),
{
    let u = t.update(j, pair);
    if j == 0 {
        assert(u[0] == pair);
        assert(u.drop_first() =~= t.drop_first());
    } else {
        assert(u[0] == t[0]);
        assert(u.drop_first() =~= t.drop_first().update(j - 1, pair));
        lemma_table_update(t.drop_first(), j - 1, pair, c);
    }
}

/// How appending one table row moves a character's recorded weight and the
/// total.
proof fn lemma_table_push(t: Seq<(char, u64)>, pair: (char, u64), c: char)
    ensures
        table_count(t.push(pair), c) == table_count(t, c) + (if pair.0 == c {
            pair.1 as int
        } else {
            0
        }),
        weight_sum(t.push(pair)) == weight_sum(t) + pair.1,
    decreases t.len(),
{
    let u = t.push(pair);
    if t.len() == 0 {
        assert(u[0] == pair);
        assert(u.drop_first() =~= t);
    } else {
        assert(u[0] == t[0]);
        assert(u.drop_first() =~= t.drop_first().push(pair));
        lemma_table_push(t.drop_first(), pair, c);
    }
}

/// No single row weighs more than the whole table.
proof fn lemma_weight_le_sum(t: Seq<(char, u64)>, j: int)
    requires
        0 <= j < t.len(),
    ensures
        t[j].1 <= weight_sum(t),
    decreases t.len(),
{
    if j > 0 {
        lemma_weight_le_sum(t.drop_first(), j - 1);
    } else {
        lemma_weight_sum_nonneg(t.drop_first());
    }
}

/// A table's total weight is never negative.
proof fn lemma_weight_sum_nonneg(t: Seq<(char, u64)>)
    ensures
        weight_sum(t) >= 0,
    decreases t.len(),
{
    if t.len() > 0 {
        lemma_weight_sum_nonneg(t.drop_first());
    }
}

/// Appending one entry to the dictionary adds its folded characters to a
/// character's frequency.
proof fn lemma_freq_of_push(d: Seq<(Seq<char>, int)>, e: (Seq<char>, int), c: char)
    ensures
        freq_of(d.push(e), c) == freq_of(d, c) + fold_seq(e.0).to_multiset().count(c),
    decreases d.len(),
{
    let u = d.push(e);
    if d.len() == 0 {
        assert(u[0] == e);
        assert(u.drop_first() =~= d);
    } else {
        assert(u[0] == d[0]);
        assert(u.drop_first() =~= d.drop_first().push(e));
        lemma_freq_of_push(d.drop_first(), e, c);
    }
}

/// The index of the row that records the character, if there is one.
fn find_letter(table: &Vec<(char, u64)>, c: char) -> (r: Option<usize>)
    ensures
        match r {
            Some(j) => j < table@.len() && table@[j as int].0 == c,
            None => forall|j: int| 0 <= j < table@.len() ==> (#[trigger] table@[j]).0 != c,
        },
{
    let n = table.len();
    let mut j: usize = 0;
    while j < n
        invariant
            j <= n,
            n == table@.len(),
            forall|k: int| 0 <= k < j ==> (#[trigger] table@[k]).0 != c,
        decreases n - j,
    {
        if table[j].0 == c {
            return Some(j);
        }
        j = j + 1;
    }
    None
}

/// Derives the letter-frequency table of a dictionary: for every character
/// of every word, the character is folded and its count raised by one. Each
/// folded character appears in one row, with the number of its occurrences
/// across the whole dictionary; the weights add up to the dictionary's
/// character total.
pub(crate) fn build_letter_frequency(dict: &Vec<(&str, usize)>) -> (r: Vec<(char, u64)>)
    requires
        char_total(dict_view(dict@)) <= u64::MAX,
    ensures
        table_unique(r@),
        forall|c: char| #[trigger] table_count(r@, c) == freq_of(dict_view(dict@), c),
        weight_sum(r@) == char_total(dict_view(dict@)),
        forall|j: int| 0 <= j < r@.len() ==> (#[trigger] r@[j]).1 > 0,
{
    let ghost dv = dict_view(dict@);
    let mut table: Vec<(char, u64)> = Vec::new();
    let n = dict.len();
    let mut d: usize = 0;
    proof {
        assert(dv.take(0) =~= Seq::<(Seq<char>, int)>::empty());
    }
    while d < n
        invariant
            d <= n,
            n == dv.len(),
            dv == dict_view(dict@),
            char_total(dv) <= u64::MAX,
            table_unique(table@),
            forall|j: int| 0 <= j < table@.len() ==> (#[trigger] table@[j]).1 > 0,
            weight_sum(table@) == char_total(dv.take(d as int)),
            forall|c: char| #[trigger] table_count(table@, c) == freq_of(dv.take(d as int), c),
        decreases n - d,
    {
        let e = dict[d];
        let w = e.0;
        let wl = w.unicode_len();
        proof {
            assert(dv[d as int] == (w@, e.1 as int));
            assert(fold_seq(w@).take(0) =~= Seq::<char>::empty());
            assert(dv.take(d as int).insert(d as int, dv[d as int]) =~= dv.take(d + 1));
            crate::parse::lemma_char_total_insert(dv.take(d as int), d as int, dv[d as int]);
            lemma_char_total_split(dv, d + 1);
            lemma_char_total_nonneg(dv.skip(d + 1));
        }
        let mut i: usize = 0;
        while i < wl
            invariant
                i <= wl,
                d < n,
                n == dv.len(),
                dv == dict_view(dict@),
                dv[d as int].0 == w@,
                wl == w@.len(),
                char_total(dv) <= u64::MAX,
                char_total(dv.take(d as int)) + wl <= char_total(dv),
                table_unique(table@),
                forall|j: int| 0 <= j < table@.len() ==> (#[trigger] table@[j]).1 > 0,
                weight_sum(table@) == char_total(dv.take(d as int)) + i,
                forall|c: char|
                    #[trigger] table_count(table@, c) == freq_of(dv.take(d as int), c) + fold_seq(
                        w@,
                    ).take(i as int).to_multiset().count(c),
            decreases wl - i,
        {
            let c = Game::remove_accents(w.get_char(i));
            proof {
                assert(fold_seq(w@).take(i + 1) =~= fold_seq(w@).take(i as int).push(
                    fold_char(w@[i as int]),
                ));
                lemma_char_total_nonneg(dv.take(d as int));
            }
            let ghost tb = table@;
            match find_letter(&table, c) {
                Some(j) => {
                    let count = table[j].1;
                    proof {
                        lemma_weight_le_sum(table@, j as int);
                    }
                    table[j] = (c, count + 1);
                    proof {
                        lemma_table_update(tb, j as int, (c, (count + 1) as u64), c);
                        assert forall|c2: char|
                            #[trigger] table_count(table@, c2) == freq_of(dv.take(d as int), c2)
                                + fold_seq(w@).take(i + 1).to_multiset().count(c2) by {
                            lemma_table_update(tb, j as int, (c, (count + 1) as u64), c2);
                        }
                    }
                },
                None => {
                    table.push((c, 1));
                    proof {
                        lemma_table_push(tb, (c, 1u64), c);
                        assert forall|c2: char|
                            #[trigger] table_count(table@, c2) == freq_of(dv.take(d as int), c2)
                                + fold_seq(w@).take(i + 1).to_multiset().count(c2) by {
                            lemma_table_push(tb, (c, 1u64), c2);
                        }
                    }
                },
            }
            i = i + 1;
        }
        proof {
            assert(fold_seq(w@).take(wl as int) =~= fold_seq(w@));
            assert(dv.take(d as int).push(dv[d as int]) =~= dv.take(d + 1));
            assert forall|c2: char|
                #[trigger] table_count(table@, c2) == freq_of(dv.take(d + 1), c2) by {
                lemma_freq_of_push(dv.take(d as int), dv[d as int], c2);
            }
            crate::parse::lemma_char_total_insert(dv.take(d as int), d as int, dv[d as int]);
            assert(dv.take(d as int).insert(d as int, dv[d as int]) =~= dv.take(d + 1));
        }
        d = d + 1;
    }
    proof {
        assert(dv.take(n as int) =~= dv);
    }
    table
}

} // verus!
