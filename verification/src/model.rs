//! The mathematical model of the game: diacritic folding, lexicographic
//! order on words, dictionary parsing, formability as multiset inclusion,
//! the longest-word fold, the pool display string, and letter frequencies.

use vstd::prelude::*;

verus! {

/// A character with every supported diacritic removed: accented vowels fold
/// to their base vowel, every other character is left unchanged.
pub open spec fn fold_char(c: char) -> char {
    if c == 'á' {
        'a'
    } else if c == 'é' {
        'e'
    } else if c == 'í' {
        'i'
    } else if c == 'ó' {
        'o'
    } else if c == 'ú' || c == 'ü' {
        'u'
    } else {
        c
    }
}

/// A word with each of its characters folded.
pub open spec fn fold_seq(s: Seq<char>) -> Seq<char> {
    s.map_values(|c: char| fold_char(c))
}

/// A word is formable from a pool of letters when the multiset of its folded
/// characters is contained in the multiset of the pool's letters: repeated
/// letters require repeated availability.
pub open spec fn formable(word: Seq<char>, pool: Seq<char>) -> bool {
    fold_seq(word).to_multiset().subset_of(pool.to_multiset())
}

/// Strict lexicographic order on words, by Unicode scalar value.
pub open spec fn lex_lt(a: Seq<char>, b: Seq<char>) -> bool
    decreases a.len(),
{
    if b.len() == 0 {
        false
    } else if a.len() == 0 {
        true
    } else if a[0] != b[0] {
        (a[0] as int) < (b[0] as int)
    } else {
        lex_lt(a.drop_first(), b.drop_first())
    }
}

/// The order of dictionary entries: by word text first, then by recorded
/// character count.
pub open spec fn entry_lt(a: (Seq<char>, int), b: (Seq<char>, int)) -> bool {
    lex_lt(a.0, b.0) || (a.0 == b.0 && a.1 < b.1)
}

pub open spec fn entry_le(a: (Seq<char>, int), b: (Seq<char>, int)) -> bool {
    entry_lt(a, b) || a == b
}

/// A dictionary is sorted when its entries ascend in entry order.
pub open spec fn dict_sorted(d: Seq<(Seq<char>, int)>) -> bool {
    forall|i: int, j: int| 0 <= i < j < d.len() ==> entry_le(#[trigger] d[i], #[trigger] d[j])
}

/// Every entry records the character count of its own word.
pub open spec fn dict_lens_ok(d: Seq<(Seq<char>, int)>) -> bool {
    forall|i: int| 0 <= i < d.len() ==> (#[trigger] d[i]).1 == d[i].0.len()
}

/// A pool is kept sorted ascending by Unicode scalar value.
pub open spec fn pool_sorted(p: Seq<char>) -> bool {
    forall|i: int, j: int| 0 <= i < j < p.len() ==> (#[trigger] p[i] as int) <= (#[trigger] p[j] as int)
}

/// The abstract value of a dictionary: each entry as (word, recorded count).
pub open spec fn dict_view(v: Seq<(&str, usize)>) -> Seq<(Seq<char>, int)> {
    v.map_values(|e: (&str, usize)| (e.0@, e.1 as int))
}

/// A line with one trailing carriage return removed, as `str::lines` strips it.
pub open spec fn strip_cr(line: Seq<char>) -> Seq<char> {
    if line.len() > 0 && line.last() == '\r' {
        line.drop_last()
    } else {
        line
    }
}

/// The index of the first line feed in `text`, or `text.len()` if none.
pub open spec fn first_newline(text: Seq<char>) -> nat
    decreases text.len(),
{
    if text.len() == 0 {
        0
    } else if text[0] == '\n' {
        0
    } else {
        1 + first_newline(text.drop_first())
    }
}

/// The dictionary entries read from raw text: one word per line, a trailing
/// carriage return stripped, empty lines discarded, each word paired with its
/// character count.
pub open spec fn parse_lines(text: Seq<char>) -> Seq<(Seq<char>, int)>
    decreases text.len(),
{
    if text.len() == 0 {
        Seq::empty()
    } else {
        let k = first_newline(text) as int;
        let line = strip_cr(text.take(k));
        let rest = if k < text.len() {
            parse_lines(text.skip(k + 1))
        } else {
            Seq::empty()
        };
        if line.len() == 0 {
            rest
        } else {
            seq![(line, line.len() as int)] + rest
        }
    }
}

/// The running best of the longest-word search over a dictionary prefix:
/// starting from the empty word, an entry replaces the running best only if
/// it is strictly longer and formable from the pool. Ties therefore keep the
/// earliest entry in dictionary order.
pub open spec fn best_of(d: Seq<(Seq<char>, int)>, pool: Seq<char>) -> (Seq<char>, int)
    decreases d.len(),
{
    if d.len() == 0 {
        (Seq::empty(), 0)
    } else {
        let prev = best_of(d.drop_last(), pool);
        let e = d.last();
        if e.1 > prev.1 && formable(e.0, pool) {
            e
        } else {
            prev
        }
    }
}

/// What `char::to_uppercase` yields for one character. The mapping is fixed
/// by the Unicode tables and depends on the character alone; it is not
/// written out here.
pub uninterp spec fn upper_of(c: char) -> Seq<char>;

/// The display form of a pool: each letter uppercased and followed by one
/// space, in pool order.
pub open spec fn display_of(pool: Seq<char>) -> Seq<char>
    decreases pool.len(),
{
    if pool.len() == 0 {
        Seq::empty()
    } else {
        upper_of(pool[0]) + seq![' '] + display_of(pool.drop_first())
    }
}

/// The sum of the weights of a letter table.
pub open spec fn weight_sum(t: Seq<(char, u64)>) -> int
    decreases t.len(),
{
    if t.len() == 0 {
        0
    } else {
        t[0].1 + weight_sum(t.drop_first())
    }
}

/// The weight a letter table assigns to the character `c`: the sum of the
/// counts recorded for it.
pub open spec fn table_count(t: Seq<(char, u64)>, c: char) -> int
    decreases t.len(),
{
    if t.len() == 0 {
        0
    } else {
        (if t[0].0 == c {
            t[0].1 as int
        } else {
            0
        }) + table_count(t.drop_first(), c)
    }
}

/// The letter table's characters are pairwise distinct.
pub open spec fn table_unique(t: Seq<(char, u64)>) -> bool {
    forall|i: int, j: int| 0 <= i < j < t.len() ==> (#[trigger] t[i]).0 != (#[trigger] t[j]).0
}

/// A letter table a pool can be drawn from: it has at least one letter and a
/// positive total weight, and the total fits the weight type so the weighted
/// draw neither fails nor overflows.
pub open spec fn table_valid(t: Seq<(char, u64)>) -> bool {
    &&& t.len() > 0
    &&& 0 < weight_sum(t) <= u64::MAX
}

/// The character `c` is one that the letter table can draw: it stands in the
/// table with a positive weight.
pub open spec fn drawn_from(t: Seq<(char, u64)>, c: char) -> bool {
    exists|i: int| 0 <= i < t.len() && (#[trigger] t[i]).0 == c && t[i].1 > 0
}

/// How often the character `c` occurs among the folded characters of all
/// dictionary words together.
pub open spec fn freq_of(d: Seq<(Seq<char>, int)>, c: char) -> int
    decreases d.len(),
{
    if d.len() == 0 {
        0
    } else {
        fold_seq(d[0].0).to_multiset().count(c) + freq_of(d.drop_first(), c)
    }
}

/// The number of characters in all dictionary words together.
pub open spec fn char_total(d: Seq<(Seq<char>, int)>) -> int
    decreases d.len(),
{
    if d.len() == 0 {
        0
    } else {
        d[0].0.len() + char_total(d.drop_first())
    }
}

} // verus!
