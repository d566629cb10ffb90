//! The laws the engine obeys, stated and proved over the same spec
//! functions that the public contracts use.

use vstd::multiset::Multiset;
use vstd::prelude::*;

use crate::formability::lemma_formable_len;
use crate::game_core::Game;
use crate::model::{best_of, display_of, dict_lens_ok, fold_seq, formable, pool_sorted};

verus! {

broadcast use vstd::seq_lib::group_seq_lib_default, vstd::multiset::group_multiset_axioms,
    vstd::seq_lib::group_to_multiset_ensures;

/// A word that stands in the dictionary meets the existence test's
/// criterion: the pair the test looks up is the entry itself. The word with
/// one character appended meets it only if the longer word is again an
/// entry's word.
pub proof fn lemma_exists_in_dictionary(g: Game, i: int, c: char)
    requires
        g.wf(),
        0 <= i < g.dict().len(),
    ensures
        g.dict().contains((g.dict()[i].0, g.dict()[i].0.len() as int)),
        g.dict().contains((g.dict()[i].0.push(c), (g.dict()[i].0.len() + 1) as int))
            ==> exists|j: int|
            0 <= j < g.dict().len() && (#[trigger] g.dict()[j]).0 == g.dict()[i].0.push(c),
{
    assert(g.dict()[i] == (g.dict()[i].0, g.dict()[i].0.len() as int));
    let longer = (g.dict()[i].0.push(c), (g.dict()[i].0.len() + 1) as int);
    if g.dict().contains(longer) {
        let j = choose|j: int| 0 <= j < g.dict().len() && g.dict()[j] == longer;
        assert(g.dict()[j].0 == g.dict()[i].0.push(c));
    }
}

/// A formable word consumes its letters from a copy of the pool: what
/// remains of the pool's multiset is smaller by exactly the word's length.
pub proof fn lemma_formable_consumes(word: Seq<char>, pool: Seq<char>)
    requires
        formable(word, pool),
    ensures
        word.len() <= pool.len(),
        pool.to_multiset().sub(fold_seq(word).to_multiset()).len() == pool.len() - word.len(),
{
    lemma_formable_len(word, pool);
    assert(fold_seq(word).to_multiset().len() == word.len());
    assert(pool.to_multiset().len() == pool.len());
}

/// The search's running best never names a length above the pool's size.
pub proof fn lemma_best_of_bounded(d: Seq<(Seq<char>, int)>, pool: Seq<char>)
    requires
        dict_lens_ok(d),
    ensures
        best_of(d, pool).1 <= pool.len(),
    decreases d.len(),
{
    if d.len() > 0 {
        lemma_best_of_bounded(d.drop_last(), pool);
        let e = d.last();
        if e.1 > best_of(d.drop_last(), pool).1 && formable(e.0, pool) {
            lemma_formable_len(e.0, pool);
        }
    }
}

/// The search never overlooks a formable entry: whatever it answers is at
/// least as long as any dictionary word formable from the pool.
pub proof fn lemma_best_of_maximal(d: Seq<(Seq<char>, int)>, pool: Seq<char>, i: int)
    requires
        0 <= i < d.len(),
        formable(d[i].0, pool),
    ensures
        best_of(d, pool).1 >= d[i].1,
    decreases d.len(),
{
    if i < d.len() - 1 {
        assert(d.drop_last()[i] == d[i]);
        lemma_best_of_maximal(d.drop_last(), pool, i);
    }
}

/// For a pool made of some dictionary word's folded letters and one letter
/// more, in any order, the search answers with at least that word's length.
pub proof fn lemma_best_of_permuted_pool(
    d: Seq<(Seq<char>, int)>,
    pool: Seq<char>,
    i: int,
    extra: char,
)
    requires
        0 <= i < d.len(),
        pool.to_multiset() == fold_seq(d[i].0).to_multiset().insert(extra),
    ensures
        best_of(d, pool).1 >= d[i].1,
{
    assert(formable(d[i].0, pool)) by {
        assert forall|v: char|
            fold_seq(d[i].0).to_multiset().count(v) <= pool.to_multiset().count(v) by {
            assert(pool.to_multiset().count(v) == fold_seq(d[i].0).to_multiset().insert(
                extra,
            ).count(v));
        }
    }
    lemma_best_of_maximal(d, pool, i);
}

/// When the search finds anything at all, what it names is a dictionary
/// entry and formable from the pool; when it finds nothing, it answers the
/// empty word with length zero.
pub proof fn lemma_best_of_found(d: Seq<(Seq<char>, int)>, pool: Seq<char>)
    requires
        dict_lens_ok(d),
    ensures
        best_of(d, pool).1 >= 0,
        best_of(d, pool).1 != 0 ==> exists|j: int|
            0 <= j < d.len() && #[trigger] d[j] == best_of(d, pool) && formable(
                best_of(d, pool).0,
                pool,
            ),
        best_of(d, pool).1 == 0 ==> best_of(d, pool).0 == Seq::<char>::empty(),
    decreases d.len(),
{
    if d.len() > 0 {
        assert(dict_lens_ok(d.drop_last())) by {
            assert forall|j: int| 0 <= j < d.len() - 1 implies (#[trigger] d.drop_last()[j]).1
                == d.drop_last()[j].0.len() by {
                assert(d.drop_last()[j] == d[j]);
            }
        }
        lemma_best_of_found(d.drop_last(), pool);
        let e = d.last();
        let prev = best_of(d.drop_last(), pool);
        if e.1 > prev.1 && formable(e.0, pool) {
            assert(d[d.len() - 1] == best_of(d, pool));
        } else {
            if prev.1 != 0 {
                let j = choose|j: int|
                    0 <= j < d.drop_last().len() && #[trigger] d.drop_last()[j] == prev
                        && formable(prev.0, pool);
                assert(d[j] == prev);
            }
        }
    }
}

/// With an empty pool, no word with a letter in it is formable.
pub proof fn lemma_empty_pool(word: Seq<char>, pool: Seq<char>)
    requires
        pool.len() == 0,
        word.len() > 0,
    ensures
        !formable(word, pool),
{
    let m = fold_seq(word).to_multiset();
    assert(fold_seq(word).contains(fold_seq(word)[0]));
    assert(m.count(fold_seq(word)[0]) > 0);
    assert(pool.to_multiset().count(fold_seq(word)[0]) <= pool.to_multiset().len());
}

/// Setting the pool by hand is canonical: two letter sequences with one
/// multiset leave one and the same sorted pool behind, so the display
/// string that follows does not depend on the order the letters were given
/// in.
pub proof fn lemma_set_pool_canonical(p1: Seq<char>, p2: Seq<char>)
    requires
        pool_sorted(p1),
        pool_sorted(p2),
        p1.to_multiset() == p2.to_multiset(),
    ensures
        p1 == p2,
        display_of(p1) == display_of(p2),
{
    let leq = |a: char, b: char| a as int <= b as int;
    assert(vstd::relations::sorted_by(p1, leq));
    assert(vstd::relations::sorted_by(p2, leq));
    assert(vstd::relations::total_ordering(leq));
    vstd::seq_lib::lemma_sorted_unique(p1, p2, leq);
}

/// One pool has one display string: the display is a function of the pool
/// alone, and displaying does not touch the pool.
pub proof fn lemma_display_deterministic(p: Seq<char>, r1: Seq<char>, r2: Seq<char>)
    requires
        r1 == display_of(p),
        r2 == display_of(p),
    ensures
        r1 == r2,
{
}

} // verus!
