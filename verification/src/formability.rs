//! The multiset heart of the formability check: consuming one letter at a
//! time from the pool is the same as multiset inclusion.

use vstd::multiset::Multiset;
use vstd::prelude::*;

use crate::model::pool_sorted;

verus! {

broadcast use vstd::multiset::group_multiset_axioms, vstd::seq_lib::group_to_multiset_ensures;

/// A multiset grown by `x` fits into `p` exactly when `p` holds an `x` and
/// the rest fits into `p` with one `x` removed.
pub proof fn lemma_subset_insert_remove<A>(m: Multiset<A>, p: Multiset<A>, x: A)
    ensures
        m.insert(x).subset_of(p) <==> p.count(x) > 0 && m.subset_of(p.remove(x)),
{
    if m.insert(x).subset_of(p) {
        assert(m.insert(x).count(x) == m.count(x) + 1);
        assert forall|v: A| m.count(v) <= p.remove(x).count(v) by {
            if v == x {
                assert(m.insert(x).count(x) <= p.count(x));
            } else {
                assert(m.insert(x).count(v) == m.count(v));
            }
        }
    }
    if p.count(x) > 0 && m.subset_of(p.remove(x)) {
        assert forall|v: A| m.insert(x).count(v) <= p.count(v) by {
            if v == x {
                assert(m.count(x) <= p.remove(x).count(x));
            } else {
                assert(m.count(v) <= p.remove(x).count(v));
            }
        }
    }
}

/// A sequence's multiset decomposes at its first element.
pub proof fn lemma_to_multiset_first<A>(s: Seq<A>)
    requires
        s.len() > 0,
    ensures
        s.to_multiset() == s.drop_first().to_multiset().insert(s[0]),
{
    crate::parse::lemma_to_multiset_insert(s.drop_first(), 0, s[0]);
    assert(s.drop_first().insert(0, s[0]) =~= s);
}

/// The empty multiset fits into every multiset.
pub proof fn lemma_empty_subset<A>(s: Seq<A>, p: Multiset<A>)
    requires
        s.len() == 0,
    ensures
        s.to_multiset().subset_of(p),
{
    assert forall|v: A| s.to_multiset().count(v) <= p.count(v) by {
        assert(s.to_multiset().count(v) <= s.to_multiset().len());
    }
}

/// A formable word is never longer than the pool: folding keeps the length,
/// and a contained multiset is never the larger one.
pub proof fn lemma_formable_len(word: Seq<char>, pool: Seq<char>)
    requires
        crate::model::formable(word, pool),
    ensures
        word.len() <= pool.len(),
{
    let m = crate::model::fold_seq(word).to_multiset();
    let p = pool.to_multiset();
    assert(m.len() == word.len());
    assert(p.len() == pool.len());
    assert(p.sub(m).len() == p.len() - m.len());
}

/// Binary search for one letter in a sorted pool: the index of one
/// occurrence, or the certainty that there is none.
pub(crate) fn pool_search(letters: &Vec<char>, c: char) -> (r: Option<usize>)
    requires
        pool_sorted(letters@),
    ensures
        match r {
            Some(i) => i < letters@.len() && letters@[i as int] == c,
            None => !letters@.contains(c),
        },
{
    let mut lo: usize = 0;
    let mut hi: usize = letters.len();
    while lo < hi
        invariant
            lo <= hi <= letters@.len(),
            pool_sorted(letters@),
            forall|j: int| 0 <= j < lo ==> (#[trigger] letters@[j] as int) < c as int,
            forall|j: int| hi <= j < letters@.len() ==> (#[trigger] letters@[j] as int) > c as int,
        decreases hi - lo,
    {
        let mid = lo + (hi - lo) / 2;
        let v = letters[mid];
        if v == c {
            return Some(mid);
        }
        if v < c {
            lo = mid + 1;
        } else {
            hi = mid;
        }
    }
    None
}

/// Removing one element of a sorted pool keeps it sorted.
pub proof fn lemma_pool_sorted_remove(p: Seq<char>, i: int)
    requires
        pool_sorted(p),
        0 <= i < p.len(),
    ensures
        pool_sorted(p.remove(i)),
{
    let q = p.remove(i);
    assert forall|j: int, k: int| 0 <= j < k < q.len() implies (#[trigger] q[j] as int) <= (
    #[trigger] q[k] as int) by {
        if j < i && k < i {
            assert(q[j] == p[j] && q[k] == p[k]);
        } else if j < i {
            assert(q[j] == p[j] && q[k] == p[k + 1]);
        } else {
            assert(q[j] == p[j + 1] && q[k] == p[k + 1]);
        }
    }
}

} // verus!
