//! Lexicographic order on words and entries: its laws and the executable
//! three-way comparisons that the sorted dictionary rests on.

use vstd::prelude::*;

use crate::model::{entry_le, entry_lt, lex_lt};

verus! {

/// No word is lexicographically below itself.
pub proof fn lemma_lex_lt_irreflexive(a: Seq<char>)
    ensures
        !lex_lt(a, a),
    decreases a.len(),
{
    if a.len() > 0 {
        lemma_lex_lt_irreflexive(a.drop_first());
    }
}

/// Two words are either equal or strictly ordered, one way and not both.
pub proof fn lemma_lex_trichotomy(a: Seq<char>, b: Seq<char>)
    ensures
        lex_lt(a, b) || lex_lt(b, a) || a == b,
        lex_lt(a, b) ==> !lex_lt(b, a) && a != b,
        lex_lt(b, a) ==> !lex_lt(a, b) && a != b,
    decreases a.len(),
{
    lemma_lex_lt_irreflexive(a);
    lemma_lex_lt_irreflexive(b);
    if a.len() == 0 && b.len() == 0 {
        assert(a =~= b);
    }
    if a.len() > 0 && b.len() > 0 && a[0] == b[0] {
        lemma_lex_trichotomy(a.drop_first(), b.drop_first());
        if a.drop_first() == b.drop_first() {
            assert(a =~= b) by {
                assert(a.len() == b.len());
                assert forall|i: int| 0 < i < a.len() implies a[i] == b[i] by {
                    assert(a[i] == a.drop_first()[i - 1]);
                    assert(b[i] == b.drop_first()[i - 1]);
                }
            }
        }
    }
}

/// Strict lexicographic order is transitive.
pub proof fn lemma_lex_lt_transitive(a: Seq<char>, b: Seq<char>, c: Seq<char>)
    requires
        lex_lt(a, b),
        lex_lt(b, c),
    ensures
        lex_lt(a, c),
    decreases a.len(),
{
    if a.len() > 0 && b.len() > 0 && c.len() > 0 && a[0] == b[0] && b[0] == c[0] {
        lemma_lex_lt_transitive(a.drop_first(), b.drop_first(), c.drop_first());
    }
}

/// A word whose characters match `b` up to an index where its character is
/// smaller stands lexicographically below `b`.
pub proof fn lemma_lex_lt_from_position(a: Seq<char>, b: Seq<char>, i: int)
    requires
        0 <= i < a.len(),
        i < b.len(),
        a.take(i) == b.take(i),
        (a[i] as int) < (b[i] as int),
    ensures
        lex_lt(a, b),
    decreases i,
{
    if i == 0 {
        assert(a[0] != b[0]);
    } else {
        assert(a[0] == b[0]) by {
            assert(a.take(i)[0] == a[0]);
            assert(b.take(i)[0] == b[0]);
        }
        assert(a.drop_first().take(i - 1) == b.drop_first().take(i - 1)) by {
            assert(a.drop_first().take(i - 1) =~= a.take(i).drop_first());
            assert(b.drop_first().take(i - 1) =~= b.take(i).drop_first());
        }
        lemma_lex_lt_from_position(a.drop_first(), b.drop_first(), i - 1);
    }
}

/// A proper prefix stands lexicographically below the longer word.
pub proof fn lemma_lex_lt_prefix(a: Seq<char>, b: Seq<char>)
    requires
        a.len() < b.len(),
        a == b.take(a.len() as int),
    ensures
        lex_lt(a, b),
    decreases a.len(),
{
    if a.len() > 0 {
        assert(a[0] == b[0]) by {
            assert(b.take(a.len() as int)[0] == b[0]);
            assert(a[0] == b.take(a.len() as int)[0]);
        }
        assert(a.drop_first() == b.drop_first().take(a.drop_first().len() as int)) by {
            assert(a.drop_first() =~= b.drop_first().take(a.len() - 1));
        }
        lemma_lex_lt_prefix(a.drop_first(), b.drop_first());
    }
}

/// Entry order is irreflexive, trichotomous and transitive, so `entry_le` is
/// a total order on entries.
pub proof fn lemma_entry_order(a: (Seq<char>, int), b: (Seq<char>, int), c: (Seq<char>, int))
    ensures
        !entry_lt(a, a),
        entry_lt(a, b) || entry_lt(b, a) || a == b,
        entry_lt(a, b) ==> !entry_lt(b, a) && a != b,
        entry_lt(a, b) && entry_lt(b, c) ==> entry_lt(a, c),
        entry_le(a, b) && entry_le(b, c) ==> entry_le(a, c),
{
    lemma_lex_lt_irreflexive(a.0);
    lemma_lex_trichotomy(a.0, b.0);
    lemma_lex_trichotomy(b.0, c.0);
    lemma_lex_trichotomy(a.0, c.0);
    if lex_lt(a.0, b.0) && lex_lt(b.0, c.0) {
        lemma_lex_lt_transitive(a.0, b.0, c.0);
    }
}

/// Three-way comparison of two words in lexicographic order.
pub(crate) fn cmp_words(a: &str, b: &str) -> (r: i8)
    ensures
        r == -1i8 || r == 0i8 || r == 1i8,
        (r == -1i8) <==> lex_lt(a@, b@),
        (r == 0i8) <==> a@ == b@,
        (r == 1i8) <==> lex_lt(b@, a@),
{
    let la = a.unicode_len();
    let lb = b.unicode_len();
    let mut i: usize = 0;
    proof {
        assert(a@.take(0) =~= b@.take(0));
    }
    while i < la && i < lb
        invariant
            i <= la,
            i <= lb,
            la == a@.len(),
            lb == b@.len(),
            a@.take(i as int) == b@.take(i as int),
        decreases la - i,
    {
        let ca = a.get_char(i);
        let cb = b.get_char(i);
        if ca < cb {
            proof {
                lemma_lex_lt_from_position(a@, b@, i as int);
                lemma_lex_trichotomy(a@, b@);
            }
            return -1;
        }
        if cb < ca {
            proof {
                lemma_lex_lt_from_position(b@, a@, i as int);
                lemma_lex_trichotomy(a@, b@);
            }
            return 1;
        }
        proof {
            assert(a@.take(i + 1) =~= b@.take(i + 1));
        }
        i = i + 1;
    }
    if la < lb {
        proof {
            assert(a@.take(i as int) =~= a@);
            lemma_lex_lt_prefix(a@, b@);
            lemma_lex_trichotomy(a@, b@);
        }
        -1
    } else if lb < la {
        proof {
            assert(b@.take(i as int) =~= b@);
            lemma_lex_lt_prefix(b@, a@);
            lemma_lex_trichotomy(a@, b@);
        }
        1
    } else {
        proof {
            assert(a@.take(i as int) =~= a@);
            assert(b@.take(i as int) =~= b@);
            lemma_lex_lt_irreflexive(a@);
        }
        0
    }
}

/// Three-way comparison of two dictionary entries: by word, then by recorded
/// character count.
pub(crate) fn cmp_entries(a: (&str, usize), b: (&str, usize)) -> (r: i8)
    ensures
        r == -1i8 || r == 0i8 || r == 1i8,
        (r == -1i8) <==> entry_lt((a.0@, a.1 as int), (b.0@, b.1 as int)),
        (r == 1i8) <==> entry_lt((b.0@, b.1 as int), (a.0@, a.1 as int)),
        (r == 0i8) <==> (a.0@ == b.0@ && a.1 == b.1),
{
    proof {
        lemma_lex_trichotomy(a.0@, b.0@);
    }
    let w = cmp_words(a.0, b.0);
    if w != 0 {
        w
    } else if a.1 < b.1 {
        -1
    } else if b.1 < a.1 {
        1
    } else {
        0
    }
}

} // verus!
