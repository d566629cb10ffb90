//! Building the sorted dictionary: facts about line splitting and the sorted
//! insertion that parsing rests on.

use vstd::prelude::*;

use crate::model::{
    char_total, dict_lens_ok, dict_sorted, dict_view, entry_le, entry_lt, first_newline,
    parse_lines, strip_cr,
};
use crate::order::{cmp_entries, lemma_entry_order};

verus! {

broadcast use vstd::seq_lib::group_seq_lib_default, vstd::multiset::group_multiset_axioms;

/// `first_newline` names the position of the first line feed: a prefix free
/// of line feeds that ends at one (or at the end of the text) pins it.
pub proof fn lemma_first_newline_at(text: Seq<char>, k: int)
    requires
        0 <= k <= text.len(),
        forall|j: int| 0 <= j < k ==> text[j] != '\n',
        k < text.len() ==> text[k] == '\n',
    ensures
        first_newline(text) == k,
    decreases k,
{
    if text.len() == 0 {
    } else if text[0] == '\n' {
    } else {
        assert(k > 0);
        lemma_first_newline_at(text.drop_first(), k - 1);
    }
}

/// Inserting an element anywhere in a sequence inserts it into the
/// sequence's multiset.
pub proof fn lemma_to_multiset_insert<A>(s: Seq<A>, i: int, a: A)
    requires
        0 <= i <= s.len(),
    ensures
        s.insert(i, a).to_multiset() == s.to_multiset().insert(a),
    decreases s.len(),
{
    broadcast use vstd::seq_lib::group_to_multiset_ensures;

    if i == s.len() {
        assert(s.insert(i, a) =~= s.push(a));
    } else {
        let t = s.insert(i, a);
        let last = s.last();
        assert(t.drop_last() =~= s.drop_last().insert(i, a));
        lemma_to_multiset_insert(s.drop_last(), i, a);
        assert(t =~= t.drop_last().push(t.last()));
        assert(s =~= s.drop_last().push(last));
        assert(t.last() == last);
        assert(t.to_multiset() =~= s.to_multiset().insert(a)) by {
            assert(t.to_multiset() =~= t.drop_last().to_multiset().insert(last));
            assert(s.to_multiset() =~= s.drop_last().to_multiset().insert(last));
        }
    }
}

/// Inserting an entry adds exactly its own character count to the total.
pub proof fn lemma_char_total_insert(d: Seq<(Seq<char>, int)>, i: int, e: (Seq<char>, int))
    requires
        0 <= i <= d.len(),
    ensures
        char_total(d.insert(i, e)) == char_total(d) + e.0.len(),
    decreases d.len(),
{
    let t = d.insert(i, e);
    if i == 0 {
        assert(t[0] == e);
        assert(t.drop_first() =~= d);
    } else {
        assert(t[0] == d[0]);
        assert(t.drop_first() =~= d.drop_first().insert(i - 1, e));
        lemma_char_total_insert(d.drop_first(), i - 1, e);
    }
}

/// The first line feed is never past the end of the text.
pub proof fn lemma_first_newline_le(text: Seq<char>)
    ensures
        first_newline(text) <= text.len(),
    decreases text.len(),
{
    if text.len() > 0 && text[0] != '\n' {
        lemma_first_newline_le(text.drop_first());
    }
}

/// Every entry that parsing yields pairs a nonempty word with its own
/// character count.
pub proof fn lemma_parse_lines_wf(text: Seq<char>)
    ensures
        forall|j: int|
            0 <= j < parse_lines(text).len() ==> (#[trigger] parse_lines(text)[j]).1
                == parse_lines(text)[j].0.len() && parse_lines(text)[j].0.len() > 0,
    decreases text.len(),
{
    if text.len() > 0 {
        lemma_first_newline_le(text);
        let k = first_newline(text) as int;
        let line = strip_cr(text.take(k));
        let rest = if k < text.len() {
            parse_lines(text.skip(k + 1))
        } else {
            Seq::<(Seq<char>, int)>::empty()
        };
        if k < text.len() {
            lemma_parse_lines_wf(text.skip(k + 1));
        }
        let pl = parse_lines(text);
        if line.len() > 0 {
            assert(pl == seq![(line, line.len() as int)] + rest);
            assert forall|j: int|
                0 <= j < pl.len() implies (#[trigger] pl[j]).1 == pl[j].0.len() && pl[j].0.len()
                > 0 by {
                if j == 0 {
                    assert(pl[0] == (line, line.len() as int));
                } else {
                    assert(pl[j] == rest[j - 1]);
                }
            }
        }
    }
}

/// Sequences with one multiset have one character total: the sum does not
/// depend on the order of the entries.
pub proof fn lemma_char_total_multiset(s1: Seq<(Seq<char>, int)>, s2: Seq<(Seq<char>, int)>)
    requires
        s1.to_multiset() == s2.to_multiset(),
    ensures
        char_total(s1) == char_total(s2),
    decreases s1.len(),
{
    broadcast use vstd::seq_lib::group_to_multiset_ensures;

    if s1.len() == 0 {
        assert(s2.len() == s2.to_multiset().len());
    } else {
        let e = s1[0];
        assert(s1.contains(e));
        assert(s2.to_multiset().count(e) > 0);
        assert(s2.contains(e));
        let j = choose|j: int| 0 <= j < s2.len() && s2[j] == e;
        assert(s1.drop_first().to_multiset() =~= s2.remove(j).to_multiset()) by {
            assert(s1.drop_first().insert(0, e) =~= s1);
            lemma_to_multiset_insert(s1.drop_first(), 0, e);
        }
        lemma_char_total_multiset(s1.drop_first(), s2.remove(j));
        assert(s2.remove(j).insert(j, e) =~= s2);
        lemma_char_total_insert(s2.remove(j), j, e);
    }
}

/// Inserts one entry into a dictionary kept sorted by entry order, keeping it
/// sorted; the dictionary gains exactly that entry.
pub(crate) fn insert_entry_sorted<'a>(dict: &mut Vec<(&'a str, usize)>, e: (&'a str, usize))
    requires
        dict_sorted(dict_view(old(dict)@)),
        old(dict)@.len() < usize::MAX,
    ensures
        final(dict)@.len() == old(dict)@.len() + 1,
        dict_sorted(dict_view(final(dict)@)),
        dict_view(final(dict)@).to_multiset() == dict_view(old(dict)@).to_multiset().insert(
            (e.0@, e.1 as int),
        ),
        char_total(dict_view(final(dict)@)) == char_total(dict_view(old(dict)@)) + e.0@.len(),
        dict_lens_ok(dict_view(old(dict)@)) && e.1 == e.0@.len() ==> dict_lens_ok(
            dict_view(final(dict)@),
        ),
{
    let ghost ev = (e.0@, e.1 as int);
    let ghost dv = dict_view(dict@);
    let mut i: usize = dict.len();
    loop
        invariant
            i <= dict@.len(),
            dict@ == old(dict)@,
            ev == (e.0@, e.1 as int),
            dv == dict_view(dict@),
            forall|j: int| i <= j < dv.len() ==> entry_lt(ev, #[trigger] dv[j]),
        ensures
            i <= dict@.len(),
            dict@ == old(dict)@,
            forall|j: int| i <= j < dv.len() ==> entry_lt(ev, #[trigger] dv[j]),
            i > 0 ==> entry_le(dv[i - 1], ev),
        decreases i,
    {
        if i == 0 {
            break ;
        }
        let prev = dict[i - 1];
        proof {
            assert(dv[i - 1] == (prev.0@, prev.1 as int));
        }
        let c = cmp_entries(e, prev);
        if c != -1 {
            proof {
                if c == 0 {
                    assert(ev == dv[i - 1]);
                }
            }
            break ;
        }
        i = i - 1;
    }
    let ghost gi = i as int;
    dict.insert(i, e);
    proof {
        let nv = dict_view(dict@);
        assert(nv =~= dv.insert(gi, ev)) by {
            assert(dict@ == old(dict)@.insert(gi, e));
            assert forall|j: int| 0 <= j < nv.len() implies nv[j] == dv.insert(gi, ev)[j] by {
                if j < gi {
                    assert(dict@[j] == old(dict)@[j]);
                } else if j == gi {
                    assert(dict@[j] == e);
                } else {
                    assert(dict@[j] == old(dict)@[j - 1]);
                }
            }
        }
        lemma_to_multiset_insert(dv, gi, ev);
        lemma_char_total_insert(dv, gi, ev);
        assert forall|j: int, k: int| 0 <= j < k < nv.len() implies entry_le(
            #[trigger] nv[j],
            #[trigger] nv[k],
        ) by {
            lemma_entry_order(nv[j], nv[k], ev);
            if j < gi && k > gi {
                lemma_entry_order(dv[j], ev, dv[k - 1]);
                lemma_entry_order(dv[j], dv[gi - 1], ev);
            } else if j == gi {
                lemma_entry_order(ev, dv[k - 1], dv[k - 1]);
            } else if k == gi {
                lemma_entry_order(dv[j], dv[gi - 1], ev);
            }
        }
    }
}

} // verus!
