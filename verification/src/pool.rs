//! The available-letter pool: the weighted random draw behind pool
//! generation, and the pool's display form.

use vstd::prelude::*;

use crate::model::{drawn_from, pool_sorted, table_valid, upper_of};
use crate::parse::lemma_to_multiset_insert;
use rand::seq::SliceRandom;

verus! {

/// Inserts one letter into a sorted pool, keeping it sorted; the pool gains
/// exactly that letter.
pub(crate) fn insert_char_sorted(letters: &mut Vec<char>, c: char)
    requires
        pool_sorted(old(letters)@),
        old(letters)@.len() < usize::MAX,
    ensures
        final(letters)@.len() == old(letters)@.len() + 1,
        pool_sorted(final(letters)@),
        final(letters)@.to_multiset() == old(letters)@.to_multiset().insert(c),
        forall|j: int|
            0 <= j < final(letters)@.len() ==> old(letters)@.contains(#[trigger] final(letters)@[j])
                || final(letters)@[j] == c,
{
    let mut i: usize = letters.len();
    loop
        invariant
            i <= letters@.len(),
            letters@ == old(letters)@,
            forall|j: int| i <= j < letters@.len() ==> (#[trigger] letters@[j] as int) > c as int,
        ensures
            i <= letters@.len(),
            letters@ == old(letters)@,
            forall|j: int| i <= j < letters@.len() ==> (#[trigger] letters@[j] as int) > c as int,
            i > 0 ==> letters@[i - 1] as int <= c as int,
        decreases i,
    {
        if i == 0 {
            break ;
        }
        if letters[i - 1] <= c {
            break ;
        }
        i = i - 1;
    }
    let ghost gi = i as int;
    let ghost before = letters@;
    letters.insert(i, c);
    proof {
        lemma_to_multiset_insert(before, gi, c);
        assert forall|j: int|
            0 <= j < letters@.len() implies before.contains(#[trigger] letters@[j]) || letters@[j]
            == c by {
            if j < gi {
                assert(letters@[j] == before[j]);
            } else if j > gi {
                assert(letters@[j] == before[j - 1]);
            }
        }
    }
}

/// Relies on rand's `SliceRandom::choose_weighted` over `thread_rng`: on a
/// nonempty slice whose `u64` weights have a positive sum that does not
/// overflow, it returns `Ok` of one slice element, drawn with probability
/// proportional to its weight; an element of weight zero is never drawn.
#[verifier::external_body]
pub(crate) fn draw_weighted_letter(table: &Vec<(char, u64)>) -> (c: char)
    requires
        table_valid(table@),
    ensures
        drawn_from(table@, c),
{
    let pick = table.choose_weighted(&mut rand::thread_rng(), |p: &(char, u64)| p.1);
    pick.unwrap().0
}

/// Relies on `char::to_uppercase`: the Unicode uppercase mapping of the
/// character, which depends on the character alone.
#[verifier::external_body]
pub(crate) fn upper_char(c: char) -> (r: String)
    ensures
        r@ == upper_of(c),
{
    c.to_uppercase().collect()
}

} // verus!
