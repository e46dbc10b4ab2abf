//! Selection sort: each round finds the smallest value of the unsorted
//! suffix and exchanges it into the next position of the sorted prefix.

use crate::seq_facts::lemma_swap_preserves_multiset;
use crate::seq_facts::sorted;
use vstd::prelude::*;

verus! {

/// Sorts `array` in place into non-decreasing order; the stored values are
/// kept, with their multiplicities.
pub fn sort(array: &mut Vec<i64>)
    ensures
        sorted(final(array)@),
        final(array)@.to_multiset() == old(array)@.to_multiset(),
{
    let end = array.len();
    for i in 0..end
        invariant
            end == array@.len(),
            array@.len() == old(array)@.len(),
            array@.to_multiset() == old(array)@.to_multiset(),
            forall|a: int, b: int| 0 <= a < b < i ==> array@[a] <= array@[b],
            forall|a: int, b: int|
                0 <= a < i && i <= b < array@.len() ==> array@[a] <= array@[b],
    {
        let mut lowest = i;

        let ghost snapshot = array@;
        for j in i..end
            invariant
                end == array@.len(),
                i < array@.len(),
                i <= lowest < array@.len(),
                array@ == snapshot,
                forall|k: int| i <= k < j ==> array@[lowest as int] <= array@[k],
        {
            if array[lowest] > array[j] {
                lowest = j;
            }
        }

        if lowest != i {
            let ghost before = array@;
            let smallest = array[lowest];
            let displaced = array[i];
            array[i] = smallest;
            array[lowest] = displaced;
            proof {
                lemma_swap_preserves_multiset(before, i as int, lowest as int);
                assert(array@ =~= before.update(i as int, before[lowest as int]).update(
                    lowest as int,
                    before[i as int],
                ));
            }
        }
    }
}

} // verus!
