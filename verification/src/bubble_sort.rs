//! Bubble sort: repeated passes exchange adjacent values that are out of
//! order, floating the largest remaining value to the end of the unsorted
//! prefix; a pass that exchanges nothing ends the sort early.

use crate::seq_facts::lemma_swap_preserves_multiset;
use crate::seq_facts::sorted;
use vstd::prelude::*;

verus! {

/// Sorts `array` in place into non-decreasing order; the stored values are
/// kept, with their multiplicities.
pub fn sort(array: &mut Vec<i64>)
    ensures
        sorted(final(array)@),
        final(array)@.to_multiset() == old(array)@.to_multiset(),
{
    let mut i = array.len();

    while i > 1
        invariant
            i <= array.len(),
            array@.len() == old(array)@.len(),
            array@.to_multiset() == old(array)@.to_multiset(),
            forall|a: int, b: int| i <= a < b < array@.len() ==> array@[a] <= array@[b],
            forall|a: int, b: int|
                0 <= a < i && i <= b < array@.len() ==> array@[a] <= array@[b],
        ensures
            sorted(array@),
            array@.to_multiset() == old(array)@.to_multiset(),
        decreases i,
    {
        let mut no_swap = true;
        let mut j: usize = 0;

        while j < i - 1
            invariant
                1 < i <= array.len(),
                j <= i - 1,
                array@.len() == old(array)@.len(),
                array@.to_multiset() == old(array)@.to_multiset(),
                forall|a: int, b: int| i <= a < b < array@.len() ==> array@[a] <= array@[b],
                forall|a: int, b: int|
                    0 <= a < i && i <= b < array@.len() ==> array@[a] <= array@[b],
                forall|k: int| 0 <= k <= j ==> array@[k] <= array@[j as int],
                no_swap ==> forall|a: int, b: int| 0 <= a < b <= j ==> array@[a] <= array@[b],
            decreases i - j,
        {
            if array[j] > array[j + 1] {
                let ghost before = array@;
                let lower = array[j + 1];
                let upper = array[j];
                array[j] = lower;
                array[j + 1] = upper;
                no_swap = false;
                proof {
                    lemma_swap_preserves_multiset(before, j as int, j + 1);
                    assert(array@ =~= before.update(j as int, before[j + 1]).update(
                        j + 1,
                        before[j as int],
                    ));
                }
            }
            j = j + 1;
        }

        if no_swap {
            break ;
        }
        i = i - 1;
    }
}

} // verus!
