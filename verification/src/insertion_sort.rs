//! Insertion sort: each value is exchanged downwards through the already
//! sorted prefix until it reaches its position.

use crate::seq_facts::lemma_swap_preserves_multiset;
use crate::seq_facts::sorted;
use vstd::prelude::*;

verus! {

/// Sorts `array` in place into non-decreasing order; the stored values are
/// kept, with their multiplicities.
pub fn sort(array: &mut Vec<i64>)
    ensures
        sorted(final(array)@),
        final(array)@.to_multiset() == old(array)@.to_multiset(),
{
    if array.len() < 2 {
        return ;
    }

    let end = array.len();
    for i in 1..end
        invariant
            end == array@.len(),
            array@.len() == old(array)@.len(),
            array@.to_multiset() == old(array)@.to_multiset(),
            forall|a: int, b: int| 0 <= a < b < i ==> array@[a] <= array@[b],
    {
        let current_value = array[i];

        let mut j = i - 1;
        while array[j] > current_value
            invariant_except_break
                end == array@.len(),
                1 <= i < array@.len(),
                j < i,
                array@[j + 1] == current_value,
                array@.len() == old(array)@.len(),
                array@.to_multiset() == old(array)@.to_multiset(),
                forall|a: int, b: int|
                    0 <= a < b <= i && a != j + 1 && b != j + 1 ==> array@[a] <= array@[b],
                forall|k: int| j + 1 < k <= i ==> current_value < array@[k],
            ensures
                array@.len() == old(array)@.len(),
                end == array@.len(),
                array@.to_multiset() == old(array)@.to_multiset(),
                forall|a: int, b: int| 0 <= a < b <= i ==> array@[a] <= array@[b],
            decreases j,
        {
            let ghost before = array@;
            let larger = array[j];
            array[j] = current_value;
            array[j + 1] = larger;
            proof {
                lemma_swap_preserves_multiset(before, j as int, j + 1);
                assert(array@ =~= before.update(j as int, before[j + 1]).update(
                    j + 1,
                    before[j as int],
                ));
            }

            if j == 0 {
                break ;
            }
            j = j - 1;
        }
    }
}

} // verus!
