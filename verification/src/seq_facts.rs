//! Orderings on value sequences, and the facts about sequences, sets and
//! multisets that the data structures and the sorting algorithms share.

use vstd::multiset::Multiset;
use vstd::prelude::*;
use vstd::seq_lib::group_seq_properties;
use vstd::seq_lib::group_to_multiset_ensures;

verus! {

/// The sequence is in non-decreasing order.
pub open spec fn sorted(s: Seq<i64>) -> bool {
    forall|i: int, j: int| 0 <= i < j < s.len() ==> s[i] <= s[j]
}

/// The sequence is in increasing order, so it also holds no value twice.
pub open spec fn sorted_strict(s: Seq<i64>) -> bool {
    forall|i: int, j: int| 0 <= i < j < s.len() ==> s[i] < s[j]
}

/// Concatenating sequences adds their multisets of values.
pub proof fn lemma_concat_to_multiset<A>(a: Seq<A>, b: Seq<A>)
    ensures
        (a + b).to_multiset() == a.to_multiset().add(b.to_multiset()),
    decreases b.len(),
{
    broadcast use group_to_multiset_ensures;
    broadcast use vstd::multiset::group_multiset_axioms;

    if b.len() == 0 {
        assert(a + b =~= a);
        assert(b =~= Seq::<A>::empty());
        assert(b.to_multiset() =~= Multiset::<A>::empty());
        assert((a + b).to_multiset() =~= a.to_multiset().add(b.to_multiset()));
    } else {
        lemma_concat_to_multiset(a, b.drop_last());
        assert(a + b =~= (a + b.drop_last()).push(b.last()));
        assert(b =~= b.drop_last().push(b.last()));
        assert((a + b).to_multiset() =~= a.to_multiset().add(b.to_multiset()));
    }
}

/// Exchanging the values at two positions leaves the multiset of values
/// unchanged.
pub proof fn lemma_swap_preserves_multiset(s: Seq<i64>, i: int, j: int)
    requires
        0 <= i < s.len(),
        0 <= j < s.len(),
    ensures
        s.update(i, s[j]).update(j, s[i]).to_multiset() == s.to_multiset(),
{
    broadcast use group_to_multiset_ensures;
    broadcast use vstd::multiset::group_multiset_axioms;
    broadcast use vstd::multiset::group_multiset_properties;

    if i == j {
        assert(s.update(i, s[j]).update(j, s[i]) =~= s);
    } else {
        let s1 = s.update(i, s[j]);
        let s2 = s1.update(j, s[i]);
        assert(s1[j] == s[j]);
        assert(s1.to_multiset() == s.to_multiset().insert(s[j]).remove(s[i]));
        assert(s2.to_multiset() == s1.to_multiset().insert(s[i]).remove(s[j]));
        assert forall|x: i64| true implies s2.to_multiset().count(x) == s.to_multiset().count(
            x,
        ) by {
            assert(s.to_multiset().count(s[i]) > 0) by {
                assert(s.contains(s[i]));
            }
            assert(s.to_multiset().count(s[j]) > 0) by {
                assert(s.contains(s[j]));
            }
        }
        assert(s2.to_multiset() =~= s.to_multiset());
    }
}

/// Two sorted sequences holding the same multiset of values are the same
/// sequence.  So a sorting algorithm's output is pinned down by being sorted
/// and being a permutation of the input; in particular, sorting a sequence
/// that is already sorted returns it unchanged.
pub proof fn lemma_sorted_same_multiset_equal(a: Seq<i64>, b: Seq<i64>)
    requires
        sorted(a),
        sorted(b),
        a.to_multiset() == b.to_multiset(),
    ensures
        a == b,
    decreases a.len(),
{
    broadcast use group_to_multiset_ensures;
    broadcast use vstd::multiset::group_multiset_axioms;
    broadcast use vstd::multiset::group_multiset_properties;
    broadcast use group_seq_properties;

    assert(a.len() == b.len()) by {
        assert(a.to_multiset().len() == a.len());
        assert(b.to_multiset().len() == b.len());
    }
    if a.len() == 0 {
        assert(a =~= b);
    } else {
        assert(a =~= a.drop_last().push(a.last()));
        assert(b =~= b.drop_last().push(b.last()));
        assert(a.last() == b.last()) by {
            assert(a.to_multiset().count(a.last()) > 0);
            assert(b.contains(a.last()));
            let i = choose|i: int| 0 <= i < b.len() && b[i] == a.last();
            assert(a.last() <= b.last());
            assert(b.to_multiset().count(b.last()) > 0);
            assert(a.contains(b.last()));
            let j = choose|j: int| 0 <= j < a.len() && a[j] == b.last();
            assert(b.last() <= a.last());
        }
        assert(a.drop_last().to_multiset() =~= b.drop_last().to_multiset()) by {
            assert(a.to_multiset() == a.drop_last().to_multiset().insert(a.last()));
            assert(b.to_multiset() == b.drop_last().to_multiset().insert(b.last()));
            assert forall|x: i64| true implies a.drop_last().to_multiset().count(x)
                == b.drop_last().to_multiset().count(x) by {
                let ma = a.drop_last().to_multiset();
                let mb = b.drop_last().to_multiset();
                assert(ma.insert(a.last()).count(x) == mb.insert(b.last()).count(x));
                if x == a.last() {
                    assert(ma.insert(a.last()).count(x) == ma.count(x) + 1);
                    assert(mb.insert(b.last()).count(x) == mb.count(x) + 1);
                } else {
                    assert(ma.insert(a.last()).count(x) == ma.count(x));
                    assert(mb.insert(b.last()).count(x) == mb.count(x));
                }
            }
        }
        lemma_sorted_same_multiset_equal(a.drop_last(), b.drop_last());
        assert(a =~= b);
    }
}

} // verus!
