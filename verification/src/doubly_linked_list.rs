//! A doubly linked list: a bidirectional chain of nodes supporting pushes and
//! pops at both ends, indexed reads and writes, and removal at any position.
//!
//! The nodes live in an arena (one vector of slots) and refer to their
//! neighbours by optional slot indices instead of owning pointers, so the
//! bidirectional links form no ownership cycle and releasing the arena
//! releases every node.  A ghost sequence records which arena slot holds the
//! element at each list position; the invariant ties the stored length, the
//! head and tail indices and every `next`/`previous` link to that sequence.

use vstd::prelude::*;
use vstd::set_lib::lemma_int_range;
use vstd::set_lib::lemma_len_subset;
use vstd::set_lib::set_int_range;

verus! {

/// One arena slot: a stored value and the slot indices of its neighbours.
#[derive(Clone, Copy)]
struct Entry {
    value: i64,
    next: Option<usize>,
    previous: Option<usize>,
}

pub struct DoublyLinkedList {
    /// The arena holding every node, live or vacated.
    nodes: Vec<Entry>,
    /// Vacated arena slots, available for reuse.
    free: Vec<usize>,
    /// Arena index of the first node, if any.
    head: Option<usize>,
    /// Arena index of the last node, if any.
    tail: Option<usize>,
    /// Number of nodes reachable from the head.
    length: usize,
    /// Arena index of the node at each list position, front to back.
    order: Ghost<Seq<usize>>,
}

/// A sequence of distinct indices below `n` cannot hold more than `n` of them.
proof fn lemma_distinct_indices_bounded(s: Seq<usize>, n: nat)
    requires
        s.no_duplicates(),
        forall|k: int| 0 <= k < s.len() ==> (#[trigger] s[k]) < n,
    ensures
        s.len() <= n,
{
    let t = s.map_values(|u: usize| u as int);
    assert forall|i: int, j: int| 0 <= i < t.len() && 0 <= j < t.len() && i != j implies t[i]
        != t[j] by {
        assert(s[i] != s[j]);
    }
    t.unique_seq_to_set();
    assert(t.to_set().subset_of(set_int_range(0, n as int))) by {
        assert forall|x: int| t.to_set().contains(x) implies set_int_range(0, n as int).contains(
            x,
        ) by {
            let k = choose|k: int| 0 <= k < t.len() && t[k] == x;
            assert(s[k] < n);
        }
    }
    lemma_int_range(0, n as int);
    lemma_len_subset(t.to_set(), set_int_range(0, n as int));
}

impl View for DoublyLinkedList {
    type V = Seq<i64>;

    /// A list is modelled as the sequence of its values from head to tail.
    closed spec fn view(&self) -> Seq<i64> {
        Seq::new(self.order@.len(), |k: int| self.nodes@[self.order@[k] as int].value)
    }
}

impl DoublyLinkedList {
    /// The arena bookkeeping: every recorded index points into the arena, and
    /// the free slots are distinct and disjoint from the live chain.
    spec fn arena_ok(self) -> bool {
        &&& forall|k: int|
            0 <= k < self.order@.len() ==> (#[trigger] self.order@[k]) < self.nodes@.len()
        &&& self.free@.no_duplicates()
        &&& forall|k: int|
            0 <= k < self.free@.len() ==> (#[trigger] self.free@[k]) < self.nodes@.len()
        &&& forall|k: int|
            0 <= k < self.free@.len() ==> !self.order@.contains(#[trigger] self.free@[k])
    }

    /// The list invariant.  The length counts the chain; the head holds the
    /// first position's slot and its `previous` is always empty; the tail
    /// holds the last position's slot and its `next` is always empty; and any
    /// two adjacent positions point at each other through `next` and
    /// `previous`.
    pub closed spec fn wf(self) -> bool {
        let ord = self.order@;
        &&& self.arena_ok()
        &&& ord.no_duplicates()
        &&& self.length == ord.len()
        &&& self.head == (if ord.len() == 0 {
            Option::<usize>::None
        } else {
            Some(ord[0])
        })
        &&& self.tail == (if ord.len() == 0 {
            Option::<usize>::None
        } else {
            Some(ord[ord.len() - 1])
        })
        &&& forall|k: int|
            0 <= k < ord.len() ==> self.nodes@[#[trigger] ord[k] as int].previous == (if k == 0 {
                Option::<usize>::None
            } else {
                Some(ord[k - 1])
            })
        &&& forall|k: int|
            0 <= k < ord.len() ==> self.nodes@[#[trigger] ord[k] as int].next == (if k == ord.len()
                - 1 {
                Option::<usize>::None
            } else {
                Some(ord[k + 1])
            })
    }

    pub fn new() -> (list: Self)
        ensures
            list.wf(),
            list@ == Seq::<i64>::empty(),
    {
        Self::default()
    }

    pub fn len(&self) -> (n: usize)
        requires
            self.wf(),
        ensures
            n == self@.len(),
    {
        self.length
    }

    pub fn is_empty(&self) -> (empty: bool)
        requires
            self.wf(),
        ensures
            empty == (self@.len() == 0),
    {
        self.len() == 0
    }

    /// Stores `entry` in a vacated arena slot if one is available, in a fresh
    /// slot otherwise, and returns the slot's index.  The chain itself (the
    /// recorded order, head, tail and length, and every other slot) is left
    /// untouched.
    fn reserve_slot(&mut self, entry: Entry) -> (idx: usize)
        requires
            old(self).arena_ok(),
        ensures
            final(self).arena_ok(),
            final(self).head == old(self).head,
            final(self).tail == old(self).tail,
            final(self).length == old(self).length,
            final(self).order == old(self).order,
            idx < final(self).nodes@.len(),
            final(self).nodes@[idx as int] == entry,
            !final(self).order@.contains(idx),
            !final(self).free@.contains(idx),
            old(self).nodes@.len() <= final(self).nodes@.len(),
            forall|j: int|
                0 <= j < final(self).nodes@.len() && j != idx ==> j < old(self).nodes@.len()
                    && #[trigger] final(self).nodes@[j] == old(self).nodes@[j],
    {
        match self.free.pop() {
            Some(idx) => {
                proof {
                    let freed = old(self).free@;
                    assert(freed[freed.len() - 1] == idx);
                    assert(!self.free@.contains(idx)) by {
                        if self.free@.contains(idx) {
                            let k = choose|k: int|
                                0 <= k < self.free@.len() && self.free@[k] == idx;
                            assert(freed[k] == freed[freed.len() - 1]);
                        }
                    }
                    assert forall|k: int| 0 <= k < self.free@.len() implies !self.order@.contains(
                        #[trigger] self.free@[k],
                    ) by {
                        assert(freed[k] == self.free@[k]);
                    }
                }
                self.nodes[idx] = entry;
                idx
            }
            None => {
                let idx = self.nodes.len();
                self.nodes.push(entry);
                proof {
                    assert(!self.order@.contains(idx)) by {
                        if self.order@.contains(idx) {
                            let k = choose|k: int|
                                0 <= k < self.order@.len() && self.order@[k] == idx;
                            assert(old(self).order@[k] < old(self).nodes@.len());
                        }
                    }
                }
                idx
            }
        }
    }

    /// Appends `value` at the tail.
    pub fn push(&mut self, value: i64)
        requires
            old(self).wf(),
        ensures
            final(self).wf(),
            final(self)@ == old(self)@.push(value),
    {
        let entry = Entry { value, next: None, previous: self.tail };
        let idx = self.reserve_slot(entry);
        let ghost mid = *self;

        match self.tail {
            Some(t) => {
                let tail_entry = self.nodes[t];
                self.nodes[t] = Entry {
                    value: tail_entry.value,
                    next: Some(idx),
                    previous: tail_entry.previous,
                };
            }
            None => {
                self.head = Some(idx);
            }
        }
        self.tail = Some(idx);

        proof {
            let ord = old(self).order@;
            let ord2 = ord.push(idx);
            assert(ord2.no_duplicates()) by {
                assert forall|i: int, j: int|
                    0 <= i < ord2.len() && 0 <= j < ord2.len() && i != j implies ord2[i]
                    != ord2[j] by {
                    if i < ord.len() && j < ord.len() {
                        assert(ord[i] != ord[j]);
                    } else if i < ord.len() {
                        assert(ord.contains(ord[i]));
                    } else {
                        assert(ord.contains(ord[j]));
                    }
                }
            }
            lemma_distinct_indices_bounded(ord2, self.nodes@.len());
            assert(self.nodes.len() == self.nodes@.len());
        }
        self.length = self.length + 1;
        proof {
            self.order@ = self.order@.push(idx);
        }

        proof {
            let ord = old(self).order@;
            let ord2 = self.order@;
            if ord.len() > 0 {
                let t = ord[ord.len() - 1];
                assert(mid.nodes@[t as int] == old(self).nodes@[t as int]);
                assert forall|k: int| 0 <= k < ord2.len() implies self.nodes@[
                    #[trigger] ord2[k] as int
                ].previous == (if k == 0 {
                    Option::<usize>::None
                } else {
                    Some(ord2[k - 1])
                }) by {
                    if k < ord.len() {
                        assert(ord[k] != idx);
                        if ord[k] != t {
                            assert(self.nodes@[ord[k] as int] == old(self).nodes@[ord[k] as int]);
                        }
                    }
                }
                assert forall|k: int| 0 <= k < ord2.len() implies self.nodes@[
                    #[trigger] ord2[k] as int
                ].next == (if k == ord2.len() - 1 {
                    Option::<usize>::None
                } else {
                    Some(ord2[k + 1])
                }) by {
                    if k < ord.len() {
                        assert(ord[k] != idx);
                        if ord[k] != t {
                            assert(self.nodes@[ord[k] as int] == old(self).nodes@[ord[k] as int]);
                        } else {
                            assert(k == ord.len() - 1);
                        }
                    }
                }
            }
            assert forall|k: int| 0 <= k < self.free@.len() implies !ord2.contains(
                #[trigger] self.free@[k],
            ) by {
                assert(!mid.free@.contains(idx));
                if ord2.contains(self.free@[k]) {
                    let j = choose|j: int| 0 <= j < ord2.len() && ord2[j] == self.free@[k];
                    if j < ord.len() {
                        assert(ord.contains(ord[j]));
                    } else {
                        assert(mid.free@.contains(idx));
                    }
                }
            }
            assert(final(self)@ =~= old(self)@.push(value)) by {
                assert forall|k: int| 0 <= k < ord.len() implies self.nodes@[ord[k] as int].value
                    == old(self).nodes@[ord[k] as int].value by {
                    assert(ord[k] != idx);
                }
            }
        }
    }
}

impl DoublyLinkedList {
    /// Removes the tail value and returns it; `None` on an empty list.
    pub fn pop(&mut self) -> (popped: Option<i64>)
        requires
            old(self).wf(),
        ensures
            final(self).wf(),
            old(self)@.len() == 0 ==> popped is None && *final(self) == *old(self),
            old(self)@.len() > 0 ==> popped == Some(old(self)@.last()) && final(self)@ == old(
                self,
            )@.drop_last(),
    {
        let ghost ord = old(self).order@;
        let ghost n = ord.len() as int;
        match self.tail {
            None => None,
            Some(t) => {
                proof {
                    assert(t == ord[n - 1]);
                    assert(ord[n - 1] < self.nodes@.len());
                }
                let entry = self.nodes[t];
                match entry.previous {
                    Some(p) => {
                        proof {
                            assert(n >= 2 && p == ord[n - 2]);
                            assert(ord[n - 2] < self.nodes@.len());
                        }
                        let prev_entry = self.nodes[p];
                        self.nodes[p] = Entry {
                            value: prev_entry.value,
                            next: None,
                            previous: prev_entry.previous,
                        };
                        self.tail = Some(p);
                    }
                    None => {
                        proof {
                            assert(n == 1);
                        }
                        self.head = None;
                        self.tail = None;
                    }
                }
                proof {
                    assert(ord.contains(t));
                    assert forall|i: int, j: int|
                        0 <= i < self.free@.len() + 1 && 0 <= j < self.free@.len() + 1 && i
                            != j implies #[trigger] self.free@.push(t)[i] != #[trigger] self.free@.push(
                        t,
                    )[j] by {
                        if i < self.free@.len() && j < self.free@.len() {
                            assert(old(self).free@[i] != old(self).free@[j]);
                        }
                    }
                }
                self.free.push(t);
                self.length = self.length - 1;
                proof {
                    self.order@ = self.order@.drop_last();
                }
                proof {
                    let ord2 = self.order@;
                    assert forall|i: int, j: int|
                        0 <= i < ord2.len() && 0 <= j < ord2.len() && i != j implies ord2[i]
                        != ord2[j] by {
                        assert(ord[i] != ord[j]);
                    }
                    assert(!ord2.contains(t)) by {
                        if ord2.contains(t) {
                            let k = choose|k: int| 0 <= k < ord2.len() && ord2[k] == t;
                            assert(ord[k] == ord[n - 1]);
                        }
                    }
                    assert forall|k: int| 0 <= k < self.free@.len() implies !ord2.contains(
                        #[trigger] self.free@[k],
                    ) by {
                        if k < self.free@.len() - 1 {
                            assert(self.free@[k] == old(self).free@[k]);
                            assert(!ord.contains(old(self).free@[k]));
                            if ord2.contains(self.free@[k]) {
                                let j = choose|j: int|
                                    0 <= j < ord2.len() && ord2[j] == self.free@[k];
                                assert(ord[j] == self.free@[k]);
                                assert(ord.contains(ord[j]));
                            }
                        } else {
                            assert(self.free@[k] == t);
                        }
                    }
                    if n >= 2 {
                        let p = ord[n - 2];
                        assert forall|k: int| 0 <= k < ord2.len() implies self.nodes@[
                            #[trigger] ord2[k] as int
                        ].previous == (if k == 0 {
                            Option::<usize>::None
                        } else {
                            Some(ord2[k - 1])
                        }) by {
                            assert(ord2[k] == ord[k]);
                            if ord[k] != p {
                                assert(self.nodes@[ord[k] as int] == old(self).nodes@[
                                    ord[k] as int]);
                            }
                        }
                        assert forall|k: int| 0 <= k < ord2.len() implies self.nodes@[
                            #[trigger] ord2[k] as int
                        ].next == (if k == ord2.len() - 1 {
                            Option::<usize>::None
                        } else {
                            Some(ord2[k + 1])
                        }) by {
                            assert(ord2[k] == ord[k]);
                            if ord[k] != p {
                                assert(self.nodes@[ord[k] as int] == old(self).nodes@[
                                    ord[k] as int]);
                            } else {
                                assert(k == n - 2);
                            }
                        }
                    }
                    assert(final(self)@ =~= old(self)@.drop_last()) by {
                        assert forall|k: int| 0 <= k < ord2.len() implies self.nodes@[
                            #[trigger] ord2[k] as int
                        ].value == old(self).nodes@[ord2[k] as int].value by {
                            assert(ord2[k] == ord[k]);
                            if n >= 2 && ord[k] == ord[n - 2] {
                                assert(self.nodes@[ord[k] as int].value == old(self).nodes@[
                                    ord[k] as int].value);
                            }
                        }
                    }
                }
                Some(entry.value)
            }
        }
    }

    /// Prepends `value` at the head.
    pub fn shift(&mut self, value: i64)
        requires
            old(self).wf(),
        ensures
            final(self).wf(),
            final(self)@ == seq![value] + old(self)@,
    {
        let entry = Entry { value, next: self.head, previous: None };
        let idx = self.reserve_slot(entry);
        let ghost mid = *self;

        match self.head {
            Some(h) => {
                let head_entry = self.nodes[h];
                self.nodes[h] = Entry {
                    value: head_entry.value,
                    next: head_entry.next,
                    previous: Some(idx),
                };
            }
            None => {
                self.tail = Some(idx);
            }
        }
        self.head = Some(idx);

        proof {
            let ord = old(self).order@;
            let ord2 = seq![idx] + ord;
            assert(ord2.no_duplicates()) by {
                assert forall|i: int, j: int|
                    0 <= i < ord2.len() && 0 <= j < ord2.len() && i != j implies ord2[i]
                    != ord2[j] by {
                    if i >= 1 && j >= 1 {
                        assert(ord[i - 1] != ord[j - 1]);
                    } else if i >= 1 {
                        assert(ord.contains(ord[i - 1]));
                    } else {
                        assert(ord.contains(ord[j - 1]));
                    }
                }
            }
            lemma_distinct_indices_bounded(ord2, self.nodes@.len());
            assert(self.nodes.len() == self.nodes@.len());
        }
        self.length = self.length + 1;
        proof {
            self.order@ = seq![idx] + self.order@;
        }

        proof {
            let ord = old(self).order@;
            let ord2 = self.order@;
            if ord.len() > 0 {
                let h = ord[0];
                assert(mid.nodes@[h as int] == old(self).nodes@[h as int]);
                assert forall|k: int| 0 <= k < ord2.len() implies self.nodes@[
                    #[trigger] ord2[k] as int
                ].previous == (if k == 0 {
                    Option::<usize>::None
                } else {
                    Some(ord2[k - 1])
                }) by {
                    if k >= 1 {
                        assert(ord2[k] == ord[k - 1]);
                        assert(ord[k - 1] != idx);
                        if ord[k - 1] != h {
                            assert(self.nodes@[ord[k - 1] as int] == old(self).nodes@[
                                ord[k - 1] as int]);
                        } else {
                            assert(k == 1);
                        }
                    }
                }
                assert forall|k: int| 0 <= k < ord2.len() implies self.nodes@[
                    #[trigger] ord2[k] as int
                ].next == (if k == ord2.len() - 1 {
                    Option::<usize>::None
                } else {
                    Some(ord2[k + 1])
                }) by {
                    if k >= 1 {
                        assert(ord2[k] == ord[k - 1]);
                        assert(ord[k - 1] != idx);
                        if ord[k - 1] != h {
                            assert(self.nodes@[ord[k - 1] as int] == old(self).nodes@[
                                ord[k - 1] as int]);
                        }
                    } else {
                        assert(ord2[1] == ord[0]);
                    }
                }
            }
            assert forall|k: int| 0 <= k < self.free@.len() implies !ord2.contains(
                #[trigger] self.free@[k],
            ) by {
                assert(!mid.free@.contains(idx));
                if ord2.contains(self.free@[k]) {
                    let j = choose|j: int| 0 <= j < ord2.len() && ord2[j] == self.free@[k];
                    if j >= 1 {
                        assert(ord.contains(ord[j - 1]));
                    } else {
                        assert(mid.free@.contains(idx));
                    }
                }
            }
            assert(final(self)@ =~= seq![value] + old(self)@) by {
                assert forall|k: int| 1 <= k < ord2.len() implies self.nodes@[
                    #[trigger] ord2[k] as int].value == old(self).nodes@[ord2[k] as int].value by {
                    assert(ord2[k] == ord[k - 1]);
                    assert(ord[k - 1] != idx);
                }
            }
        }
    }

    /// Removes the head value and returns it; `None` on an empty list.
    pub fn unshift(&mut self) -> (popped: Option<i64>)
        requires
            old(self).wf(),
        ensures
            final(self).wf(),
            old(self)@.len() == 0 ==> popped is None && *final(self) == *old(self),
            old(self)@.len() > 0 ==> popped == Some(old(self)@[0]) && final(self)@ == old(
                self,
            )@.drop_first(),
    {
        let ghost ord = old(self).order@;
        let ghost n = ord.len() as int;
        match self.head {
            None => None,
            Some(h) => {
                proof {
                    assert(h == ord[0]);
                    assert(ord[0] < self.nodes@.len());
                }
                let entry = self.nodes[h];
                match entry.next {
                    Some(nx) => {
                        proof {
                            assert(n >= 2 && nx == ord[1]);
                            assert(ord[1] < self.nodes@.len());
                        }
                        let next_entry = self.nodes[nx];
                        self.nodes[nx] = Entry {
                            value: next_entry.value,
                            next: next_entry.next,
                            previous: None,
                        };
                        self.head = Some(nx);
                    }
                    None => {
                        proof {
                            assert(n == 1);
                        }
                        self.head = None;
                        self.tail = None;
                    }
                }
                proof {
                    assert(ord.contains(h));
                    assert forall|i: int, j: int|
                        0 <= i < self.free@.len() + 1 && 0 <= j < self.free@.len() + 1 && i
                            != j implies #[trigger] self.free@.push(h)[i] != #[trigger] self.free@.push(
                        h,
                    )[j] by {
                        if i < self.free@.len() && j < self.free@.len() {
                            assert(old(self).free@[i] != old(self).free@[j]);
                        }
                    }
                }
                self.free.push(h);
                self.length = self.length - 1;
                proof {
                    self.order@ = self.order@.drop_first();
                }
                proof {
                    let ord2 = self.order@;
                    assert forall|i: int, j: int|
                        0 <= i < ord2.len() && 0 <= j < ord2.len() && i != j implies ord2[i]
                        != ord2[j] by {
                        assert(ord[i + 1] != ord[j + 1]);
                    }
                    assert(!ord2.contains(h)) by {
                        if ord2.contains(h) {
                            let k = choose|k: int| 0 <= k < ord2.len() && ord2[k] == h;
                            assert(ord[k + 1] == ord[0]);
                        }
                    }
                    assert forall|k: int| 0 <= k < self.free@.len() implies !ord2.contains(
                        #[trigger] self.free@[k],
                    ) by {
                        if k < self.free@.len() - 1 {
                            assert(self.free@[k] == old(self).free@[k]);
                            assert(!ord.contains(old(self).free@[k]));
                            if ord2.contains(self.free@[k]) {
                                let j = choose|j: int|
                                    0 <= j < ord2.len() && ord2[j] == self.free@[k];
                                assert(ord[j + 1] == self.free@[k]);
                                assert(ord.contains(ord[j + 1]));
                            }
                        } else {
                            assert(self.free@[k] == h);
                        }
                    }
                    if n >= 2 {
                        let nx = ord[1];
                        assert forall|k: int| 0 <= k < ord2.len() implies self.nodes@[
                            #[trigger] ord2[k] as int
                        ].previous == (if k == 0 {
                            Option::<usize>::None
                        } else {
                            Some(ord2[k - 1])
                        }) by {
                            assert(ord2[k] == ord[k + 1]);
                            if ord[k + 1] != nx {
                                assert(self.nodes@[ord[k + 1] as int] == old(self).nodes@[
                                    ord[k + 1] as int]);
                            } else {
                                assert(k == 0);
                            }
                        }
                        assert forall|k: int| 0 <= k < ord2.len() implies self.nodes@[
                            #[trigger] ord2[k] as int
                        ].next == (if k == ord2.len() - 1 {
                            Option::<usize>::None
                        } else {
                            Some(ord2[k + 1])
                        }) by {
                            assert(ord2[k] == ord[k + 1]);
                            if ord[k + 1] != nx {
                                assert(self.nodes@[ord[k + 1] as int] == old(self).nodes@[
                                    ord[k + 1] as int]);
                            }
                        }
                    }
                    assert(final(self)@ =~= old(self)@.drop_first()) by {
                        assert forall|k: int| 0 <= k < ord2.len() implies self.nodes@[
                            #[trigger] ord2[k] as int
                        ].value == old(self).nodes@[ord2[k] as int].value by {
                            assert(ord2[k] == ord[k + 1]);
                        }
                    }
                }
                Some(entry.value)
            }
        }
    }
}

impl DoublyLinkedList {
    /// Builds a list holding the values of `array` in order.
    pub fn from(array: Vec<i64>) -> (list: Self)
        ensures
            list.wf(),
            list@ == array@,
    {
        let mut list = Self::new();

        for i in 0..array.len()
            invariant
                list.wf(),
                list@ == array@.take(i as int),
        {
            list.push(array[i]);
            proof {
                assert(array@.take(i + 1) =~= array@.take(i as int).push(array@[i as int]));
            }
        }

        proof {
            assert(array@.take(array@.len() as int) =~= array@);
        }
        list
    }

    /// Walks from the head to position `index` and returns the arena slot
    /// found there.
    fn slot_at(&self, index: usize) -> (slot: usize)
        requires
            self.wf(),
            index < self@.len(),
        ensures
            slot == self.order@[index as int],
    {
        let mut k: usize = 0;
        let mut cur: usize = match self.head {
            Some(h) => h,
            None => {
                proof {
                    assert(false);
                }
                0
            }
        };

        while k < index
            invariant
                self.wf(),
                k <= index,
                index < self.order@.len(),
                cur == self.order@[k as int],
            decreases index - k,
        {
            proof {
                assert(self.order@[k as int] < self.nodes@.len());
            }
            let entry = self.nodes[cur];
            cur = match entry.next {
                Some(nx) => nx,
                None => {
                    proof {
                        assert(false);
                    }
                    0
                }
            };
            k = k + 1;
        }
        cur
    }

    /// Returns a copy of the value at `index`; `None` whenever the index is
    /// at or past the length.
    pub fn get(&self, index: usize) -> (result: Option<i64>)
        requires
            self.wf(),
        ensures
            index < self@.len() ==> result == Some(self@[index as int]),
            index >= self@.len() ==> result is None,
    {
        if index >= self.length {
            return None;
        }

        let slot = self.slot_at(index);
        proof {
            assert(self.order@[index as int] < self.nodes@.len());
        }
        Some(self.nodes[slot].value)
    }

    /// Overwrites the value at `index` and returns the value previously held
    /// there; `None`, with the list unchanged, whenever the index is at or
    /// past the length.
    pub fn set(&mut self, index: usize, value: i64) -> (previous: Option<i64>)
        requires
            old(self).wf(),
        ensures
            final(self).wf(),
            index < old(self)@.len() ==> previous == Some(old(self)@[index as int])
                && final(self)@ == old(self)@.update(index as int, value),
            index >= old(self)@.len() ==> previous is None && *final(self) == *old(self),
    {
        if index >= self.length {
            return None;
        }

        let slot = self.slot_at(index);
        proof {
            assert(self.order@[index as int] < self.nodes@.len());
        }
        let entry = self.nodes[slot];
        self.nodes[slot] = Entry { value, next: entry.next, previous: entry.previous };

        proof {
            let ord = self.order@;
            assert forall|k: int| 0 <= k < ord.len() && k != index implies ord[k] != slot by {
                assert(ord[k] != ord[index as int]);
            }
            assert forall|k: int| 0 <= k < ord.len() implies self.nodes@[
                #[trigger] ord[k] as int
            ].previous == old(self).nodes@[ord[k] as int].previous && self.nodes@[
                ord[k] as int
            ].next == old(self).nodes@[ord[k] as int].next by {
                if ord[k] != slot {
                    assert(self.nodes@[ord[k] as int] == old(self).nodes@[ord[k] as int]);
                }
            }
            assert(final(self)@ =~= old(self)@.update(index as int, value));
        }
        Some(entry.value)
    }
}

impl DoublyLinkedList {
    /// Removes the value at `index` and returns it; `None`, with the list
    /// unchanged, whenever the index is at or past the length.  The removed
    /// node's neighbours are relinked to each other, so the relative order of
    /// all remaining values is preserved.
    pub fn remove(&mut self, index: usize) -> (removed: Option<i64>)
        requires
            old(self).wf(),
        ensures
            final(self).wf(),
            index < old(self)@.len() ==> removed == Some(old(self)@[index as int])
                && final(self)@ == old(self)@.remove(index as int),
            index >= old(self)@.len() ==> removed is None && *final(self) == *old(self),
    {
        if index >= self.length {
            return None;
        }

        if index == 0 {
            let removed = self.unshift();
            proof {
                assert(old(self)@.remove(0) =~= old(self)@.drop_first());
            }
            return removed;
        }

        if index == self.length - 1 {
            let removed = self.pop();
            proof {
                assert(old(self)@.remove(index as int) =~= old(self)@.drop_last());
            }
            return removed;
        }

        let ghost ord = old(self).order@;
        let ghost n = ord.len() as int;
        let ghost i = index as int;

        let slot = self.slot_at(index);
        proof {
            assert(ord[i] < self.nodes@.len());
        }
        let entry = self.nodes[slot];
        let prev_slot = match entry.previous {
            Some(p) => p,
            None => {
                proof {
                    assert(false);
                }
                0
            }
        };
        let next_slot = match entry.next {
            Some(nx) => nx,
            None => {
                proof {
                    assert(false);
                }
                0
            }
        };
        proof {
            assert(prev_slot == ord[i - 1] && ord[i - 1] < self.nodes@.len());
            assert(next_slot == ord[i + 1] && ord[i + 1] < self.nodes@.len());
            assert(ord[i - 1] != ord[i + 1] && ord[i - 1] != ord[i] && ord[i + 1] != ord[i]);
        }

        let prev_entry = self.nodes[prev_slot];
        self.nodes[prev_slot] = Entry {
            value: prev_entry.value,
            next: Some(next_slot),
            previous: prev_entry.previous,
        };
        let next_entry = self.nodes[next_slot];
        self.nodes[next_slot] = Entry {
            value: next_entry.value,
            next: next_entry.next,
            previous: Some(prev_slot),
        };

        proof {
            assert(ord.contains(slot));
            assert forall|a: int, b: int|
                0 <= a < self.free@.len() + 1 && 0 <= b < self.free@.len() + 1 && a != b implies #[trigger] self.free@.push(
                slot,
            )[a] != #[trigger] self.free@.push(slot)[b] by {
                if a < self.free@.len() && b < self.free@.len() {
                    assert(old(self).free@[a] != old(self).free@[b]);
                }
            }
        }
        self.free.push(slot);
        self.length = self.length - 1;
        proof {
            self.order@ = self.order@.remove(i);
        }

        proof {
            let ord2 = self.order@;
            assert(ord2.len() == n - 1);
            assert forall|k: int| 0 <= k < ord2.len() implies #[trigger] ord2[k] == (if k < i {
                ord[k]
            } else {
                ord[k + 1]
            }) by {}
            assert forall|a: int, b: int|
                0 <= a < ord2.len() && 0 <= b < ord2.len() && a != b implies ord2[a] != ord2[b] by {
                let a0: int = if a < i {
                    a
                } else {
                    a + 1
                };
                let b0: int = if b < i {
                    b
                } else {
                    b + 1
                };
                assert(ord[a0] != ord[b0]);
            }
            assert(!ord2.contains(slot)) by {
                if ord2.contains(slot) {
                    let k = choose|k: int| 0 <= k < ord2.len() && ord2[k] == slot;
                    if k < i {
                        assert(ord[k] == ord[i]);
                    } else {
                        assert(ord[k + 1] == ord[i]);
                    }
                }
            }
            assert forall|k: int| 0 <= k < self.free@.len() implies !ord2.contains(
                #[trigger] self.free@[k],
            ) by {
                if k < self.free@.len() - 1 {
                    assert(self.free@[k] == old(self).free@[k]);
                    assert(!ord.contains(old(self).free@[k]));
                    if ord2.contains(self.free@[k]) {
                        let j = choose|j: int| 0 <= j < ord2.len() && ord2[j] == self.free@[k];
                        let j0: int = if j < i {
                            j
                        } else {
                            j + 1
                        };
                        assert(ord[j0] == self.free@[k]);
                        assert(ord.contains(ord[j0]));
                    }
                } else {
                    assert(self.free@[k] == slot);
                }
            }
            assert forall|k: int| 0 <= k < ord2.len() implies self.nodes@[
                #[trigger] ord2[k] as int
            ].previous == (if k == 0 {
                Option::<usize>::None
            } else {
                Some(ord2[k - 1])
            }) by {
                let k0: int = if k < i {
                    k
                } else {
                    k + 1
                };
                assert(ord2[k] == ord[k0]);
                if ord[k0] != ord[i - 1] && ord[k0] != ord[i + 1] {
                    assert(self.nodes@[ord[k0] as int] == old(self).nodes@[ord[k0] as int]);
                }
            }
            assert forall|k: int| 0 <= k < ord2.len() implies self.nodes@[
                #[trigger] ord2[k] as int
            ].next == (if k == ord2.len() - 1 {
                Option::<usize>::None
            } else {
                Some(ord2[k + 1])
            }) by {
                let k0: int = if k < i {
                    k
                } else {
                    k + 1
                };
                assert(ord2[k] == ord[k0]);
                if ord[k0] != ord[i - 1] && ord[k0] != ord[i + 1] {
                    assert(self.nodes@[ord[k0] as int] == old(self).nodes@[ord[k0] as int]);
                }
            }
            assert(final(self)@ =~= old(self)@.remove(i)) by {
                assert forall|k: int| 0 <= k < ord2.len() implies self.nodes@[
                    #[trigger] ord2[k] as int
                ].value == old(self).nodes@[ord2[k] as int].value by {
                    let k0: int = if k < i {
                        k
                    } else {
                        k + 1
                    };
                    assert(ord2[k] == ord[k0]);
                }
            }
        }
        Some(entry.value)
    }
}

impl DoublyLinkedList {
    /// Places `value` before position `index`, so that it ends at position
    /// `index`: position zero prepends, position `len` appends, and any
    /// position in between splices a fresh node between the two neighbours.
    /// An index past the length leaves the list unchanged.
    #[verifier::rlimit(100)]
    pub fn insert(&mut self, index: usize, value: i64)
        requires
            old(self).wf(),
        ensures
            final(self).wf(),
            index <= old(self)@.len() ==> final(self)@ == old(self)@.insert(index as int, value),
            index > old(self)@.len() ==> *final(self) == *old(self),
    {
        if index > self.length {
            return ;
        }

        if index == 0 {
            self.shift(value);
            proof {
                assert(old(self)@.insert(0, value) =~= seq![value] + old(self)@);
            }
            return ;
        }

        if index == self.length {
            self.push(value);
            proof {
                assert(old(self)@.insert(index as int, value) =~= old(self)@.push(value));
            }
            return ;
        }

        let ghost ord = old(self).order@;
        let ghost n = ord.len() as int;
        let ghost i = index as int;

        let slot = self.slot_at(index);
        proof {
            assert(ord[i] < self.nodes@.len());
        }
        let entry = self.nodes[slot];
        let prev_slot = match entry.previous {
            Some(p) => p,
            None => {
                proof {
                    assert(false);
                }
                0
            }
        };
        proof {
            assert(prev_slot == ord[i - 1] && ord[i - 1] < self.nodes@.len());
            assert(ord[i - 1] != ord[i]);
        }

        let idx = self.reserve_slot(
            Entry { value, next: Some(slot), previous: Some(prev_slot) },
        );
        let ghost mid = *self;

        let prev_entry = self.nodes[prev_slot];
        self.nodes[prev_slot] = Entry {
            value: prev_entry.value,
            next: Some(idx),
            previous: prev_entry.previous,
        };
        let slot_entry = self.nodes[slot];
        self.nodes[slot] = Entry {
            value: slot_entry.value,
            next: slot_entry.next,
            previous: Some(idx),
        };

        proof {
            let ord2 = ord.insert(i, idx);
            assert forall|k: int| 0 <= k < ord2.len() implies #[trigger] ord2[k] == (if k < i {
                ord[k]
            } else if k == i {
                idx
            } else {
                ord[k - 1]
            }) by {
                ord.insert_ensures(i, idx);
            }
            assert(ord2.no_duplicates()) by {
                assert forall|a: int, b: int|
                    0 <= a < ord2.len() && 0 <= b < ord2.len() && a != b implies ord2[a]
                    != ord2[b] by {
                    if a != i && b != i {
                        let a0: int = if a < i {
                            a
                        } else {
                            a - 1
                        };
                        let b0: int = if b < i {
                            b
                        } else {
                            b - 1
                        };
                        assert(ord[a0] != ord[b0]);
                    } else if a == i {
                        let b0: int = if b < i {
                            b
                        } else {
                            b - 1
                        };
                        assert(ord.contains(ord[b0]));
                    } else {
                        let a0: int = if a < i {
                            a
                        } else {
                            a - 1
                        };
                        assert(ord.contains(ord[a0]));
                    }
                }
            }
            lemma_distinct_indices_bounded(ord2, self.nodes@.len());
            assert(self.nodes.len() == self.nodes@.len());
        }
        self.length = self.length + 1;
        proof {
            self.order@ = self.order@.insert(i, idx);
        }

        proof {
            let ord2 = self.order@;
            assert forall|k: int| 0 <= k < ord2.len() implies #[trigger] ord2[k] == (if k < i {
                ord[k]
            } else if k == i {
                idx
            } else {
                ord[k - 1]
            }) by {
                ord.insert_ensures(i, idx);
            }
            assert(mid.nodes@[slot as int] == old(self).nodes@[slot as int]);
            assert(mid.nodes@[prev_slot as int] == old(self).nodes@[prev_slot as int]);
            assert forall|k: int| 0 <= k < ord2.len() implies self.nodes@[
                #[trigger] ord2[k] as int
            ].previous == (if k == 0 {
                Option::<usize>::None
            } else {
                Some(ord2[k - 1])
            }) by {
                if k != i {
                    let k0: int = if k < i {
                        k
                    } else {
                        k - 1
                    };
                    assert(ord2[k] == ord[k0]);
                    assert(ord[k0] != idx);
                    if ord[k0] != ord[i - 1] && ord[k0] != ord[i] {
                        assert(self.nodes@[ord[k0] as int] == old(self).nodes@[ord[k0] as int]);
                    }
                }
            }
            assert forall|k: int| 0 <= k < ord2.len() implies self.nodes@[
                #[trigger] ord2[k] as int
            ].next == (if k == ord2.len() - 1 {
                Option::<usize>::None
            } else {
                Some(ord2[k + 1])
            }) by {
                if k != i {
                    let k0: int = if k < i {
                        k
                    } else {
                        k - 1
                    };
                    assert(ord2[k] == ord[k0]);
                    assert(ord[k0] != idx);
                    if ord[k0] != ord[i - 1] && ord[k0] != ord[i] {
                        assert(self.nodes@[ord[k0] as int] == old(self).nodes@[ord[k0] as int]);
                    }
                }
            }
            assert forall|k: int| 0 <= k < self.free@.len() implies !ord2.contains(
                #[trigger] self.free@[k],
            ) by {
                assert(!mid.free@.contains(idx));
                assert(!ord.contains(self.free@[k]));
                if ord2.contains(self.free@[k]) {
                    let j = choose|j: int| 0 <= j < ord2.len() && ord2[j] == self.free@[k];
                    if j != i {
                        let j0: int = if j < i {
                            j
                        } else {
                            j - 1
                        };
                        assert(ord.contains(ord[j0]));
                    } else {
                        assert(mid.free@.contains(idx));
                    }
                }
            }
            assert(final(self)@ =~= old(self)@.insert(i, value)) by {
                old(self)@.insert_ensures(i, value);
                assert forall|k: int| 0 <= k < ord2.len() && k != i implies self.nodes@[
                    #[trigger] ord2[k] as int
                ].value == old(self).nodes@[ord2[k] as int].value by {
                    let k0: int = if k < i {
                        k
                    } else {
                        k - 1
                    };
                    assert(ord2[k] == ord[k0]);
                    assert(ord[k0] != idx);
                }
            }
        }
    }
}

/// The values that repeatedly calling `pop` yields from a list whose view is
/// `s`, in the order popped: by `pop`'s contract each call returns the last
/// value of the remaining view and drops it.
pub open spec fn drained_from_back(s: Seq<i64>) -> Seq<i64>
    decreases s.len(),
{
    if s.len() == 0 {
        Seq::empty()
    } else {
        seq![s.last()] + drained_from_back(s.drop_last())
    }
}

/// The values that repeatedly calling `unshift` yields from a list whose
/// view is `s`, in the order returned: by `unshift`'s contract each call
/// returns the first value of the remaining view and drops it.
pub open spec fn drained_from_front(s: Seq<i64>) -> Seq<i64>
    decreases s.len(),
{
    if s.len() == 0 {
        Seq::empty()
    } else {
        seq![s[0]] + drained_from_front(s.drop_first())
    }
}

/// The view of a list, currently `view`, after `shift`ing each value of
/// `values` in order: by `shift`'s contract each call prepends its value.
pub open spec fn shifted_onto(view: Seq<i64>, values: Seq<i64>) -> Seq<i64>
    decreases values.len(),
{
    if values.len() == 0 {
        view
    } else {
        shifted_onto(seq![values[0]] + view, values.drop_first())
    }
}

/// Pushing a sequence of values and then popping until the list is empty
/// yields the pushed sequence reversed: pushing `values` onto an empty list
/// leaves the view `values` (by `push`'s contract, one value at a time), and
/// draining it from the back returns its reverse.
pub proof fn lemma_push_then_pop_reverses(values: Seq<i64>)
    ensures
        drained_from_back(values) == values.reverse(),
    decreases values.len(),
{
    if values.len() == 0 {
        assert(drained_from_back(values) =~= values.reverse());
    } else {
        lemma_push_then_pop_reverses(values.drop_last());
        assert(values.reverse() =~= seq![values.last()] + values.drop_last().reverse());
    }
}

/// Draining a list from the front yields its view in order.
pub proof fn lemma_unshift_drains_in_order(s: Seq<i64>)
    ensures
        drained_from_front(s) == s,
    decreases s.len(),
{
    if s.len() == 0 {
        assert(drained_from_front(s) =~= s);
    } else {
        lemma_unshift_drains_in_order(s.drop_first());
        assert(seq![s[0]] + s.drop_first() =~= s);
    }
}

/// Shifting values onto a list prepends them one by one, so the earlier
/// values end up further back: the resulting view is the reverse of the
/// shifted sequence, in front of the old view.
pub proof fn lemma_shifted_onto_reverses(view: Seq<i64>, values: Seq<i64>)
    ensures
        shifted_onto(view, values) == values.reverse() + view,
    decreases values.len(),
{
    if values.len() == 0 {
        assert(values.reverse() + view =~= view);
    } else {
        lemma_shifted_onto_reverses(seq![values[0]] + view, values.drop_first());
        assert(values.drop_first().reverse() + (seq![values[0]] + view) =~= values.reverse()
            + view);
    }
}

/// Shifting a sequence of values onto an empty list and then unshifting
/// until the list is empty yields the shifted sequence reversed.
pub proof fn lemma_shift_then_unshift_reverses(values: Seq<i64>)
    ensures
        drained_from_front(shifted_onto(Seq::empty(), values)) == values.reverse(),
{
    lemma_shifted_onto_reverses(Seq::empty(), values);
    assert(values.reverse() + Seq::<i64>::empty() =~= values.reverse());
    lemma_unshift_drains_in_order(values.reverse());
}

impl Default for DoublyLinkedList {
    fn default() -> (list: Self)
        ensures
            list.wf(),
            list@ == Seq::<i64>::empty(),
    {
        Self {
            nodes: Vec::new(),
            free: Vec::new(),
            head: None,
            tail: None,
            length: 0,
            order: Ghost(Seq::empty()),
        }
    }
}

} // verus!
