//! A singly linked list: a forward-only chain of owned nodes, modelled as the
//! sequence of its values from head to tail.

use vstd::prelude::*;

verus! {

struct Node {
    value: i64,
    next: Option<Box<Node>>,
}

/// The values held by a chain of nodes, head first.
spec fn chain_seq(link: Option<Box<Node>>) -> Seq<i64>
    decreases link,
{
    match link {
        None => Seq::empty(),
        Some(node) => seq![node.value] + chain_seq(node.next),
    }
}

/// Appends `value` after the last node of the chain.
fn push_at_end(link: &mut Option<Box<Node>>, value: i64)
    ensures
        chain_seq(*final(link)) == chain_seq(*old(link)).push(value),
    decreases *old(link),
{
    match link.take() {
        None => {
            *link = Some(Box::new(Node { value, next: None }));
            proof {
                assert(chain_seq(*link) =~= chain_seq(*old(link)).push(value));
            }
        }
        Some(mut node) => {
            push_at_end(&mut node.next, value);
            *link = Some(node);
            proof {
                assert(chain_seq(*link) =~= chain_seq(*old(link)).push(value));
            }
        }
    }
}

/// Removes the last node of the chain and returns its value, if any.
fn pop_at_end(link: &mut Option<Box<Node>>) -> (popped: Option<i64>)
    ensures
        chain_seq(*old(link)).len() == 0 ==> popped is None && *final(link) == *old(link),
        chain_seq(*old(link)).len() > 0 ==> popped == Some(chain_seq(*old(link)).last())
            && chain_seq(*final(link)) == chain_seq(*old(link)).drop_last(),
    decreases *old(link),
{
    match link.take() {
        None => None,
        Some(mut node) => {
            if node.next.is_some() {
                let popped = pop_at_end(&mut node.next);
                *link = Some(node);
                proof {
                    assert(chain_seq(*final(link)) =~= chain_seq(*old(link)).drop_last());
                    assert(chain_seq(*old(link)).last() == chain_seq((*old(link))->Some_0.next).last());
                }
                popped
            } else {
                proof {
                    assert(chain_seq(*link) =~= chain_seq(*old(link)).drop_last());
                }
                Some(node.value)
            }
        }
    }
}

/// Reads the value stored at position `index` of the chain.
fn value_in(link: &Option<Box<Node>>, index: usize) -> (value: i64)
    requires
        index < chain_seq(*link).len(),
    ensures
        value == chain_seq(*link)[index as int],
    decreases *link,
{
    match link {
        None => {
            proof {
                assert(false);
            }
            0
        }
        Some(node) => {
            if index == 0 {
                node.value
            } else {
                value_in(&node.next, index - 1)
            }
        }
    }
}

/// Overwrites the value stored at position `index` of the chain.
fn set_in(link: &mut Option<Box<Node>>, index: usize, value: i64)
    requires
        index < chain_seq(*old(link)).len(),
    ensures
        chain_seq(*final(link)) == chain_seq(*old(link)).update(index as int, value),
    decreases *old(link),
{
    match link.take() {
        None => {
            proof {
                assert(false);
            }
        }
        Some(mut node) => {
            if index == 0 {
                node.value = value;
            } else {
                set_in(&mut node.next, index - 1, value);
            }
            *link = Some(node);
            proof {
                assert(chain_seq(*link) =~= chain_seq(*old(link)).update(index as int, value));
            }
        }
    }
}

pub struct SinglyLinkedList {
    length: usize,
    head: Option<Box<Node>>,
}

impl View for SinglyLinkedList {
    type V = Seq<i64>;

    /// A list is modelled as the sequence of its values from head to tail.
    closed spec fn view(&self) -> Seq<i64> {
        chain_seq(self.head)
    }
}

impl SinglyLinkedList {
    /// The stored length always counts the nodes of the chain.
    pub closed spec fn wf(self) -> bool {
        self.length == chain_seq(self.head).len()
    }

    pub fn new() -> (list: Self)
        ensures
            list.wf(),
            list@ == Seq::<i64>::empty(),
    {
        Self::default()
    }

    pub fn from(values: Vec<i64>) -> (list: Self)
        ensures
            list.wf(),
            list@ == values@,
    {
        let mut list = Self::new();

        proof {
            assert(values@.len() == values.len());
        }
        for i in 0..values.len()
            invariant
                list.wf(),
                values@.len() <= usize::MAX,
                list@ == values@.take(i as int),
        {
            list.push(values[i]);
            proof {
                assert(values@.take(i + 1) =~= values@.take(i as int).push(values@[i as int]));
            }
        }

        proof {
            assert(values@.take(values@.len() as int) =~= values@);
        }
        list
    }

    /// Appends `value` at the tail.
    pub fn push(&mut self, value: i64)
        requires
            old(self).wf(),
            old(self)@.len() < usize::MAX,
        ensures
            final(self).wf(),
            final(self)@ == old(self)@.push(value),
    {
        push_at_end(&mut self.head, value);
        self.length = self.length + 1;
    }

    /// Removes the tail value and returns it; `None` on an empty list.
    pub fn pop(&mut self) -> (popped: Option<i64>)
        requires
            old(self).wf(),
        ensures
            final(self).wf(),
            old(self)@.len() == 0 ==> popped is None && *final(self) == *old(self),
            old(self)@.len() > 0 ==> popped == Some(old(self)@.last()) && final(self)@ == old(
                self,
            )@.drop_last(),
    {
        let popped = pop_at_end(&mut self.head);
        if popped.is_some() {
            self.length = self.length - 1;
        }
        popped
    }

    /// Removes the head value and returns it; `None` on an empty list.
    pub fn shift(&mut self) -> (popped: Option<i64>)
        requires
            old(self).wf(),
        ensures
            final(self).wf(),
            old(self)@.len() == 0 ==> popped is None && *final(self) == *old(self),
            old(self)@.len() > 0 ==> popped == Some(old(self)@[0]) && final(self)@ == old(
                self,
            )@.drop_first(),
    {
        match self.head.take() {
            None => None,
            Some(node) => {
                self.head = node.next;
                self.length = self.length - 1;
                proof {
                    assert(final(self)@ =~= old(self)@.drop_first());
                }
                Some(node.value)
            }
        }
    }

    /// Prepends `value` at the head.
    pub fn unshift(&mut self, value: i64)
        requires
            old(self).wf(),
            old(self)@.len() < usize::MAX,
        ensures
            final(self).wf(),
            final(self)@ == seq![value] + old(self)@,
    {
        let new_node = Box::new(Node { value, next: self.head.take() });
        self.head = Some(new_node);
        self.length = self.length + 1;
    }

    /// Returns a copy of the value at `requested_index`; `None` whenever the
    /// index is at or past the length.
    pub fn get(&self, requested_index: usize) -> (result: Option<i64>)
        requires
            self.wf(),
        ensures
            requested_index < self@.len() ==> result == Some(self@[requested_index as int]),
            requested_index >= self@.len() ==> result is None,
    {
        if requested_index >= self.length {
            return None;
        }

        Some(value_in(&self.head, requested_index))
    }

    /// Overwrites the value at `requested_index`, reporting whether the index
    /// was within bounds.
    pub fn set(&mut self, requested_index: usize, value: i64) -> (updated: bool)
        requires
            old(self).wf(),
        ensures
            final(self).wf(),
            requested_index < old(self)@.len() ==> updated && final(self)@ == old(self)@.update(
                requested_index as int,
                value,
            ),
            requested_index >= old(self)@.len() ==> !updated && *final(self) == *old(self),
    {
        if requested_index >= self.length {
            return false;
        }

        set_in(&mut self.head, requested_index, value);
        true
    }

    /// Places `value` at `requested_index`, reporting whether the index was
    /// within bounds.  Position zero gains a fresh node in front of the old
    /// head; any other in-bounds position has its value overwritten in place,
    /// so only the head position makes the list longer.
    pub fn insert(&mut self, requested_index: usize, value: i64) -> (inserted: bool)
        requires
            old(self).wf(),
            old(self)@.len() < usize::MAX,
        ensures
            final(self).wf(),
            requested_index >= old(self)@.len() ==> !inserted && *final(self) == *old(self),
            requested_index == 0 && old(self)@.len() > 0 ==> inserted && final(self)@ == seq![
                value,
            ] + old(self)@,
            0 < requested_index < old(self)@.len() ==> inserted && final(self)@ == old(
                self,
            )@.update(requested_index as int, value),
    {
        if requested_index >= self.length {
            return false;
        }

        if requested_index == 0 {
            self.unshift(value);
            return true;
        }

        set_in(&mut self.head, requested_index, value);
        true
    }

    pub fn len(&self) -> (n: usize)
        requires
            self.wf(),
        ensures
            n == self@.len(),
    {
        self.length
    }

    pub fn is_empty(&self) -> (empty: bool)
        requires
            self.wf(),
        ensures
            empty == (self@.len() == 0),
    {
        self.length == 0
    }
}

impl Default for SinglyLinkedList {
    fn default() -> (list: Self)
        ensures
            list.wf(),
            list@ == Seq::<i64>::empty(),
    {
        Self { length: 0, head: None }
    }
}

} // verus!
