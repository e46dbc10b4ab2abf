//! A last-in, first-out stack of values, stored as a chain of owned layers.

use vstd::prelude::*;

verus! {

struct Layer {
    value: i64,
    next_layer: Option<Box<Layer>>,
}

/// The values held by a chain of layers, bottom first, top last.
spec fn layers_seq(layer: Option<Box<Layer>>) -> Seq<i64>
    decreases layer,
{
    match layer {
        None => Seq::empty(),
        Some(l) => layers_seq(l.next_layer).push(l.value),
    }
}

pub struct Stack {
    top_layer: Option<Box<Layer>>,
    size: usize,
}

impl View for Stack {
    type V = Seq<i64>;

    /// A stack is modelled as the sequence of its values, bottom first,
    /// top last.
    closed spec fn view(&self) -> Seq<i64> {
        layers_seq(self.top_layer)
    }
}

impl Stack {
    /// The stored size always counts the layers of the chain.
    pub closed spec fn wf(self) -> bool {
        self.size == layers_seq(self.top_layer).len()
    }

    pub fn new() -> (stack: Self)
        ensures
            stack.wf(),
            stack@ == Seq::<i64>::empty(),
    {
        Self::default()
    }

    /// Builds a stack whose pop order is the order of `values`: the first
    /// element of `values` ends on top.
    pub fn from(values: Vec<i64>) -> (stack: Self)
        ensures
            stack.wf(),
            stack@ == values@.reverse(),
    {
        let ghost all = values@;
        let mut values = values;
        let mut stack = Stack::new();

        proof {
            assert(all.len() == values.len());
        }
        loop
            invariant
                stack.wf(),
                all.len() <= usize::MAX,
                values@.len() <= all.len(),
                values@ == all.take(values@.len() as int),
                stack@ == all.skip(values@.len() as int).reverse(),
            ensures
                stack.wf(),
                stack@ == all.reverse(),
            decreases values@.len(),
        {
            let ghost n = values@.len() as int;
            match values.pop() {
                None => {
                    proof {
                        assert(all.skip(0) =~= all);
                    }
                    break ;
                }
                Some(val) => {
                    proof {
                        assert(values@ =~= all.take(n - 1));
                        assert(val == all[n - 1]);
                        assert(all.skip(n - 1).reverse() =~= all.skip(n).reverse().push(
                            all[n - 1],
                        ));
                    }
                    stack.push(val);
                }
            }
        }

        stack
    }

    pub fn size(&self) -> (n: usize)
        requires
            self.wf(),
        ensures
            n == self@.len(),
    {
        self.size
    }

    pub fn push(&mut self, value: i64)
        requires
            old(self).wf(),
            old(self)@.len() < usize::MAX,
        ensures
            final(self).wf(),
            final(self)@ == old(self)@.push(value),
    {
        let new_layer = Box::new(Layer { value, next_layer: self.top_layer.take() });

        self.top_layer = Some(new_layer);
        self.size = self.size + 1;
    }

    pub fn pop(&mut self) -> (popped: Option<i64>)
        requires
            old(self).wf(),
        ensures
            final(self).wf(),
            old(self)@.len() == 0 ==> popped is None && *final(self) == *old(self),
            old(self)@.len() > 0 ==> popped == Some(old(self)@.last()) && final(self)@ == old(
                self,
            )@.drop_last(),
    {
        let top_layer = self.top_layer.take();

        if let Some(layer) = top_layer {
            self.top_layer = layer.next_layer;
            self.size = self.size - 1;

            Some(layer.value)
        } else {
            None
        }
    }
}

impl Default for Stack {
    fn default() -> (stack: Self)
        ensures
            stack.wf(),
            stack@ == Seq::<i64>::empty(),
    {
        Self { top_layer: None, size: 0 }
    }
}

} // verus!
