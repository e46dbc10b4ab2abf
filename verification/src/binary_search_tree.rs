//! A binary search tree of values supporting insertion, membership lookup,
//! and four traversal orders (level order, pre-order, in-order, post-order).
//!
//! Every node keeps the values of its left subtree below its own value and
//! the values of its right subtree above it; a value already present is not
//! inserted again.  No rebalancing is attempted, so repeated insertion in
//! sorted order degenerates into a chain; that only costs time, never
//! correctness.

use crate::seq_facts::sorted_strict;
use vstd::prelude::*;
use vstd::seq_lib::group_seq_properties;

verus! {

struct Node {
    value: i64,
    left: Option<Box<Node>>,
    right: Option<Box<Node>>,
}

/// The values of the tree, left subtree first, then the node, then the right
/// subtree.  For a search tree this lists the values in increasing order.
spec fn in_order(tree: Option<Box<Node>>) -> Seq<i64>
    decreases tree,
{
    match tree {
        None => Seq::empty(),
        Some(node) => in_order(node.left) + seq![node.value] + in_order(node.right),
    }
}

/// The values of the tree, each node before both of its subtrees.
spec fn pre_order(tree: Option<Box<Node>>) -> Seq<i64>
    decreases tree,
{
    match tree {
        None => Seq::empty(),
        Some(node) => seq![node.value] + pre_order(node.left) + pre_order(node.right),
    }
}

/// The values of the tree, each node after both of its subtrees.
spec fn post_order(tree: Option<Box<Node>>) -> Seq<i64>
    decreases tree,
{
    match tree {
        None => Seq::empty(),
        Some(node) => post_order(node.left) + post_order(node.right) + seq![node.value],
    }
}

/// The search ordering: at every node, the values to the left are below the
/// node's value and the values to the right are above it.
spec fn is_search_tree(tree: Option<Box<Node>>) -> bool
    decreases tree,
{
    match tree {
        None => true,
        Some(node) => {
            &&& is_search_tree(node.left)
            &&& is_search_tree(node.right)
            &&& (forall|x: i64| in_order(node.left).contains(x) ==> x < node.value)
            &&& (forall|x: i64| in_order(node.right).contains(x) ==> x > node.value)
        },
    }
}

/// What descending by comparisons finds: equal stops, smaller goes left,
/// greater goes right.
spec fn descend_finds(tree: Option<Box<Node>>, value: i64) -> bool
    decreases tree,
{
    match tree {
        None => false,
        Some(node) => if value == node.value {
            true
        } else if value < node.value {
            descend_finds(node.left, value)
        } else {
            descend_finds(node.right, value)
        },
    }
}

/// The tree that insertion produces: a fresh leaf in the empty slot that the
/// descent reaches, or the same tree when the value is already present.
spec fn tree_insert(tree: Option<Box<Node>>, value: i64) -> Option<Box<Node>>
    decreases tree,
{
    match tree {
        None => Some(Box::new(Node { value, left: None, right: None })),
        Some(node) => if value == node.value {
            Some(node)
        } else if value < node.value {
            Some(
                Box::new(
                    Node {
                        value: node.value,
                        left: tree_insert(node.left, value),
                        right: node.right,
                    },
                ),
            )
        } else {
            Some(
                Box::new(
                    Node {
                        value: node.value,
                        left: node.left,
                        right: tree_insert(node.right, value),
                    },
                ),
            )
        },
    }
}

/// Insertion keeps the search ordering, and adds exactly the new value to the
/// set of values held.
proof fn lemma_insert_search_tree(tree: Option<Box<Node>>, value: i64)
    requires
        is_search_tree(tree),
    ensures
        is_search_tree(tree_insert(tree, value)),
        in_order(tree_insert(tree, value)).to_set() == in_order(tree).to_set().insert(value),
    decreases tree,
{
    broadcast use group_seq_properties;
    broadcast use vstd::set::group_set_axioms;

    match tree {
        None => {
            let leaf = Node { value, left: None, right: None };
            assert(tree_insert(tree, value) == Some(Box::new(leaf)));
            let one = in_order(tree_insert(tree, value));
            assert(one == in_order(leaf.left) + seq![value] + in_order(leaf.right));
            assert(one =~= seq![value]);
            assert(one.contains(value)) by {
                assert(one[0] == value);
            }
            assert(one.to_set() =~= in_order(tree).to_set().insert(value));
        }
        Some(node) => {
            let l = in_order(node.left);
            let r = in_order(node.right);
            let s = in_order(tree);
            assert(s == l + seq![node.value] + r);
            assert(s[l.len() as int] == node.value);
            assert forall|x: i64| #[trigger] s.contains(x) implies l.contains(x) || x
                == node.value || r.contains(x) by {
                let k = choose|k: int| 0 <= k < s.len() && s[k] == x;
                if k < l.len() {
                    assert(l[k] == x);
                } else if k > l.len() {
                    assert(r[k - l.len() - 1] == x);
                }
            }
            assert forall|x: i64|
                l.contains(x) || x == node.value || r.contains(x) implies #[trigger] s.contains(
                x,
            ) by {
                if l.contains(x) {
                    let k = choose|k: int| 0 <= k < l.len() && l[k] == x;
                    assert(s[k] == x);
                } else if x == node.value {
                    assert(s[l.len() as int] == x);
                } else {
                    let k = choose|k: int| 0 <= k < r.len() && r[k] == x;
                    assert(s[l.len() + 1 + k] == x);
                }
            }
            if value == node.value {
                assert(tree_insert(tree, value) == tree);
                assert(s.to_set() =~= s.to_set().insert(value));
            } else if value < node.value {
                lemma_insert_search_tree(node.left, value);
                let l2 = in_order(tree_insert(node.left, value));
                let s2 = in_order(tree_insert(tree, value));
                assert(s2 == l2 + seq![node.value] + r);
                assert(s2[l2.len() as int] == node.value);
                assert forall|x: i64| #[trigger] l2.contains(x) implies x < node.value by {
                    assert(l2.to_set().contains(x));
                }
                assert forall|x: i64| #[trigger] s2.contains(x) implies l2.contains(x) || x
                    == node.value || r.contains(x) by {
                    let k = choose|k: int| 0 <= k < s2.len() && s2[k] == x;
                    if k < l2.len() {
                        assert(l2[k] == x);
                    } else if k > l2.len() {
                        assert(r[k - l2.len() - 1] == x);
                    }
                }
                assert forall|x: i64|
                    l2.contains(x) || x == node.value || r.contains(x) implies #[trigger] s2.contains(
                    x,
                ) by {
                    if l2.contains(x) {
                        let k = choose|k: int| 0 <= k < l2.len() && l2[k] == x;
                        assert(s2[k] == x);
                    } else if x == node.value {
                        assert(s2[l2.len() as int] == x);
                    } else {
                        let k = choose|k: int| 0 <= k < r.len() && r[k] == x;
                        assert(s2[l2.len() + 1 + k] == x);
                    }
                }
                assert forall|x: i64| true implies (#[trigger] s2.contains(x) <==> s.contains(x)
                    || x == value) by {
                    assert(l2.to_set().contains(x) <==> l.to_set().contains(x) || x == value);
                }
                assert(s2.to_set() =~= s.to_set().insert(value));
            } else {
                lemma_insert_search_tree(node.right, value);
                let r2 = in_order(tree_insert(node.right, value));
                let s2 = in_order(tree_insert(tree, value));
                assert(s2 == l + seq![node.value] + r2);
                assert(s2[l.len() as int] == node.value);
                assert forall|x: i64| #[trigger] r2.contains(x) implies x > node.value by {
                    assert(r2.to_set().contains(x));
                }
                assert forall|x: i64| #[trigger] s2.contains(x) implies l.contains(x) || x
                    == node.value || r2.contains(x) by {
                    let k = choose|k: int| 0 <= k < s2.len() && s2[k] == x;
                    if k < l.len() {
                        assert(l[k] == x);
                    } else if k > l.len() {
                        assert(r2[k - l.len() - 1] == x);
                    }
                }
                assert forall|x: i64|
                    l.contains(x) || x == node.value || r2.contains(x) implies #[trigger] s2.contains(
                    x,
                ) by {
                    if l.contains(x) {
                        let k = choose|k: int| 0 <= k < l.len() && l[k] == x;
                        assert(s2[k] == x);
                    } else if x == node.value {
                        assert(s2[l.len() as int] == x);
                    } else {
                        let k = choose|k: int| 0 <= k < r2.len() && r2[k] == x;
                        assert(s2[l.len() + 1 + k] == x);
                    }
                }
                assert forall|x: i64| true implies (#[trigger] s2.contains(x) <==> s.contains(x)
                    || x == value) by {
                    assert(r2.to_set().contains(x) <==> r.to_set().contains(x) || x == value);
                }
                assert(s2.to_set() =~= s.to_set().insert(value));
            }
        }
    }
}

/// In a search tree, the comparison descent finds a value exactly when the
/// in-order listing holds it.
proof fn lemma_descend_finds_membership(tree: Option<Box<Node>>, value: i64)
    requires
        is_search_tree(tree),
    ensures
        descend_finds(tree, value) == in_order(tree).contains(value),
    decreases tree,
{
    broadcast use group_seq_properties;

    match tree {
        None => {
            assert(!in_order(tree).contains(value));
        }
        Some(node) => {
            let l = in_order(node.left);
            let r = in_order(node.right);
            let s = in_order(tree);
            assert(s == l + seq![node.value] + r);
            assert forall|x: i64| #[trigger] s.contains(x) implies l.contains(x) || x
                == node.value || r.contains(x) by {
                let k = choose|k: int| 0 <= k < s.len() && s[k] == x;
                if k < l.len() {
                    assert(l[k] == x);
                } else if k > l.len() {
                    assert(r[k - l.len() - 1] == x);
                }
            }
            assert forall|x: i64|
                l.contains(x) || x == node.value || r.contains(x) implies #[trigger] s.contains(
                x,
            ) by {
                if l.contains(x) {
                    let k = choose|k: int| 0 <= k < l.len() && l[k] == x;
                    assert(s[k] == x);
                } else if x == node.value {
                    assert(s[l.len() as int] == x);
                } else {
                    let k = choose|k: int| 0 <= k < r.len() && r[k] == x;
                    assert(s[l.len() + 1 + k] == x);
                }
            }
            lemma_descend_finds_membership(node.left, value);
            lemma_descend_finds_membership(node.right, value);
        }
    }
}

/// In a search tree, the in-order listing is increasing, so every value is
/// listed once even when insertion was attempted repeatedly.
proof fn lemma_search_tree_in_order_sorted(tree: Option<Box<Node>>)
    requires
        is_search_tree(tree),
    ensures
        sorted_strict(in_order(tree)),
    decreases tree,
{
    match tree {
        None => {}
        Some(node) => {
            lemma_search_tree_in_order_sorted(node.left);
            lemma_search_tree_in_order_sorted(node.right);
            let l = in_order(node.left);
            let r = in_order(node.right);
            let s = in_order(tree);
            assert(s == l + seq![node.value] + r);
            assert forall|i: int, j: int| 0 <= i < j < s.len() implies s[i] < s[j] by {
                if i < l.len() {
                    assert(s[i] == l[i]);
                    assert(l.contains(l[i]));
                } else if i > l.len() {
                    assert(s[i] == r[i - l.len() - 1]);
                    assert(r.contains(r[i - l.len() - 1]));
                }
                if j < l.len() {
                    assert(s[j] == l[j]);
                    assert(l.contains(l[j]));
                } else if j > l.len() {
                    assert(s[j] == r[j - l.len() - 1]);
                    assert(r.contains(r[j - l.len() - 1]));
                }
            }
        }
    }
}

/// Every traversal order lists the same values: the pre-order listing is a
/// permutation of the in-order listing.
proof fn lemma_pre_order_multiset(tree: Option<Box<Node>>)
    ensures
        pre_order(tree).to_multiset() == in_order(tree).to_multiset(),
    decreases tree,
{
    match tree {
        None => {}
        Some(node) => {
            lemma_pre_order_multiset(node.left);
            lemma_pre_order_multiset(node.right);
            crate::seq_facts::lemma_concat_to_multiset(
                seq![node.value] + pre_order(node.left),
                pre_order(node.right),
            );
            crate::seq_facts::lemma_concat_to_multiset(seq![node.value], pre_order(node.left));
            crate::seq_facts::lemma_concat_to_multiset(
                in_order(node.left) + seq![node.value],
                in_order(node.right),
            );
            crate::seq_facts::lemma_concat_to_multiset(in_order(node.left), seq![node.value]);
            assert(pre_order(tree).to_multiset() =~= in_order(tree).to_multiset());
        }
    }
}

/// Every traversal order lists the same values: the post-order listing is a
/// permutation of the in-order listing.
proof fn lemma_post_order_multiset(tree: Option<Box<Node>>)
    ensures
        post_order(tree).to_multiset() == in_order(tree).to_multiset(),
    decreases tree,
{
    match tree {
        None => {}
        Some(node) => {
            lemma_post_order_multiset(node.left);
            lemma_post_order_multiset(node.right);
            crate::seq_facts::lemma_concat_to_multiset(
                post_order(node.left) + post_order(node.right),
                seq![node.value],
            );
            crate::seq_facts::lemma_concat_to_multiset(post_order(node.left), post_order(node.right));
            crate::seq_facts::lemma_concat_to_multiset(
                in_order(node.left) + seq![node.value],
                in_order(node.right),
            );
            crate::seq_facts::lemma_concat_to_multiset(in_order(node.left), seq![node.value]);
            assert(post_order(tree).to_multiset() =~= in_order(tree).to_multiset());
        }
    }
}

/// Moves the values of the subtree under `boxed` onto `values`, left
/// subtree, then node, then right subtree.
fn drain_in_order(boxed: Box<Node>, values: &mut Vec<i64>)
    ensures
        final(values)@ == old(values)@ + in_order(Some(boxed)),
    decreases boxed,
{
    let ghost entry = boxed;
    let node = *boxed;
    let ghost checkpoint = values@;

    if let Some(left) = node.left {
        drain_in_order(left, values);
    }
    proof {
        assert(in_order(Some(entry)) == in_order(entry.left) + seq![entry.value] + in_order(
            entry.right,
        ));
        assert(values@ =~= checkpoint + in_order(entry.left));
    }
    values.push(node.value);
    if let Some(right) = node.right {
        drain_in_order(right, values);
    }

    proof {
        assert(values@ =~= checkpoint + in_order(Some(entry)));
    }
}

/// Moves the values of the subtree under `boxed` onto `values`, node first,
/// then left subtree, then right subtree.
fn drain_pre_order(boxed: Box<Node>, values: &mut Vec<i64>)
    ensures
        final(values)@ == old(values)@ + pre_order(Some(boxed)),
    decreases boxed,
{
    let ghost entry = boxed;
    let node = *boxed;
    let ghost checkpoint = values@;

    values.push(node.value);
    if let Some(left) = node.left {
        drain_pre_order(left, values);
    }
    if let Some(right) = node.right {
        drain_pre_order(right, values);
    }

    proof {
        assert(pre_order(Some(entry)) == seq![entry.value] + pre_order(entry.left) + pre_order(
            entry.right,
        ));
        assert(values@ =~= checkpoint + pre_order(Some(entry)));
    }
}

/// Moves the values of the subtree under `boxed` onto `values`, left
/// subtree, then right subtree, then node.
fn drain_post_order(boxed: Box<Node>, values: &mut Vec<i64>)
    ensures
        final(values)@ == old(values)@ + post_order(Some(boxed)),
    decreases boxed,
{
    let ghost entry = boxed;
    let node = *boxed;
    let ghost checkpoint = values@;

    if let Some(left) = node.left {
        drain_post_order(left, values);
    }
    if let Some(right) = node.right {
        drain_post_order(right, values);
    }
    values.push(node.value);

    proof {
        assert(post_order(Some(entry)) == post_order(entry.left) + post_order(entry.right) + seq![
            entry.value,
        ]);
        assert(values@ =~= checkpoint + post_order(Some(entry)));
    }
}

/// The singleton queue entry for a child slot: the node it holds, or nothing.
spec fn opt_node_seq(tree: Option<Box<Node>>) -> Seq<Node> {
    match tree {
        None => Seq::empty(),
        Some(node) => seq![*node],
    }
}

/// The subtrees enqueued when a node is visited in level order: its left
/// child, then its right child, skipping empty slots.
spec fn children(node: Node) -> Seq<Node> {
    opt_node_seq(node.left) + opt_node_seq(node.right)
}

/// The number of nodes in the tree.
spec fn tree_count(tree: Option<Box<Node>>) -> nat
    decreases tree,
{
    match tree {
        None => 0,
        Some(node) => 1 + tree_count(node.left) + tree_count(node.right),
    }
}

/// The total number of nodes across a queue of subtrees.
spec fn queue_count(queue: Seq<Node>) -> nat
    decreases queue.len(),
{
    if queue.len() == 0 {
        0
    } else {
        1 + tree_count(queue[0].left) + tree_count(queue[0].right) + queue_count(
            queue.drop_first(),
        )
    }
}

proof fn lemma_queue_count_concat(a: Seq<Node>, b: Seq<Node>)
    ensures
        queue_count(a + b) == queue_count(a) + queue_count(b),
    decreases a.len(),
{
    if a.len() == 0 {
        assert(a + b =~= b);
    } else {
        assert((a + b).drop_first() =~= a.drop_first() + b);
        assert((a + b)[0] == a[0]);
        lemma_queue_count_concat(a.drop_first(), b);
    }
}

proof fn lemma_opt_node_count(tree: Option<Box<Node>>)
    ensures
        queue_count(opt_node_seq(tree)) == tree_count(tree),
{
    match tree {
        None => {
            assert(queue_count(Seq::<Node>::empty()) == 0);
        }
        Some(node) => {
            assert(seq![*node].drop_first() =~= Seq::<Node>::empty());
            assert(queue_count(Seq::<Node>::empty()) == 0);
        }
    }
}

/// Visiting a node trades its queue entry for its children: the queued node
/// count drops by exactly one.
proof fn lemma_children_count(node: Node)
    ensures
        queue_count(children(node)) == tree_count(node.left) + tree_count(node.right),
{
    lemma_queue_count_concat(opt_node_seq(node.left), opt_node_seq(node.right));
    lemma_opt_node_count(node.left);
    lemma_opt_node_count(node.right);
}

/// The values of one queued node's whole subtree, in in-order.
spec fn node_values(node: Node) -> Seq<i64> {
    in_order(node.left) + seq![node.value] + in_order(node.right)
}

/// The values of every subtree queued, front subtree's values first.
spec fn queue_values(queue: Seq<Node>) -> Seq<i64>
    decreases queue.len(),
{
    if queue.len() == 0 {
        Seq::empty()
    } else {
        node_values(queue[0]) + queue_values(queue.drop_first())
    }
}

proof fn lemma_queue_values_concat(a: Seq<Node>, b: Seq<Node>)
    ensures
        queue_values(a + b) == queue_values(a) + queue_values(b),
    decreases a.len(),
{
    if a.len() == 0 {
        assert(a + b =~= b);
        assert(queue_values(a) + queue_values(b) =~= queue_values(b));
    } else {
        assert((a + b).drop_first() =~= a.drop_first() + b);
        assert((a + b)[0] == a[0]);
        lemma_queue_values_concat(a.drop_first(), b);
        assert(node_values(a[0]) + (queue_values(a.drop_first()) + queue_values(b))
            =~= queue_values(a) + queue_values(b));
    }
}

proof fn lemma_queue_values_of_slot(tree: Option<Box<Node>>)
    ensures
        queue_values(opt_node_seq(tree)) == in_order(tree),
{
    match tree {
        None => {
            assert(queue_values(Seq::<Node>::empty()) == Seq::<i64>::empty());
        }
        Some(node) => {
            assert(seq![*node].drop_first() =~= Seq::<Node>::empty());
            assert(queue_values(Seq::<Node>::empty()) == Seq::<i64>::empty());
            assert(node_values(*node) + Seq::<i64>::empty() =~= in_order(tree));
        }
    }
}

/// The level-order listing of a queue holds exactly the values of the queued
/// subtrees: visiting a node trades its queue entry for its children without
/// losing or inventing a value.
proof fn lemma_level_order_queue_multiset(queue: Seq<Node>)
    ensures
        level_order_queue(queue).to_multiset() == queue_values(queue).to_multiset(),
    decreases queue_count(queue),
{
    broadcast use vstd::multiset::group_multiset_axioms;

    if queue.len() > 0 {
        let front = queue[0];
        let rest = queue.drop_first();
        lemma_queue_count_concat(rest, children(front));
        lemma_children_count(front);
        lemma_level_order_queue_multiset(rest + children(front));

        lemma_queue_values_concat(rest, children(front));
        lemma_queue_values_concat(opt_node_seq(front.left), opt_node_seq(front.right));
        lemma_queue_values_of_slot(front.left);
        lemma_queue_values_of_slot(front.right);
        assert(queue_values(rest + children(front)) == queue_values(rest) + (in_order(front.left)
            + in_order(front.right)));

        crate::seq_facts::lemma_concat_to_multiset(
            seq![front.value],
            level_order_queue(rest + children(front)),
        );
        crate::seq_facts::lemma_concat_to_multiset(
            queue_values(rest),
            in_order(front.left) + in_order(front.right),
        );
        crate::seq_facts::lemma_concat_to_multiset(in_order(front.left), in_order(front.right));
        crate::seq_facts::lemma_concat_to_multiset(node_values(front), queue_values(rest));
        crate::seq_facts::lemma_concat_to_multiset(
            in_order(front.left) + seq![front.value],
            in_order(front.right),
        );
        crate::seq_facts::lemma_concat_to_multiset(in_order(front.left), seq![front.value]);
        assert(level_order_queue(queue).to_multiset() =~= queue_values(queue).to_multiset());
    }
}

/// The level-order listing of a queue of subtrees: the front subtree's
/// value, then the rest of the queue with the front's children enqueued at
/// the back.
spec fn level_order_queue(queue: Seq<Node>) -> Seq<i64>
    decreases queue_count(queue),
    via level_order_queue_decreases
{
    if queue.len() == 0 {
        Seq::empty()
    } else {
        seq![queue[0].value] + level_order_queue(queue.drop_first() + children(queue[0]))
    }
}

#[via_fn]
proof fn level_order_queue_decreases(queue: Seq<Node>) {
    if queue.len() > 0 {
        lemma_queue_count_concat(queue.drop_first(), children(queue[0]));
        lemma_children_count(queue[0]);
    }
}

/// Descends from `tree`, replacing the empty slot that the comparison path
/// reaches with a fresh leaf; a tree already holding the value is unchanged.
fn insert_into(tree: &mut Option<Box<Node>>, value: i64)
    ensures
        *final(tree) == tree_insert(*old(tree), value),
    decreases *old(tree),
{
    match tree.take() {
        None => {
            *tree = Some(Box::new(Node { value, left: None, right: None }));
        }
        Some(mut node) => {
            if value == node.value {
                *tree = Some(node);
            } else if value < node.value {
                insert_into(&mut node.left, value);
                *tree = Some(node);
            } else {
                insert_into(&mut node.right, value);
                *tree = Some(node);
            }
        }
    }
}

/// Descends from `tree` by comparisons and reports whether the value was
/// found.
fn search(tree: &Option<Box<Node>>, value: i64) -> (found: bool)
    ensures
        found == descend_finds(*tree, value),
    decreases *tree,
{
    match tree {
        None => false,
        Some(node) => {
            if value == node.value {
                true
            } else if value < node.value {
                search(&node.left, value)
            } else {
                search(&node.right, value)
            }
        }
    }
}

pub struct BinarySearchTree {
    root: Option<Box<Node>>,
}

impl View for BinarySearchTree {
    type V = Seq<i64>;

    /// A tree is modelled as its in-order value sequence; for a well-formed
    /// tree that sequence is increasing.
    closed spec fn view(&self) -> Seq<i64> {
        in_order(self.root)
    }
}

impl BinarySearchTree {
    /// The search ordering holds throughout the tree.  Every constructor
    /// establishes this and every operation preserves it.
    pub closed spec fn wf(self) -> bool {
        is_search_tree(self.root)
    }

    /// The tree that `insert` leaves behind, shape included.
    pub closed spec fn spec_insert(self, value: i64) -> Self {
        BinarySearchTree { root: tree_insert(self.root, value) }
    }

    pub fn new() -> (tree: Self)
        ensures
            tree.wf(),
            tree@ == Seq::<i64>::empty(),
    {
        Self::default()
    }

    /// Builds a tree by inserting the values of `values` in order: it holds
    /// exactly the given values, duplicates collapsed.
    pub fn from(values: Vec<i64>) -> (tree: Self)
        ensures
            tree.wf(),
            tree == Self::spec_from(values@),
            tree@.to_set() == values@.to_set(),
    {
        broadcast use vstd::prelude::Seq::lemma_to_set_insert_commutes;

        let mut tree = Self::new();

        proof {
            assert(Seq::<i64>::empty().to_set() =~= values@.take(0).to_set()) by {
                broadcast use vstd::set::group_set_axioms;
                broadcast use vstd::seq_lib::group_seq_properties;

                assert(values@.take(0) =~= Seq::<i64>::empty());
            }
        }
        for i in 0..values.len()
            invariant
                tree.wf(),
                tree == Self::spec_from(values@.take(i as int)),
                tree@.to_set() == values@.take(i as int).to_set(),
        {
            tree.insert(values[i]);
            proof {
                assert(values@.take(i + 1).drop_last() =~= values@.take(i as int));
                assert(values@.take(i + 1) =~= values@.take(i as int).push(values@[i as int]));
            }
        }

        proof {
            assert(values@.take(values@.len() as int) =~= values@);
        }
        tree
    }

    /// The tree that `from` builds: each value of `values` inserted in order
    /// into an initially empty tree.
    pub closed spec fn spec_from(values: Seq<i64>) -> Self
        decreases values.len(),
    {
        if values.len() == 0 {
            BinarySearchTree { root: None }
        } else {
            Self::spec_from(values.drop_last()).spec_insert(values.last())
        }
    }

    /// Inserts `value` at the empty slot that the comparison descent reaches;
    /// a duplicate of a stored value is discarded.  The set of stored values
    /// gains exactly `value`.
    pub fn insert(&mut self, value: i64)
        requires
            old(self).wf(),
        ensures
            final(self).wf(),
            *final(self) == old(self).spec_insert(value),
            final(self)@.to_set() == old(self)@.to_set().insert(value),
    {
        proof {
            lemma_insert_search_tree(self.root, value);
        }
        insert_into(&mut self.root, value);
    }

    /// The pre-order value sequence of the tree: each node before both of
    /// its subtrees.
    pub closed spec fn pre_order(self) -> Seq<i64> {
        pre_order(self.root)
    }

    /// The post-order value sequence of the tree: each node after both of
    /// its subtrees.
    pub closed spec fn post_order(self) -> Seq<i64> {
        post_order(self.root)
    }

    /// Consumes the tree and returns its values left subtree first, then
    /// node, then right subtree: for a well-formed tree, in increasing order
    /// with one occurrence of each stored value.
    pub fn traverse_depth_first_in_order(self) -> (values: Vec<i64>)
        ensures
            values@ == self@,
            self.wf() ==> sorted_strict(values@),
    {
        let ghost me = self;
        proof {
            if me.wf() {
                lemma_search_tree_in_order_sorted(me.root);
            }
        }
        let mut values = Vec::new();
        match self.root {
            None => values,
            Some(node) => {
                drain_in_order(node, &mut values);
                proof {
                    assert(values@ =~= me@);
                }
                values
            }
        }
    }

    /// The level-order value sequence of the tree: the values level by
    /// level, left to right within each level.
    pub closed spec fn level_order(self) -> Seq<i64> {
        match self.root {
            None => Seq::empty(),
            Some(node) => level_order_queue(seq![*node]),
        }
    }

    /// Consumes the tree and returns its values level by level, left to
    /// right within each level, by working through a queue seeded with the
    /// root: each visited node's value is recorded and its children are
    /// enqueued, left before right.
    pub fn traverse_breath_first(self) -> (values: Vec<i64>)
        ensures
            values@ == self.level_order(),
            values@.to_multiset() == self@.to_multiset(),
    {
        let ghost me = self;
        proof {
            match me.root {
                None => {}
                Some(node) => {
                    lemma_level_order_queue_multiset(seq![*node]);
                    lemma_queue_values_of_slot(me.root);
                    assert(opt_node_seq(me.root) == seq![*node]);
                }
            }
        }
        let mut values = Vec::new();

        let node = match self.root {
            None => {
                return values;
            }
            Some(node) => node,
        };

        let mut queue: Vec<Node> = Vec::new();
        queue.push(*node);
        proof {
            assert(queue@ =~= seq![*node]);
            assert(values@ + level_order_queue(queue@) =~= me.level_order());
        }

        while queue.len() > 0
            invariant
                values@ + level_order_queue(queue@) == me.level_order(),
            decreases queue_count(queue@),
        {
            let ghost entered = queue@;
            let front = queue.remove(0);
            let ghost visited = front;
            values.push(front.value);
            let ghost rest = queue@;

            if let Some(left) = front.left {
                queue.push(*left);
            }
            if let Some(right) = front.right {
                queue.push(*right);
            }

            proof {
                assert(entered.drop_first() =~= rest);
                assert(queue@ =~= rest + children(visited));
                assert(level_order_queue(entered) == seq![visited.value] + level_order_queue(
                    rest + children(visited),
                ));
                assert(values@ + level_order_queue(queue@) =~= me.level_order());
                lemma_queue_count_concat(rest, children(visited));
                lemma_children_count(visited);
            }
        }

        proof {
            assert(values@ =~= me.level_order());
        }
        values
    }

    /// Consumes the tree and returns its values node first, then left
    /// subtree, then right subtree: a permutation of the stored values.
    pub fn traverse_depth_first_pre_order(self) -> (values: Vec<i64>)
        ensures
            values@ == self.pre_order(),
            values@.to_multiset() == self@.to_multiset(),
    {
        let ghost me = self;
        proof {
            lemma_pre_order_multiset(me.root);
        }
        let mut values = Vec::new();
        match self.root {
            None => values,
            Some(node) => {
                drain_pre_order(node, &mut values);
                proof {
                    assert(values@ =~= me.pre_order());
                }
                values
            }
        }
    }

    /// Consumes the tree and returns its values left subtree first, then
    /// right subtree, then node: a permutation of the stored values.
    pub fn traverse_depth_first_post_order(self) -> (values: Vec<i64>)
        ensures
            values@ == self.post_order(),
            values@.to_multiset() == self@.to_multiset(),
    {
        let ghost me = self;
        proof {
            lemma_post_order_multiset(me.root);
        }
        let mut values = Vec::new();
        match self.root {
            None => values,
            Some(node) => {
                drain_post_order(node, &mut values);
                proof {
                    assert(values@ =~= me.post_order());
                }
                values
            }
        }
    }

    /// Reports whether `value` is stored in the tree: the comparison descent
    /// finds it exactly when it appears in the in-order value sequence.
    pub fn contains(&self, value: i64) -> (found: bool)
        requires
            self.wf(),
        ensures
            found == self@.contains(value),
    {
        proof {
            lemma_descend_finds_membership(self.root, value);
        }
        search(&self.root, value)
    }
}

impl Default for BinarySearchTree {
    fn default() -> (tree: Self)
        ensures
            tree.wf(),
            tree@ == Seq::<i64>::empty(),
    {
        Self { root: None }
    }
}

} // verus!
