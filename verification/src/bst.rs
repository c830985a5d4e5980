//! An unbalanced binary search tree that keeps each distinct value once.

use crate::mybox::MyBox;
use crate::order::lemma_operators_follow;
use crate::order::lemma_trichotomy;
use crate::shape::holds;
use crate::shape::lemma_holds_at_fork;
use crate::shape::lemma_insert_offers;
use crate::shape::offer;
use crate::shape::Shape;
use crate::worklist::take_out;
use crate::worklist::Worklist;
use vstd::laws_cmp::obeys_cmp;
use vstd::prelude::*;

verus! {

broadcast use MyBox::lemma_view_is_smaller;

/// An ordered set of values. Each node is owned by one slot: that of its
/// parent, or the root slot of the tree.
pub struct BinarySearchTree<T> {
    root: Option<MyBox<Node<T>>>,
}

struct Node<T> {
    value: T,
    left: Option<MyBox<Node<T>>>,
    right: Option<MyBox<Node<T>>>,
}

/// The shape of what hangs in a slot.
spec fn slot_shape<T>(slot: Option<MyBox<Node<T>>>) -> Shape<T>
    decreases slot,
{
    match slot {
        None => Shape::Empty,
        Some(node) => Shape::Fork(
            Box::new(slot_shape(node@.left)),
            node@.value,
            Box::new(slot_shape(node@.right)),
        ),
    }
}

impl<T> BinarySearchTree<T> {
    /// Where every stored value sits.
    pub closed spec fn shape(&self) -> Shape<T> {
        slot_shape(self.root)
    }
}

impl<T> View for BinarySearchTree<T> {
    type V = Set<T>;

    /// The stored values.
    open spec fn view(&self) -> Set<T> {
        self.shape().values()
    }
}

impl<T: Ord> BinarySearchTree<T> {
    /// The tree keeps the search-tree order.
    pub open spec fn well_formed(&self) -> bool {
        self.shape().ordered()
    }

    /// An empty tree.
    pub fn new() -> (tree: Self)
        ensures
            tree.shape() == Shape::<T>::Empty,
            tree.well_formed(),
            tree@ == Set::<T>::empty(),
    {
        Self { root: None }
    }

    /// Stores `value` unless the tree stores a value already that it compares
    /// equal to; that value then stays, and `value` is dropped.
    pub fn insert(&mut self, value: T)
        requires
            obeys_cmp::<T>(),
            old(self).well_formed(),
        ensures
            final(self).well_formed(),
            final(self).shape() == old(self).shape().insert(value),
            final(self)@ == offer(old(self)@, value),
    {
        proof {
            lemma_insert_offers(self.shape(), value);
        }
        // `around` rebuilds the whole tree from what hangs in the slot that
        // `current_node` has reached.
        let ghost whole = self.shape();
        let ghost mut around = |inner: Shape<T>| inner;
        let mut current_node = &mut self.root;

        loop
            invariant
                obeys_cmp::<T>(),
                whole == old(self).shape(),
                whole.insert(value).ordered(),
                whole.insert(value).values() == offer(whole.values(), value),
                whole == around(slot_shape(*current_node)),
                whole.insert(value) == around(slot_shape(*current_node).insert(value)),
                slot_shape(after_borrow(self.root)) == around(slot_shape(*final(current_node))),
            ensures
                *current_node is None,
            decreases slot_shape(*current_node).size(),
        {
            match current_node {
                None => {
                    break;
                },
                Some(node) => {
                    proof {
                        lemma_operators_follow::<T>();
                    }
                    if value == node.value {
                        return;
                    }
                    let ghost at = node@.value;
                    let ghost left = slot_shape(node@.left);
                    let ghost right = slot_shape(node@.right);
                    let ghost outer = around;
                    if value < node.value {
                        proof {
                            around = |inner: Shape<T>|
                                outer(Shape::Fork(Box::new(inner), at, Box::new(right)));
                        }
                        current_node = &mut node.left;
                    } else {
                        proof {
                            around = |inner: Shape<T>|
                                outer(Shape::Fork(Box::new(left), at, Box::new(inner)));
                        }
                        current_node = &mut node.right;
                    }
                },
            }
        }

        *current_node = Some(MyBox::new(Node::new(value)));
    }

    /// Whether the tree stores a value that `value` compares equal to.
    pub fn contains(&self, value: &T) -> (found: bool)
        requires
            obeys_cmp::<T>(),
            self.well_formed(),
        ensures
            found == holds(self@, *value),
    {
        let mut current = &self.root;

        loop
            invariant
                obeys_cmp::<T>(),
                slot_shape(*current).ordered(),
                holds(self@, *value) == holds(slot_shape(*current).values(), *value),
            ensures
                !holds(self@, *value),
            decreases slot_shape(*current).size(),
        {
            match current {
                None => {
                    break;
                },
                Some(node) => {
                    proof {
                        lemma_operators_follow::<T>();
                        lemma_trichotomy(*value, node@.value);
                        lemma_holds_at_fork(
                            slot_shape(node@.left),
                            node@.value,
                            slot_shape(node@.right),
                            *value,
                        );
                    }
                    if *value == node.value {
                        return true;
                    }
                    if *value < node.value {
                        current = &node.left;
                    } else {
                        current = &node.right;
                    }
                },
            }
        }

        false
    }
}

impl<T: Ord> Default for BinarySearchTree<T> {
    /// An empty tree.
    fn default() -> (tree: Self)
        ensures
            tree.shape() == Shape::<T>::Empty,
            tree.well_formed(),
            tree@ == Set::<T>::empty(),
    {
        Self::new()
    }
}

impl<T: Ord> Node<T> {
    /// A node without children.
    fn new(value: T) -> (node: Self)
        ensures
            node.value == value,
            node.left is None,
            node.right is None,
    {
        Self { value, left: None, right: None }
    }
}

/// The number of nodes that the boxes of a worklist still own.
spec fn pending_size<T>(pending: Seq<MyBox<Node<T>>>) -> nat
    decreases pending.len(),
{
    if pending.len() == 0 {
        0
    } else {
        pending_size(pending.drop_last()) + slot_shape(Some(pending.last())).size()
    }
}

/// A box put on a worklist adds the nodes that it owns to what is pending.
proof fn lemma_pending_push<T>(pending: Seq<MyBox<Node<T>>>, node: MyBox<Node<T>>)
    ensures
        pending_size(pending.push(node)) == pending_size(pending) + slot_shape(Some(node)).size(),
{
    assert(pending.push(node).drop_last() =~= pending);
}

impl<T> Drop for BinarySearchTree<T> {
    /// Releases every node without recursion: the nodes wait on a worklist,
    /// and each gives its children to the worklist before it is released
    /// itself, so that no release reaches further than one node.
    fn drop(&mut self)
        ensures
            final(self).shape() == Shape::<T>::Empty,
        opens_invariants none
        no_unwind
    {
        // `released` counts the nodes that have left the worklist for good.
        let ghost total = self.shape().size();
        let ghost mut released: nat = 0;
        let mut stack: Worklist<MyBox<Node<T>>> = Worklist::new();

        if let Some(root_node) = take_out(&mut self.root) {
            stack.push(root_node);
            proof {
                lemma_pending_push(Seq::empty(), root_node);
            }
        }

        loop
            invariant
                released + pending_size(stack@) == total,
            ensures
                released == total,
            decreases pending_size(stack@),
        {
            match stack.pop() {
                None => {
                    break;
                },
                Some(mut node) => {
                    assert(slot_shape(Some(node)).size() == 1 + slot_shape(node@.left).size()
                        + slot_shape(node@.right).size());
                    let inner = node.get_mut();
                    if let Some(left) = take_out(&mut inner.left) {
                        proof {
                            lemma_pending_push(stack@, left);
                        }
                        stack.push(left);
                    }
                    if let Some(right) = take_out(&mut inner.right) {
                        proof {
                            lemma_pending_push(stack@, right);
                        }
                        stack.push(right);
                    }
                    proof {
                        released = released + 1;
                    }
                    assert(node@.left is None && node@.right is None);
                },
            }
        }
        assert(released == total);
    }
}

} // verus!
