//! The tree as mathematics: what the contracts of the search tree speak of.
//!
//! A [`Shape`] records where every value sits. From it follow the set of
//! stored values, the number of nodes and the height, and on it insertion is
//! a plain recursive function.

use crate::order::before;
use crate::order::lemma_before_transitive;
use crate::order::lemma_same_then_before;
use crate::order::lemma_trichotomy;
use crate::order::same;
use vstd::laws_cmp::obeys_cmp;
use vstd::prelude::*;

verus! {

/// A binary tree of values: empty, or a value between a left and a right
/// subtree.
pub enum Shape<T> {
    Empty,
    Fork(Box<Shape<T>>, T, Box<Shape<T>>),
}

/// `held` has a member that `value` compares equal to.
pub open spec fn holds<T: Ord>(held: Set<T>, value: T) -> bool {
    exists|y: T| #[trigger] held.contains(y) && same(value, y)
}

/// What `held` becomes when `value` is offered to it: it stays as it is where
/// it holds an equal value already, and gains `value` where it does not.
pub open spec fn offer<T: Ord>(held: Set<T>, value: T) -> Set<T> {
    if holds(held, value) {
        held
    } else {
        held.insert(value)
    }
}

impl<T> Shape<T> {
    /// The stored values.
    pub open spec fn values(self) -> Set<T>
        decreases self,
    {
        match self {
            Shape::Empty => Set::empty(),
            Shape::Fork(left, value, right) => left.values().union(right.values()).insert(value),
        }
    }

    /// The number of nodes.
    pub open spec fn size(self) -> nat
        decreases self,
    {
        match self {
            Shape::Empty => 0,
            Shape::Fork(left, _, right) => 1 + left.size() + right.size(),
        }
    }

    /// The number of nodes on the longest way down from the root.
    pub open spec fn height(self) -> nat
        decreases self,
    {
        match self {
            Shape::Empty => 0,
            Shape::Fork(left, _, right) => if left.height() >= right.height() {
                1 + left.height()
            } else {
                1 + right.height()
            },
        }
    }
}

impl<T: Ord> Shape<T> {
    /// The search-tree order: at every node, what lies to the left sorts
    /// before the node's value, and what lies to the right sorts after it.
    pub open spec fn ordered(self) -> bool
        decreases self,
    {
        match self {
            Shape::Empty => true,
            Shape::Fork(left, value, right) => {
                &&& left.ordered()
                &&& right.ordered()
                &&& forall|y: T| #[trigger] left.values().contains(y) ==> before(y, value)
                &&& forall|y: T| #[trigger] right.values().contains(y) ==> before(value, y)
            },
        }
    }

    /// The tree after `value` went down from the root: left where it sorts
    /// before a node's value, right where it sorts after, to the first empty
    /// place, which it takes. A node whose value it compares equal to stops
    /// it, and the tree stays as it is.
    pub open spec fn insert(self, value: T) -> Shape<T>
        decreases self,
    {
        match self {
            Shape::Empty => Shape::Fork(Box::new(Shape::Empty), value, Box::new(Shape::Empty)),
            Shape::Fork(left, at, right) => if same(value, at) {
                self
            } else if before(value, at) {
                Shape::Fork(Box::new(left.insert(value)), at, right)
            } else {
                Shape::Fork(left, at, Box::new(right.insert(value)))
            },
        }
    }

    /// The tree after each of `values` was inserted, the first one first.
    pub open spec fn insert_all(self, values: Seq<T>) -> Shape<T>
        decreases values.len(),
    {
        if values.len() == 0 {
            self
        } else {
            self.insert_all(values.drop_last()).insert(values.last())
        }
    }
}

/// In an ordered tree a value has its equal at the root, or else only on the
/// side that its comparison with the root points to.
pub proof fn lemma_holds_at_fork<T: Ord>(left: Shape<T>, at: T, right: Shape<T>, value: T)
    requires
        obeys_cmp::<T>(),
        Shape::Fork(Box::new(left), at, Box::new(right)).ordered(),
    ensures
        same(value, at) ==> holds(Shape::Fork(Box::new(left), at, Box::new(right)).values(), value),
        before(value, at) ==> (holds(
            Shape::Fork(Box::new(left), at, Box::new(right)).values(),
            value,
        ) <==> holds(left.values(), value)),
        before(at, value) ==> (holds(
            Shape::Fork(Box::new(left), at, Box::new(right)).values(),
            value,
        ) <==> holds(right.values(), value)),
{
    let whole = Shape::Fork(Box::new(left), at, Box::new(right)).values();
    assert(whole.contains(at));
    lemma_trichotomy(value, at);
    if before(value, at) {
        if holds(whole, value) {
            let y = choose|y: T| #[trigger] whole.contains(y) && same(value, y);
            if right.values().contains(y) {
                lemma_before_transitive(value, at, y);
                lemma_trichotomy(value, y);
            }
            assert(left.values().contains(y));
        }
        if holds(left.values(), value) {
            let y = choose|y: T| #[trigger] left.values().contains(y) && same(value, y);
            assert(whole.contains(y));
        }
    }
    if before(at, value) {
        if holds(whole, value) {
            let y = choose|y: T| #[trigger] whole.contains(y) && same(value, y);
            if left.values().contains(y) {
                lemma_same_then_before(value, y, at);
            }
            assert(right.values().contains(y));
        }
        if holds(right.values(), value) {
            let y = choose|y: T| #[trigger] right.values().contains(y) && same(value, y);
            assert(whole.contains(y));
        }
    }
}

/// Insertion keeps the search-tree order, and the stored values afterwards
/// are the stored values before with `value` offered to them.
pub proof fn lemma_insert_offers<T: Ord>(tree: Shape<T>, value: T)
    requires
        obeys_cmp::<T>(),
        tree.ordered(),
    ensures
        tree.insert(value).ordered(),
        tree.insert(value).values() == offer(tree.values(), value),
    decreases tree,
{
    match tree {
        Shape::Empty => {
            assert(tree.insert(value).values() =~= offer(tree.values(), value));
        },
        Shape::Fork(left, at, right) => {
            lemma_holds_at_fork(*left, at, *right, value);
            lemma_trichotomy(value, at);
            if same(value, at) {
            } else if before(value, at) {
                lemma_insert_offers(*left, value);
                assert(tree.insert(value).values() =~= offer(tree.values(), value));
            } else {
                lemma_insert_offers(*right, value);
                assert(tree.insert(value).values() =~= offer(tree.values(), value));
            }
        },
    }
}

} // verus!
