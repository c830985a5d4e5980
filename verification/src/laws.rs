//! What follows from the contracts of the search tree, proved over its
//! mathematical shape.

use crate::order::before;
use crate::order::lemma_before_transitive;
use crate::order::lemma_same_reflexive;
use crate::order::lemma_same_symmetric;
use crate::order::lemma_same_transitive;
use crate::order::lemma_trichotomy;
use crate::order::same;
use crate::shape::holds;
use crate::shape::lemma_insert_offers;
use crate::shape::offer;
use crate::shape::Shape;
use vstd::laws_cmp::obeys_cmp;
use vstd::laws_eq::obeys_concrete_eq;
use vstd::prelude::*;
use vstd::set_lib::lemma_set_disjoint_lens;

verus! {

/// After `value` was offered to a set, the set holds an equal of `x` where it
/// held one before or where `x` compares equal to `value`, and nowhere else.
pub proof fn lemma_offer_holds<T: Ord>(held: Set<T>, value: T, x: T)
    requires
        obeys_cmp::<T>(),
    ensures
        holds(offer(held, value), x) <==> holds(held, x) || same(x, value),
{
    if holds(held, x) {
        let y = choose|y: T| #[trigger] held.contains(y) && same(x, y);
        assert(offer(held, value).contains(y));
    }
    if same(x, value) {
        if holds(held, value) {
            let y = choose|y: T| #[trigger] held.contains(y) && same(value, y);
            lemma_same_transitive(x, value, y);
        } else {
            assert(offer(held, value).contains(value));
        }
    }
    if holds(offer(held, value), x) {
        let y = choose|y: T| #[trigger] offer(held, value).contains(y) && same(x, y);
        if !held.contains(y) {
            assert(y == value);
        }
    }
}

/// Where comparing equal means being the same value, as it does for the
/// integers, to hold an equal of a value is to contain it, and to be offered
/// a value is to have it inserted.
pub proof fn lemma_plain_set<T: Ord>(held: Set<T>, value: T)
    requires
        obeys_concrete_eq::<T>(),
    ensures
        holds(held, value) == held.contains(value),
        offer(held, value) == held.insert(value),
{
    reveal(obeys_concrete_eq);
    if holds(held, value) {
        let y = choose|y: T| #[trigger] held.contains(y) && same(value, y);
        assert(y == value);
    }
    if held.contains(value) {
        assert(same(value, value));
        assert(held.insert(value) =~= held);
    }
}

/// Inserting a sequence of values keeps the search-tree order.
pub proof fn lemma_insert_all_ordered<T: Ord>(tree: Shape<T>, values: Seq<T>)
    requires
        obeys_cmp::<T>(),
        tree.ordered(),
    ensures
        tree.insert_all(values).ordered(),
    decreases values.len(),
{
    if values.len() > 0 {
        lemma_insert_all_ordered(tree, values.drop_last());
        lemma_insert_offers(tree.insert_all(values.drop_last()), values.last());
    }
}

/// Membership: after a sequence of values was inserted, the tree holds an
/// equal of `x` if and only if it held one before or `x` compares equal to one
/// of the inserted values.
pub proof fn lemma_membership<T: Ord>(tree: Shape<T>, values: Seq<T>, x: T)
    requires
        obeys_cmp::<T>(),
        tree.ordered(),
    ensures
        holds(tree.insert_all(values).values(), x) <==> holds(tree.values(), x) || exists|
            i: int,
        |
            0 <= i < values.len() && same(x, #[trigger] values[i]),
    decreases values.len(),
{
    if values.len() > 0 {
        let front = values.drop_last();
        let last = values.last();
        lemma_membership(tree, front, x);
        lemma_insert_all_ordered(tree, front);
        lemma_insert_offers(tree.insert_all(front), last);
        lemma_offer_holds(tree.insert_all(front).values(), last, x);
        if same(x, last) {
            assert(same(x, values[values.len() - 1]));
        }
        if exists|i: int| 0 <= i < front.len() && same(x, #[trigger] front[i]) {
            let i = choose|i: int| 0 <= i < front.len() && same(x, #[trigger] front[i]);
            assert(same(x, values[i]));
        }
        if exists|i: int| 0 <= i < values.len() && same(x, #[trigger] values[i]) {
            let i = choose|i: int| 0 <= i < values.len() && same(x, #[trigger] values[i]);
            if i < front.len() {
                assert(same(x, front[i]));
            }
        }
    }
}

/// Membership from an empty tree: `x` finds an equal in the tree exactly
/// when it compares equal to one of the values that were inserted.
pub proof fn lemma_membership_from_empty<T: Ord>(values: Seq<T>, x: T)
    requires
        obeys_cmp::<T>(),
    ensures
        holds(Shape::<T>::Empty.insert_all(values).values(), x) <==> exists|i: int|
            0 <= i < values.len() && same(x, #[trigger] values[i]),
{
    lemma_membership(Shape::<T>::Empty, values, x);
}

/// In an ordered tree two stored values that compare equal are one value.
pub proof fn lemma_equal_values_coincide<T: Ord>(tree: Shape<T>, a: T, b: T)
    requires
        obeys_cmp::<T>(),
        tree.ordered(),
        tree.values().contains(a),
        tree.values().contains(b),
        same(a, b),
    ensures
        a == b,
    decreases tree,
{
    match tree {
        Shape::Empty => {},
        Shape::Fork(left, at, right) => {
            lemma_trichotomy(a, b);
            lemma_trichotomy(a, at);
            lemma_trichotomy(b, at);
            lemma_same_symmetric(a, b);
            if left.values().contains(a) && left.values().contains(b) {
                lemma_equal_values_coincide(*left, a, b);
            } else if right.values().contains(a) && right.values().contains(b) {
                lemma_equal_values_coincide(*right, a, b);
            } else if left.values().contains(a) {
                // `a` sorts before the root, and `b` is the root or sorts after it.
                if b == at {
                } else {
                    lemma_before_transitive(a, at, b);
                }
            } else if right.values().contains(a) {
                if b == at {
                } else {
                    lemma_before_transitive(b, at, a);
                    lemma_trichotomy(b, a);
                }
            } else {
                // `a` is the root.
                lemma_trichotomy(at, b);
            }
        },
    }
}

/// An ordered tree has as many nodes as it has values: no value is stored
/// twice.
pub proof fn lemma_size_counts_values<T: Ord>(tree: Shape<T>)
    requires
        obeys_cmp::<T>(),
        tree.ordered(),
    ensures
        tree.values().finite(),
        tree.values().len() == tree.size(),
    decreases tree,
{
    match tree {
        Shape::Empty => {},
        Shape::Fork(left, at, right) => {
            lemma_size_counts_values(*left);
            lemma_size_counts_values(*right);
            let below = left.values().union(right.values());
            assert(left.values().disjoint(right.values())) by {
                assert forall|y: T| left.values().contains(y) implies !right.values().contains(
                    y,
                ) by {
                    lemma_trichotomy(y, at);
                }
            }
            lemma_set_disjoint_lens(left.values(), right.values());
            assert(!below.contains(at)) by {
                lemma_trichotomy(at, at);
            }
        },
    }
}

/// A second insertion of a value changes nothing.
pub proof fn lemma_insert_twice<T: Ord>(tree: Shape<T>, value: T)
    requires
        obeys_cmp::<T>(),
    ensures
        tree.insert(value).insert(value) == tree.insert(value),
    decreases tree,
{
    match tree {
        Shape::Empty => {
            lemma_same_reflexive(value);
        },
        Shape::Fork(left, at, right) => {
            if same(value, at) {
            } else if before(value, at) {
                lemma_insert_twice(*left, value);
            } else {
                lemma_insert_twice(*right, value);
            }
        },
    }
}

/// The sequence that holds `value` and nothing else, `times` times.
pub open spec fn copies<T>(value: T, times: nat) -> Seq<T> {
    Seq::new(times, |i: int| value)
}

/// Duplicate suppression: a value inserted any number of times, once at
/// least, leaves the tree that one insertion of it leaves. That tree has one
/// node for each of its values, one more node than before where the value had
/// no equal in the tree and as many as before where it had one, and exactly
/// one of its values compares equal to the inserted one.
pub proof fn lemma_duplicates_suppressed<T: Ord>(tree: Shape<T>, value: T, times: nat)
    requires
        obeys_cmp::<T>(),
        tree.ordered(),
        times >= 1,
    ensures
        tree.insert_all(copies(value, times)) == tree.insert(value),
        tree.insert(value).size() == tree.insert(value).values().len(),
        tree.insert(value).size() == if holds(tree.values(), value) {
            tree.size()
        } else {
            tree.size() + 1
        },
        holds(tree.insert(value).values(), value),
        forall|a: T, b: T|
            #![trigger tree.insert(value).values().contains(a), tree.insert(value).values().contains(b)]
            tree.insert(value).values().contains(a) && tree.insert(value).values().contains(b)
                && same(value, a) && same(value, b) ==> a == b,
    decreases times,
{
    let after = tree.insert(value);
    let all = copies(value, times);
    assert(all.last() == value);
    if times == 1 {
        assert(tree.insert_all(all.drop_last()) == tree);
    } else {
        let fewer: nat = all.drop_last().len();
        assert(all.drop_last() =~= copies(value, fewer));
        lemma_duplicates_suppressed(tree, value, fewer);
        lemma_insert_twice(tree, value);
    }
    lemma_insert_offers(tree, value);
    lemma_size_counts_values(tree);
    lemma_size_counts_values(after);
    lemma_same_reflexive(value);
    lemma_offer_holds(tree.values(), value, value);
    if !holds(tree.values(), value) {
        assert(!tree.values().contains(value));
    }
    assert forall|a: T, b: T|
        after.values().contains(a) && after.values().contains(b) && same(value, a) && same(
            value,
            b,
        ) implies a == b by {
        lemma_same_symmetric(value, a);
        lemma_same_transitive(a, value, b);
        lemma_equal_values_coincide(after, a, b);
    }
}

/// Each value of the sequence sorts before all that follow it.
pub open spec fn ascending<T: Ord>(values: Seq<T>) -> bool {
    forall|i: int, j: int| 0 <= i < j < values.len() ==> before(values[i], values[j])
}

/// Each value of the sequence sorts after all that follow it.
pub open spec fn descending<T: Ord>(values: Seq<T>) -> bool {
    forall|i: int, j: int| 0 <= i < j < values.len() ==> before(values[j], values[i])
}

/// The tree that is one chain to the right: the first value at the root,
/// each further one the right child of the one before it.
pub open spec fn right_chain<T>(values: Seq<T>) -> Shape<T>
    decreases values.len(),
{
    if values.len() == 0 {
        Shape::Empty
    } else {
        Shape::Fork(
            Box::new(Shape::Empty),
            values.first(),
            Box::new(right_chain(values.drop_first())),
        )
    }
}

/// The tree that is one chain to the left: the first value at the root,
/// each further one the left child of the one before it.
pub open spec fn left_chain<T>(values: Seq<T>) -> Shape<T>
    decreases values.len(),
{
    if values.len() == 0 {
        Shape::Empty
    } else {
        Shape::Fork(
            Box::new(left_chain(values.drop_first())),
            values.first(),
            Box::new(Shape::Empty),
        )
    }
}

/// A chain is as high as it has nodes, and it has a node for each value.
pub proof fn lemma_chain_height<T>(values: Seq<T>)
    ensures
        right_chain(values).height() == values.len(),
        right_chain(values).size() == values.len(),
        left_chain(values).height() == values.len(),
        left_chain(values).size() == values.len(),
    decreases values.len(),
{
    if values.len() > 0 {
        lemma_chain_height(values.drop_first());
        assert(Shape::<T>::Empty.size() == 0);
    }
}

/// A value that sorts after all of a right chain goes to its far end.
proof fn lemma_right_chain_grows<T: Ord>(values: Seq<T>, value: T)
    requires
        obeys_cmp::<T>(),
        forall|i: int| 0 <= i < values.len() ==> before(#[trigger] values[i], value),
    ensures
        right_chain(values).insert(value) == right_chain(values.push(value)),
    decreases values.len(),
{
    let longer = values.push(value);
    if values.len() == 0 {
        assert(longer.drop_first() =~= values);
    } else {
        assert(before(values[0], value));
        lemma_trichotomy(value, values.first());
        assert forall|i: int| 0 <= i < values.drop_first().len() implies before(
            #[trigger] values.drop_first()[i],
            value,
        ) by {
            assert(values.drop_first()[i] == values[i + 1]);
        }
        lemma_right_chain_grows(values.drop_first(), value);
        assert(longer.drop_first() =~= values.drop_first().push(value));
    }
}

/// A value that sorts before all of a left chain goes to its far end.
proof fn lemma_left_chain_grows<T: Ord>(values: Seq<T>, value: T)
    requires
        obeys_cmp::<T>(),
        forall|i: int| 0 <= i < values.len() ==> before(value, #[trigger] values[i]),
    ensures
        left_chain(values).insert(value) == left_chain(values.push(value)),
    decreases values.len(),
{
    let longer = values.push(value);
    if values.len() == 0 {
        assert(longer.drop_first() =~= values);
    } else {
        assert(before(value, values[0]));
        lemma_trichotomy(value, values.first());
        assert forall|i: int| 0 <= i < values.drop_first().len() implies before(
            value,
            #[trigger] values.drop_first()[i],
        ) by {
            assert(values.drop_first()[i] == values[i + 1]);
        }
        lemma_left_chain_grows(values.drop_first(), value);
        assert(longer.drop_first() =~= values.drop_first().push(value));
    }
}

/// Degeneracy: values inserted into an empty tree in ascending order make
/// one chain to the right, as high as there are values.
pub proof fn lemma_ascending_inserts_chain<T: Ord>(values: Seq<T>)
    requires
        obeys_cmp::<T>(),
        ascending(values),
    ensures
        Shape::<T>::Empty.insert_all(values) == right_chain(values),
        Shape::<T>::Empty.insert_all(values).height() == values.len(),
        Shape::<T>::Empty.insert_all(values).size() == values.len(),
    decreases values.len(),
{
    lemma_chain_height(values);
    if values.len() > 0 {
        let front = values.drop_last();
        lemma_ascending_inserts_chain(front);
        lemma_right_chain_grows(front, values.last());
        assert(front.push(values.last()) =~= values);
    }
}

/// Degeneracy: values inserted into an empty tree in descending order make
/// one chain to the left, as high as there are values.
pub proof fn lemma_descending_inserts_chain<T: Ord>(values: Seq<T>)
    requires
        obeys_cmp::<T>(),
        descending(values),
    ensures
        Shape::<T>::Empty.insert_all(values) == left_chain(values),
        Shape::<T>::Empty.insert_all(values).height() == values.len(),
        Shape::<T>::Empty.insert_all(values).size() == values.len(),
    decreases values.len(),
{
    lemma_chain_height(values);
    if values.len() > 0 {
        let front = values.drop_last();
        lemma_descending_inserts_chain(front);
        lemma_left_chain_grows(front, values.last());
        assert(front.push(values.last()) =~= values);
    }
}

} // verus!
