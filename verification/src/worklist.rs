//! A stack of owned items, linked on the heap.
//!
//! Tearing a tree down needs a place for the nodes that are still to be
//! released. A destructor may not unwind, so that place is a chain of boxes:
//! putting an item on it is one allocation, and taking one off is a move.

use crate::mybox::MyBox;
use vstd::prelude::*;

verus! {

broadcast use MyBox::lemma_view_is_smaller;

/// A last-in, first-out store of items.
pub struct Worklist<U> {
    top: Option<MyBox<Link<U>>>,
}

struct Link<U> {
    item: U,
    below: Option<MyBox<Link<U>>>,
}

/// The items from the bottom of a chain to its top.
spec fn chained<U>(top: Option<MyBox<Link<U>>>) -> Seq<U>
    decreases top,
{
    match top {
        None => Seq::empty(),
        Some(link) => chained(link@.below).push(link@.item),
    }
}

impl<U> View for Worklist<U> {
    type V = Seq<U>;

    /// The items in the order in which they were put on; the last is on top.
    closed spec fn view(&self) -> Seq<U> {
        chained(self.top)
    }
}

/// Empties `slot` and hands out what was in it.
pub fn take_out<U>(slot: &mut Option<U>) -> (taken: Option<U>)
    ensures
        taken == *old(slot),
        *final(slot) is None,
    opens_invariants none
    no_unwind
{
    let mut taken = None;
    core::mem::swap(slot, &mut taken);
    taken
}

impl<U> Worklist<U> {
    /// A worklist without items.
    pub fn new() -> (list: Self)
        ensures
            list@ == Seq::<U>::empty(),
        opens_invariants none
        no_unwind
    {
        Worklist { top: None }
    }

    /// Puts `item` on top.
    pub fn push(&mut self, item: U)
        ensures
            final(self)@ == old(self)@.push(item),
        opens_invariants none
        no_unwind
    {
        let below = take_out(&mut self.top);
        self.top = Some(MyBox::new(Link { item, below }));
    }

    /// Takes the top item off, if there is one.
    pub fn pop(&mut self) -> (item: Option<U>)
        ensures
            old(self)@.len() == 0 ==> item is None && final(self)@ == old(self)@,
            old(self)@.len() > 0 ==> item == Some(old(self)@.last()) && final(self)@ == old(
                self,
            )@.drop_last(),
        opens_invariants none
        no_unwind
    {
        match take_out(&mut self.top) {
            None => None,
            Some(link) => {
                let Link { item, below } = link.into_inner();
                self.top = below;
                proof {
                    assert(chained(below).push(item).drop_last() =~= chained(below));
                }
                Some(item)
            },
        }
    }
}

} // verus!
