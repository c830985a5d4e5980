//! A box that owns one value on the heap.

use vstd::prelude::*;

verus! {

/// The single owner of one heap-resident value of type `T`.
///
/// The value lives as long as the box does and is reached only through it.
/// When the box goes away the value is finalised and its memory released,
/// once. A value of zero size takes no memory and is only finalised.
pub struct MyBox<T> {
    inner: Box<T>,
}

impl<T> View for MyBox<T> {
    type V = T;

    /// The owned value.
    closed spec fn view(&self) -> T {
        *self.inner
    }
}

/// `Box::new`: the returned box holds `value`. Trusted beyond what vstd
/// states of it: the call does not unwind. It has no documented panic, and
/// a failed allocation ends the process.
#[verifier::external_body]
fn place_on_heap<T>(value: T) -> (placed: Box<T>)
    ensures
        *placed == value,
    opens_invariants none
    no_unwind
{
    Box::new(value)
}

impl<T> MyBox<T> {
    /// Moves `value` to the heap and returns the box that owns it.
    pub fn new(value: T) -> (b: Self)
        ensures
            b@ == value,
        opens_invariants none
        no_unwind
    {
        MyBox { inner: place_on_heap(value) }
    }

    /// The owned value, for reading.
    pub(crate) fn get(&self) -> (r: &T)
        ensures
            *r == self@,
        opens_invariants none
        no_unwind
    {
        &*self.inner
    }

    /// The owned value, for changing in place: what the reference holds when
    /// it is given up is what the box owns from then on.
    pub(crate) fn get_mut(&mut self) -> (r: &mut T)
        ensures
            *r == old(self)@,
            final(self)@ == *final(r),
        opens_invariants none
        no_unwind
    {
        &mut *self.inner
    }

    /// Gives up the box and hands out the value it owned.
    pub(crate) fn into_inner(self) -> (value: T)
        ensures
            value == self@,
        opens_invariants none
        no_unwind
    {
        *self.inner
    }

    /// A box is a larger term than the value it owns, so that a recursive
    /// definition may go from a box to its value.
    pub broadcast proof fn lemma_view_is_smaller(self)
        ensures
            #[trigger] (decreases_to!(self => self@)),
    {
    }
}

impl<T> std::ops::Deref for MyBox<T> {
    type Target = T;

    fn deref(&self) -> (r: &T)
        ensures
            *r == self@,
    {
        self.get()
    }
}

impl<T> std::ops::DerefMut for MyBox<T> {
    fn deref_mut(&mut self) -> (r: &mut T)
        ensures
            *r == old(self)@,
            final(self)@ == *final(r),
    {
        self.get_mut()
    }
}

} // verus!
