//! The order of the stored values, as specifications see it.
//!
//! The tree compares with `==` and `<`. vstd describes what these operators
//! compute by `eq_spec` and `partial_cmp_spec`, and `obeys_cmp` says that a
//! type's comparisons follow those descriptions and form a total order. The
//! lemmas here draw from `obeys_cmp` the facts that a search tree rests on.

use core::cmp::Ordering;
use vstd::laws_cmp::obeys_cmp;
use vstd::laws_cmp::obeys_cmp_ord;
use vstd::laws_cmp::obeys_cmp_partial_ord;
use vstd::laws_cmp::obeys_partial_cmp_spec_properties;
use vstd::laws_eq::obeys_eq_spec_properties;
use vstd::prelude::*;
use vstd::std_specs::cmp::OrdSpec;
use vstd::std_specs::cmp::PartialEqSpec;
use vstd::std_specs::cmp::PartialOrdSpec;

verus! {

/// `a == b` as the executable comparison decides it.
pub open spec fn same<T: Ord>(a: T, b: T) -> bool {
    a.eq_spec(&b)
}

/// `a < b` as the executable comparison decides it.
pub open spec fn before<T: Ord>(a: T, b: T) -> bool {
    a.partial_cmp_spec(&b) == Some(Ordering::Less)
}

/// Under `obeys_cmp` the operators `==` and `<` compute what `same` and
/// `before` say.
pub proof fn lemma_operators_follow<T: Ord>()
    requires
        obeys_cmp::<T>(),
    ensures
        T::obeys_eq_spec(),
        T::obeys_partial_cmp_spec(),
{
    reveal(obeys_cmp_partial_ord);
}

/// Of two values exactly one holds: the first sorts before the second, they
/// compare equal, or the second sorts before the first.
pub proof fn lemma_trichotomy<T: Ord>(a: T, b: T)
    requires
        obeys_cmp::<T>(),
    ensures
        before(a, b) || same(a, b) || before(b, a),
        !(before(a, b) && same(a, b)),
        !(before(a, b) && before(b, a)),
        !(same(a, b) && before(b, a)),
{
    reveal(obeys_cmp_ord);
    reveal(obeys_cmp_partial_ord);
    reveal(obeys_partial_cmp_spec_properties);
    assert(a.partial_cmp_spec(&b) == Some(a.cmp_spec(&b)));
    assert(b.partial_cmp_spec(&a) == Some(b.cmp_spec(&a)));
}

/// Every value compares equal to itself.
pub proof fn lemma_same_reflexive<T: Ord>(a: T)
    requires
        obeys_cmp::<T>(),
    ensures
        same(a, a),
{
    lemma_trichotomy(a, a);
}

/// Comparing equal does not depend on the side.
pub proof fn lemma_same_symmetric<T: Ord>(a: T, b: T)
    requires
        obeys_cmp::<T>(),
        same(a, b),
    ensures
        same(b, a),
{
    reveal(obeys_eq_spec_properties);
}

/// Two values that compare equal to a third compare equal to each other.
pub proof fn lemma_same_transitive<T: Ord>(a: T, b: T, c: T)
    requires
        obeys_cmp::<T>(),
        same(a, b),
        same(b, c),
    ensures
        same(a, c),
{
    reveal(obeys_eq_spec_properties);
}

/// Sorting before is transitive.
pub proof fn lemma_before_transitive<T: Ord>(a: T, b: T, c: T)
    requires
        obeys_cmp::<T>(),
        before(a, b),
        before(b, c),
    ensures
        before(a, c),
{
    reveal(obeys_partial_cmp_spec_properties);
}

/// A value that compares equal to one sorting before `c` sorts before `c`.
pub proof fn lemma_same_then_before<T: Ord>(a: T, b: T, c: T)
    requires
        obeys_cmp::<T>(),
        same(a, b),
        before(b, c),
    ensures
        before(a, c),
{
    lemma_trichotomy(a, c);
    lemma_trichotomy(b, c);
    lemma_trichotomy(a, b);
    if same(a, c) {
        lemma_same_symmetric(a, b);
        lemma_same_transitive(b, a, c);
    } else if before(c, a) {
        lemma_before_transitive(b, c, a);
    }
}

} // verus!
