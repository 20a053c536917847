//! The order on elements that the heap relies on.
//!
//! The heap compares elements with the operators of `Ord`. Its guarantees about
//! order hold for element types that are [`lawful`]: their comparisons agree
//! with each other and form a total order up to `==`.

use core::cmp::Ordering;
use vstd::laws_cmp::obeys_cmp;
use vstd::laws_cmp::obeys_cmp_ord;
use vstd::laws_cmp::obeys_cmp_partial_ord;
use vstd::laws_cmp::obeys_partial_cmp_spec_properties;
use vstd::laws_eq::obeys_eq_spec_properties;
use vstd::prelude::*;
use vstd::std_specs::cmp::OrdSpec;
use vstd::std_specs::cmp::PartialEqSpec;
use vstd::std_specs::cmp::PartialOrdIs;
use vstd::std_specs::cmp::PartialOrdSpec;

verus! {

/// The comparisons of `T` (`==`, `<`, `<=`, `cmp`, ...) agree with each other
/// and form a total order on `T` up to `==`. The integer types are lawful, and
/// so are tuples, options and references of lawful types.
pub open spec fn lawful<T: Ord>() -> bool {
    obeys_cmp::<T>()
}

/// `a` is not greater than `b`.
pub open spec fn le<T: Ord>(a: T, b: T) -> bool {
    a.cmp_spec(&b) != Ordering::Greater
}

/// `a` and `b` are equal in the order: neither is greater than the other.
pub open spec fn equiv<T: Ord>(a: T, b: T) -> bool {
    le(a, b) && le(b, a)
}

/// On a lawful type the executable operators `<=`, `>=` and `==` compute
/// [`le`] and [`equiv`].
pub proof fn lemma_operators<T: Ord>(a: T, b: T)
    requires
        lawful::<T>(),
    ensures
        T::obeys_partial_cmp_spec(),
        T::obeys_eq_spec(),
        a.is_le(&b) <==> le(a, b),
        a.is_ge(&b) <==> le(b, a),
        a.eq_spec(&b) <==> equiv(a, b),
{
    reveal(obeys_cmp_partial_ord);
    reveal(obeys_cmp_ord);
    reveal(obeys_partial_cmp_spec_properties);
    reveal(obeys_eq_spec_properties);
}

/// Every element is below itself.
pub proof fn lemma_le_reflexive<T: Ord>(a: T)
    requires
        lawful::<T>(),
    ensures
        le(a, a),
{
    reveal(obeys_cmp_partial_ord);
    reveal(obeys_cmp_ord);
    reveal(obeys_partial_cmp_spec_properties);
    reveal(obeys_eq_spec_properties);
}

/// Any two elements are comparable.
pub proof fn lemma_le_total<T: Ord>(a: T, b: T)
    requires
        lawful::<T>(),
    ensures
        le(a, b) || le(b, a),
{
    reveal(obeys_cmp_partial_ord);
    reveal(obeys_cmp_ord);
    reveal(obeys_partial_cmp_spec_properties);
    reveal(obeys_eq_spec_properties);
}

/// The order is transitive, also through elements that are equal in the order
/// without being identical.
pub proof fn lemma_le_transitive<T: Ord>(a: T, b: T, c: T)
    requires
        lawful::<T>(),
        le(a, b),
        le(b, c),
    ensures
        le(a, c),
{
    reveal(obeys_cmp_partial_ord);
    reveal(obeys_cmp_ord);
    reveal(obeys_partial_cmp_spec_properties);
    reveal(obeys_eq_spec_properties);
}

/// Being equal in the order is transitive.
pub proof fn lemma_equiv_transitive<T: Ord>(a: T, b: T, c: T)
    requires
        lawful::<T>(),
        equiv(a, b),
        equiv(b, c),
    ensures
        equiv(a, c),
{
    lemma_le_transitive(a, b, c);
    lemma_le_transitive(c, b, a);
}

} // verus!
