//! The order that sorting is stated over: a type's own comparison, read as a
//! total preorder, and the notions built on it.

use std::cmp::Ordering;
use vstd::laws_cmp::{obeys_cmp, obeys_cmp_ord, obeys_cmp_partial_ord, obeys_partial_cmp_spec_properties};
use vstd::laws_eq::obeys_eq_spec_properties;
use vstd::prelude::*;
use vstd::std_specs::cmp::{OrdSpec, PartialOrdSpec};

verus! {

/// `a` comes before `b` or ties with it under the type's comparison.
pub open spec fn ord_le<T: PartialOrd>(a: T, b: T) -> bool {
    a.partial_cmp_spec(&b) matches Some(Ordering::Less | Ordering::Equal)
}

/// `a` and `b` tie: each is ordered no later than the other. Tied values
/// need not be identical.
pub open spec fn tied<T: PartialOrd>(a: T, b: T) -> bool {
    ord_le(a, b) && ord_le(b, a)
}

/// The comparison operators of `T` compute `ord_le`, and `ord_le` is total
/// and transitive.
pub open spec fn total_preorder<T: PartialOrd>() -> bool {
    &&& T::obeys_partial_cmp_spec()
    &&& forall|a: T, b: T| #[trigger] ord_le(a, b) || ord_le(b, a)
    &&& forall|a: T, b: T, c: T| #[trigger] ord_le(a, b) && #[trigger] ord_le(b, c) ==> ord_le(a, c)
}

/// Every element is ordered no later than each element after it.
pub open spec fn sorted<T: PartialOrd>(s: Seq<T>) -> bool {
    forall|i: int, j: int| 0 <= i < j < s.len() ==> ord_le(#[trigger] s[i], #[trigger] s[j])
}

/// The elements of `s` that tie with `x`, in the order in which `s` holds them.
pub open spec fn class_of<T: PartialOrd>(s: Seq<T>, x: T) -> Seq<T> {
    s.filter(|y: T| tied(x, y))
}

/// A type whose comparison obeys the laws of a lawful `Ord`, as the integer
/// types and tuples of them do, is a total preorder.
pub proof fn lemma_lawful_order_is_total_preorder<T: Ord>()
    requires
        obeys_cmp::<T>(),
    ensures
        total_preorder::<T>(),
{
    reveal(obeys_eq_spec_properties);
    reveal(obeys_partial_cmp_spec_properties);
    reveal(obeys_cmp_partial_ord);
    reveal(obeys_cmp_ord);
    assert forall|a: T, b: T, c: T| #[trigger] ord_le(a, b) && #[trigger] ord_le(b, c) implies ord_le(a, c) by {
        let ab = a.partial_cmp_spec(&b);
        let bc = b.partial_cmp_spec(&c);
        let ac = a.partial_cmp_spec(&c);
        let ca = c.partial_cmp_spec(&a);
        let cb = c.partial_cmp_spec(&b);
        let ba = b.partial_cmp_spec(&a);
        assert(ac == Some(a.cmp_spec(&c)));
        assert(ca == Some(c.cmp_spec(&a)));
        assert(cb == Some(c.cmp_spec(&b)));
        assert(ba == Some(b.cmp_spec(&a)));
        if ac == Some(Ordering::Greater) {
            assert(ca == Some(Ordering::Less));
        }
    }
    assert forall|a: T, b: T| #[trigger] ord_le(a, b) || ord_le(b, a) by {
        assert(a.partial_cmp_spec(&b) == Some(a.cmp_spec(&b)));
        assert(b.partial_cmp_spec(&a) == Some(b.cmp_spec(&a)));
    }
}

} // verus!
