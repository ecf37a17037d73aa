//! Node addresses.

use vstd::prelude::*;
use vstd::std_specs::cmp::PartialEqSpec;

verus! {

/// The address of a node.
///
/// An address is compared with `==` and copied with `clone`. The two laws say that both do what
/// they look like they do: `==` holds of equal addresses only, and a clone equals what it was
/// cloned from.
pub trait AddressT: Clone + PartialEq + Eq + Sized {
    /// `==` decides equality.
    proof fn equality_law()
        ensures
            Self::obeys_eq_spec(),
            forall|a: Self, b: Self| #[trigger] a.eq_spec(&b) == (a == b),
    ;

    /// A clone is equal to the original.
    proof fn clone_law(a: Self, b: Self)
        requires
            call_ensures(Self::clone, (&a,), b),
        ensures
            a == b,
    ;
}

impl AddressT for u32 {
    proof fn equality_law() {
    }

    proof fn clone_law(a: u32, b: u32) {
    }
}

/// Compares two addresses.
pub fn same<A: AddressT>(a: &A, b: &A) -> (r: bool)
    ensures
        r == (*a == *b),
{
    proof {
        A::equality_law();
    }
    *a == *b
}

/// Copies an address.
pub fn copy_of<A: AddressT>(a: &A) -> (r: A)
    ensures
        r == *a,
{
    let r = a.clone();
    proof {
        A::clone_law(*a, r);
    }
    r
}

} // verus!
