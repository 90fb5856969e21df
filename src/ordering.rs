use vstd::prelude::*;

verus! {

use vstd::std_specs::cmp::PartialOrdSpec;

/// Leaves the larger of the two values in `a` and the smaller in `b`:
/// the values are exchanged exactly when `a < b`.
pub fn swap_max<T: PartialOrd>(a: &mut T, b: &mut T)
    ensures
        T::obeys_partial_cmp_spec() ==> if (*old(a)).partial_cmp_spec(&*old(b)) == Some(
            core::cmp::Ordering::Less,
        ) {
            *final(a) == *old(b) && *final(b) == *old(a)
        } else {
            *final(a) == *old(a) && *final(b) == *old(b)
        },
{
    if (*a).lt(&*b) {
        core::mem::swap(a, b);
    }
}

/// Leaves the smaller of the two values in `a` and the larger in `b`:
/// the values are exchanged exactly when `a > b`.
pub fn swap_min<T: PartialOrd>(a: &mut T, b: &mut T)
    ensures
        T::obeys_partial_cmp_spec() ==> if (*old(a)).partial_cmp_spec(&*old(b)) == Some(
            core::cmp::Ordering::Greater,
        ) {
            *final(a) == *old(b) && *final(b) == *old(a)
        } else {
            *final(a) == *old(a) && *final(b) == *old(b)
        },
{
    if (*a).gt(&*b) {
        core::mem::swap(a, b);
    }
}

} // verus!
