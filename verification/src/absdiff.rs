use std::ops::Sub;
use vstd::prelude::*;
use vstd::std_specs::cmp::PartialOrdSpec;
use vstd::std_specs::ops::SubSpec;

verus! {

/// Whether `x < y` for a type whose comparison follows its specification.
pub open spec fn spec_lt<T: PartialOrd>(x: T, y: T) -> bool {
    x.partial_cmp_spec(&y) == Some(core::cmp::Ordering::Less)
}

/// The distance between two values: the larger minus the smaller.
pub fn absdiff<T>(x: T, y: T) -> (r: T) where T: Sub<Output = T> + PartialOrd
    requires
        T::obeys_partial_cmp_spec() ==> (if spec_lt(x, y) {
            y.sub_req(x)
        } else {
            x.sub_req(y)
        }),
        !T::obeys_partial_cmp_spec() ==> y.sub_req(x) && x.sub_req(y),
    ensures
        T::obeys_partial_cmp_spec() && T::obeys_sub_spec() ==> r == (if spec_lt(x, y) {
            y.sub_spec(x)
        } else {
            x.sub_spec(y)
        }),
{
    if x < y {
        y - x
    } else {
        x - y
    }
}

} // verus!
