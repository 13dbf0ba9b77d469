//! The mathematical view of a sequence of values.

use vstd::prelude::*;

verus! {

/// What each element of `v` holds, in the order of `v`.
pub open spec fn views<T: View>(v: Seq<T>) -> Seq<T::V> {
    Seq::new(v.len(), |i: int| v[i]@)
}

} // verus!
