//! Small helpers.
use vstd::prelude::*;

verus! {

/// Splits an empty slice into two empty slices.
pub fn duplicate_empty_slice<T>(arr: &mut [T]) -> (r: (&mut [T], &mut [T]))
    requires
        old(arr)@.len() == 0,
    ensures
        r.0@.len() == 0,
        r.1@.len() == 0,
        final(arr)@ == final(r.0)@ + final(r.1)@,
{
    arr.split_at_mut(0)
}

} // verus!
