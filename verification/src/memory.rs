//! How much memory vectors have room for.

use vstd::prelude::*;

verus! {

/// `Vec::capacity`. The capacity is at least the length, and a vector never takes more than
/// `isize::MAX` bytes. How much more than the length it is depends on the allocator.
#[verifier::external_body]
pub(crate) fn capacity<T>(v: &Vec<T>) -> (c: usize)
    ensures
        c >= v@.len(),
        vstd::layout::size_of::<T>() * c <= isize::MAX,
{
    v.capacity()
}

} // verus!
