//! Access to the correction ring beyond what the deque's verified interface
//! offers.

use std::collections::VecDeque;
use vstd::prelude::*;

verus! {

/// Overwrites the element at `at`. Stands for `VecDeque`'s `IndexMut`, which
/// panics when `at` is out of bounds and otherwise replaces that one element
/// and no other.
#[verifier::external_body]
pub(crate) fn ring_put<T>(ring: &mut VecDeque<T>, at: usize, value: T)
    requires
        at < old(ring)@.len(),
    ensures
        final(ring)@ == old(ring)@.update(at as int, value),
{
    ring[at] = value;
}

} // verus!
