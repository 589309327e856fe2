use vstd::prelude::*;
use rand::seq::SliceRandom;

verus! {

/// Relies on rand::random_range over `0..n`: it panics on an empty range
/// and otherwise returns a uniformly drawn value of the range.
#[verifier::external_body]
pub(crate) fn rand_below(n: usize) -> (r: usize)
    requires
        n >= 1,
    ensures
        r < n,
{
    rand::random_range(0..n)
}

/// Relies on rand::seq::SliceRandom::shuffle: it rearranges the elements
/// of the slice in place, keeping exactly the same multiset of entries.
#[verifier::external_body]
pub(crate) fn shuffle(v: &mut Vec<usize>)
    ensures
        final(v)@.to_multiset() == old(v)@.to_multiset(),
{
    v.as_mut_slice().shuffle(&mut rand::rng())
}

} // verus!
