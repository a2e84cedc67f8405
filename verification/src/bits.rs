//! Trusted interface to `tindex::TBitSet`, the bit set that backs both the
//! adjacency sets of a [`crate::Graph`] and the bookkeeping sets of the
//! coloring computation.
//!
//! The contents of a bit set are modeled by the uninterpreted function
//! [`bits_of`]; every operation below states how it reads or changes that
//! model, as the crate's source shows.

use vstd::prelude::*;
use tindex::TBitSet;

verus! {

#[verifier::external_type_specification]
#[verifier::external_body]
#[verifier::reject_recursive_types(I)]
pub struct ExTBitSet<I>(TBitSet<I>);

/// The set of elements whose bit is set.
pub uninterp spec fn bits_of(s: TBitSet<usize>) -> Set<usize>;

/// Relies on `TBitSet::new`: a fresh bit set has no bit set.
#[verifier::external_body]
pub(crate) fn bits_new() -> (r: TBitSet<usize>)
    ensures
        bits_of(r) == Set::<usize>::empty(),
{
    TBitSet::new()
}

/// Relies on `TBitSet::add`: sets the bit for `x` and leaves every other bit
/// as it was.
#[verifier::external_body]
pub(crate) fn bits_add(s: &mut TBitSet<usize>, x: usize)
    ensures
        bits_of(*final(s)) == bits_of(*old(s)).insert(x),
{
    s.add(x)
}

/// Relies on `TBitSet::remove`: clears the bit for `x` and leaves every other
/// bit as it was.
#[verifier::external_body]
pub(crate) fn bits_remove(s: &mut TBitSet<usize>, x: usize)
    ensures
        bits_of(*final(s)) == bits_of(*old(s)).remove(x),
{
    s.remove(x)
}

/// Relies on `TBitSet::get`: reads the bit for `x`.
#[verifier::external_body]
pub(crate) fn bits_get(s: &TBitSet<usize>, x: usize) -> (r: bool)
    ensures
        r == bits_of(*s).contains(x),
{
    s.get(x)
}

/// Relies on `TBitSet::element_count`: counts the bits that are set.
#[verifier::external_body]
pub(crate) fn bits_count(s: &TBitSet<usize>) -> (r: usize)
    requires
        bits_of(*s).finite(),
    ensures
        r == bits_of(*s).len(),
{
    s.element_count()
}

/// Relies on `Clone` for `TBitSet`, which copies the underlying bit frames.
#[verifier::external_body]
pub(crate) fn bits_clone(s: &TBitSet<usize>) -> (r: TBitSet<usize>)
    ensures
        bits_of(r) == bits_of(*s),
{
    s.clone()
}

/// Relies on `TBitSet::iter`: yields each set bit exactly once, in ascending
/// order.
#[verifier::external_body]
pub(crate) fn bits_to_vec(s: &TBitSet<usize>) -> (r: Vec<usize>)
    ensures
        forall|t: int, u: int| 0 <= t < u < r@.len() ==> r@[t] < r@[u],
        forall|t: int| 0 <= t < r@.len() ==> bits_of(*s).contains(#[trigger] r@[t]),
        forall|x: usize| bits_of(*s).contains(x) ==> r@.contains(x),
{
    s.iter().collect()
}

} // verus!
