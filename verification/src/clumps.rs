//! Trusted access to `arrayvec::ArrayVec<u32, 8>`, the fixed-capacity list in
//! which the event scheduler records where each clump of a node's immediate
//! events starts in the immediate event buffer.
use arrayvec::ArrayVec;
use vstd::prelude::*;

verus! {

/// The most clump starts a node records per processing block.
pub const MAX_CLUMP_INDICES: usize = 8;

#[verifier::external_type_specification]
#[verifier::external_body]
#[verifier::reject_recursive_types(T)]
pub struct ExArrayVec<T, const CAP: usize>(ArrayVec<T, CAP>);

/// What a clump list holds, in order.
pub uninterp spec fn clump_contents(v: ArrayVec<u32, 8>) -> Seq<u32>;

/// Calls `ArrayVec::new`: the new list is empty.
#[verifier::external_body]
pub(crate) fn clumps_new() -> (r: ArrayVec<u32, 8>)
    ensures
        clump_contents(r) == Seq::<u32>::empty(),
{
    ArrayVec::new()
}

/// Calls `ArrayVec::try_push`: below the capacity of 8 the value is
/// appended and `true` returned; at capacity the list is unchanged and
/// `false` returned (the capacity error is dropped).
#[verifier::external_body]
pub(crate) fn clumps_try_push(v: &mut ArrayVec<u32, 8>, x: u32) -> (r: bool)
    ensures
        r == (clump_contents(*old(v)).len() < 8),
        r ==> clump_contents(*final(v)) == clump_contents(*old(v)).push(x),
        !r ==> clump_contents(*final(v)) == clump_contents(*old(v)),
{
    v.try_push(x).is_ok()
}

/// Calls `ArrayVec::len`; a list never holds more than its capacity.
#[verifier::external_body]
pub(crate) fn clumps_len(v: &ArrayVec<u32, 8>) -> (r: usize)
    ensures
        r == clump_contents(*v).len(),
        r <= 8,
{
    v.len()
}

/// Reads the element at `i` through `ArrayVec::as_slice`.
#[verifier::external_body]
pub(crate) fn clumps_get(v: &ArrayVec<u32, 8>, i: usize) -> (r: u32)
    requires
        i < clump_contents(*v).len(),
    ensures
        r == clump_contents(*v)[i as int],
{
    v.as_slice()[i]
}

/// Calls `ArrayVec::clear`: the list is empty afterwards.
#[verifier::external_body]
pub(crate) fn clumps_clear(v: &mut ArrayVec<u32, 8>)
    ensures
        clump_contents(*final(v)) == Seq::<u32>::empty(),
{
    v.clear()
}

} // verus!
