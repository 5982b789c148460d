//! Trusted access to the `smallvec::SmallVec` lists in which a scheduled
//! node keeps its buffer assignments (up to four are stored inline).
//!
//! Each list is held in a struct whose contents Verus sees only through the
//! names below.
use crate::buffers::{InBufferAssignment, OutBufferAssignment};
use smallvec::SmallVec;
use vstd::prelude::*;

verus! {

/// The input buffer assignments of a node, in port order.
#[verifier::external_body]
pub struct InBufferList {
    list: SmallVec<[InBufferAssignment; 4]>,
}

/// The output buffer assignments of a node, in port order.
#[verifier::external_body]
pub struct OutBufferList {
    list: SmallVec<[OutBufferAssignment; 4]>,
}

/// What an input list holds, in order.
pub uninterp spec fn in_list_contents(l: InBufferList) -> Seq<InBufferAssignment>;

/// What an output list holds, in order.
pub uninterp spec fn out_list_contents(l: OutBufferList) -> Seq<OutBufferAssignment>;

/// Calls `SmallVec::new`: the list is empty.
#[verifier::external_body]
pub(crate) fn in_list_new() -> (r: InBufferList)
    ensures
        in_list_contents(r) == Seq::<InBufferAssignment>::empty(),
{
    InBufferList { list: SmallVec::new() }
}

/// Calls `SmallVec::push`: the value is appended.
#[verifier::external_body]
pub(crate) fn in_list_push(l: &mut InBufferList, x: InBufferAssignment)
    ensures
        in_list_contents(*final(l)) == in_list_contents(*old(l)).push(x),
{
    l.list.push(x)
}

/// Calls `SmallVec::len`.
#[verifier::external_body]
pub(crate) fn in_list_len(l: &InBufferList) -> (r: usize)
    ensures
        r == in_list_contents(*l).len(),
{
    l.list.len()
}

/// Reads the element at `i` through `SmallVec::as_slice`.
#[verifier::external_body]
pub(crate) fn in_list_get(l: &InBufferList, i: usize) -> (r: InBufferAssignment)
    requires
        i < in_list_contents(*l).len(),
    ensures
        r == in_list_contents(*l)[i as int],
{
    l.list.as_slice()[i]
}

/// Calls `SmallVec::new`: the list is empty.
#[verifier::external_body]
pub(crate) fn out_list_new() -> (r: OutBufferList)
    ensures
        out_list_contents(r) == Seq::<OutBufferAssignment>::empty(),
{
    OutBufferList { list: SmallVec::new() }
}

/// Calls `SmallVec::push`: the value is appended.
#[verifier::external_body]
pub(crate) fn out_list_push(l: &mut OutBufferList, x: OutBufferAssignment)
    ensures
        out_list_contents(*final(l)) == out_list_contents(*old(l)).push(x),
{
    l.list.push(x)
}

/// Calls `SmallVec::len`.
#[verifier::external_body]
pub(crate) fn out_list_len(l: &OutBufferList) -> (r: usize)
    ensures
        r == out_list_contents(*l).len(),
{
    l.list.len()
}

/// Reads the element at `i` through `SmallVec::as_slice`.
#[verifier::external_body]
pub(crate) fn out_list_get(l: &OutBufferList, i: usize) -> (r: OutBufferAssignment)
    requires
        i < out_list_contents(*l).len(),
    ensures
        r == out_list_contents(*l)[i as int],
{
    l.list.as_slice()[i]
}

} // verus!
