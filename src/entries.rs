//! Fixed-capacity buffers of the entries that surround one base vertex.
use vstd::prelude::*;
use arrayvec::ArrayVec;

verus! {

#[verifier::external_type_specification]
#[verifier::external_body]
#[verifier::reject_recursive_types(T)]
pub struct ExArrayVec<T, const CAP: usize>(ArrayVec<T, CAP>);

/// One base triangle seen from one of its vertices: the directed edge formed by the
/// two other vertices (in winding order) and the index of the triangle, which is
/// also the index of its centroid among the corner points.
#[derive(Copy, Clone, Debug, PartialEq, Eq, Structural)]
pub struct SurroundingEntry {
    pub start: u32,
    pub end: u32,
    pub corner: u32,
}

/// The most triangles that may meet at one base vertex.
pub const MAX_CORNERS: usize = 6;

/// What a buffer of surrounding entries holds, in order.
pub uninterp spec fn entries_of(v: ArrayVec<SurroundingEntry, 6>) -> Seq<SurroundingEntry>;

/// Relies on `ArrayVec::new`: a new vector holds nothing.
#[verifier::external_body]
pub(crate) fn entries_new() -> (r: ArrayVec<SurroundingEntry, 6>)
    ensures
        entries_of(r) == Seq::<SurroundingEntry>::empty(),
{
    ArrayVec::new()
}

/// Relies on `ArrayVec::len`: the number of elements held.
#[verifier::external_body]
pub(crate) fn entries_len(v: &ArrayVec<SurroundingEntry, 6>) -> (r: usize)
    ensures
        r == entries_of(*v).len(),
        r <= 6,
{
    v.len()
}

/// Relies on `ArrayVec::push`: appends at the end; it panics only when full.
#[verifier::external_body]
pub(crate) fn entries_push(v: &mut ArrayVec<SurroundingEntry, 6>, e: SurroundingEntry)
    requires
        entries_of(*old(v)).len() < 6,
    ensures
        entries_of(*final(v)) == entries_of(*old(v)).push(e),
{
    v.push(e)
}

/// Relies on `ArrayVec::as_slice`: the elements in order, read at position `i`.
#[verifier::external_body]
pub(crate) fn entries_get(v: &ArrayVec<SurroundingEntry, 6>, i: usize) -> (r: SurroundingEntry)
    requires
        i < entries_of(*v).len(),
    ensures
        r == entries_of(*v)[i as int],
{
    v.as_slice()[i]
}

/// Relies on `ArrayVec::remove`: takes out the element at `i` and shifts the rest
/// down; it panics only when `i` is out of bounds.
#[verifier::external_body]
pub(crate) fn entries_remove(v: &mut ArrayVec<SurroundingEntry, 6>, i: usize) -> (r: SurroundingEntry)
    requires
        i < entries_of(*old(v)).len(),
    ensures
        r == entries_of(*old(v))[i as int],
        entries_of(*final(v)) == entries_of(*old(v)).remove(i as int),
{
    v.remove(i)
}

} // verus!
