//! The bounded list of open positions of one model, kept in a `SmallVec`
//! with inline room for four entries.
use vstd::prelude::*;
use smallvec::SmallVec;
use crate::state::OpenPosition;

verus! {

/// Open positions in order of entry, in a `SmallVec` that Verus sees only
/// through `positions_of` and the functions below.
#[verifier::external_body]
pub struct Positions {
    inner: SmallVec<[OpenPosition; 4]>,
}

/// The positions held in a list, in order.
pub uninterp spec fn positions_of(v: Positions) -> Seq<OpenPosition>;

/// Relies on `SmallVec::new`: the new vector is empty.
#[verifier::external_body]
pub(crate) fn positions_new() -> (r: Positions)
    ensures
        positions_of(r) == Seq::<OpenPosition>::empty(),
{
    Positions { inner: SmallVec::new() }
}

/// Relies on `SmallVec::len`: the number of stored elements.
#[verifier::external_body]
pub(crate) fn positions_len(v: &Positions) -> (r: usize)
    ensures
        r == positions_of(*v).len(),
{
    v.inner.len()
}

/// Relies on `SmallVec`'s `Index`: the element at `i`.
#[verifier::external_body]
pub(crate) fn positions_get(v: &Positions, i: usize) -> (r: &OpenPosition)
    requires
        i < positions_of(*v).len(),
    ensures
        *r == positions_of(*v)[i as int],
{
    &v.inner[i]
}

/// Relies on `SmallVec`'s `IndexMut`: replaces the element at `i`.
#[verifier::external_body]
pub(crate) fn positions_set(v: &mut Positions, i: usize, p: OpenPosition)
    requires
        i < positions_of(*old(v)).len(),
    ensures
        positions_of(*final(v)) == positions_of(*old(v)).update(i as int, p),
{
    v.inner[i] = p;
}

/// Relies on `SmallVec::push`: appends at the end.
#[verifier::external_body]
pub(crate) fn positions_push(v: &mut Positions, p: OpenPosition)
    requires
        positions_of(*old(v)).len() < usize::MAX,
    ensures
        positions_of(*final(v)) == positions_of(*old(v)).push(p),
{
    v.inner.push(p);
}

/// Relies on `SmallVec::remove`: takes out the element at `i`, shifting the
/// rest left.
#[verifier::external_body]
pub(crate) fn positions_remove(v: &mut Positions, i: usize) -> (r: OpenPosition)
    requires
        i < positions_of(*old(v)).len(),
    ensures
        r == positions_of(*old(v))[i as int],
        positions_of(*final(v)) == positions_of(*old(v)).remove(i as int),
{
    v.inner.remove(i)
}

/// Relies on `SmallVec::clear`: removes every element.
#[verifier::external_body]
pub(crate) fn positions_clear(v: &mut Positions)
    ensures
        positions_of(*final(v)) == Seq::<OpenPosition>::empty(),
{
    v.inner.clear();
}

} // verus!
