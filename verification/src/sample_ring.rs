//! Bounded ring buffers of samples, kept in `dasp_ring_buffer::Bounded`.
//!
//! A sample is held by its 32-bit pattern (`f32::to_bits` of the sample the
//! caller plays), so the ring stores `u32` values: pushed at the back, popped
//! from the front, and, once the ring is full, each push overwrites the
//! oldest sample.

use dasp_ring_buffer::Bounded;
use vstd::prelude::*;

verus! {

#[verifier::external_type_specification]
#[verifier::external_body]
#[verifier::reject_recursive_types(S)]
pub struct ExBounded<S>(Bounded<S>);

/// The samples a ring holds, front (oldest) first.
pub uninterp spec fn ring_items(ring: Bounded<Vec<u32>>) -> Seq<u32>;

/// How many samples a ring holds at most: the length of the storage it was
/// made from.
pub uninterp spec fn ring_capacity(ring: Bounded<Vec<u32>>) -> nat;

/// A ring in a usable state: it can hold at least one sample and holds no
/// more than it can.
pub open spec fn ring_ok(ring: Bounded<Vec<u32>>) -> bool {
    ring_capacity(ring) > 0 && ring_items(ring).len() <= ring_capacity(ring)
}

/// The items after one `push` of `x`: appended at the back, and when the
/// ring is full the front item drops out.
pub open spec fn pushed_items(items: Seq<u32>, capacity: nat, x: u32) -> Seq<u32> {
    if items.len() >= capacity {
        items.drop_first().push(x)
    } else {
        items.push(x)
    }
}

/// `Bounded::from` on zeroed storage of `capacity` samples. The crate makes
/// an empty ring whose maximum length is the storage length (and panics on
/// empty storage, which `requires` rules out).
#[verifier::external_body]
pub(crate) fn ring_with_capacity(capacity: usize) -> (r: Bounded<Vec<u32>>)
    requires
        capacity > 0,
    ensures
        ring_items(r) == Seq::<u32>::empty(),
        ring_capacity(r) == capacity,
{
    Bounded::from(vec![0u32; capacity])
}

/// `Bounded::len`: the number of samples held.
#[verifier::external_body]
pub(crate) fn ring_len(ring: &Bounded<Vec<u32>>) -> (r: usize)
    ensures
        r == ring_items(*ring).len(),
{
    ring.len()
}

/// `Bounded::push`: the crate appends `x`; when the ring is full it first
/// drops the front sample and returns it, otherwise it returns `None`. The
/// storage (and so the capacity) is unchanged. On a ring of capacity zero
/// the crate would index empty storage, which `requires` rules out.
#[verifier::external_body]
pub(crate) fn ring_push(ring: &mut Bounded<Vec<u32>>, x: u32) -> (r: Option<u32>)
    requires
        ring_ok(*old(ring)),
    ensures
        ring_capacity(*final(ring)) == ring_capacity(*old(ring)),
        ring_items(*final(ring)) == pushed_items(ring_items(*old(ring)), ring_capacity(*old(ring)), x),
        r == (if ring_items(*old(ring)).len() >= ring_capacity(*old(ring)) {
            Some(ring_items(*old(ring))[0])
        } else {
            None::<u32>
        }),
{
    ring.push(x)
}

/// `Bounded::pop`: the crate removes and returns the front sample, or
/// returns `None` and changes nothing when the ring is empty.
#[verifier::external_body]
pub(crate) fn ring_pop(ring: &mut Bounded<Vec<u32>>) -> (r: Option<u32>)
    ensures
        ring_capacity(*final(ring)) == ring_capacity(*old(ring)),
        ring_items(*old(ring)).len() == 0 ==> r is None && ring_items(*final(ring)) == ring_items(*old(ring)),
        ring_items(*old(ring)).len() > 0 ==> r == Some(ring_items(*old(ring))[0])
            && ring_items(*final(ring)) == ring_items(*old(ring)).drop_first(),
{
    ring.pop()
}

} // verus!
