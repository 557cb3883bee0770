//! The staging area for a burst of packets: the bounded inline vector of
//! the `arrayvec` crate, which holds up to `MAX_PKT_BURST` packet buffers.
//!
//! Verus does not look into the vector. What it holds has a name,
//! `burst_items`, and the contracts below say of each method what the
//! crate's source shows; nothing here is proved.

use crate::packet::Packet;
use arrayvec::ArrayVec;
use vstd::prelude::*;

verus! {

/// The number of packets that one burst can hold.
pub const MAX_PKT_BURST: usize = 32;

/// `arrayvec::ArrayVec`, a vector with a fixed capacity that stores its
/// items inline.
#[verifier::external_type_specification]
#[verifier::external_body]
#[verifier::reject_recursive_types(T)]
pub struct ExArrayVec<T, const CAP: usize>(ArrayVec<T, CAP>);

/// The packets that a burst holds, first to last.
pub uninterp spec fn burst_items(b: ArrayVec<Packet, 32>) -> Seq<Packet>;

/// `ArrayVec::new`: a burst that holds nothing.
#[verifier::external_body]
pub(crate) fn burst_new() -> (b: ArrayVec<Packet, 32>)
    ensures
        burst_items(b) == Seq::<Packet>::empty(),
{
    ArrayVec::new()
}

/// `ArrayVec::len`: the number of packets held, which never exceeds the
/// capacity.
#[verifier::external_body]
pub(crate) fn burst_len(b: &ArrayVec<Packet, 32>) -> (n: usize)
    ensures
        n == burst_items(*b).len(),
        n <= MAX_PKT_BURST,
{
    b.len()
}

/// `ArrayVec::push`: appends one packet behind the others. It panics on a
/// full vector, which `requires` leaves out.
#[verifier::external_body]
pub(crate) fn burst_push(b: &mut ArrayVec<Packet, 32>, pkt: Packet)
    requires
        burst_items(*old(b)).len() < MAX_PKT_BURST,
    ensures
        burst_items(*final(b)) == burst_items(*old(b)).push(pkt),
{
    b.push(pkt)
}

/// `ArrayVec::drain` on the range `..n`: removes the first `n` packets and
/// hands them out in order; those behind them move to the front and keep
/// their order. It panics on a range that ends behind the last item, which
/// `requires` leaves out.
#[verifier::external_body]
pub(crate) fn burst_drain(b: &mut ArrayVec<Packet, 32>, n: usize) -> (out: Vec<Packet>)
    requires
        n <= burst_items(*old(b)).len(),
    ensures
        out@ == burst_items(*old(b)).subrange(0, n as int),
        burst_items(*final(b)) == burst_items(*old(b)).subrange(
            n as int,
            burst_items(*old(b)).len() as int,
        ),
{
    b.drain(..n).collect()
}

/// `ArrayVec::as_slice`: the packets held, as a slice.
#[verifier::external_body]
pub(crate) fn burst_as_slice(b: &ArrayVec<Packet, 32>) -> (s: &[Packet])
    ensures
        s@ == burst_items(*b),
{
    b.as_slice()
}

/// Every packet of the sequence is well formed.
pub open spec fn all_wf(pkts: Seq<Packet>) -> bool {
    forall|i: int| 0 <= i < pkts.len() ==> (#[trigger] pkts[i]).wf()
}

} // verus!
