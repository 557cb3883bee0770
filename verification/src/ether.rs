//! The header rewrite: a forwarded frame gets new Ethernet addresses.
//!
//! The two address fields are written through the `smoltcp` crate. Verus
//! does not look into it: the contracts of `frame_set_dst_addr` and
//! `frame_set_src_addr` say what its source shows, and are not proved.

use crate::packet::Packet;
use crate::port::Port;
use smoltcp::wire::{EthernetAddress, EthernetFrame};
use vstd::prelude::*;

verus! {

/// The length of the two Ethernet address fields, which lead a frame.
pub const ETHER_ADDRS_LEN: usize = 12;

/// `smoltcp::wire::EthernetFrame::set_dst_addr`, on a frame made by
/// `new_unchecked`: writes the six bytes of the address over the bytes 0 to
/// 5 of the buffer and leaves the others. It panics on a buffer of fewer
/// than six bytes, which `requires` leaves out.
#[verifier::external_body]
pub(crate) fn frame_set_dst_addr(data: &mut [u8], mac: [u8; 6])
    requires
        old(data)@.len() >= 6,
    ensures
        final(data)@ == mac@ + old(data)@.subrange(6, old(data)@.len() as int),
{
    EthernetFrame::new_unchecked(data).set_dst_addr(EthernetAddress(mac))
}

/// `smoltcp::wire::EthernetFrame::set_src_addr`, on a frame made by
/// `new_unchecked`: writes the six bytes of the address over the bytes 6 to
/// 11 of the buffer and leaves the others. It panics on a buffer of fewer
/// than twelve bytes, which `requires` leaves out.
#[verifier::external_body]
pub(crate) fn frame_set_src_addr(data: &mut [u8], mac: [u8; 6])
    requires
        old(data)@.len() >= 12,
    ensures
        final(data)@ == old(data)@.subrange(0, 6) + mac@ + old(data)@.subrange(
            12,
            old(data)@.len() as int,
        ),
{
    EthernetFrame::new_unchecked(data).set_src_addr(EthernetAddress(mac))
}

/// A frame with the destination `dst` and the source `src` written over
/// its first twelve bytes; a frame that is shorter stays as it is.
pub open spec fn rewritten(frame: Seq<u8>, src: Seq<u8>, dst: Seq<u8>) -> Seq<u8> {
    if frame.len() < ETHER_ADDRS_LEN {
        frame
    } else {
        dst + src + frame.subrange(ETHER_ADDRS_LEN as int, frame.len() as int)
    }
}

/// The rewrite need not be done twice: with the same addresses, a second
/// rewrite leaves what the first made.
pub proof fn lemma_rewrite_idempotent(frame: Seq<u8>, src: Seq<u8>, dst: Seq<u8>)
    requires
        src.len() == 6,
        dst.len() == 6,
    ensures
        rewritten(rewritten(frame, src, dst), src, dst) == rewritten(frame, src, dst),
        rewritten(frame, src, dst).len() == frame.len(),
        frame.len() < ETHER_ADDRS_LEN ==> rewritten(frame, src, dst) == frame,
{
    let once = rewritten(frame, src, dst);
    if frame.len() >= ETHER_ADDRS_LEN {
        assert(once.subrange(ETHER_ADDRS_LEN as int, once.len() as int) =~= frame.subrange(
            ETHER_ADDRS_LEN as int,
            frame.len() as int,
        ));
    }
}

/// Writes the destination `dst_mac` and the source `src_mac` over the
/// first twelve bytes of the frame in `pkt`. A frame that is shorter is
/// left as it is, and the answer is `false`: the caller reports it and
/// forwards the frame all the same.
pub fn set_macs(pkt: &mut Packet, src_mac: [u8; 6], dst_mac: [u8; 6]) -> (r: bool)
    requires
        old(pkt).wf(),
    ensures
        final(pkt).wf(),
        r == (old(pkt)@.len() >= ETHER_ADDRS_LEN),
        final(pkt)@ == rewritten(old(pkt)@, src_mac@, dst_mac@),
        final(pkt).same_window(old(pkt)),
        final(pkt).metadata() == old(pkt).metadata(),
        final(pkt).memory() == old(pkt).memory().subrange(0, old(pkt).start()) + final(pkt)@
            + old(pkt).memory().subrange(old(pkt).end(), old(pkt).spec_capacity() as int),
{
    if pkt.len() < ETHER_ADDRS_LEN {
        proof {
            pkt.lemma_view();
            assert(pkt.memory() =~= pkt.memory().subrange(0, pkt.start()) + pkt@
                + pkt.memory().subrange(pkt.end(), pkt.spec_capacity() as int));
        }
        return false;
    }
    let ghost frame = pkt@;
    let data = pkt.data_mut();
    frame_set_src_addr(data, src_mac);
    frame_set_dst_addr(data, dst_mac);
    proof {
        assert(data@ =~= rewritten(frame, src_mac@, dst_mac@));
    }
    true
}

/// The placeholder for the address of the next hop behind `port`: locally
/// administered, and ending in the low byte of the port's index.
pub fn get_fake_dst_mac(port: &Port) -> (mac: [u8; 6])
    ensures
        mac@ == seq![2u8, 0u8, 0u8, 0u8, 0u8, (port.id() % 256) as u8],
{
    let low = (port.port_id() % 256) as u8;
    let mac = [2u8, 0u8, 0u8, 0u8, 0u8, low];
    assert(mac@ =~= seq![2u8, 0u8, 0u8, 0u8, 0u8, low]);
    mac
}

} // verus!
