//! One rewrite of a frame, done with one packet crate after the other:
//! new Ethernet addresses and a new IPv4 destination, with the checksum
//! left as it was.
//!
//! The bytes are written through the crates `pnet` and `smoltcp`. Verus
//! does not look into them: the contracts of the functions that are marked
//! `external_body` say what the crates' sources show, and are not proved.

use crate::ether::{frame_set_dst_addr, frame_set_src_addr};
use crate::headers::{build_udp, built_udp, eth2_read, eth2_read_from_slice, eth2_write,
    eth2_write_to_slice, ipv4_ihl_bytes, ipv4_kept, ipv4_read, ipv4_read_from_slice, ipv4_readable,
    ipv4_write_raw, slice_udp, sliced_udp, EtherHeader, Ipv4Fields, UdpFlow, ETHER_HEADER_LEN,
    IPV4_HEADER_LEN};
use pnet::packet::ethernet::MutableEthernetPacket;
use pnet::packet::ipv4::MutableIpv4Packet;
use pnet_datalink::MacAddr;
use smoltcp::wire::{Ipv4Address, Ipv4Packet};
use vstd::prelude::*;

verus! {

/// The destination address that a rewritten frame gets.
pub open spec fn nat_eth_dst() -> Seq<u8> {
    seq![100u8, 101u8, 102u8, 103u8, 104u8, 105u8]
}

/// The source address that a rewritten frame gets.
pub open spec fn nat_eth_src() -> Seq<u8> {
    seq![200u8, 201u8, 202u8, 203u8, 204u8, 205u8]
}

/// The IPv4 destination that a rewritten frame gets.
pub open spec fn nat_ip_dst() -> Seq<u8> {
    seq![10u8, 0u8, 0u8, 1u8]
}

/// A frame with the Ethernet addresses and the IPv4 destination replaced.
pub open spec fn natted(frame: Seq<u8>) -> Seq<u8> {
    nat_eth_dst() + nat_eth_src() + frame.subrange(12, 30) + nat_ip_dst() + frame.subrange(
        34,
        frame.len() as int,
    )
}

/// The length of the IPv4 header that begins `ip`, as its first byte says.
pub open spec fn ipv4_header_len(ip: Seq<u8>) -> int {
    ((ip[0] & 0x0f) as int) * 4
}

/// The length of the IPv4 packet that begins `ip`, as its header says.
pub open spec fn ipv4_total_len(ip: Seq<u8>) -> int {
    ip[2] * 256 + ip[3]
}

/// The lengths in the IPv4 header that begins `ip` fit the header and
/// the bytes: the header is twenty bytes at least, the packet is no
/// shorter than its header, and `ip` holds the whole packet.
pub open spec fn ipv4_lengths_ok(ip: Seq<u8>) -> bool {
    &&& ip.len() >= IPV4_HEADER_LEN
    &&& IPV4_HEADER_LEN <= ipv4_header_len(ip) <= ipv4_total_len(ip) <= ip.len()
}

/// `smoltcp::wire::Ipv4Packet::check_len`, on a packet made by
/// `new_unchecked`: whether the buffer holds twenty bytes, the header
/// length is twenty at least, and header length, total length and the
/// length of the buffer do not decrease in this order.
#[verifier::external_body]
fn ipv4_check_len(ip: &[u8]) -> (r: bool)
    ensures
        r == ipv4_lengths_ok(ip@),
{
    Ipv4Packet::new_unchecked(ip).check_len().is_ok()
}

/// `smoltcp::wire::Ipv4Packet::set_dst_addr`, on a packet made by
/// `new_unchecked`: writes the four bytes of the address over the bytes 16
/// to 19 of the buffer and leaves the others. It panics on a buffer of
/// fewer than twenty bytes, which `requires` leaves out.
#[verifier::external_body]
fn ipv4_set_dst_addr(ip: &mut [u8], addr: [u8; 4])
    requires
        old(ip)@.len() >= 20,
    ensures
        final(ip)@ == old(ip)@.subrange(0, 16) + addr@ + old(ip)@.subrange(
            20,
            old(ip)@.len() as int,
        ),
{
    Ipv4Packet::new_unchecked(ip).set_dst_addr(Ipv4Address::from(addr))
}

/// `pnet::packet::ethernet::MutableEthernetPacket::set_destination`, on a
/// packet made by `new`: writes the six bytes of the address over the
/// bytes 0 to 5 of the buffer and leaves the others. `new` gives nothing
/// for a buffer of fewer than fourteen bytes, which `requires` leaves out.
#[verifier::external_body]
fn pnet_set_destination(packet: &mut [u8], mac: [u8; 6])
    requires
        old(packet)@.len() >= 14,
    ensures
        final(packet)@ == mac@ + old(packet)@.subrange(6, old(packet)@.len() as int),
{
    let mut ethernet_packet = MutableEthernetPacket::new(packet).unwrap();
    ethernet_packet.set_destination(MacAddr::new(mac[0], mac[1], mac[2], mac[3], mac[4], mac[5]));
}

/// `pnet::packet::ethernet::MutableEthernetPacket::set_source`, on a
/// packet made by `new`: writes the six bytes of the address over the
/// bytes 6 to 11 of the buffer and leaves the others. `new` gives nothing
/// for a buffer of fewer than fourteen bytes, which `requires` leaves out.
#[verifier::external_body]
fn pnet_set_source(packet: &mut [u8], mac: [u8; 6])
    requires
        old(packet)@.len() >= 14,
    ensures
        final(packet)@ == old(packet)@.subrange(0, 6) + mac@ + old(packet)@.subrange(
            12,
            old(packet)@.len() as int,
        ),
{
    let mut ethernet_packet = MutableEthernetPacket::new(packet).unwrap();
    ethernet_packet.set_source(MacAddr::new(mac[0], mac[1], mac[2], mac[3], mac[4], mac[5]));
}

/// `pnet::packet::ipv4::MutableIpv4Packet::set_destination`, on a packet
/// made by `new`: writes the four bytes of the address over the bytes 16
/// to 19 of the buffer and leaves the others. `new` gives nothing for a
/// buffer of fewer than twenty bytes, which `requires` leaves out.
#[verifier::external_body]
fn pnet_ipv4_set_destination(ip: &mut [u8], addr: [u8; 4])
    requires
        old(ip)@.len() >= 20,
    ensures
        final(ip)@ == old(ip)@.subrange(0, 16) + addr@ + old(ip)@.subrange(
            20,
            old(ip)@.len() as int,
        ),
{
    let mut ip4_packet = MutableIpv4Packet::new(ip).unwrap();
    ip4_packet.set_destination(addr.into());
}

/// Rewrites the frame in `packet` with the `pnet` crate. The frame has to
/// hold an Ethernet header and an IPv4 header without options.
pub fn nat_pnet(packet: &mut [u8])
    requires
        old(packet)@.len() >= ETHER_HEADER_LEN + IPV4_HEADER_LEN,
    ensures
        final(packet)@ == natted(old(packet)@),
{
    let dst: [u8; 6] = [100, 101, 102, 103, 104, 105];
    let src: [u8; 6] = [200, 201, 202, 203, 204, 205];
    let ip_dst: [u8; 4] = [10, 0, 0, 1];
    let ghost frame = packet@;
    pnet_set_destination(packet, dst);
    pnet_set_source(packet, src);
    let (_ethernet, ip) = packet.split_at_mut(ETHER_HEADER_LEN);
    pnet_ipv4_set_destination(ip, ip_dst);
    proof {
        assert(dst@ =~= nat_eth_dst());
        assert(src@ =~= nat_eth_src());
        assert(ip_dst@ =~= nat_ip_dst());
        assert(_ethernet@ + ip@ =~= natted(frame));
    }
}

/// Whether `nat_smoltcp` takes the frame: it holds an Ethernet header and,
/// behind it, an IPv4 packet whose lengths fit.
pub open spec fn spec_can_nat_smoltcp(frame: Seq<u8>) -> bool {
    frame.len() >= ETHER_HEADER_LEN && ipv4_lengths_ok(
        frame.subrange(ETHER_HEADER_LEN as int, frame.len() as int),
    )
}

/// Whether `nat_smoltcp` takes the frame.
pub fn can_nat_smoltcp(packet: &[u8]) -> (r: bool)
    ensures
        r == spec_can_nat_smoltcp(packet@),
{
    let n = packet.len();
    if n < ETHER_HEADER_LEN {
        return false;
    }
    ipv4_check_len(vstd::slice::slice_subrange(packet, ETHER_HEADER_LEN, n))
}

/// Rewrites the frame in `packet` with the `smoltcp` crate. The frame has
/// to hold an Ethernet header and an IPv4 packet whose lengths fit.
pub fn nat_smoltcp(packet: &mut [u8])
    requires
        spec_can_nat_smoltcp(old(packet)@),
    ensures
        final(packet)@ == natted(old(packet)@),
{
    let dst: [u8; 6] = [100, 101, 102, 103, 104, 105];
    let src: [u8; 6] = [200, 201, 202, 203, 204, 205];
    let ip_dst: [u8; 4] = [10, 0, 0, 1];
    let ghost frame = packet@;
    frame_set_dst_addr(packet, dst);
    frame_set_src_addr(packet, src);
    let (_ethernet, ip) = packet.split_at_mut(ETHER_HEADER_LEN);
    ipv4_set_dst_addr(ip, ip_dst);
    proof {
        assert(dst@ =~= nat_eth_dst());
        assert(src@ =~= nat_eth_src());
        assert(ip_dst@ =~= nat_ip_dst());
        assert(_ethernet@ + ip@ =~= natted(frame));
    }
}

/// Whether the `etherparse` rewrites take the frame: it holds an Ethernet
/// header and, behind it, an IPv4 header that can be read.
pub open spec fn spec_can_nat_etherparse(frame: Seq<u8>) -> bool {
    frame.len() >= ETHER_HEADER_LEN && ipv4_readable(
        frame.subrange(ETHER_HEADER_LEN as int, frame.len() as int),
    )
}

/// Whether the `etherparse` rewrites take the frame.
pub fn can_nat_etherparse(packet: &[u8]) -> (r: bool)
    ensures
        r == spec_can_nat_etherparse(packet@),
{
    let n = packet.len();
    if n < ETHER_HEADER_LEN {
        return false;
    }
    ipv4_read_from_slice(vstd::slice::slice_subrange(packet, ETHER_HEADER_LEN, n)).is_some()
}

/// A frame as the `etherparse` rewrites leave it: with the Ethernet
/// addresses and the IPv4 destination replaced, and without the highest
/// bit of the IPv4 flags.
pub open spec fn etherparse_natted(frame: Seq<u8>) -> Seq<u8> {
    natted(frame).update(ETHER_HEADER_LEN + 6, frame[ETHER_HEADER_LEN + 6] & 0x7f)
}

/// The headers with the new addresses, written to bytes and followed by
/// what followed the headers, are the rewritten frame.
proof fn lemma_etherparse_natted(
    frame: Seq<u8>,
    eth: EtherHeader,
    new_eth: EtherHeader,
    ip: Ipv4Fields,
    new_ip: Ipv4Fields,
)
    requires
        spec_can_nat_etherparse(frame),
        eth.bytes() == frame.subrange(0, ETHER_HEADER_LEN as int),
        new_eth.destination@ == nat_eth_dst(),
        new_eth.source@ == nat_eth_src(),
        new_eth.ether_type == eth.ether_type,
        ip.bytes() == ipv4_kept(frame.subrange(ETHER_HEADER_LEN as int, frame.len() as int)),
        new_ip.bytes() == ip.bytes().subrange(0, 16) + nat_ip_dst() + ip.bytes().subrange(
            20,
            ip.bytes().len() as int,
        ),
    ensures
        new_eth.bytes() + new_ip.bytes() + frame.subrange(
            ETHER_HEADER_LEN + new_ip.bytes().len(),
            frame.len() as int,
        ) == etherparse_natted(frame),
        new_ip.bytes().len() == ipv4_ihl_bytes(
            frame.subrange(ETHER_HEADER_LEN as int, frame.len() as int),
        ),
{
    let packet = frame.subrange(ETHER_HEADER_LEN as int, frame.len() as int);
    let hl = ipv4_ihl_bytes(packet);
    assert(20 <= hl <= packet.len()) by {
        let b = packet[0];
        assert(b & 0xf >= 5 ==> ((b & 0xf) as int) * 4 >= 20) by (bit_vector);
    }
    assert(ip.bytes().len() == hl);
    assert(eth.bytes()[12] == frame[12]);
    assert(eth.bytes()[13] == frame[13]);
    assert(new_eth.bytes().len() == 14);
    let out = new_eth.bytes() + new_ip.bytes() + frame.subrange(
        ETHER_HEADER_LEN + new_ip.bytes().len(),
        frame.len() as int,
    );
    let want = etherparse_natted(frame);
    assert(out.len() == want.len());
    assert forall|i: int| 0 <= i < out.len() implies out[i] == want[i] by {
        if i < 12 {
        } else if i < 14 {
            assert(out[i] == eth.bytes()[i]);
        } else if i < 14 + hl {
            if i < 30 {
                assert(out[i] == ip.bytes()[i - 14]);
                assert(ip.bytes()[i - 14] == ipv4_kept(packet)[i - 14]);
            } else if i < 34 {
            } else {
                assert(out[i] == ip.bytes()[i - 14]);
                assert(ip.bytes()[i - 14] == ipv4_kept(packet)[i - 14]);
            }
        } else {
        }
    }
    assert(out =~= want);
}

/// The header `ip` with the new destination.
fn with_nat_destination(ip: Ipv4Fields) -> (r: Ipv4Fields)
    requires
        ip.in_range(),
    ensures
        r.in_range(),
        r.header_len() == ip.header_len(),
        r.bytes() == ip.bytes().subrange(0, 16) + nat_ip_dst() + ip.bytes().subrange(
            20,
            ip.bytes().len() as int,
        ),
{
    let mut r = ip;
    r.destination = [10, 0, 0, 1];
    proof {
        assert(r.destination@ =~= nat_ip_dst());
        assert(r.bytes() =~= ip.bytes().subrange(0, 16) + nat_ip_dst() + ip.bytes().subrange(
            20,
            ip.bytes().len() as int,
        ));
    }
    r
}

/// The header `eth` with the new addresses.
fn with_nat_addresses(eth: EtherHeader) -> (r: EtherHeader)
    ensures
        r.destination@ == nat_eth_dst(),
        r.source@ == nat_eth_src(),
        r.ether_type == eth.ether_type,
{
    let mut r = eth;
    r.destination = [100, 101, 102, 103, 104, 105];
    r.source = [200, 201, 202, 203, 204, 205];
    proof {
        assert(r.destination@ =~= nat_eth_dst());
        assert(r.source@ =~= nat_eth_src());
    }
    r
}

/// Rewrites the frame in `packet` with the `etherparse` crate, reading
/// and writing the headers through a cursor. The frame has to hold an
/// Ethernet header and an IPv4 header that can be read.
pub fn nat_etherparse_fast_cursor(packet: &mut [u8])
    requires
        spec_can_nat_etherparse(old(packet)@),
    ensures
        final(packet)@ == etherparse_natted(old(packet)@),
{
    let ghost frame = packet@;
    let n = packet.len();
    let eth = eth2_read(packet).unwrap();
    let ip = ipv4_read(vstd::slice::slice_subrange(packet, ETHER_HEADER_LEN, n)).unwrap();
    let header = with_nat_addresses(eth);
    let ipv4header = with_nat_destination(ip);
    proof {
        lemma_etherparse_natted(frame, eth, header, ip, ipv4header);
    }
    let (link, rest) = packet.split_at_mut(ETHER_HEADER_LEN);
    let _ok = eth2_write(&header, link);
    let _ok = ipv4_write_raw(&ipv4header, rest);
    proof {
        assert(link@ + rest@ =~= header.bytes() + ipv4header.bytes() + frame.subrange(
            ETHER_HEADER_LEN + ipv4header.bytes().len(),
            frame.len() as int,
        ));
    }
}

/// Rewrites the frame in `packet` with the `etherparse` crate, reading
/// and writing the headers from and to slices. The frame has to hold an
/// Ethernet header and an IPv4 header that can be read.
pub fn nat_etherparse_fast_slice(packet: &mut [u8])
    requires
        spec_can_nat_etherparse(old(packet)@),
    ensures
        final(packet)@ == etherparse_natted(old(packet)@),
{
    let ghost frame = packet@;
    let n = packet.len();
    let eth = eth2_read_from_slice(packet).unwrap();
    let header = with_nat_addresses(eth);
    let _ok = eth2_write_to_slice(&header, packet);
    let (link, ipv4_slice) = packet.split_at_mut(ETHER_HEADER_LEN);
    proof {
        assert(ipv4_slice@ =~= frame.subrange(ETHER_HEADER_LEN as int, frame.len() as int));
        assert(link@ =~= header.bytes());
    }
    let ip = ipv4_read_from_slice(ipv4_slice).unwrap();
    let ipv4_header = with_nat_destination(ip);
    proof {
        lemma_etherparse_natted(frame, eth, header, ip, ipv4_header);
    }
    let _ok = ipv4_write_raw(&ipv4_header, ipv4_slice);
    proof {
        assert(link@ + ipv4_slice@ =~= header.bytes() + ipv4_header.bytes() + frame.subrange(
            ETHER_HEADER_LEN + ipv4_header.bytes().len(),
            frame.len() as int,
        ));
    }
}

/// The datagram that `nat_etherparse` builds for `flow`: from the one
/// Ethernet address to the other, from the source of the flow to the new
/// IPv4 destination, with the flow's time to live and ports.
pub open spec fn rebuilt(flow: UdpFlow) -> Seq<u8> {
    built_udp(
        nat_eth_dst(),
        nat_eth_src(),
        flow.ip_source@,
        nat_ip_dst(),
        flow.ttl,
        flow.source_port,
        flow.destination_port,
    )
}

/// Builds the datagram for `flow` anew, with the new addresses.
pub fn rebuild(flow: UdpFlow) -> (serialized: Vec<u8>)
    ensures
        serialized@ == rebuilt(flow),
{
    let eth_src: [u8; 6] = [100, 101, 102, 103, 104, 105];
    let eth_dst: [u8; 6] = [200, 201, 202, 203, 204, 205];
    let ip_dst: [u8; 4] = [10, 0, 0, 1];
    proof {
        assert(eth_src@ =~= nat_eth_dst());
        assert(eth_dst@ =~= nat_eth_src());
        assert(ip_dst@ =~= nat_ip_dst());
    }
    build_udp(
        eth_src,
        eth_dst,
        flow.ip_source,
        ip_dst,
        flow.ttl,
        flow.source_port,
        flow.destination_port,
    )
}

/// Takes the frame in `packet` apart with the `etherparse` crate and
/// builds its datagram anew, with the new addresses. The frame stays as it
/// is; the answer is the datagram. The frame has to hold a UDP datagram
/// over IPv4.
pub fn nat_etherparse(packet: &mut [u8]) -> (serialized: Vec<u8>)
    requires
        sliced_udp(old(packet)@) is Some,
    ensures
        final(packet)@ == old(packet)@,
        serialized@ == rebuilt(sliced_udp(old(packet)@)->Some_0),
{
    let flow = slice_udp(packet).unwrap();
    rebuild(flow)
}

/// As `nat_etherparse`, for any frame: nothing for a frame that holds no
/// UDP datagram over IPv4.
pub fn try_nat_etherparse(packet: &mut [u8]) -> (r: Option<Vec<u8>>)
    ensures
        final(packet)@ == old(packet)@,
        r is Some <==> sliced_udp(old(packet)@) is Some,
        r is Some ==> r->Some_0@ == rebuilt(sliced_udp(old(packet)@)->Some_0),
{
    match slice_udp(packet) {
        None => None,
        Some(_) => Some(nat_etherparse(packet)),
    }
}

} // verus!
