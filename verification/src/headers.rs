//! Ethernet and IPv4 headers as plain values, read from bytes and written
//! to bytes by the `etherparse` crate.
//!
//! Verus does not look into the crate: the contracts of the functions that
//! are marked `external_body` say what its source shows, and are not
//! proved. They speak of a header through the bytes that it is written
//! as: a header that was read is the one whose bytes are the bytes that it
//! was read from.

use etherparse::{
    Ethernet2Header, InternetSlice, Ipv4Header, PacketBuilder, SlicedPacket, TransportSlice,
};
use std::io::Cursor;
use vstd::prelude::*;

verus! {

/// The length of an Ethernet header.
pub const ETHER_HEADER_LEN: usize = 14;

/// The length of an IPv4 header without options.
pub const IPV4_HEADER_LEN: usize = 20;

/// The number that the bytes `hi` and `lo` write, the high byte first.
pub open spec fn be16(hi: u8, lo: u8) -> int {
    hi * 256 + lo
}

/// The high byte of `v`.
pub open spec fn hi(v: u16) -> u8 {
    (v / 256) as u8
}

/// The low byte of `v`.
pub open spec fn lo(v: u16) -> u8 {
    (v % 256) as u8
}

/// An Ethernet II header.
#[derive(Debug, Clone, Copy)]
pub struct EtherHeader {
    pub source: [u8; 6],
    pub destination: [u8; 6],
    pub ether_type: u16,
}

impl EtherHeader {
    /// The fourteen bytes that the header is written as: destination,
    /// source, and the type with its high byte first.
    pub open spec fn bytes(&self) -> Seq<u8> {
        self.destination@ + self.source@ + seq![hi(self.ether_type), lo(self.ether_type)]
    }
}

/// An IPv4 header.
#[derive(Debug, Clone)]
pub struct Ipv4Fields {
    pub dscp: u8,
    pub ecn: u8,
    /// The length of what follows the header.
    pub payload_len: u16,
    pub identification: u16,
    pub dont_fragment: bool,
    pub more_fragments: bool,
    pub fragments_offset: u16,
    pub time_to_live: u8,
    pub protocol: u8,
    pub header_checksum: u16,
    pub source: [u8; 4],
    pub destination: [u8; 4],
    pub options: Vec<u8>,
}

impl Ipv4Fields {
    /// Every field fits in the bits that the header has for it, and the
    /// options fill whole words, ten at most.
    pub open spec fn in_range(&self) -> bool {
        &&& self.dscp <= 0x3f
        &&& self.ecn <= 3
        &&& self.fragments_offset <= 0x1fff
        &&& self.options@.len() <= 40
        &&& self.options@.len() % 4 == 0
        &&& self.payload_len + IPV4_HEADER_LEN + self.options@.len() <= 0xffff
    }

    /// The length of the header with its options.
    pub open spec fn header_len(&self) -> int {
        IPV4_HEADER_LEN + self.options@.len()
    }

    /// The length of the header and of what follows it.
    pub open spec fn total_len(&self) -> u16 {
        (self.payload_len + IPV4_HEADER_LEN + self.options@.len()) as u16
    }

    /// The byte that holds the flags and the high bits of the fragment
    /// offset. Its highest bit is never set.
    pub open spec fn flags_byte(&self) -> u8 {
        (if self.dont_fragment {
            64u8
        } else {
            0u8
        }) | (if self.more_fragments {
            32u8
        } else {
            0u8
        }) | (hi(self.fragments_offset) & 0x1f)
    }

    /// The bytes that the header is written as.
    pub open spec fn bytes(&self) -> Seq<u8> {
        seq![
            0x40u8 | ((self.options@.len() / 4 + 5) as u8),
            (self.dscp << 2) | self.ecn,
            hi(self.total_len()),
            lo(self.total_len()),
            hi(self.identification),
            lo(self.identification),
            self.flags_byte(),
            lo(self.fragments_offset),
            self.time_to_live,
            self.protocol,
            hi(self.header_checksum),
            lo(self.header_checksum),
        ] + self.source@ + self.destination@ + self.options@
    }
}

/// The length of the IPv4 header that begins `ip`, as its first byte says.
pub open spec fn ipv4_ihl_bytes(ip: Seq<u8>) -> int {
    ((ip[0] & 0xf) as int) * 4
}

/// `ip` begins with an IPv4 header that can be read: the version is 4, the
/// header is twenty bytes at least and all there, and the total length is
/// no less than the header's.
pub open spec fn ipv4_readable(ip: Seq<u8>) -> bool {
    &&& ip.len() >= IPV4_HEADER_LEN
    &&& ip[0] >> 4 == 4
    &&& ip[0] & 0xf >= 5
    &&& ipv4_ihl_bytes(ip) <= ip.len()
    &&& be16(ip[2], ip[3]) >= ipv4_ihl_bytes(ip)
}

/// The header that begins `ip`, as it is written back: the highest bit of
/// the flags is not kept.
pub open spec fn ipv4_kept(ip: Seq<u8>) -> Seq<u8> {
    ip.subrange(0, ipv4_ihl_bytes(ip)).update(6, ip[6] & 0x7f)
}

/// `etherparse::Ethernet2Header::read_from_slice`: the header in the first
/// fourteen bytes of the slice; an error, here nothing, for a shorter one.
#[verifier::external_body]
pub(crate) fn eth2_read_from_slice(slice: &[u8]) -> (r: Option<EtherHeader>)
    ensures
        r is Some <==> slice@.len() >= ETHER_HEADER_LEN,
        r is Some ==> r->Some_0.bytes() == slice@.subrange(0, ETHER_HEADER_LEN as int),
{
    match Ethernet2Header::read_from_slice(slice) {
        Ok((h, _)) => Some(
            EtherHeader { source: h.source, destination: h.destination, ether_type: h.ether_type },
        ),
        Err(_) => None,
    }
}

/// `etherparse::Ethernet2Header::read`, from a cursor at the start of the
/// bytes: the header in the first fourteen bytes; an error, here nothing,
/// where there are fewer.
#[verifier::external_body]
pub(crate) fn eth2_read(bytes: &[u8]) -> (r: Option<EtherHeader>)
    ensures
        r is Some <==> bytes@.len() >= ETHER_HEADER_LEN,
        r is Some ==> r->Some_0.bytes() == bytes@.subrange(0, ETHER_HEADER_LEN as int),
{
    match Ethernet2Header::read(&mut Cursor::new(bytes)) {
        Ok(h) => Some(
            EtherHeader { source: h.source, destination: h.destination, ether_type: h.ether_type },
        ),
        Err(_) => None,
    }
}

/// `etherparse::Ethernet2Header::write_to_slice`: writes the header over
/// the first fourteen bytes of the slice and leaves the others; an error,
/// here `false`, and no change for a shorter slice.
#[verifier::external_body]
pub(crate) fn eth2_write_to_slice(h: &EtherHeader, slice: &mut [u8]) -> (ok: bool)
    ensures
        ok == (old(slice)@.len() >= ETHER_HEADER_LEN),
        ok ==> final(slice)@ == h.bytes() + old(slice)@.subrange(
            ETHER_HEADER_LEN as int,
            old(slice)@.len() as int,
        ),
        !ok ==> final(slice)@ == old(slice)@,
{
    let header =
        Ethernet2Header { source: h.source, destination: h.destination, ether_type: h.ether_type };
    header.write_to_slice(slice).is_ok()
}

/// `etherparse::Ethernet2Header::write`, to a cursor at the start of the
/// bytes: writes the header over the first fourteen bytes and leaves the
/// others. `requires` leaves out the bytes that are too few to hold it.
#[verifier::external_body]
pub(crate) fn eth2_write(h: &EtherHeader, out: &mut [u8]) -> (ok: bool)
    requires
        old(out)@.len() >= ETHER_HEADER_LEN,
    ensures
        ok,
        final(out)@ == h.bytes() + old(out)@.subrange(
            ETHER_HEADER_LEN as int,
            old(out)@.len() as int,
        ),
{
    let header =
        Ethernet2Header { source: h.source, destination: h.destination, ether_type: h.ether_type };
    header.write(&mut Cursor::new(out)).is_ok()
}

/// `etherparse::Ipv4Header::read_from_slice`, with the header's fields
/// moved into a plain value: the header at the start of the slice, where
/// it can be read, else an error, here nothing. Its fields are in range,
/// and written back it is the bytes that it was read from, but for the
/// highest bit of the flags.
#[verifier::external_body]
pub(crate) fn ipv4_read_from_slice(slice: &[u8]) -> (r: Option<Ipv4Fields>)
    ensures
        r is Some <==> ipv4_readable(slice@),
        r is Some ==> r->Some_0.in_range() && r->Some_0.bytes() == ipv4_kept(slice@),
{
    match Ipv4Header::read_from_slice(slice) {
        Ok((h, _)) => Some(Ipv4Fields {
            dscp: h.differentiated_services_code_point, ecn: h.explicit_congestion_notification,
            payload_len: h.payload_len, identification: h.identification,
            dont_fragment: h.dont_fragment, more_fragments: h.more_fragments,
            fragments_offset: h.fragments_offset, time_to_live: h.time_to_live,
            protocol: h.protocol, header_checksum: h.header_checksum, source: h.source,
            destination: h.destination, options: h.options().to_vec(),
        }),
        Err(_) => None,
    }
}

/// `etherparse::Ipv4Header::read`, from a cursor at the start of the
/// bytes, with the header's fields moved into a plain value: as
/// `ipv4_read_from_slice`.
#[verifier::external_body]
pub(crate) fn ipv4_read(bytes: &[u8]) -> (r: Option<Ipv4Fields>)
    ensures
        r is Some <==> ipv4_readable(bytes@),
        r is Some ==> r->Some_0.in_range() && r->Some_0.bytes() == ipv4_kept(bytes@),
{
    match Ipv4Header::read(&mut Cursor::new(bytes)) {
        Ok(h) => Some(Ipv4Fields {
            dscp: h.differentiated_services_code_point, ecn: h.explicit_congestion_notification,
            payload_len: h.payload_len, identification: h.identification,
            dont_fragment: h.dont_fragment, more_fragments: h.more_fragments,
            fragments_offset: h.fragments_offset, time_to_live: h.time_to_live,
            protocol: h.protocol, header_checksum: h.header_checksum, source: h.source,
            destination: h.destination, options: h.options().to_vec(),
        }),
        Err(_) => None,
    }
}

/// `etherparse::Ipv4Header::write_raw`, to a cursor at the start of the
/// bytes, for the header with the fields of `f`: writes the header, with
/// the checksum that it holds, over the first bytes and leaves the others.
/// `requires` leaves out the fields that are out of range, which it
/// refuses, and the bytes that are too few to hold the header.
#[verifier::external_body]
pub(crate) fn ipv4_write_raw(f: &Ipv4Fields, out: &mut [u8]) -> (ok: bool)
    requires
        f.in_range(),
        old(out)@.len() >= f.header_len(),
    ensures
        ok,
        final(out)@ == f.bytes() + old(out)@.subrange(f.header_len(), old(out)@.len() as int),
{
    let mut h = Ipv4Header::default();
    h.differentiated_services_code_point = f.dscp; h.explicit_congestion_notification = f.ecn;
    h.payload_len = f.payload_len; h.identification = f.identification;
    h.dont_fragment = f.dont_fragment; h.more_fragments = f.more_fragments;
    h.fragments_offset = f.fragments_offset; h.time_to_live = f.time_to_live;
    h.protocol = f.protocol; h.header_checksum = f.header_checksum;
    h.source = f.source; h.destination = f.destination;
    h.set_options(&f.options).is_ok() && h.write_raw(&mut Cursor::new(out)).is_ok()
}

/// What a UDP datagram over IPv4 is rebuilt from.
#[derive(Debug, Clone, Copy, PartialEq, Eq)]
pub struct UdpFlow {
    pub ip_source: [u8; 4],
    pub ttl: u8,
    pub source_port: u16,
    pub destination_port: u16,
}

/// What `etherparse::SlicedPacket::from_ethernet` finds in the frame,
/// where it finds a UDP datagram over IPv4; nothing where it fails or
/// finds something else.
pub uninterp spec fn sliced_udp(frame: Seq<u8>) -> Option<UdpFlow>;

/// The bytes that `etherparse::PacketBuilder` writes for a UDP datagram
/// without payload, with these Ethernet addresses, IPv4 addresses, time to
/// live, and ports.
pub uninterp spec fn built_udp(
    eth_src: Seq<u8>,
    eth_dst: Seq<u8>,
    ip_src: Seq<u8>,
    ip_dst: Seq<u8>,
    ttl: u8,
    source_port: u16,
    destination_port: u16,
) -> Seq<u8>;

/// `etherparse::SlicedPacket::from_ethernet`, with what it finds moved
/// into a plain value: the source address and the time to live of the
/// IPv4 header and the ports of the UDP header; nothing where it fails, or
/// where the frame holds no IPv4 header or no UDP header.
#[verifier::external_body]
pub(crate) fn slice_udp(frame: &[u8]) -> (r: Option<UdpFlow>)
    ensures
        r == sliced_udp(frame@),
{
    let sliced = SlicedPacket::from_ethernet(frame).ok()?;
    match (sliced.ip?, sliced.transport?) {
        (InternetSlice::Ipv4(ip), TransportSlice::Udp(udp)) => {
            let s = ip.source();
            Some(UdpFlow {
                ip_source: [s[0], s[1], s[2], s[3]], ttl: ip.ttl(),
                source_port: udp.source_port(), destination_port: udp.destination_port(),
            })
        },
        _ => None,
    }
}

/// `etherparse::PacketBuilder::ethernet2`, `ipv4`, `udp` and `write`, with
/// an empty payload: the bytes of the datagram.
#[verifier::external_body]
pub(crate) fn build_udp(
    eth_src: [u8; 6],
    eth_dst: [u8; 6],
    ip_src: [u8; 4],
    ip_dst: [u8; 4],
    ttl: u8,
    source_port: u16,
    destination_port: u16,
) -> (r: Vec<u8>)
    ensures
        r@ == built_udp(eth_src@, eth_dst@, ip_src@, ip_dst@, ttl, source_port, destination_port),
{
    let builder = PacketBuilder::ethernet2(eth_src, eth_dst).ipv4(ip_src, ip_dst, ttl).udp(
        source_port,
        destination_port,
    );
    let mut serialized = Vec::new();
    let _ = builder.write(&mut serialized, &[]);
    serialized
}

} // verus!
