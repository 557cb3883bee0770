//! The port: one claimed NIC, its configuration and its statistics.

use crate::ids::{ErrorCode, SocketId};
use vstd::prelude::*;

verus! {

/// The default number of descriptors of a transmit ring.
pub const DEFAULT_TX_DESC: u16 = 128;

/// The default number of descriptors of a receive ring.
pub const DEFAULT_RX_DESC: u16 = 128;

/// The default number of buffers in the pool of a receive queue.
pub const DEFAULT_RX_POOL_SIZE: usize = 1023;

/// The default size of the per-core cache of such a pool.
pub const DEFAULT_RX_PER_CORE_CACHE: usize = 0;

/// The default size of a buffer's memory.
pub const DEFAULT_PACKET_DATA_LENGTH: usize = 2048;

/// Whether ports are promiscuous by default.
pub const DEFAULT_PROMISC: bool = true;

/// The default number of packets that one receive call asks for.
pub const DEFAULT_RX_BURST: usize = 32;

/// The default number of packets that one transmit call hands over.
pub const DEFAULT_TX_BURST: usize = 32;

/// The longest Ethernet frame, with its checksum.
pub const RTE_ETHER_MAX_LEN: u32 = 1518;

/// Receive mode: one queue takes all.
pub const ETH_MQ_RX_NONE: u32 = 0;

/// Receive mode: the queues share the traffic by a hash of each packet.
pub const ETH_MQ_RX_RSS: u32 = 1;

/// Transmit mode: no scheduling between queues.
pub const ETH_MQ_TX_NONE: u32 = 0;

/// Hash on TCP over unfragmented IPv4.
pub const ETH_RSS_NONFRAG_IPV4_TCP: u64 = 0x10;

/// Hash on UDP over unfragmented IPv4.
pub const ETH_RSS_NONFRAG_IPV4_UDP: u64 = 0x20;

/// The errno for a bad argument.
pub const EINVAL: u8 = 22;

/// The errno of a device that does not support a request.
pub const ENOTSUP: i32 = 95;

/// The counters of a port.
#[derive(Debug, Clone, Copy)]
pub struct PortStat {
    pub ipackets: u64,
    pub opackets: u64,
    pub ibytes: u64,
    pub obytes: u64,
    pub imissed: u64,
    pub ierrors: u64,
    pub oerrors: u64,
    pub rx_nombuf: u64,
    pub q_ipackets: [u64; 16],
    pub q_opackets: [u64; 16],
    pub q_ibytes: [u64; 16],
    pub q_obytes: [u64; 16],
    pub q_errors: [u64; 16],
}

/// How far a counter that wraps at 2^64 has moved from `base` to `now`.
pub open spec fn since(now: u64, base: u64) -> u64 {
    if now >= base {
        (now - base) as u64
    } else {
        (now + 0x1_0000_0000_0000_0000 - base) as u64
    }
}

/// For each queue, how far its counter has moved.
pub open spec fn since_each(now: [u64; 16], base: [u64; 16]) -> Seq<u64> {
    Seq::new(16, |i: int| since(now@[i], base@[i]))
}

impl PortStat {
    /// Counters that are all zero.
    pub fn zeroed() -> (s: PortStat)
        ensures
            s.is_zero(),
    {
        let zeros: [u64; 16] = [0u64; 16];
        assert(zeros@ =~= Seq::new(16, |i: int| 0u64));
        PortStat {
            ipackets: 0,
            opackets: 0,
            ibytes: 0,
            obytes: 0,
            imissed: 0,
            ierrors: 0,
            oerrors: 0,
            rx_nombuf: 0,
            q_ipackets: zeros,
            q_opackets: zeros,
            q_ibytes: zeros,
            q_obytes: zeros,
            q_errors: zeros,
        }
    }

    /// Every counter is zero.
    pub open spec fn is_zero(&self) -> bool {
        &&& self.ipackets == 0
        &&& self.opackets == 0
        &&& self.ibytes == 0
        &&& self.obytes == 0
        &&& self.imissed == 0
        &&& self.ierrors == 0
        &&& self.oerrors == 0
        &&& self.rx_nombuf == 0
        &&& self.q_ipackets@ == Seq::new(16, |i: int| 0u64)
        &&& self.q_opackets@ == Seq::new(16, |i: int| 0u64)
        &&& self.q_ibytes@ == Seq::new(16, |i: int| 0u64)
        &&& self.q_obytes@ == Seq::new(16, |i: int| 0u64)
        &&& self.q_errors@ == Seq::new(16, |i: int| 0u64)
    }

    /// `self` is how far each counter has moved from `base` to `now`.
    pub open spec fn is_since(&self, now: &PortStat, base: &PortStat) -> bool {
        &&& self.ipackets == since(now.ipackets, base.ipackets)
        &&& self.opackets == since(now.opackets, base.opackets)
        &&& self.ibytes == since(now.ibytes, base.ibytes)
        &&& self.obytes == since(now.obytes, base.obytes)
        &&& self.imissed == since(now.imissed, base.imissed)
        &&& self.ierrors == since(now.ierrors, base.ierrors)
        &&& self.oerrors == since(now.oerrors, base.oerrors)
        &&& self.rx_nombuf == since(now.rx_nombuf, base.rx_nombuf)
        &&& self.q_ipackets@ == since_each(now.q_ipackets, base.q_ipackets)
        &&& self.q_opackets@ == since_each(now.q_opackets, base.q_opackets)
        &&& self.q_ibytes@ == since_each(now.q_ibytes, base.q_ibytes)
        &&& self.q_obytes@ == since_each(now.q_obytes, base.q_obytes)
        &&& self.q_errors@ == since_each(now.q_errors, base.q_errors)
    }
}

/// Counters read against themselves are all zero: a port that keeps its
/// own baseline reads zero right after it was made or reset, whatever the
/// device has counted before.
pub proof fn lemma_since_itself(s: PortStat, raw: PortStat)
    requires
        s.is_since(&raw, &raw),
    ensures
        s.is_zero(),
{
    assert(s.q_ipackets@ =~= Seq::new(16, |i: int| 0u64));
    assert(s.q_opackets@ =~= Seq::new(16, |i: int| 0u64));
    assert(s.q_ibytes@ =~= Seq::new(16, |i: int| 0u64));
    assert(s.q_obytes@ =~= Seq::new(16, |i: int| 0u64));
    assert(s.q_errors@ =~= Seq::new(16, |i: int| 0u64));
}

/// `lemma_since_itself`, of every reading.
proof fn lemma_since_itself_if(raw: PortStat)
    ensures
        forall|s: PortStat| #[trigger] s.is_since(&raw, &raw) ==> s.is_zero(),
{
    assert forall|s: PortStat| #[trigger] s.is_since(&raw, &raw) implies s.is_zero() by {
        lemma_since_itself(s, raw);
    }
}

/// For each queue, how far its counter has moved from `y` to `x`.
pub fn subtract_array(x: &[u64; 16], y: &[u64; 16]) -> (r: [u64; 16])
    ensures
        r@ == since_each(*x, *y),
{
    let mut temp: [u64; 16] = [0u64; 16];
    let mut i: usize = 0;
    while i < 16
        invariant
            i <= 16,
            forall|k: int| 0 <= k < i ==> temp@[k] == since(x@[k], y@[k]),
        decreases 16 - i,
    {
        temp[i] = x[i].wrapping_sub(y[i]);
        i += 1;
    }
    assert(temp@ =~= since_each(*x, *y));
    temp
}

/// The configuration of a port.
#[derive(Debug, Clone, Copy, PartialEq, Eq, Structural)]
pub struct RteEthConf {
    pub max_rx_pkt_len: u32,
    pub rx_mq_mode: u32,
    pub tx_mq_mode: u32,
    pub rss_hf: u64,
}

impl RteEthConf {
    /// The configuration in which every field is zero.
    pub fn new() -> (c: RteEthConf)
        ensures
            c == (RteEthConf { max_rx_pkt_len: 0, rx_mq_mode: 0, tx_mq_mode: 0, rss_hf: 0 }),
    {
        RteEthConf { max_rx_pkt_len: 0, rx_mq_mode: 0, tx_mq_mode: 0, rss_hf: 0 }
    }

    /// The configuration that a port gets when none is given: frames up to
    /// the longest Ethernet frame, and with more than one receive queue the
    /// traffic is spread over them by a hash on UDP and TCP over IPv4.
    pub open spec fn spec_default_for(rx_queue_count: u16) -> RteEthConf {
        if rx_queue_count > 1 {
            RteEthConf {
                max_rx_pkt_len: RTE_ETHER_MAX_LEN,
                rx_mq_mode: ETH_MQ_RX_RSS,
                tx_mq_mode: ETH_MQ_TX_NONE,
                rss_hf: ETH_RSS_NONFRAG_IPV4_UDP | ETH_RSS_NONFRAG_IPV4_TCP,
            }
        } else {
            RteEthConf {
                max_rx_pkt_len: RTE_ETHER_MAX_LEN,
                rx_mq_mode: ETH_MQ_RX_NONE,
                tx_mq_mode: ETH_MQ_TX_NONE,
                rss_hf: 0,
            }
        }
    }

    /// The configuration that a port with `rx_queue_count` receive queues
    /// gets when none is given.
    pub fn default_for(rx_queue_count: u16) -> (c: RteEthConf)
        ensures
            c == Self::spec_default_for(rx_queue_count),
    {
        let mut port_conf = RteEthConf::new();
        port_conf.max_rx_pkt_len = RTE_ETHER_MAX_LEN;
        port_conf.rx_mq_mode = ETH_MQ_RX_NONE;
        port_conf.tx_mq_mode = ETH_MQ_TX_NONE;
        if rx_queue_count > 1 {
            port_conf.rx_mq_mode = ETH_MQ_RX_RSS;
            port_conf.rss_hf = ETH_RSS_NONFRAG_IPV4_UDP | ETH_RSS_NONFRAG_IPV4_TCP;
        }
        port_conf
    }
}

/// What the environment found out about one device.
#[derive(Debug, Clone, Copy)]
pub struct DevInfo {
    pub port_id: u16,
    pub max_rx_queues: u16,
    pub max_tx_queues: u16,
    pub socket_id: u32,
    pub mac_addr: [u8; 6],
}

/// What the device answered while a port was claimed.
#[derive(Debug, Clone, Copy)]
pub struct Claim {
    /// The identity that the device gave out for the port's owner.
    pub owner_id: u64,
    /// Its answer to the request to reset its counters.
    pub reset_ret: i32,
    /// Its counters, read after that request.
    pub counters: PortStat,
}

impl Claim {
    /// Whether the device resets its counters itself: it does unless it
    /// answered that it does not support the request.
    pub open spec fn resets(&self) -> bool {
        self.reset_ret != -ENOTSUP
    }

    /// The baseline with which the port starts: where the device cannot
    /// reset its counters, the counters as they stand; else zero.
    pub open spec fn is_baseline(&self, base: PortStat) -> bool {
        if self.resets() {
            base.is_zero()
        } else {
            base == self.counters
        }
    }
}

/// A claimed and configured port.
///
/// A queue keeps a copy of its port as it was when the queue was made.
#[derive(Debug, Clone, Copy)]
pub struct Port {
    port_id: u16,
    owner_id: u64,
    socket: SocketId,
    mac: [u8; 6],
    conf: RteEthConf,
    has_stats_reset: bool,
    prev_stat: PortStat,
    promiscuous: bool,
    started: bool,
    link_up: bool,
}

impl Port {
    /// The index of the port.
    pub closed spec fn id(&self) -> u16 {
        self.port_id
    }

    /// The identity under which the port was claimed.
    pub closed spec fn owner(&self) -> u64 {
        self.owner_id
    }

    /// The NUMA node of the port.
    pub closed spec fn socket(&self) -> SocketId {
        self.socket
    }

    /// The MAC address of the port.
    pub closed spec fn mac(&self) -> [u8; 6] {
        self.mac
    }

    /// The configuration that the port was set up with.
    pub closed spec fn conf(&self) -> RteEthConf {
        self.conf
    }

    /// Whether the device resets its counters itself. Where it does not,
    /// the port reads them against a baseline that it keeps.
    pub closed spec fn hw_reset(&self) -> bool {
        self.has_stats_reset
    }

    /// The baseline of the counters.
    pub closed spec fn baseline(&self) -> PortStat {
        self.prev_stat
    }

    /// Whether the port takes every frame on the wire.
    pub closed spec fn promiscuous(&self) -> bool {
        self.promiscuous
    }

    /// Whether the port has been started.
    pub closed spec fn started(&self) -> bool {
        self.started
    }

    /// The last link state that was reported.
    pub closed spec fn link(&self) -> bool {
        self.link_up
    }

    /// Nothing but the baseline, the mode, the link and whether it runs
    /// differs.
    pub open spec fn same_device(&self, other: &Port) -> bool {
        &&& self.id() == other.id()
        &&& self.owner() == other.owner()
        &&& self.socket() == other.socket()
        &&& self.mac() == other.mac()
        &&& self.conf() == other.conf()
        &&& self.hw_reset() == other.hw_reset()
    }

    /// A stopped port for the device `info`, set up with `conf` and
    /// claimed with the answers `claim`.
    pub(crate) fn new(info: &DevInfo, conf: RteEthConf, claim: &Claim) -> (p: Port)
        ensures
            p.id() == info.port_id,
            p.owner() == claim.owner_id,
            p.socket() == SocketId(info.socket_id),
            p.mac() == info.mac_addr,
            p.conf() == conf,
            p.hw_reset() == claim.resets(),
            claim.is_baseline(p.baseline()),
            !p.promiscuous(),
            !p.started(),
            !p.link(),
    {
        let has_stats_reset = claim.reset_ret != -ENOTSUP;
        let prev_stat = if has_stats_reset {
            PortStat::zeroed()
        } else {
            claim.counters
        };
        Port {
            port_id: info.port_id,
            owner_id: claim.owner_id,
            socket: SocketId(info.socket_id),
            mac: info.mac_addr,
            conf,
            has_stats_reset,
            prev_stat,
            promiscuous: false,
            started: false,
            link_up: false,
        }
    }

    /// The index of the port.
    pub fn port_id(&self) -> (id: u16)
        ensures
            id == self.id(),
    {
        self.port_id
    }

    /// The identity under which the port was claimed.
    pub fn owner_id(&self) -> (id: u64)
        ensures
            id == self.owner(),
    {
        self.owner_id
    }

    /// The NUMA node of the port.
    pub fn socket_id(&self) -> (s: SocketId)
        ensures
            s == self.socket(),
    {
        self.socket
    }

    /// The MAC address of the port.
    pub fn mac_addr(&self) -> (mac: [u8; 6])
        ensures
            mac == self.mac(),
    {
        self.mac
    }

    /// The configuration that the port was set up with.
    pub fn port_conf(&self) -> (c: RteEthConf)
        ensures
            c == self.conf(),
    {
        self.conf
    }

    /// Whether the device resets its counters itself.
    pub fn has_stats_reset(&self) -> (r: bool)
        ensures
            r == self.hw_reset(),
    {
        self.has_stats_reset
    }

    /// Whether the port takes every frame on the wire.
    pub fn is_promiscuous(&self) -> (r: bool)
        ensures
            r == self.promiscuous(),
    {
        self.promiscuous
    }

    /// Whether the port has been started.
    pub fn is_started(&self) -> (r: bool)
        ensures
            r == self.started(),
    {
        self.started
    }

    /// Switches promiscuous mode on or off.
    pub fn set_promiscuous(&mut self, set: bool)
        ensures
            final(self).promiscuous() == set,
            final(self).same_device(old(self)),
            final(self).baseline() == old(self).baseline(),
            final(self).started() == old(self).started(),
            final(self).link() == old(self).link(),
    {
        self.promiscuous = set;
    }

    /// Takes the device's answer to the request to start. A negative
    /// answer is a rejection: the port stays as it is and the error carries
    /// the errno, which is the answer negated. Any other answer starts the
    /// port.
    pub fn start(&mut self, ret: i32) -> (r: Result<(), ErrorCode>)
        requires
            -255 <= ret,
        ensures
            final(self).same_device(old(self)),
            final(self).baseline() == old(self).baseline(),
            final(self).promiscuous() == old(self).promiscuous(),
            final(self).link() == old(self).link(),
            ret < 0 ==> r == Err::<(), ErrorCode>(ErrorCode::DeviceError { code: (-ret) as u8 })
                && final(self).started() == old(self).started(),
            ret >= 0 ==> r is Ok && final(self).started(),
    {
        if ret < 0 {
            return Err(ErrorCode::DeviceError { code: (-ret) as u8 });
        }
        self.started = true;
        Ok(())
    }

    /// The counters as the port's user sees them, from the device's
    /// counters `raw`: `raw` itself where the device resets its counters,
    /// else how far each counter has moved from the baseline. So a port
    /// that keeps its own baseline reads zero in every counter as long as
    /// the device has not counted on since the baseline was taken.
    pub fn get_stat(&self, raw: &PortStat) -> (s: PortStat)
        ensures
            self.hw_reset() ==> s == *raw,
            !self.hw_reset() ==> s.is_since(raw, &self.baseline()),
            !self.hw_reset() && self.baseline() == *raw ==> s.is_zero(),
    {
        proof {
            lemma_since_itself_if(*raw);
        }
        if self.has_stats_reset {
            *raw
        } else {
            PortStat {
                ipackets: raw.ipackets.wrapping_sub(self.prev_stat.ipackets),
                opackets: raw.opackets.wrapping_sub(self.prev_stat.opackets),
                ibytes: raw.ibytes.wrapping_sub(self.prev_stat.ibytes),
                obytes: raw.obytes.wrapping_sub(self.prev_stat.obytes),
                ierrors: raw.ierrors.wrapping_sub(self.prev_stat.ierrors),
                oerrors: raw.oerrors.wrapping_sub(self.prev_stat.oerrors),
                imissed: raw.imissed.wrapping_sub(self.prev_stat.imissed),
                rx_nombuf: raw.rx_nombuf.wrapping_sub(self.prev_stat.rx_nombuf),
                q_ipackets: subtract_array(&raw.q_ipackets, &self.prev_stat.q_ipackets),
                q_opackets: subtract_array(&raw.q_opackets, &self.prev_stat.q_opackets),
                q_ibytes: subtract_array(&raw.q_ibytes, &self.prev_stat.q_ibytes),
                q_obytes: subtract_array(&raw.q_obytes, &self.prev_stat.q_obytes),
                q_errors: subtract_array(&raw.q_errors, &self.prev_stat.q_errors),
            }
        }
    }

    /// Resets the counters. Where the device resets them itself the answer
    /// is `true`, the port is unchanged, and the caller has the device do
    /// it. Else the device's counters `raw` become the baseline, every one
    /// of them, so that the counters read zero until the device counts on.
    pub fn reset_stat(&mut self, raw: &PortStat) -> (by_device: bool)
        ensures
            by_device == old(self).hw_reset(),
            final(self).same_device(old(self)),
            final(self).promiscuous() == old(self).promiscuous(),
            final(self).started() == old(self).started(),
            final(self).link() == old(self).link(),
            by_device ==> final(self).baseline() == old(self).baseline(),
            !by_device ==> final(self).baseline() == *raw,
    {
        if self.has_stats_reset {
            true
        } else {
            self.prev_stat = *raw;
            false
        }
    }

    /// Takes the link state that the device reports.
    pub fn set_link(&mut self, up: bool)
        ensures
            final(self).link() == up,
            final(self).same_device(old(self)),
            final(self).baseline() == old(self).baseline(),
            final(self).promiscuous() == old(self).promiscuous(),
            final(self).started() == old(self).started(),
    {
        self.link_up = up;
    }

    /// Whether the link was up when its state was last reported.
    pub fn is_link_up(&self) -> (r: bool)
        ensures
            r == self.link(),
    {
        self.link_up
    }
}

} // verus!
