//! The forwarding worker of one core.
//!
//! A worker owns its lanes. In each step it looks at the clock, flushes
//! every lane whose staged packets have waited too long, and then polls
//! every lane: what the receive queue holds gets new Ethernet addresses
//! and is staged for the transmit queue. Running the steps for ever is
//! the caller's part.

use crate::burst::{burst_drain, burst_new, MAX_PKT_BURST};
use crate::ether::{get_fake_dst_mac, rewritten, set_macs, ETHER_ADDRS_LEN};
use crate::ids::LCoreId;
use crate::l2fwd::ForwardDesc;
use crate::mpool::{count_at, covers, from_pool, give_back_all, handles, lemma_give_back_held,
    lemma_give_back_split, lemma_handles_add, lemma_handles_same_slots};
use crate::packet::Packet;
use crate::queue::{min, RxQ, TxQ};
use crate::tx_buffer::{flush_outcome, tx_outcome, TxBuffer};
use vstd::prelude::*;

verus! {

/// The time that a staged packet may wait, in microseconds.
pub const BURST_TX_DRAIN_US: u64 = 100;

/// The number of microseconds in a second.
pub const US_PER_S: u64 = 1000000;

/// The time that a staged packet may wait, in cycles of a counter that
/// runs at `hz` cycles per second: the cycles of one microsecond, rounded
/// up, times `BURST_TX_DRAIN_US`.
pub open spec fn spec_drain_threshold(hz: u64) -> int {
    (hz + US_PER_S - 1) / (US_PER_S as int) * BURST_TX_DRAIN_US
}

/// The time that a staged packet may wait, in cycles.
pub fn drain_threshold(hz: u64) -> (cycles: u64)
    ensures
        cycles == spec_drain_threshold(hz),
{
    let whole = hz / US_PER_S;
    let per_us = if hz % US_PER_S == 0 {
        whole
    } else {
        whole + 1
    };
    assert(per_us == (hz + US_PER_S - 1) / (US_PER_S as int)) by (nonlinear_arith)
        requires
            US_PER_S == 1000000,
            whole == hz / US_PER_S,
            per_us == if hz % US_PER_S == 0 {
                whole
            } else {
                (whole + 1) as u64
            },
    ;
    assert(per_us <= 18446744073710);
    per_us * BURST_TX_DRAIN_US
}

/// Whether the staged packets are due: more than `drain` cycles have
/// passed from `prev` to `now`. A clock that ran backwards counts as one
/// that stood still.
pub open spec fn spec_is_due(prev: u64, now: u64, drain: u64) -> bool {
    now >= prev && now - prev > drain
}

/// Whether the staged packets are due.
pub fn is_due(prev: u64, now: u64, drain: u64) -> (r: bool)
    ensures
        r == spec_is_due(prev, now, drain),
{
    now >= prev && now - prev > drain
}

/// A counter moved on by `n`, wrapping at 2^64.
pub open spec fn wrap_add(a: u64, n: int) -> u64 {
    if a + n > u64::MAX {
        (a + n - 0x1_0000_0000_0000_0000) as u64
    } else {
        (a + n) as u64
    }
}

/// The counters of a lane. They wrap.
#[derive(Debug, Clone, Copy, PartialEq, Eq, Structural)]
pub struct LaneStat {
    /// Packets polled from the receive queue.
    pub received: u64,
    /// Packets that the transmit queue took.
    pub sent: u64,
    /// Packets that the transmit queue did not take; they went back to
    /// their pool.
    pub dropped: u64,
    /// Frames that were too short to be rewritten; they were forwarded as
    /// they were.
    pub short: u64,
}

/// One forwarding descriptor at work: its queues, the packets staged for
/// the transmit queue, and the addresses that forwarded frames get.
#[derive(Debug)]
pub struct Lane {
    pub src: RxQ,
    pub dst: TxQ,
    pub buf: TxBuffer,
    pub src_mac: [u8; 6],
    pub dst_mac: [u8; 6],
    pub stat: LaneStat,
}

/// The packets of a lane, as far as a step moves them.
pub struct LaneState {
    /// The packets that are staged.
    pub staged: Seq<Packet>,
    /// The packets that the device holds to send.
    pub in_flight: Seq<Packet>,
    /// The packets that the transmit queue did not take, in the order in
    /// which they went back to their pool.
    pub dropped: Seq<Packet>,
}

/// The state after `pkt` was submitted.
pub open spec fn forward_one(s: LaneState, ring_size: nat, pkt: Packet) -> LaneState {
    let o = tx_outcome(s.staged, pkt, ring_size - s.in_flight.len());
    LaneState {
        staged: o.staged,
        in_flight: s.in_flight + o.handed,
        dropped: s.dropped + o.unsent,
    }
}

/// The state after the packets `pkts` were submitted, one after the other.
pub open spec fn forward_all(s: LaneState, ring_size: nat, pkts: Seq<Packet>) -> LaneState
    decreases pkts.len(),
{
    if pkts.len() == 0 {
        s
    } else {
        forward_one(forward_all(s, ring_size, pkts.drop_last()), ring_size, pkts.last())
    }
}

/// What is staged, and what went back, are buffers of the pool `id`.
pub open spec fn own(s: LaneState, id: u64) -> bool {
    from_pool(s.staged, id) && from_pool(s.dropped, id)
}

/// Submitting a buffer of the pool to a lane that holds only such leaves
/// only such staged and given back.
pub proof fn lemma_forward_one_own(s: LaneState, ring_size: nat, pkt: Packet, id: u64)
    requires
        own(s, id),
        pkt.pool_id() == id,
    ensures
        own(forward_one(s, ring_size, pkt), id),
{
    let o = tx_outcome(s.staged, pkt, ring_size - s.in_flight.len());
    let all = s.staged.push(pkt);
    crate::tx_buffer::lemma_tx_keeps_order(s.staged, pkt, ring_size - s.in_flight.len());
    assert(from_pool(all, id));
    assert forall|i: int| 0 <= i < o.unsent.len() implies (#[trigger] o.unsent[i]).pool_id()
        == id by {
        assert(o.unsent[i] == (o.handed + o.unsent + o.staged)[o.handed.len() + i]);
    }
    assert forall|i: int| 0 <= i < o.staged.len() implies (#[trigger] o.staged[i]).pool_id()
        == id by {
        assert(o.staged[i] == (o.handed + o.unsent + o.staged)[o.handed.len() + o.unsent.len()
            + i]);
    }
}

/// A flush of a lane that holds only buffers of the pool gives back only
/// such.
pub proof fn lemma_flushed_own(s: LaneState, ring_size: nat, id: u64)
    requires
        own(s, id),
    ensures
        own(flushed(s, ring_size), id),
{
    let o = flush_outcome(s.staged, ring_size - s.in_flight.len());
    crate::tx_buffer::lemma_flush_keeps_order(s.staged, ring_size - s.in_flight.len());
    assert forall|i: int| 0 <= i < o.unsent.len() implies (#[trigger] o.unsent[i]).pool_id()
        == id by {
        assert(o.unsent[i] == (o.handed + o.unsent)[o.handed.len() + i]);
    }
}

/// Submitting buffers of the pool, one after the other, to a lane that
/// holds only such leaves only such staged and given back.
pub proof fn lemma_forward_own(s: LaneState, ring_size: nat, pkts: Seq<Packet>, id: u64)
    requires
        own(s, id),
        from_pool(pkts, id),
    ensures
        own(forward_all(s, ring_size, pkts), id),
    decreases pkts.len(),
{
    if pkts.len() > 0 {
        let front = pkts.drop_last();
        assert forall|i: int| 0 <= i < front.len() implies (#[trigger] front[i]).pool_id()
            == id by {
            assert(front[i] == pkts[i]);
        }
        lemma_forward_own(s, ring_size, front, id);
        lemma_forward_one_own(forward_all(s, ring_size, front), ring_size, pkts.last(), id);
    }
}

/// The state after a flush.
pub open spec fn flushed(s: LaneState, ring_size: nat) -> LaneState {
    let o = flush_outcome(s.staged, ring_size - s.in_flight.len());
    LaneState {
        staged: o.staged,
        in_flight: s.in_flight + o.handed,
        dropped: s.dropped + o.unsent,
    }
}

/// How many of the frames are too short to be rewritten.
pub open spec fn short_count(pkts: Seq<Packet>) -> nat
    decreases pkts.len(),
{
    if pkts.len() == 0 {
        0
    } else {
        short_count(pkts.drop_last()) + if pkts.last()@.len() < ETHER_ADDRS_LEN {
            1nat
        } else {
            0nat
        }
    }
}

/// `after` is `before` with new Ethernet addresses: the same buffer, the
/// same window, the frame rewritten, and the memory around the window as
/// it was.
pub open spec fn rewrite_of(after: &Packet, before: &Packet, src: Seq<u8>, dst: Seq<u8>) -> bool {
    &&& after.wf()
    &&& after.same_window(before)
    &&& after.metadata() == before.metadata()
    &&& after@ == rewritten(before@, src, dst)
    &&& after.memory() == before.memory().subrange(0, before.start()) + after@
        + before.memory().subrange(before.end(), before.spec_capacity() as int)
}

impl Lane {
    /// The queues and the buffer are well formed, and what is staged are
    /// buffers of the receive queue's pool.
    pub open spec fn wf(&self) -> bool {
        &&& self.src.wf()
        &&& self.dst.wf()
        &&& self.buf.wf()
        &&& from_pool(self.buf.staged(), self.src.pool().id())
    }

    /// The packets of the lane.
    pub open spec fn state(&self) -> LaneState {
        LaneState {
            staged: self.buf.staged(),
            in_flight: self.dst.in_flight(),
            dropped: Seq::empty(),
        }
    }

    /// The packets of the lane when a step begins to poll: flushed first,
    /// if they were due.
    pub open spec fn start(&self, due: bool) -> LaneState {
        if due {
            flushed(self.state(), self.dst.ring_size())
        } else {
            self.state()
        }
    }

    /// The number of packets that one poll takes from the receive queue.
    pub open spec fn burst(&self) -> int {
        min(self.src.pending().len() as int, MAX_PKT_BURST as int)
    }

    /// `self` is `before` after one step in which `pkts` were forwarded:
    /// they are the oldest pending packets with new addresses, one burst
    /// at most; they were submitted in their order, behind a flush where
    /// the lane was due; what the transmit queue did not take went back to
    /// the pool; and the counters moved on.
    pub open spec fn stepped(&self, before: &Lane, due: bool, pkts: Seq<Packet>) -> bool {
        let got = before.burst();
        let end = forward_all(before.start(due), before.dst.ring_size(), pkts);
        &&& pkts.len() == got
        &&& forall|i: int|
            0 <= i < got ==> rewrite_of(
                &#[trigger] pkts[i],
                &before.src.pending()[i],
                before.src_mac@,
                before.dst_mac@,
            )
        &&& self.src.same_queue(&before.src)
        &&& self.dst.same_queue(&before.dst)
        &&& self.src_mac == before.src_mac
        &&& self.dst_mac == before.dst_mac
        &&& self.src.pending() == before.src.pending().subrange(
            got,
            before.src.pending().len() as int,
        )
        &&& self.buf.staged() == end.staged
        &&& self.dst.in_flight() == end.in_flight
        &&& (self.src.pool().refcounts(), self.src.pool().free_list()) == give_back_all(
            (before.src.pool().refcounts(), before.src.pool().free_list()),
            before.src.pool().id(),
            end.dropped,
        )
        &&& self.stat.received == wrap_add(before.stat.received, got)
        &&& self.stat.sent == wrap_add(
            before.stat.sent,
            end.in_flight.len() - before.dst.in_flight().len(),
        )
        &&& self.stat.dropped == wrap_add(before.stat.dropped, end.dropped.len() as int)
        &&& self.stat.short == wrap_add(
            before.stat.short,
            short_count(before.src.pending().subrange(0, got)) as int,
        )
    }

    /// `self` is `before` after one step.
    pub open spec fn did_step(&self, before: &Lane, due: bool) -> bool {
        exists|pkts: Seq<Packet>| #[trigger] self.stepped(before, due, pkts)
    }

    /// `self` is the lane that is made for `fwd`: its queues, nothing
    /// staged, all counters at zero, and as the addresses of forwarded
    /// frames the address of the port that they leave by and the
    /// placeholder for that port.
    pub open spec fn fresh_for(&self, fwd: &ForwardDesc) -> bool {
        &&& self.src == fwd.src
        &&& self.dst == fwd.dst
        &&& self.buf.staged() == Seq::<Packet>::empty()
        &&& self.src_mac == fwd.dst.spec_port().mac()
        &&& self.dst_mac@ == seq![
            2u8,
            0u8,
            0u8,
            0u8,
            0u8,
            (fwd.dst.spec_port().id() % 256) as u8,
        ]
        &&& self.stat == (LaneStat { received: 0, sent: 0, dropped: 0, short: 0 })
    }

    /// A lane for the descriptor `fwd`, with nothing staged and all
    /// counters at zero. Forwarded frames get the address of the port that
    /// they leave by as their source, and the placeholder for that port as
    /// their destination.
    pub fn new(fwd: ForwardDesc) -> (lane: Lane)
        requires
            fwd.src.wf(),
            fwd.dst.wf(),
        ensures
            lane.wf(),
            lane.fresh_for(&fwd),
    {
        let src_mac = fwd.dst.port().mac_addr();
        let dst_mac = get_fake_dst_mac(fwd.dst.port());
        Lane {
            src: fwd.src,
            dst: fwd.dst,
            buf: TxBuffer::new(),
            src_mac,
            dst_mac,
            stat: LaneStat { received: 0, sent: 0, dropped: 0, short: 0 },
        }
    }

    /// One step of the lane: flushes the staged packets if they are `due`,
    /// then polls the receive queue for one burst, gives each frame its
    /// new addresses and stages it. Packets that the transmit queue does
    /// not take go back to the pool of the receive queue.
    pub fn step(&mut self, due: bool)
        requires
            old(self).wf(),
        ensures
            final(self).wf(),
            final(self).did_step(old(self), due),
    {
        let ghost ring_size = self.dst.ring_size();
        let ghost pool0 = (self.src.pool().refcounts(), self.src.pool().free_list());
        let ghost id = self.src.pool().id();
        let ghost flight0 = self.dst.in_flight().len();
        let mut sent_total: usize = 0;
        let mut dropped_total: usize = 0;
        let mut short_total: usize = 0;
        let ghost mut cur = self.state();
        if due {
            let (sent, unsent) = self.buf.flush(&mut self.dst);
            sent_total = sent;
            proof {
                lemma_flushed_own(cur, ring_size, id);
                cur = flushed(cur, ring_size);
                assert(cur.dropped =~= flush_outcome(
                    old(self).buf.staged(),
                    old(self).dst.room(),
                ).unsent);
            }
            match unsent {
                Some(left) => {
                    dropped_total = left.len();
                    self.src.release_all(left);
                },
                None => {
                    assert(cur.dropped =~= Seq::<Packet>::empty());
                },
            }
        }
        assert(cur == old(self).start(due));
        let ghost pending0 = self.src.pending();
        let mut burst = burst_new();
        let got = self.src.rx(&mut burst);
        let mut left = burst_drain(&mut burst, got);
        let ghost received = left@;
        let ghost start = cur;
        let ghost mut done: Seq<Packet> = Seq::empty();
        proof {
            assert(received =~= pending0.subrange(0, got as int));
            assert(received.subrange(0, 0) =~= Seq::<Packet>::empty());
        }
        while left.len() > 0
            invariant
                self.wf(),
                self.src.same_queue(&old(self).src),
                self.dst.same_queue(&old(self).dst),
                self.src_mac == old(self).src_mac,
                self.dst_mac == old(self).dst_mac,
                self.stat == old(self).stat,
                self.src.pending() == pending0.subrange(got as int, pending0.len() as int),
                ring_size == old(self).dst.ring_size(),
                id == old(self).src.pool().id(),
                pool0 == (old(self).src.pool().refcounts(), old(self).src.pool().free_list()),
                flight0 == old(self).dst.in_flight().len(),
                got <= MAX_PKT_BURST,
                received.len() == got,
                forall|i: int| 0 <= i < received.len() ==> (#[trigger] received[i]).wf(),
                done.len() + left@.len() == got,
                left@ == received.subrange(done.len() as int, got as int),
                forall|i: int|
                    0 <= i < done.len() ==> rewrite_of(
                        &#[trigger] done[i],
                        &received[i],
                        self.src_mac@,
                        self.dst_mac@,
                    ),
                cur == forward_all(start, ring_size, done),
                own(cur, id),
                from_pool(received, id),
                self.buf.staged() == cur.staged,
                self.dst.in_flight() == cur.in_flight,
                (self.src.pool().refcounts(), self.src.pool().free_list()) == give_back_all(
                    pool0,
                    id,
                    cur.dropped,
                ),
                sent_total == cur.in_flight.len() - flight0,
                dropped_total == cur.dropped.len(),
                sent_total + dropped_total <= MAX_PKT_BURST * (done.len() + 1),
                short_total == short_count(received.subrange(0, done.len() as int)),
                short_total <= done.len(),
            decreases left@.len(),
        {
            let ghost k = done.len() as int;
            let ghost before_left = left@;
            let ghost prev = cur;
            let mut pkt = left.remove(0);
            proof {
                assert(pkt == received[k]);
                assert(received.subrange(0, k + 1).drop_last() =~= received.subrange(0, k));
                assert(received.subrange(0, k + 1).last() == received[k]);
            }
            if !set_macs(&mut pkt, self.src_mac, self.dst_mac) {
                short_total += 1;
            }
            proof {
                let next = done.push(pkt);
                assert(next.drop_last() =~= done);
                assert forall|i: int| 0 <= i < next.len() implies rewrite_of(
                    &#[trigger] next[i],
                    &received[i],
                    self.src_mac@,
                    self.dst_mac@,
                ) by {
                    if i < k {
                        assert(next[i] == done[i]);
                    }
                }
                done = next;
                lemma_forward_one_own(prev, ring_size, pkt, id);
                cur = forward_one(prev, ring_size, pkt);
                crate::tx_buffer::lemma_tx_keeps_order(
                    prev.staged,
                    pkt,
                    ring_size - prev.in_flight.len(),
                );
            }
            let ghost o = tx_outcome(prev.staged, pkt, ring_size - prev.in_flight.len());
            let (sent, unsent) = self.buf.tx(&mut self.dst, pkt);
            proof {
                assert((o.handed + o.unsent + o.staged).len() == prev.staged.len() + 1);
                lemma_give_back_split(pool0, id, prev.dropped, o.unsent);
                assert(left@ =~= received.subrange(k + 1, got as int));
            }
            sent_total += sent;
            match unsent {
                Some(back) => {
                    dropped_total += back.len();
                    self.src.release_all(back);
                },
                None => {
                    assert(o.unsent =~= Seq::<Packet>::empty());
                    assert(cur.dropped =~= prev.dropped);
                },
            }
        }
        self.stat.received = self.stat.received.wrapping_add(got as u64);
        self.stat.sent = self.stat.sent.wrapping_add(sent_total as u64);
        self.stat.dropped = self.stat.dropped.wrapping_add(dropped_total as u64);
        self.stat.short = self.stat.short.wrapping_add(short_total as u64);
        proof {
            assert(done.len() == got);
            assert(received.subrange(0, got as int) =~= received);
            assert forall|i: int| 0 <= i < got implies rewrite_of(
                &#[trigger] done[i],
                &old(self).src.pending()[i],
                old(self).src_mac@,
                old(self).dst_mac@,
            ) by {
                assert(received[i] == pending0[i]);
            }
            assert(self.stepped(old(self), due, done));
        }
    }
}

/// Forwarding loses no packet: each packet that was staged, in flight or
/// given back before, and each that was submitted, is staged, in flight or
/// given back afterwards.
pub proof fn lemma_forward_conserves(s: LaneState, ring_size: nat, pkts: Seq<Packet>)
    ensures
        forward_all(s, ring_size, pkts).staged.len() + forward_all(
            s,
            ring_size,
            pkts,
        ).in_flight.len() + forward_all(s, ring_size, pkts).dropped.len() == s.staged.len()
            + s.in_flight.len() + s.dropped.len() + pkts.len(),
    decreases pkts.len(),
{
    if pkts.len() > 0 {
        let prev = forward_all(s, ring_size, pkts.drop_last());
        lemma_forward_conserves(s, ring_size, pkts.drop_last());
        crate::tx_buffer::lemma_tx_keeps_order(
            prev.staged,
            pkts.last(),
            ring_size - prev.in_flight.len(),
        );
        let o = tx_outcome(prev.staged, pkts.last(), ring_size - prev.in_flight.len());
        assert((o.handed + o.unsent + o.staged).len() == prev.staged.len() + 1);
    }
}

/// The handles to the slot `slot` that a lane holds or has dealt with:
/// staged, in flight, or given back.
pub open spec fn held(s: LaneState, slot: nat) -> nat {
    handles(s.staged, slot) + handles(s.in_flight, slot) + handles(s.dropped, slot)
}

/// Submitting a packet loses no handle and makes none: the lane holds one
/// more to the packet's slot, and no handle leaves the device.
pub proof fn lemma_forward_one_handles(s: LaneState, ring_size: nat, pkt: Packet, slot: nat)
    ensures
        held(forward_one(s, ring_size, pkt), slot) == held(s, slot) + handles(seq![pkt], slot),
        handles(forward_one(s, ring_size, pkt).in_flight, slot) >= handles(s.in_flight, slot),
{
    let o = tx_outcome(s.staged, pkt, ring_size - s.in_flight.len());
    crate::tx_buffer::lemma_tx_keeps_order(s.staged, pkt, ring_size - s.in_flight.len());
    lemma_handles_add(o.handed + o.unsent, o.staged, slot);
    lemma_handles_add(o.handed, o.unsent, slot);
    lemma_handles_add(s.staged, seq![pkt], slot);
    assert(s.staged + seq![pkt] =~= s.staged.push(pkt));
    lemma_handles_add(s.in_flight, o.handed, slot);
    lemma_handles_add(s.dropped, o.unsent, slot);
}

/// A flush loses no handle and makes none, and no handle leaves the
/// device.
pub proof fn lemma_flushed_handles(s: LaneState, ring_size: nat, slot: nat)
    ensures
        held(flushed(s, ring_size), slot) == held(s, slot),
        handles(flushed(s, ring_size).in_flight, slot) >= handles(s.in_flight, slot),
{
    let o = flush_outcome(s.staged, ring_size - s.in_flight.len());
    crate::tx_buffer::lemma_flush_keeps_order(s.staged, ring_size - s.in_flight.len());
    lemma_handles_add(o.handed, o.unsent, slot);
    lemma_handles_add(s.in_flight, o.handed, slot);
    lemma_handles_add(s.dropped, o.unsent, slot);
    assert(o.staged =~= Seq::<Packet>::empty());
}

/// Submitting packets, one after the other, loses no handle and makes
/// none: the lane holds those that it held and those of the packets, and
/// no handle leaves the device.
pub proof fn lemma_forward_handles(s: LaneState, ring_size: nat, pkts: Seq<Packet>, slot: nat)
    ensures
        held(forward_all(s, ring_size, pkts), slot) == held(s, slot) + handles(pkts, slot),
        handles(forward_all(s, ring_size, pkts).in_flight, slot) >= handles(s.in_flight, slot),
    decreases pkts.len(),
{
    if pkts.len() > 0 {
        let prev = forward_all(s, ring_size, pkts.drop_last());
        lemma_forward_handles(s, ring_size, pkts.drop_last(), slot);
        lemma_forward_one_handles(prev, ring_size, pkts.last(), slot);
        lemma_handles_add(pkts.drop_last(), seq![pkts.last()], slot);
        assert(pkts.drop_last() + seq![pkts.last()] =~= pkts);
    }
}

/// The handles that a lane answers for: those that wait in the ring of
/// the receive queue, those that are staged, and those that the device
/// holds to send.
pub open spec fn in_hand(lane: Lane) -> Seq<Packet> {
    lane.src.pending() + lane.buf.staged() + lane.dst.in_flight()
}

/// A step gives back every packet that the transmit queue did not take:
/// where the pool of the receive queue counts the handles that the lane
/// answers for, each slot counts after the step as many handles less as
/// the step had to give back to it, and the pool still counts the handles
/// that the lane answers for.
pub proof fn lemma_step_gives_back_all(before: Lane, after: Lane, due: bool, pkts: Seq<Packet>)
    requires
        before.wf(),
        covers(before.src.pool().refcounts(), in_hand(before)),
        after.stepped(&before, due, pkts),
    ensures
        after.src.pool().refcounts().len() == before.src.pool().refcounts().len(),
        forall|slot: nat|
            slot < before.src.pool().refcounts().len() ==> after.src.pool().refcounts()[slot as int]
                == before.src.pool().refcounts()[slot as int] - #[trigger] handles(
                forward_all(before.start(due), before.dst.ring_size(), pkts).dropped,
                slot,
            ),
        covers(after.src.pool().refcounts(), in_hand(after)),
{
    let refs = before.src.pool().refcounts();
    let pool0 = (refs, before.src.pool().free_list());
    let id = before.src.pool().id();
    let ring_size = before.dst.ring_size();
    let pending = before.src.pending();
    let got = before.burst();
    let front = pending.subrange(0, got);
    let rest = pending.subrange(got, pending.len() as int);
    let start = before.start(due);
    let end = forward_all(start, ring_size, pkts);
    lemma_step_gives_back_own(before, after, due, pkts);
    assert(pending =~= front + rest);
    assert forall|i: int| 0 <= i < pkts.len() implies (#[trigger] pkts[i]).slot_index()
        == front[i].slot_index() by {
        assert(rewrite_of(&pkts[i], &pending[i], before.src_mac@, before.dst_mac@));
    }
    assert forall|slot: nat| #[trigger] handles(end.dropped, slot) + handles(rest, slot) + handles(
        end.staged,
        slot,
    ) + handles(end.in_flight, slot) <= count_at(refs, slot) by {
        lemma_handles_same_slots(pkts, front, slot);
        lemma_handles_add(front, rest, slot);
        lemma_handles_add(pending + before.buf.staged(), before.dst.in_flight(), slot);
        lemma_handles_add(pending, before.buf.staged(), slot);
        if due {
            lemma_flushed_handles(before.state(), ring_size, slot);
        }
        lemma_forward_handles(start, ring_size, pkts, slot);
        assert(handles(before.state().dropped, slot) == 0);
        assert(handles(in_hand(before), slot) <= count_at(refs, slot));
    }
    assert forall|slot: nat| #[trigger] handles(end.dropped, slot) <= count_at(refs, slot) by {
        assert(handles(end.dropped, slot) + handles(rest, slot) + handles(end.staged, slot)
            + handles(end.in_flight, slot) <= count_at(refs, slot));
    }
    lemma_give_back_held(pool0, id, end.dropped);
    let now = after.src.pool().refcounts();
    assert forall|slot: nat| #[trigger] handles(in_hand(after), slot) <= count_at(now, slot) by {
        lemma_handles_add(rest + end.staged, end.in_flight, slot);
        lemma_handles_add(rest, end.staged, slot);
        assert(handles(end.dropped, slot) + handles(rest, slot) + handles(end.staged, slot)
            + handles(end.in_flight, slot) <= count_at(refs, slot));
        if slot < refs.len() {
            assert(now[slot as int] == refs[slot as int] - handles(end.dropped, slot));
        }
    }
}

/// Giving back what the device is done with: where the pool counts the
/// handles `others` and those in flight, and the oldest `k` in flight are
/// its buffers, it takes every one of them back, and still counts
/// `others` and those that stay in flight.
pub proof fn lemma_completed_go_back(
    pool: (Seq<u16>, Seq<usize>),
    id: u64,
    others: Seq<Packet>,
    in_flight: Seq<Packet>,
    k: int,
)
    requires
        0 <= k <= in_flight.len(),
        from_pool(in_flight.subrange(0, k), id),
        covers(pool.0, others + in_flight),
    ensures
        give_back_all(pool, id, in_flight.subrange(0, k)).0.len() == pool.0.len(),
        forall|slot: nat|
            slot < pool.0.len() ==> give_back_all(pool, id, in_flight.subrange(0, k)).0[slot as int]
                == pool.0[slot as int] - #[trigger] handles(in_flight.subrange(0, k), slot),
        covers(
            give_back_all(pool, id, in_flight.subrange(0, k)).0,
            others + in_flight.subrange(k, in_flight.len() as int),
        ),
{
    let done = in_flight.subrange(0, k);
    let stay = in_flight.subrange(k, in_flight.len() as int);
    assert(in_flight =~= done + stay);
    assert forall|slot: nat| #[trigger] handles(done, slot) + handles(others + stay, slot)
        <= count_at(pool.0, slot) by {
        lemma_handles_add(others, in_flight, slot);
        lemma_handles_add(done, stay, slot);
        lemma_handles_add(others, stay, slot);
        assert(handles(others + in_flight, slot) <= count_at(pool.0, slot));
    }
    assert forall|slot: nat| #[trigger] handles(done, slot) <= count_at(pool.0, slot) by {
        assert(handles(done, slot) + handles(others + stay, slot) <= count_at(pool.0, slot));
    }
    lemma_give_back_held(pool, id, done);
    let now = give_back_all(pool, id, done).0;
    assert forall|slot: nat| #[trigger] handles(others + stay, slot) <= count_at(now, slot) by {
        assert(handles(done, slot) + handles(others + stay, slot) <= count_at(pool.0, slot));
        if slot < pool.0.len() {
            assert(now[slot as int] == pool.0[slot as int] - handles(done, slot));
        }
    }
}

/// What a step gives back to the pool of the receive queue are buffers
/// of that pool, and so are the packets that it leaves staged.
pub proof fn lemma_step_gives_back_own(before: Lane, after: Lane, due: bool, pkts: Seq<Packet>)
    requires
        before.wf(),
        after.stepped(&before, due, pkts),
    ensures
        own(
            forward_all(before.start(due), before.dst.ring_size(), pkts),
            before.src.pool().id(),
        ),
{
    let id = before.src.pool().id();
    assert(own(before.state(), id));
    if due {
        lemma_flushed_own(before.state(), before.dst.ring_size(), id);
    }
    assert forall|i: int| 0 <= i < pkts.len() implies (#[trigger] pkts[i]).pool_id() == id by {
        assert(rewrite_of(&pkts[i], &before.src.pending()[i], before.src_mac@, before.dst_mac@));
    }
    lemma_forward_own(before.start(due), before.dst.ring_size(), pkts, id);
}

/// A step loses no packet: what was staged or in flight before it, and
/// what it polled, is staged, in flight, or was given back to the pool.
pub proof fn lemma_step_conserves(before: Lane, after: Lane, due: bool, pkts: Seq<Packet>)
    requires
        after.stepped(&before, due, pkts),
    ensures
        after.buf.staged().len() + after.dst.in_flight().len() + forward_all(
            before.start(due),
            before.dst.ring_size(),
            pkts,
        ).dropped.len() == before.buf.staged().len() + before.dst.in_flight().len()
            + pkts.len(),
{
    let ring_size = before.dst.ring_size();
    lemma_forward_conserves(before.start(due), ring_size, pkts);
    if due {
        crate::tx_buffer::lemma_flush_keeps_order(
            before.buf.staged(),
            ring_size - before.dst.in_flight().len(),
        );
        let o = flush_outcome(before.buf.staged(), ring_size - before.dst.in_flight().len());
        assert((o.handed + o.unsent).len() == before.buf.staged().len());
    }
}

/// The drain bound: a step in which the lane is due leaves none of the
/// packets staged that were staged before it. Without traffic nothing is
/// staged after it: of what was staged, the transmit queue took the oldest
/// as far as its ring had room, and the others went back to their pool.
pub proof fn lemma_drain_bound(before: Lane, after: Lane, pkts: Seq<Packet>)
    requires
        after.stepped(&before, true, pkts),
        before.src.pending().len() == 0,
    ensures
        after.buf.staged().len() == 0,
        after.dst.in_flight() == before.dst.in_flight() + flush_outcome(
            before.buf.staged(),
            before.dst.room(),
        ).handed,
{
    assert(pkts.len() == 0);
    let s = before.start(true);
    assert(forward_all(s, before.dst.ring_size(), pkts) == s);
}

/// The worker of one core: its lanes, and the time of the last flush.
#[derive(Debug)]
pub struct Worker {
    pub lcore: LCoreId,
    pub lanes: Vec<Lane>,
    pub prev_tsc: u64,
    pub drain_tsc: u64,
}

impl Worker {
    /// Every lane is well formed.
    pub open spec fn wf(&self) -> bool {
        forall|i: int| 0 <= i < self.lanes@.len() ==> (#[trigger] self.lanes@[i]).wf()
    }

    /// A worker on the core `lcore` with one lane for each descriptor of
    /// `fwds`, in their order. `hz` is the rate of the cycle counter and
    /// `now` its value.
    pub fn new(lcore: LCoreId, fwds: Vec<ForwardDesc>, hz: u64, now: u64) -> (w: Worker)
        requires
            forall|i: int|
                0 <= i < fwds@.len() ==> (#[trigger] fwds@[i]).src.wf() && fwds@[i].dst.wf(),
        ensures
            w.wf(),
            w.lcore == lcore,
            w.prev_tsc == now,
            w.drain_tsc == spec_drain_threshold(hz),
            w.lanes@.len() == fwds@.len(),
            forall|i: int| 0 <= i < fwds@.len() ==> (#[trigger] w.lanes@[i]).fresh_for(&fwds@[i]),
    {
        let ghost all = fwds@;
        let mut left = fwds;
        let mut lanes: Vec<Lane> = Vec::new();
        while left.len() > 0
            invariant
                all == fwds@,
                lanes@.len() + left@.len() == all.len(),
                left@ == all.subrange(lanes@.len() as int, all.len() as int),
                forall|i: int| 0 <= i < all.len() ==> (#[trigger] all[i]).src.wf()
                    && all[i].dst.wf(),
                forall|i: int|
                    0 <= i < lanes@.len() ==> (#[trigger] lanes@[i]).wf() && lanes@[i].fresh_for(
                        &all[i],
                    ),
            decreases left@.len(),
        {
            let ghost k = lanes@.len() as int;
            let ghost made = lanes@;
            let fwd = left.remove(0);
            assert(fwd == all[k]);
            lanes.push(Lane::new(fwd));
            proof {
                assert(left@ =~= all.subrange(k + 1, all.len() as int));
                assert forall|i: int| 0 <= i < k + 1 implies (#[trigger] lanes@[i]).wf()
                    && lanes@[i].fresh_for(&all[i]) by {
                    if i < k {
                        assert(lanes@[i] == made[i]);
                    }
                }
            }
        }
        Worker { lcore, lanes, prev_tsc: now, drain_tsc: drain_threshold(hz) }
    }

    /// One turn of the forwarding loop at the time `now`. Where more than
    /// the drain threshold has passed since the last flush, every lane is
    /// flushed first and the time of the last flush becomes `now`; the
    /// answer says whether that was so. Then every lane is polled.
    pub fn step(&mut self, now: u64) -> (due: bool)
        requires
            old(self).wf(),
        ensures
            final(self).wf(),
            due == spec_is_due(old(self).prev_tsc, now, old(self).drain_tsc),
            final(self).lcore == old(self).lcore,
            final(self).drain_tsc == old(self).drain_tsc,
            final(self).prev_tsc == if due {
                now
            } else {
                old(self).prev_tsc
            },
            final(self).lanes@.len() == old(self).lanes@.len(),
            forall|i: int|
                0 <= i < old(self).lanes@.len() ==> (#[trigger] final(self).lanes@[i]).did_step(
                    &old(self).lanes@[i],
                    due,
                ),
    {
        let due = is_due(self.prev_tsc, now, self.drain_tsc);
        if due {
            self.prev_tsc = now;
        }
        let ghost lanes0 = self.lanes@;
        let n = self.lanes.len();
        let mut i: usize = 0;
        while i < n
            invariant
                i <= n,
                n == lanes0.len(),
                lanes0 == old(self).lanes@,
                self.lanes@.len() == n,
                self.lcore == old(self).lcore,
                self.drain_tsc == old(self).drain_tsc,
                self.prev_tsc == if due {
                    now
                } else {
                    old(self).prev_tsc
                },
                forall|k: int| 0 <= k < n ==> (#[trigger] lanes0[k]).wf(),
                forall|k: int| i <= k < n ==> #[trigger] self.lanes@[k] == lanes0[k],
                forall|k: int| 0 <= k < i ==> (#[trigger] self.lanes@[k]).wf(),
                forall|k: int|
                    0 <= k < i ==> (#[trigger] self.lanes@[k]).did_step(&lanes0[k], due),
            decreases n - i,
        {
            let ghost before = self.lanes@;
            let mut lane = self.lanes.remove(i);
            assert(lane == lanes0[i as int]);
            lane.step(due);
            self.lanes.insert(i, lane);
            proof {
                assert forall|k: int| 0 <= k < n && k != i implies #[trigger] self.lanes@[k]
                    == before[k] by {}
                assert forall|k: int| 0 <= k < i + 1 implies (#[trigger] self.lanes@[k]).did_step(
                    &lanes0[k],
                    due,
                ) by {
                    if k < i {
                        assert(self.lanes@[k] == before[k]);
                    }
                }
            }
            i += 1;
        }
        due
    }
}

} // verus!
