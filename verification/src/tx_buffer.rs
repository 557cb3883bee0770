//! The transmit batch buffer: packets are staged one at a time and handed
//! to a transmit queue as one burst, when the buffer is full or when the
//! owner asks for it.

use crate::burst::{burst_drain, burst_items, burst_len, burst_new, burst_push, MAX_PKT_BURST};
use crate::packet::Packet;
use crate::queue::{min, TxQ};
use arrayvec::ArrayVec;
use vstd::prelude::*;

verus! {

/// A staging area for up to `MAX_PKT_BURST` packets. Between two calls it
/// is never full: the call that fills it flushes it.
#[derive(Debug)]
pub struct TxBuffer {
    buff: ArrayVec<Packet, 32>,
}

/// What one call did with the staged packets.
pub struct Outcome {
    /// The packets that the queue took, in the order in which it took them.
    pub handed: Seq<Packet>,
    /// The packets that the queue did not take; they go back to the caller.
    pub unsent: Seq<Packet>,
    /// The packets that stay staged.
    pub staged: Seq<Packet>,
}

/// A flush of `staged` into a ring with room for `room` packets: the ring
/// takes the oldest as far as it has room, the others go back to the
/// caller in their order, and nothing stays staged.
pub open spec fn flush_outcome(staged: Seq<Packet>, room: int) -> Outcome {
    let sent = if room < 0 {
        0
    } else {
        min(staged.len() as int, room)
    };
    Outcome {
        handed: staged.subrange(0, sent),
        unsent: staged.subrange(sent, staged.len() as int),
        staged: Seq::empty(),
    }
}

/// Staging `pkt` behind `staged`, with a ring that has room for `room`
/// packets: a flush if that fills the buffer, else the packet waits.
pub open spec fn tx_outcome(staged: Seq<Packet>, pkt: Packet, room: int) -> Outcome {
    if staged.len() + 1 >= MAX_PKT_BURST {
        flush_outcome(staged.push(pkt), room)
    } else {
        Outcome { handed: Seq::empty(), unsent: Seq::empty(), staged: staged.push(pkt) }
    }
}

/// The totals of a run of calls.
pub struct Tally {
    /// How many packets queues took.
    pub sent: nat,
    /// How many packets went back to the caller.
    pub unsent: nat,
    /// The packets that are staged at the end.
    pub staged: Seq<Packet>,
}

/// Submitting `pkts` one after the other to a buffer that holds `staged`,
/// where the ring has room for `rooms[i]` packets at the call for
/// `pkts[i]`.
pub open spec fn run(staged: Seq<Packet>, pkts: Seq<Packet>, rooms: Seq<int>) -> Tally
    decreases pkts.len(),
{
    if pkts.len() == 0 || rooms.len() == 0 {
        Tally { sent: 0, unsent: 0, staged }
    } else {
        let o = tx_outcome(staged, pkts[0], rooms[0]);
        let rest = run(o.staged, pkts.drop_first(), rooms.drop_first());
        Tally {
            sent: o.handed.len() + rest.sent,
            unsent: o.unsent.len() + rest.unsent,
            staged: rest.staged,
        }
    }
}

/// A flush loses no packet and keeps the order: what the ring took,
/// followed by what went back to the caller, is what was staged.
pub proof fn lemma_flush_keeps_order(staged: Seq<Packet>, room: int)
    ensures
        flush_outcome(staged, room).handed + flush_outcome(staged, room).unsent == staged,
        flush_outcome(staged, room).staged.len() == 0,
{
    let o = flush_outcome(staged, room);
    assert(o.handed + o.unsent =~= staged);
}

/// One call loses no packet: what the ring took, what went back to the
/// caller and what stays staged are, in this order, what was staged
/// followed by the new packet.
pub proof fn lemma_tx_keeps_order(staged: Seq<Packet>, pkt: Packet, room: int)
    ensures
        tx_outcome(staged, pkt, room).handed + tx_outcome(staged, pkt, room).unsent + tx_outcome(
            staged,
            pkt,
            room,
        ).staged == staged.push(pkt),
{
    let o = tx_outcome(staged, pkt, room);
    assert(o.handed + o.unsent + o.staged =~= staged.push(pkt));
}

/// Conservation: of the packets that a buffer held and those submitted to
/// it in a run of calls, each was taken by a queue, went back to the
/// caller, or is still staged, whatever room the rings had.
pub proof fn lemma_conservation(staged: Seq<Packet>, pkts: Seq<Packet>, rooms: Seq<int>)
    requires
        rooms.len() == pkts.len(),
    ensures
        run(staged, pkts, rooms).sent + run(staged, pkts, rooms).unsent + run(
            staged,
            pkts,
            rooms,
        ).staged.len() == staged.len() + pkts.len(),
    decreases pkts.len(),
{
    if pkts.len() > 0 {
        let o = tx_outcome(staged, pkts[0], rooms[0]);
        lemma_tx_keeps_order(staged, pkts[0], rooms[0]);
        assert((o.handed + o.unsent + o.staged).len() == staged.len() + 1);
        lemma_conservation(o.staged, pkts.drop_first(), rooms.drop_first());
    }
}

/// A buffer that is not full stays so through a run of calls.
pub proof fn lemma_run_never_full(staged: Seq<Packet>, pkts: Seq<Packet>, rooms: Seq<int>)
    requires
        staged.len() < MAX_PKT_BURST,
    ensures
        run(staged, pkts, rooms).staged.len() < MAX_PKT_BURST,
    decreases pkts.len(),
{
    if pkts.len() > 0 && rooms.len() > 0 {
        let o = tx_outcome(staged, pkts[0], rooms[0]);
        lemma_run_never_full(o.staged, pkts.drop_first(), rooms.drop_first());
    }
}

impl TxBuffer {
    /// The staged packets, oldest first.
    pub closed spec fn staged(&self) -> Seq<Packet> {
        burst_items(self.buff)
    }

    /// The buffer is not full.
    pub open spec fn wf(&self) -> bool {
        self.staged().len() < MAX_PKT_BURST
    }

    /// An empty buffer.
    pub fn new() -> (b: TxBuffer)
        ensures
            b.wf(),
            b.staged() == Seq::<Packet>::empty(),
    {
        TxBuffer { buff: burst_new() }
    }

    /// The number of staged packets.
    pub fn len(&self) -> (n: usize)
        ensures
            n == self.staged().len(),
    {
        burst_len(&self.buff)
    }

    /// Stages `pkt` behind the others and, if the buffer is then full,
    /// flushes it into `txq`. The answer is the number of packets that the
    /// queue took and, where it did not take all, those that it left, in
    /// their order: they are the caller's again, to release or to submit
    /// anew.
    pub fn tx(&mut self, txq: &mut TxQ, pkt: Packet) -> (r: (usize, Option<Vec<Packet>>))
        requires
            old(self).wf(),
            old(txq).wf(),
        ensures
            final(self).wf(),
            final(txq).wf(),
            final(txq).same_queue(old(txq)),
            answers(r, tx_outcome(old(self).staged(), pkt, old(txq).room())),
            final(self).staged() == tx_outcome(old(self).staged(), pkt, old(txq).room()).staged,
            final(txq).in_flight() == old(txq).in_flight() + tx_outcome(
                old(self).staged(),
                pkt,
                old(txq).room(),
            ).handed,
    {
        burst_push(&mut self.buff, pkt);
        if burst_len(&self.buff) == MAX_PKT_BURST {
            return self.flush_staged(txq);
        }
        proof {
            assert(txq.in_flight() + Seq::<Packet>::empty() =~= txq.in_flight());
        }
        (0, None)
    }

    /// Hands the staged packets to `txq`, oldest first, as far as its ring
    /// has room; nothing happens on an empty buffer. The answer is the
    /// number of packets that the queue took and, where it did not take
    /// all, those that it left, in their order: they are the caller's
    /// again, to release or to submit anew. Nothing stays staged.
    pub fn flush(&mut self, txq: &mut TxQ) -> (r: (usize, Option<Vec<Packet>>))
        requires
            old(self).wf(),
            old(txq).wf(),
        ensures
            final(self).wf(),
            final(txq).wf(),
            final(txq).same_queue(old(txq)),
            answers(r, flush_outcome(old(self).staged(), old(txq).room())),
            final(self).staged() == Seq::<Packet>::empty(),
            final(txq).in_flight() == old(txq).in_flight() + flush_outcome(
                old(self).staged(),
                old(txq).room(),
            ).handed,
    {
        self.flush_staged(txq)
    }

    /// The flush, also of a full buffer.
    fn flush_staged(&mut self, txq: &mut TxQ) -> (r: (usize, Option<Vec<Packet>>))
        requires
            old(txq).wf(),
        ensures
            final(self).wf(),
            final(txq).wf(),
            final(txq).same_queue(old(txq)),
            answers(r, flush_outcome(old(self).staged(), old(txq).room())),
            final(self).staged() == Seq::<Packet>::empty(),
            final(txq).in_flight() == old(txq).in_flight() + flush_outcome(
                old(self).staged(),
                old(txq).room(),
            ).handed,
    {
        let to_send = burst_len(&self.buff);
        if to_send == 0 {
            proof {
                assert(self.staged() =~= Seq::<Packet>::empty());
                assert(txq.in_flight() + flush_outcome(self.staged(), txq.room()).handed
                    =~= txq.in_flight());
            }
            return (0, None);
        }
        let ghost staged0 = self.staged();
        txq.tx(&mut self.buff);
        let left = burst_len(&self.buff);
        let sent = to_send - left;
        if left == 0 {
            proof {
                assert(self.staged() =~= Seq::<Packet>::empty());
            }
            (sent, None)
        } else {
            let unsent = burst_drain(&mut self.buff, left);
            proof {
                assert(self.staged() =~= Seq::<Packet>::empty());
                assert(unsent@ =~= staged0.subrange(sent as int, staged0.len() as int));
            }
            (sent, Some(unsent))
        }
    }
}

/// The answer `r` of a call reports the outcome `o`: the number of packets
/// that the queue took, and those that it left, if there are any.
pub open spec fn answers(r: (usize, Option<Vec<Packet>>), o: Outcome) -> bool {
    &&& r.0 == o.handed.len()
    &&& o.unsent.len() == 0 <==> r.1 is None
    &&& r.1 is Some ==> r.1->Some_0@ == o.unsent
}

} // verus!
