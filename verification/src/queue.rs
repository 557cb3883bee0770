//! The receive and transmit queues of a port.
//!
//! A queue is a ring between the device and the software. On the receive
//! side the device puts frames into buffers of the queue's pool and the
//! software polls them out; on the transmit side the software hands buffers
//! over as far as the ring has room, and gets them back once the device is
//! done with them.

use crate::burst::{all_wf, burst_as_slice, burst_drain, burst_items, burst_len, burst_push,
    MAX_PKT_BURST};
use crate::mpool::{count_at, covers, from_pool, give_back_all, handles, is_copy_of,
    lemma_handles_add, MPool};
use crate::packet::Packet;
use crate::port::Port;
use arrayvec::ArrayVec;
use vstd::prelude::*;

verus! {

/// Takes the first `k` items out of a vector; the others move to the front.
pub(crate) fn take_front<T>(v: &mut Vec<T>, k: usize) -> (front: Vec<T>)
    requires
        k <= old(v)@.len(),
    ensures
        front@ == old(v)@.subrange(0, k as int),
        final(v)@ == old(v)@.subrange(k as int, old(v)@.len() as int),
{
    let mut rest = v.split_off(k);
    core::mem::swap(v, &mut rest);
    rest
}

/// The smaller of two numbers.
pub open spec fn min(a: int, b: int) -> int {
    if a <= b {
        a
    } else {
        b
    }
}

/// A receive queue: a ring that the device fills from the queue's own
/// pool. It has one consumer.
#[derive(Debug)]
pub struct RxQ {
    queue_id: u16,
    port: Port,
    mpool: MPool,
    ring: Vec<Packet>,
    ring_size: usize,
}

impl RxQ {
    /// The index of the queue on its port.
    pub closed spec fn queue(&self) -> u16 {
        self.queue_id
    }

    /// The port of the queue, as it was when the queue was made.
    pub closed spec fn spec_port(&self) -> Port {
        self.port
    }

    /// The pool from which the queue's buffers come.
    pub closed spec fn pool(&self) -> MPool {
        self.mpool
    }

    /// The received packets that wait to be polled, oldest first.
    pub closed spec fn pending(&self) -> Seq<Packet> {
        self.ring@
    }

    /// The number of packets that the ring can hold.
    pub closed spec fn ring_size(&self) -> nat {
        self.ring_size as nat
    }

    /// The pool is well formed, and the ring holds well-formed packets of
    /// that pool and no more than it has room for.
    pub open spec fn wf(&self) -> bool {
        &&& self.pool().wf()
        &&& all_wf(self.pending())
        &&& from_pool(self.pending(), self.pool().id())
        &&& self.pending().len() <= self.ring_size()
    }

    /// Nothing but the pool's state and the ring's content differs.
    pub open spec fn same_queue(&self, other: &RxQ) -> bool {
        &&& self.queue() == other.queue()
        &&& self.spec_port() == other.spec_port()
        &&& self.ring_size() == other.ring_size()
        &&& self.pool().same_pool(&other.pool())
    }

    /// The queue `queue_id` of `port` with an empty ring of `ring_size`
    /// descriptors, fed from `mpool`.
    pub(crate) fn new(queue_id: u16, port: Port, mpool: MPool, ring_size: usize) -> (q: RxQ)
        requires
            mpool.wf(),
        ensures
            q.wf(),
            q.queue() == queue_id,
            q.spec_port() == port,
            q.pool() == mpool,
            q.pending() == Seq::<Packet>::empty(),
            q.ring_size() == ring_size,
    {
        RxQ { queue_id, port, mpool, ring: Vec::new(), ring_size }
    }

    /// The index of the queue on its port.
    pub fn queue_id(&self) -> (id: u16)
        ensures
            id == self.queue(),
    {
        self.queue_id
    }

    /// The port of the queue, as it was when the queue was made.
    pub fn port(&self) -> (p: &Port)
        ensures
            *p == self.spec_port(),
    {
        &self.port
    }

    /// The pool from which the queue's buffers come.
    pub fn mpool(&self) -> (p: &MPool)
        ensures
            *p == self.pool(),
    {
        &self.mpool
    }

    /// The number of received packets that wait to be polled.
    pub fn pending_len(&self) -> (n: usize)
        ensures
            n == self.pending().len(),
    {
        self.ring.len()
    }

    /// Polls the ring without waiting: moves the oldest pending packets
    /// behind those that `buffer` holds, as many as `buffer` has room for,
    /// and says how many that were. Each of them is a buffer of the queue's
    /// pool.
    pub fn rx(&mut self, buffer: &mut ArrayVec<Packet, 32>) -> (n: usize)
        requires
            old(self).wf(),
        ensures
            final(self).wf(),
            final(self).same_queue(old(self)),
            final(self).pool() == old(self).pool(),
            n == min(
                old(self).pending().len() as int,
                MAX_PKT_BURST - burst_items(*old(buffer)).len(),
            ),
            burst_items(*final(buffer)) == burst_items(*old(buffer)) + old(self).pending().subrange(
                0,
                n as int,
            ),
            final(self).pending() == old(self).pending().subrange(
                n as int,
                old(self).pending().len() as int,
            ),
            from_pool(old(self).pending().subrange(0, n as int), old(self).pool().id()),
            all_wf(old(self).pending().subrange(0, n as int)),
    {
        let room = MAX_PKT_BURST - burst_len(buffer);
        let n = if self.ring.len() < room {
            self.ring.len()
        } else {
            room
        };
        let ghost ring0 = self.ring@;
        let ghost items0 = burst_items(*buffer);
        let mut i: usize = 0;
        while i < n
            invariant
                i <= n,
                n <= ring0.len(),
                items0.len() + n <= MAX_PKT_BURST,
                ring0 == old(self).pending(),
                self.same_queue(old(self)),
                self.pool() == old(self).pool(),
                self.ring@ == ring0.subrange(i as int, ring0.len() as int),
                burst_items(*buffer) == items0 + ring0.subrange(0, i as int),
            decreases n - i,
        {
            let pkt = self.ring.remove(0);
            burst_push(buffer, pkt);
            i += 1;
            proof {
                assert(self.ring@ =~= ring0.subrange(i as int, ring0.len() as int));
                assert(burst_items(*buffer) =~= items0 + ring0.subrange(0, i as int));
            }
        }
        n
    }

    /// The device's side of the ring: puts `frame` into a fresh buffer of
    /// the queue's pool and lets it wait at the end of the ring. The frame
    /// is dropped, and `false` is the answer, when the ring is full, the
    /// pool has no free buffer, or the frame is longer than a buffer has
    /// room behind its head room.
    pub fn deliver(&mut self, frame: &[u8]) -> (r: bool)
        requires
            old(self).wf(),
        ensures
            final(self).wf(),
            final(self).same_queue(old(self)),
            r == old(self).can_take(frame@),
            !r ==> final(self).pool().same_state(&old(self).pool()) && final(self).pending()
                == old(self).pending(),
            r ==> final(self).took(old(self), frame@),
    {
        if self.ring.len() >= self.ring_size || self.mpool.available() == 0 {
            return false;
        }
        let room = self.mpool.data_room_size();
        let head = if room < crate::packet::RTE_PKTMBUF_HEADROOM {
            room
        } else {
            crate::packet::RTE_PKTMBUF_HEADROOM
        };
        if frame.len() > room - head {
            return false;
        }
        let got = self.mpool.allocate();
        let mut pkt = got.unwrap();
        let filled = pkt.fill(frame);
        assert(filled is Ok);
        self.ring.push(pkt);
        proof {
            assert(self.ring@.drop_last() =~= old(self).pending());
        }
        true
    }

    /// `self` is `before` after it took `frame`: the last free slot of
    /// the pool is held once, and a buffer in it, with the frame as its
    /// window behind the default head room, waits at the end of the ring.
    pub open spec fn took(&self, before: &RxQ, frame: Seq<u8>) -> bool {
        let slot = before.pool().free_list().last();
        let pkt = self.pending().last();
        &&& self.pending().len() == before.pending().len() + 1
        &&& self.pending().drop_last() == before.pending()
        &&& self.pool().free_list() == before.pool().free_list().drop_last()
        &&& self.pool().refcounts() == before.pool().refcounts().update(slot as int, 1u16)
        &&& pkt.wf()
        &&& pkt.pool_id() == self.pool().id()
        &&& pkt.slot_index() == slot
        &&& pkt.spec_capacity() == self.pool().data_room()
        &&& pkt.headroom() == crate::packet::default_headroom(self.pool().data_room())
        &&& pkt.metadata() == Seq::new(self.pool().priv_size(), |i: int| 0u8)
        &&& pkt@ == frame
    }

    /// The ring has room, the pool has a free buffer, and the frame fits
    /// into a buffer behind its head room.
    pub open spec fn can_take(&self, frame: Seq<u8>) -> bool {
        &&& self.pending().len() < self.ring_size()
        &&& self.pool().spec_available() > 0
        &&& crate::packet::default_headroom(self.pool().data_room()) + frame.len()
            <= self.pool().data_room()
    }

    /// A second handle to a buffer of the queue's pool, as `MPool::share`
    /// gives it: the way to send a received packet out by more than one
    /// port.
    pub fn share(&mut self, pkt: &Packet) -> (r: Option<Packet>)
        requires
            old(self).wf(),
            pkt.wf(),
        ensures
            final(self).wf(),
            final(self).same_queue(old(self)),
            final(self).pending() == old(self).pending(),
            final(self).pool().free_list() == old(self).pool().free_list(),
            r is Some <==> old(self).pool().can_share(pkt),
            r is None ==> final(self).pool().refcounts() == old(self).pool().refcounts(),
            r is Some ==> final(self).pool().refcounts() == old(self).pool().refcounts().update(
                pkt.slot_index() as int,
                (old(self).pool().refcounts()[pkt.slot_index() as int] + 1) as u16,
            ) && is_copy_of(&r->Some_0, pkt),
    {
        self.mpool.share(pkt)
    }

    /// Gives the buffers `pkts` back to the queue's pool, in their order, as
    /// `MPool::release_all` does.
    pub fn release_all(&mut self, pkts: Vec<Packet>)
        requires
            old(self).wf(),
        ensures
            final(self).wf(),
            final(self).same_queue(old(self)),
            final(self).pending() == old(self).pending(),
            (final(self).pool().refcounts(), final(self).pool().free_list()) == give_back_all(
                (old(self).pool().refcounts(), old(self).pool().free_list()),
                old(self).pool().id(),
                pkts@,
            ),
    {
        self.mpool.release_all(pkts);
    }

    /// Gives up the queue and hands out its pool, for the environment to
    /// free. The packets that still waited in the ring go back to the pool
    /// first, in their order; with an empty ring the pool is as it was.
    pub fn into_pool(self) -> (pool: MPool)
        requires
            self.wf(),
        ensures
            pool.wf(),
            pool.same_pool(&self.pool()),
            (pool.refcounts(), pool.free_list()) == give_back_all(
                (self.pool().refcounts(), self.pool().free_list()),
                self.pool().id(),
                self.pending(),
            ),
            self.pending().len() == 0 ==> pool == self.pool(),
    {
        let RxQ { mpool, ring, .. } = self;
        let mut pool = mpool;
        if ring.len() > 0 {
            pool.release_all(ring);
        }
        pool
    }

    /// Gives a buffer back to the queue's pool, as `MPool::release` does.
    pub fn release(&mut self, pkt: Packet) -> (r: bool)
        requires
            old(self).wf(),
        ensures
            final(self).wf(),
            final(self).same_queue(old(self)),
            final(self).pending() == old(self).pending(),
            r == old(self).pool().holds(&pkt),
            !r ==> final(self).pool().same_state(&old(self).pool()),
            r ==> final(self).pool().took_back(&old(self).pool(), &pkt),
    {
        self.mpool.release(pkt)
    }
}

/// A frame that the queue takes keeps the pool's count of its handles:
/// where the pool counted the handles that waited in the ring, and
/// `others` with them, it counts them afterwards too, and the new one.
pub proof fn lemma_deliver_covers(before: RxQ, after: RxQ, frame: Seq<u8>, others: Seq<Packet>)
    requires
        before.wf(),
        before.pool().spec_available() > 0,
        after.took(&before, frame),
        covers(before.pool().refcounts(), before.pending() + others),
    ensures
        covers(after.pool().refcounts(), after.pending() + others),
{
    let refs = before.pool().refcounts();
    let now = after.pool().refcounts();
    let free = before.pool().free_list();
    let slot = free.last();
    assert(free[free.len() - 1] == slot);
    assert(free.contains(slot));
    assert(refs[slot as int] == 0);
    assert(after.pending() =~= before.pending() + seq![after.pending().last()]);
    assert forall|s: nat| #[trigger] handles(after.pending() + others, s) <= count_at(now, s) by {
        lemma_handles_add(after.pending(), others, s);
        lemma_handles_add(before.pending(), seq![after.pending().last()], s);
        lemma_handles_add(before.pending(), others, s);
        assert(handles(before.pending() + others, s) <= count_at(refs, s));
        assert(handles(seq![after.pending().last()], s) == if s == slot {
            1nat
        } else {
            0nat
        }) by {
            assert(seq![after.pending().last()].drop_last() =~= Seq::<Packet>::empty());
        }
    }
}

/// A transmit queue: a ring that the software fills and the device empties.
/// It has one producer.
#[derive(Debug)]
pub struct TxQ {
    queue_id: u16,
    port: Port,
    ring: Vec<Packet>,
    ring_size: usize,
}

/// The identities of `pools`, in their order.
pub open spec fn pool_ids(pools: Seq<MPool>) -> Seq<u64> {
    Seq::new(pools.len(), |k: int| pools[k].id())
}

/// The counts of `pools`, in their order.
pub open spec fn pool_counts(pools: Seq<MPool>) -> Seq<Seq<u16>> {
    Seq::new(pools.len(), |k: int| pools[k].refcounts())
}

/// The pool that is found for the identity `id` among `ids` is the first
/// with that identity: the one at `k`, where `ids` has `id` at `k` and
/// nowhere before.
pub proof fn lemma_first_pool(ids: Seq<u64>, id: u64, k: int)
    requires
        0 <= k < ids.len(),
        ids[k] == id,
        forall|j: int| 0 <= j < k ==> ids[j] != id,
    ensures
        ids.index_of_first(id) == Some(k),
{
    ids.index_of_first_ensures(id);
    assert(ids.contains(id));
}

/// No pool is found for an identity that is not among `ids`.
pub proof fn lemma_no_pool(ids: Seq<u64>, id: u64)
    requires
        forall|j: int| 0 <= j < ids.len() ==> ids[j] != id,
    ensures
        ids.index_of_first(id) is None,
{
    ids.index_of_first_ensures(id);
}

/// The pool of `pkt` is among the pools with the identities `ids` and the
/// counts `counts` (the first of them with its identity), it holds the
/// slot of `pkt`, and the slot can take one more handle.
pub open spec fn sharable(counts: Seq<Seq<u16>>, ids: Seq<u64>, pkt: &Packet) -> bool {
    match ids.index_of_first(pkt.pool_id()) {
        Some(k) => {
            &&& k < counts.len()
            &&& pkt.slot_index() < counts[k].len()
            &&& 0 < counts[k][pkt.slot_index() as int] < crate::mpool::MAX_REFCNT
        },
        None => false,
    }
}

/// The counts after the pool of `pkt` gave out one more handle to its
/// slot: that slot counts one more, every other slot and pool is as it was.
pub open spec fn shared(counts: Seq<Seq<u16>>, ids: Seq<u64>, pkt: &Packet) -> Seq<Seq<u16>> {
    let k = ids.index_of_first(pkt.pool_id())->Some_0;
    let slot = pkt.slot_index() as int;
    counts.update(k, counts[k].update(slot, (counts[k][slot] + 1) as u16))
}

/// What sharing the first packets of `items` does to the counts of the
/// pools, each packet shared by its own pool, one packet after the other,
/// for at most `limit` packets and up to the first that cannot be shared:
/// how many were shared, and the counts afterwards.
pub open spec fn share_run(
    counts: Seq<Seq<u16>>,
    ids: Seq<u64>,
    items: Seq<Packet>,
    limit: nat,
) -> (nat, Seq<Seq<u16>>)
    decreases items.len(),
{
    if items.len() == 0 || limit == 0 || !sharable(counts, ids, &items[0]) {
        (0, counts)
    } else {
        let rest = share_run(
            shared(counts, ids, &items[0]),
            ids,
            items.drop_first(),
            (limit - 1) as nat,
        );
        (rest.0 + 1, rest.1)
    }
}

/// Each packet of `items` is held by its pool, with room in its count for
/// as many more handles as `items` has packets.
pub open spec fn all_held(counts: Seq<Seq<u16>>, ids: Seq<u64>, items: Seq<Packet>) -> bool {
    forall|i: int|
        0 <= i < items.len() ==> held_with_room(counts, ids, #[trigger] items[i], items.len())
}

/// The pool of `pkt` is among the pools, holds the slot of `pkt`, and
/// the slot can take `more` more handles.
pub open spec fn held_with_room(
    counts: Seq<Seq<u16>>,
    ids: Seq<u64>,
    pkt: Packet,
    more: nat,
) -> bool {
    match ids.index_of_first(pkt.pool_id()) {
        Some(k) => {
            &&& k < counts.len()
            &&& pkt.slot_index() < counts[k].len()
            &&& 0 < counts[k][pkt.slot_index() as int]
            &&& counts[k][pkt.slot_index() as int] + more <= crate::mpool::MAX_REFCNT
        },
        None => false,
    }
}

/// Where each packet is held by its pool, and no count comes to its limit,
/// sharing stops only for want of room: as many packets are shared as there
/// are, or as the limit allows.
pub proof fn lemma_share_run_all(
    counts: Seq<Seq<u16>>,
    ids: Seq<u64>,
    items: Seq<Packet>,
    limit: nat,
)
    requires
        all_held(counts, ids, items),
    ensures
        share_run(counts, ids, items, limit).0 == min(items.len() as int, limit as int),
    decreases items.len(),
{
    if items.len() > 0 && limit > 0 {
        let first = items[0];
        assert(held_with_room(counts, ids, first, items.len()));
        assert(sharable(counts, ids, &first));
        let next = shared(counts, ids, &first);
        let rest = items.drop_first();
        let k0 = ids.index_of_first(first.pool_id())->Some_0;
        ids.index_of_first_ensures(first.pool_id());
        assert forall|i: int| 0 <= i < rest.len() implies held_with_room(
            next,
            ids,
            #[trigger] rest[i],
            rest.len(),
        ) by {
            assert(rest[i] == items[i + 1]);
            assert(held_with_room(counts, ids, items[i + 1], items.len()));
            let k = ids.index_of_first(rest[i].pool_id())->Some_0;
            ids.index_of_first_ensures(rest[i].pool_id());
            let slot = rest[i].slot_index() as int;
            let slot0 = first.slot_index() as int;
            assert(next.len() == counts.len());
            if k == k0 {
                assert(next[k] == counts[k0].update(slot0, (counts[k0][slot0] + 1) as u16));
                if slot == slot0 {
                    assert(next[k][slot] == counts[k][slot] + 1);
                } else {
                    assert(next[k][slot] == counts[k][slot]);
                }
            } else {
                assert(next[k] == counts[k]);
            }
        }
        lemma_share_run_all(next, ids, rest, (limit - 1) as nat);
    }
}

/// The place of `pkt` among the pools: which pool, and which slot of it.
pub open spec fn place(ids: Seq<u64>, pkt: Packet) -> (int, int) {
    (ids.index_of_first(pkt.pool_id())->Some_0, pkt.slot_index() as int)
}

/// The count of the slot of `pkt` in its pool.
pub open spec fn count_of(counts: Seq<Seq<u16>>, ids: Seq<u64>, pkt: Packet) -> int {
    counts[place(ids, pkt).0][place(ids, pkt).1] as int
}

/// Each packet of `items` can be shared by its pool as the counts stand.
pub open spec fn each_sharable(counts: Seq<Seq<u16>>, ids: Seq<u64>, items: Seq<Packet>) -> bool {
    forall|i: int| 0 <= i < items.len() ==> sharable(counts, ids, &#[trigger] items[i])
}

/// No two packets of `items` are handles to one slot.
pub open spec fn distinct_places(ids: Seq<u64>, items: Seq<Packet>) -> bool {
    forall|i: int, j: int|
        0 <= i < j < items.len() ==> place(ids, #[trigger] items[i]) != place(
            ids,
            #[trigger] items[j],
        )
}

/// None of the first `n` packets of `items` is a handle to the slot `s` of
/// the pool at `k`.
pub open spec fn untouched(ids: Seq<u64>, items: Seq<Packet>, n: int, k: int, s: int) -> bool {
    forall|i: int| 0 <= i < n ==> place(ids, #[trigger] items[i]) != (k, s)
}

/// What sharing does to the counts, for packets in distinct slots that
/// their pools hold with counts below the limit: as many are shared as
/// there are, or as the limit allows; the slot of each shared packet counts
/// one handle more; and every other slot of every pool counts what it
/// counted, the slots of the packets that were not shared among them.
pub proof fn lemma_share_run_distinct(
    counts: Seq<Seq<u16>>,
    ids: Seq<u64>,
    items: Seq<Packet>,
    limit: nat,
)
    requires
        each_sharable(counts, ids, items),
        distinct_places(ids, items),
    ensures
        ({
            let n = share_run(counts, ids, items, limit).0;
            let after = share_run(counts, ids, items, limit).1;
            &&& n == min(items.len() as int, limit as int)
            &&& after.len() == counts.len()
            &&& forall|k: int|
                0 <= k < counts.len() ==> (#[trigger] after[k]).len() == counts[k].len()
            &&& forall|i: int|
                0 <= i < n ==> count_of(after, ids, #[trigger] items[i]) == count_of(
                    counts,
                    ids,
                    items[i],
                ) + 1
            &&& forall|k: int, s: int|
                0 <= k < counts.len() && 0 <= s < counts[k].len() && #[trigger] untouched(
                    ids,
                    items,
                    n as int,
                    k,
                    s,
                ) ==> after[k][s] == counts[k][s]
        }),
    decreases items.len(),
{
    if items.len() > 0 && limit > 0 {
        let first = items[0];
        let rest = items.drop_first();
        let k0 = place(ids, first).0;
        let s0 = place(ids, first).1;
        ids.index_of_first_ensures(first.pool_id());
        assert(sharable(counts, ids, &first));
        let c1 = shared(counts, ids, &first);
        assert(c1[k0] == counts[k0].update(s0, (counts[k0][s0] + 1) as u16));
        assert forall|i: int| 0 <= i < rest.len() implies sharable(
            c1,
            ids,
            &#[trigger] rest[i],
        ) && count_of(c1, ids, rest[i]) == count_of(counts, ids, rest[i]) by {
            assert(rest[i] == items[i + 1]);
            assert(sharable(counts, ids, &items[i + 1]));
            assert(place(ids, items[0]) != place(ids, items[i + 1]));
            ids.index_of_first_ensures(rest[i].pool_id());
        }
        assert forall|i: int, j: int| 0 <= i < j < rest.len() implies place(
            ids,
            #[trigger] rest[i],
        ) != place(ids, #[trigger] rest[j]) by {
            assert(rest[i] == items[i + 1]);
            assert(rest[j] == items[j + 1]);
        }
        lemma_share_run_distinct(c1, ids, rest, (limit - 1) as nat);
        let m = share_run(c1, ids, rest, (limit - 1) as nat).0;
        let after = share_run(c1, ids, rest, (limit - 1) as nat).1;
        assert(share_run(counts, ids, items, limit) == ((m + 1) as nat, after));
        assert forall|i: int| 0 <= i < m implies place(ids, #[trigger] rest[i]) != (k0, s0) by {
            assert(rest[i] == items[i + 1]);
            assert(place(ids, items[0]) != place(ids, items[i + 1]));
        }
        assert(untouched(ids, rest, m as int, k0, s0));
        assert(after[k0][s0] == c1[k0][s0]);
        assert forall|i: int| 0 <= i < m + 1 implies count_of(after, ids, #[trigger] items[i])
            == count_of(counts, ids, items[i]) + 1 by {
            if i > 0 {
                assert(items[i] == rest[i - 1]);
                assert(count_of(after, ids, rest[i - 1]) == count_of(c1, ids, rest[i - 1]) + 1);
            }
        }
        assert forall|k: int, s: int|
            0 <= k < counts.len() && 0 <= s < counts[k].len() && #[trigger] untouched(
                ids,
                items,
                (m + 1) as int,
                k,
                s,
            ) implies after[k][s] == counts[k][s] by {
            assert(place(ids, items[0]) != (k, s));
            assert forall|i: int| 0 <= i < m implies place(ids, #[trigger] rest[i]) != (k, s) by {
                assert(rest[i] == items[i + 1]);
                assert(place(ids, items[i + 1]) != (k, s));
            }
            assert(untouched(ids, rest, m as int, k, s));
            assert(after[k][s] == c1[k][s]);
        }
    } else {
        assert forall|k: int, s: int|
            0 <= k < counts.len() && 0 <= s < counts[k].len() && #[trigger] untouched(
                ids,
                items,
                0,
                k,
                s,
            ) implies counts[k][s] == counts[k][s] by {}
    }
}

/// `lemma_share_run_all`, for whoever does not know whether its condition
/// holds.
proof fn lemma_share_run_all_if(
    counts: Seq<Seq<u16>>,
    ids: Seq<u64>,
    items: Seq<Packet>,
    limit: nat,
)
    ensures
        all_held(counts, ids, items) ==> share_run(counts, ids, items, limit).0 == min(
            items.len() as int,
            limit as int,
        ),
{
    if all_held(counts, ids, items) {
        lemma_share_run_all(counts, ids, items, limit);
    }
}

/// Where `id` is first found among the identities of `pools`.
pub fn find_pool(pools: &Vec<MPool>, id: u64) -> (r: Option<usize>)
    ensures
        r is Some <==> pool_ids(pools@).index_of_first(id) is Some,
        r is Some ==> r->Some_0 == pool_ids(pools@).index_of_first(id)->Some_0,
{
    let ghost ids = pool_ids(pools@);
    let mut k: usize = 0;
    while k < pools.len()
        invariant
            k <= pools@.len(),
            ids == pool_ids(pools@),
            forall|j: int| 0 <= j < k ==> ids[j] != id,
        decreases pools@.len() - k,
    {
        if pools[k].pool_id() == id {
            proof {
                lemma_first_pool(ids, id, k as int);
            }
            return Some(k);
        }
        k += 1;
    }
    proof {
        lemma_no_pool(ids, id);
    }
    None
}

impl TxQ {
    /// The index of the queue on its port.
    pub closed spec fn queue(&self) -> u16 {
        self.queue_id
    }

    /// The port of the queue, as it was when the queue was made.
    pub closed spec fn spec_port(&self) -> Port {
        self.port
    }

    /// The packets that the device holds to send, oldest first.
    pub closed spec fn in_flight(&self) -> Seq<Packet> {
        self.ring@
    }

    /// The number of packets that the ring can hold.
    pub closed spec fn ring_size(&self) -> nat {
        self.ring_size as nat
    }

    /// The room that is left in the ring.
    pub open spec fn room(&self) -> int {
        self.ring_size() - self.in_flight().len()
    }

    /// The ring holds no more than it has room for.
    pub open spec fn wf(&self) -> bool {
        self.in_flight().len() <= self.ring_size()
    }

    /// Nothing but the ring's content differs.
    pub open spec fn same_queue(&self, other: &TxQ) -> bool {
        &&& self.queue() == other.queue()
        &&& self.spec_port() == other.spec_port()
        &&& self.ring_size() == other.ring_size()
    }

    /// The queue `queue_id` of `port` with an empty ring of `ring_size`
    /// descriptors.
    pub(crate) fn new(queue_id: u16, port: Port, ring_size: usize) -> (q: TxQ)
        ensures
            q.wf(),
            q.queue() == queue_id,
            q.spec_port() == port,
            q.in_flight() == Seq::<Packet>::empty(),
            q.ring_size() == ring_size,
    {
        TxQ { queue_id, port, ring: Vec::new(), ring_size }
    }

    /// The index of the queue on its port.
    pub fn queue_id(&self) -> (id: u16)
        ensures
            id == self.queue(),
    {
        self.queue_id
    }

    /// The port of the queue, as it was when the queue was made.
    pub fn port(&self) -> (p: &Port)
        ensures
            *p == self.spec_port(),
    {
        &self.port
    }

    /// The number of packets that the device holds to send.
    pub fn in_flight_len(&self) -> (n: usize)
        ensures
            n == self.in_flight().len(),
    {
        self.ring.len()
    }

    /// Hands the packets of `buffer` to the device, oldest first, as far as
    /// the ring has room, and says how many it took. Those are then the
    /// device's. The others stay in `buffer`, moved to its front in their
    /// order, for the caller to try again.
    pub fn tx(&mut self, buffer: &mut ArrayVec<Packet, 32>) -> (n: usize)
        requires
            old(self).wf(),
        ensures
            final(self).wf(),
            final(self).same_queue(old(self)),
            n == min(burst_items(*old(buffer)).len() as int, old(self).room()),
            final(self).in_flight() == old(self).in_flight() + burst_items(*old(buffer)).subrange(
                0,
                n as int,
            ),
            burst_items(*final(buffer)) == burst_items(*old(buffer)).subrange(
                n as int,
                burst_items(*old(buffer)).len() as int,
            ),
    {
        let current = burst_len(buffer);
        let room = self.ring_size - self.ring.len();
        let cnt = if current < room {
            current
        } else {
            room
        };
        let mut sent = burst_drain(buffer, cnt);
        self.ring.append(&mut sent);
        cnt
    }

    /// Hands a second handle to each packet of `buffer` to the device,
    /// oldest first, and leaves `buffer` and its packets to the caller.
    /// Each handle comes from the packet's own pool, the first of `pools`
    /// with its identity, which counts it. It stops where the ring is full,
    /// and at the first packet that its pool cannot share: one whose pool
    /// is not among `pools` or does not hold it, or whose count is at its
    /// limit. The answer is the number of packets that the device took.
    pub fn tx_cloned(
        &mut self,
        pools: &mut Vec<MPool>,
        buffer: &ArrayVec<Packet, 32>,
    ) -> (n: usize)
        requires
            old(self).wf(),
            forall|k: int| 0 <= k < old(pools)@.len() ==> (#[trigger] old(pools)@[k]).wf(),
            all_wf(burst_items(*buffer)),
        ensures
            final(self).wf(),
            final(self).same_queue(old(self)),
            final(pools)@.len() == old(pools)@.len(),
            forall|k: int|
                0 <= k < final(pools)@.len() ==> (#[trigger] final(pools)@[k]).wf()
                    && final(pools)@[k].same_pool(&old(pools)@[k]) && final(pools)@[k].free_list()
                    == old(pools)@[k].free_list(),
            (n as nat, pool_counts(final(pools)@)) == share_run(
                pool_counts(old(pools)@),
                pool_ids(old(pools)@),
                burst_items(*buffer),
                old(self).room() as nat,
            ),
            all_held(pool_counts(old(pools)@), pool_ids(old(pools)@), burst_items(*buffer)) ==> n
                == min(burst_items(*buffer).len() as int, old(self).room()),
            n <= burst_items(*buffer).len(),
            final(self).in_flight().len() == old(self).in_flight().len() + n,
            final(self).in_flight().subrange(0, old(self).in_flight().len() as int)
                == old(self).in_flight(),
            forall|i: int|
                0 <= i < n ==> is_copy_of(
                    &#[trigger] final(self).in_flight()[old(self).in_flight().len() + i],
                    &burst_items(*buffer)[i],
                ),
    {
        let items = burst_as_slice(buffer);
        let current = items.len();
        let room = self.ring_size - self.ring.len();
        let ghost ring0 = self.ring@;
        let ghost counts0 = pool_counts(pools@);
        let ghost ids = pool_ids(pools@);
        let mut cnt: usize = 0;
        proof {
            assert(items@.subrange(0, current as int) =~= items@);
            lemma_share_run_all_if(counts0, ids, items@, room as nat);
        }
        while cnt < current && cnt < room
            invariant
                cnt <= current,
                cnt <= room,
                current == items@.len(),
                items@ == burst_items(*buffer),
                all_wf(items@),
                room == old(self).room(),
                ring0 == old(self).in_flight(),
                counts0 == pool_counts(old(pools)@),
                ids == pool_ids(old(pools)@),
                ids == pool_ids(pools@),
                self.same_queue(old(self)),
                self.ring@.len() == ring0.len() + cnt,
                self.ring@.len() <= self.ring_size,
                self.ring_size - self.ring@.len() == room - cnt,
                self.ring@.subrange(0, ring0.len() as int) == ring0,
                pools@.len() == old(pools)@.len(),
                forall|k: int|
                    0 <= k < pools@.len() ==> (#[trigger] pools@[k]).wf() && pools@[k].same_pool(
                        &old(pools)@[k],
                    ) && pools@[k].free_list() == old(pools)@[k].free_list(),
                forall|i: int|
                    0 <= i < cnt ==> is_copy_of(
                        &#[trigger] self.ring@[ring0.len() + i],
                        &items@[i],
                    ),
                all_held(counts0, ids, items@) ==> share_run(counts0, ids, items@, room as nat).0
                    == min(current as int, room as int),
                share_run(counts0, ids, items@, room as nat) == ({
                    let rest = share_run(
                        pool_counts(pools@),
                        ids,
                        items@.subrange(cnt as int, current as int),
                        (room - cnt) as nat,
                    );
                    ((rest.0 + cnt) as nat, rest.1)
                }),
            decreases current - cnt,
        {
            let ghost tail = items@.subrange(cnt as int, current as int);
            let ghost counts = pool_counts(pools@);
            let ghost ring_before = self.ring@;
            let ghost pools_before = pools@;
            proof {
                assert(tail[0] == items@[cnt as int]);
                assert(tail.drop_first() =~= items@.subrange(cnt + 1, current as int));
            }
            let k = match find_pool(pools, items[cnt].pool()) {
                None => {
                    return cnt;
                },
                Some(k) => k,
            };
            proof {
                ids.index_of_first_ensures(tail[0].pool_id());
            }
            let mut pool = pools.remove(k);
            let got = pool.share(&items[cnt]);
            pools.insert(k, pool);
            proof {
                assert(pools@ =~= pools_before.update(k as int, pool));
                assert(pool_ids(pools@) =~= ids);
            }
            match got {
                None => {
                    proof {
                        assert(pool_counts(pools@) =~= counts);
                        assert(!sharable(counts, ids, &tail[0]));
                    }
                    return cnt;
                },
                Some(copy) => {
                    self.ring.push(copy);
                    proof {
                        assert(sharable(counts, ids, &tail[0]));
                        assert(pool_counts(pools@) =~= shared(counts, ids, &tail[0]));
                        assert(self.ring@.subrange(0, ring0.len() as int) =~= ring0);
                        assert forall|i: int| 0 <= i < cnt + 1 implies is_copy_of(
                            &#[trigger] self.ring@[ring0.len() + i],
                            &items@[i],
                        ) by {
                            if i < cnt {
                                assert(self.ring@[ring0.len() + i] == ring_before[ring0.len() + i]);
                            }
                        }
                    }
                    cnt += 1;
                },
            }
        }
        proof {
            let tail = items@.subrange(cnt as int, current as int);
            assert(tail.len() == 0 || room - cnt == 0);
        }
        cnt
    }

    /// The device's side of the ring: the device is done with the oldest
    /// `n` packets that it held, or with all if it held fewer. They leave
    /// the ring, in their order, for the caller to give back to their pools.
    pub fn complete(&mut self, n: usize) -> (done: Vec<Packet>)
        requires
            old(self).wf(),
        ensures
            final(self).wf(),
            final(self).same_queue(old(self)),
            done@ == old(self).in_flight().subrange(
                0,
                min(n as int, old(self).in_flight().len() as int),
            ),
            final(self).in_flight() == old(self).in_flight().subrange(
                min(n as int, old(self).in_flight().len() as int),
                old(self).in_flight().len() as int,
            ),
    {
        let k = if n < self.ring.len() {
            n
        } else {
            self.ring.len()
        };
        take_front(&mut self.ring, k)
    }
}

} // verus!
