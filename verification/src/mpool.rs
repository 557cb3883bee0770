//! The buffer pool: a fixed number of packet buffers of one size, handed
//! out one slot at a time and taken back when their last owner lets go.

use crate::burst::{burst_items, burst_len, burst_push, MAX_PKT_BURST};
use crate::ids::SocketId;
use crate::packet::{default_headroom, Packet, MAX_BUF_LEN};
use arrayvec::ArrayVec;
use vstd::prelude::*;

verus! {

/// The largest number of handles that can refer to one slot.
pub const MAX_REFCNT: u16 = 65535;

/// A pool of `capacity` packet buffers.
///
/// Each slot counts the handles that refer to it. A slot with no handle is
/// free and waits on the free list, from whose end `allocate` takes.
#[derive(Debug)]
pub struct MPool {
    id: u64,
    name: String,
    cache_size: usize,
    data_room: usize,
    priv_size: usize,
    socket: Option<SocketId>,
    refs: Vec<u16>,
    free: Vec<usize>,
}

impl MPool {
    /// The identity that the pool's buffers carry.
    pub closed spec fn id(&self) -> u64 {
        self.id
    }

    /// The name under which the pool is registered.
    pub closed spec fn name(&self) -> Seq<char> {
        self.name@
    }

    /// The size of the per-core cache that the pool was made with.
    pub closed spec fn cache_size(&self) -> nat {
        self.cache_size as nat
    }

    /// The size of each buffer's memory.
    pub closed spec fn data_room(&self) -> nat {
        self.data_room as nat
    }

    /// The size of each buffer's private metadata region.
    pub closed spec fn priv_size(&self) -> nat {
        self.priv_size as nat
    }

    /// The NUMA node of the pool's memory, if it is bound to one.
    pub closed spec fn socket(&self) -> Option<SocketId> {
        self.socket
    }

    /// For each slot, the number of handles that refer to it.
    pub closed spec fn refcounts(&self) -> Seq<u16> {
        self.refs@
    }

    /// The free slots. `allocate` takes the last.
    pub closed spec fn free_list(&self) -> Seq<usize> {
        self.free@
    }

    /// The number of slots.
    pub open spec fn spec_capacity(&self) -> nat {
        self.refcounts().len()
    }

    /// The number of free slots.
    pub open spec fn spec_available(&self) -> nat {
        self.free_list().len()
    }

    /// The free list holds each free slot once and no other.
    pub open spec fn wf(&self) -> bool {
        &&& self.data_room() <= MAX_BUF_LEN
        &&& self.free_list().no_duplicates()
        &&& forall|i: int|
            0 <= i < self.free_list().len() ==> (#[trigger] self.free_list()[i])
                < self.spec_capacity()
        &&& self.spec_capacity() <= usize::MAX
        &&& forall|s: int|
            0 <= s < self.spec_capacity() ==> ((#[trigger] self.refcounts()[s]) == 0
                <==> self.free_list().contains(s as usize))
    }

    /// The pool has handed out `pkt`'s slot and not yet taken it back.
    pub open spec fn holds(&self, pkt: &Packet) -> bool {
        &&& pkt.pool_id() == self.id()
        &&& pkt.slot_index() < self.spec_capacity()
        &&& self.refcounts()[pkt.slot_index() as int] > 0
    }

    /// `pkt` is what `allocate` makes of the slot `slot`: zeroed memory and
    /// metadata, and an empty window behind the default head room.
    pub open spec fn fresh(&self, pkt: &Packet, slot: usize) -> bool {
        &&& pkt.wf()
        &&& pkt.pool_id() == self.id()
        &&& pkt.slot_index() == slot
        &&& pkt.memory() == Seq::new(self.data_room(), |i: int| 0u8)
        &&& pkt.metadata() == Seq::new(self.priv_size(), |i: int| 0u8)
        &&& pkt.headroom() == default_headroom(self.data_room())
        &&& pkt.spec_len() == 0
    }

    /// Nothing but the slots' counts and the free list differs.
    pub open spec fn same_pool(&self, other: &MPool) -> bool {
        &&& self.id() == other.id()
        &&& self.name() == other.name()
        &&& self.cache_size() == other.cache_size()
        &&& self.data_room() == other.data_room()
        &&& self.priv_size() == other.priv_size()
        &&& self.socket() == other.socket()
        &&& self.spec_capacity() == other.spec_capacity()
    }

    /// The same pool with the same counts and the same free list.
    pub open spec fn same_state(&self, other: &MPool) -> bool {
        &&& self.same_pool(other)
        &&& self.refcounts() == other.refcounts()
        &&& self.free_list() == other.free_list()
    }

    /// `self` is `before` after it took back one handle to the slot of
    /// `pkt`, which it held: the slot counts one handle less, and with its
    /// last handle it went to the end of the free list.
    pub open spec fn took_back(&self, before: &MPool, pkt: &Packet) -> bool {
        let slot = pkt.slot_index() as int;
        &&& self.same_pool(before)
        &&& self.refcounts() == before.refcounts().update(
            slot,
            (before.refcounts()[slot] - 1) as u16,
        )
        &&& self.free_list() == if before.refcounts()[slot] == 1 {
            before.free_list().push(slot as usize)
        } else {
            before.free_list()
        }
    }

    /// A pool of `n` free slots. The free list counts down, so that the
    /// slots leave in the order 0, 1, 2, ...
    pub(crate) fn new(
        id: u64,
        name: String,
        n: usize,
        cache_size: usize,
        data_room: usize,
        priv_size: usize,
        socket: Option<SocketId>,
    ) -> (pool: MPool)
        requires
            data_room <= MAX_BUF_LEN,
        ensures
            pool.wf(),
            pool.id() == id,
            pool.name() == name@,
            pool.cache_size() == cache_size,
            pool.data_room() == data_room,
            pool.priv_size() == priv_size,
            pool.socket() == socket,
            pool.refcounts() == Seq::new(n as nat, |i: int| 0u16),
            pool.free_list() == Seq::new(n as nat, |i: int| (n - 1 - i) as usize),
    {
        let mut refs: Vec<u16> = Vec::new();
        let mut free: Vec<usize> = Vec::new();
        let mut i: usize = 0;
        while i < n
            invariant
                i <= n,
                refs@ == Seq::new(i as nat, |k: int| 0u16),
                free@ == Seq::new(i as nat, |k: int| (n - 1 - k) as usize),
            decreases n - i,
        {
            refs.push(0u16);
            free.push(n - 1 - i);
            i += 1;
            assert(refs@ =~= Seq::new(i as nat, |k: int| 0u16));
            assert(free@ =~= Seq::new(i as nat, |k: int| (n - 1 - k) as usize));
        }
        let pool = MPool { id, name, cache_size, data_room, priv_size, socket, refs, free };
        proof {
            assert forall|s: int| 0 <= s < n implies (#[trigger] pool.refcounts()[s]) == 0
                && pool.free_list().contains(s as usize) by {
                assert(pool.free_list()[n - 1 - s] == s as usize);
            }
        }
        pool
    }

    /// The identity that the pool's buffers carry.
    pub fn pool_id(&self) -> (id: u64)
        ensures
            id == self.id(),
    {
        self.id
    }

    /// The name under which the pool is registered.
    pub fn pool_name(&self) -> (name: &str)
        ensures
            name@ == self.name(),
    {
        self.name.as_str()
    }

    /// The number of slots.
    pub fn capacity(&self) -> (n: usize)
        ensures
            n == self.spec_capacity(),
    {
        self.refs.len()
    }

    /// The number of free slots.
    pub fn available(&self) -> (n: usize)
        ensures
            n == self.spec_available(),
    {
        self.free.len()
    }

    /// The number of handles that refer to the slot `slot`; 0 for a slot
    /// that the pool does not have.
    pub fn refcnt(&self, slot: usize) -> (n: u16)
        ensures
            slot < self.spec_capacity() ==> n == self.refcounts()[slot as int],
            slot >= self.spec_capacity() ==> n == 0,
    {
        if slot < self.refs.len() {
            self.refs[slot]
        } else {
            0
        }
    }

    /// Whether every buffer is back in the pool.
    pub fn is_full(&self) -> (r: bool)
        ensures
            r == (self.spec_available() == self.spec_capacity()),
    {
        self.free.len() == self.refs.len()
    }

    /// The size of each buffer's memory.
    pub fn data_room_size(&self) -> (n: usize)
        ensures
            n == self.data_room(),
    {
        self.data_room
    }

    /// The NUMA node of the pool's memory, if it is bound to one.
    pub fn socket_id(&self) -> (s: Option<SocketId>)
        ensures
            s == self.socket(),
    {
        self.socket
    }

    /// Takes the last slot of the free list and hands out a fresh buffer in
    /// it; nothing, and no change, when no slot is free.
    pub fn allocate(&mut self) -> (r: Option<Packet>)
        requires
            old(self).wf(),
        ensures
            final(self).wf(),
            final(self).same_pool(old(self)),
            old(self).spec_available() == 0 ==> r is None && final(self).same_state(old(self)),
            old(self).spec_available() > 0 ==> r is Some && final(self).fresh(
                &r->Some_0,
                old(self).free_list().last(),
            )
                && final(self).free_list() == old(self).free_list().drop_last()
                && final(self).refcounts() == old(self).refcounts().update(
                old(self).free_list().last() as int,
                1u16,
            ),
    {
        match self.free.pop() {
            None => None,
            Some(slot) => {
                proof {
                    lemma_drop_last(old(self).free_list());
                }
                self.refs.set(slot, 1u16);
                let pkt = Packet::fresh(self.id, slot, self.data_room, self.priv_size);
                Some(pkt)
            },
        }
    }

    /// Takes back one handle. With the last handle the slot becomes free
    /// and goes to the end of the free list. A handle that the pool does
    /// not hold (another pool's, or one to a free slot) is refused, with
    /// no change.
    pub fn release(&mut self, pkt: Packet) -> (r: bool)
        requires
            old(self).wf(),
        ensures
            final(self).wf(),
            final(self).same_pool(old(self)),
            r == old(self).holds(&pkt),
            !r ==> final(self).same_state(old(self)),
            r ==> final(self).took_back(old(self), &pkt),
    {
        let slot = pkt.slot();
        if pkt.pool() != self.id || slot >= self.refs.len() {
            return false;
        }
        let count = self.refs[slot];
        if count == 0 {
            return false;
        }
        self.refs.set(slot, count - 1);
        if count == 1 {
            proof {
                lemma_push(old(self).free_list(), slot);
            }
            self.free.push(slot);
        }
        true
    }

    /// Takes back the handles `pkts`, one after the other, as `release`
    /// does: those that the pool holds go back, the others change nothing.
    pub fn release_all(&mut self, pkts: Vec<Packet>)
        requires
            old(self).wf(),
        ensures
            final(self).wf(),
            final(self).same_pool(old(self)),
            (final(self).refcounts(), final(self).free_list()) == give_back_all(
                (old(self).refcounts(), old(self).free_list()),
                old(self).id(),
                pkts@,
            ),
    {
        let ghost all = pkts@;
        let ghost pool0 = (self.refcounts(), self.free_list());
        let ghost id = self.id();
        let mut left = pkts;
        let ghost mut done: Seq<Packet> = Seq::empty();
        while left.len() > 0
            invariant
                self.wf(),
                self.same_pool(old(self)),
                id == old(self).id(),
                pool0 == (old(self).refcounts(), old(self).free_list()),
                all == pkts@,
                done + left@ == all,
                (self.refcounts(), self.free_list()) == give_back_all(pool0, id, done),
            decreases left@.len(),
        {
            let ghost before = left@;
            let pkt = left.remove(0);
            let _given = self.release(pkt);
            proof {
                let next = done.push(pkt);
                assert(next.drop_last() =~= done);
                assert(next + left@ =~= done + before);
                done = next;
            }
        }
        proof {
            assert(done =~= all);
        }
    }

    /// A second handle to the slot of `pkt`, with the same window on the
    /// same memory: the slot counts one handle more, and no byte is copied.
    /// Nothing, and no change, for a handle that the pool does not hold or a
    /// slot whose count is at its limit. A later write through one of the
    /// handles does not show through the other: the handle that is written
    /// through gets memory of its own first.
    pub fn share(&mut self, pkt: &Packet) -> (r: Option<Packet>)
        requires
            old(self).wf(),
            pkt.wf(),
        ensures
            final(self).wf(),
            final(self).same_pool(old(self)),
            final(self).free_list() == old(self).free_list(),
            r is Some <==> old(self).can_share(pkt),
            r is None ==> final(self).refcounts() == old(self).refcounts(),
            r is Some ==> final(self).refcounts() == old(self).refcounts().update(
                pkt.slot_index() as int,
                (old(self).refcounts()[pkt.slot_index() as int] + 1) as u16,
            ) && is_copy_of(&r->Some_0, pkt),
    {
        let slot = pkt.slot();
        if pkt.pool() != self.id || slot >= self.refs.len() {
            return None;
        }
        let count = self.refs[slot];
        if count == 0 || count == MAX_REFCNT {
            return None;
        }
        self.refs.set(slot, count + 1);
        Some(pkt.duplicate())
    }

    /// The pool holds `pkt`, and its slot can take one more handle.
    pub open spec fn can_share(&self, pkt: &Packet) -> bool {
        self.holds(pkt) && self.refcounts()[pkt.slot_index() as int] < MAX_REFCNT
    }

    /// Fills what is left of `buffer` with fresh buffers, or does nothing:
    /// with fewer free slots than `buffer` has room, the pool and `buffer`
    /// stay as they are and the answer is `false`.
    pub fn alloc_bulk(&mut self, buffer: &mut ArrayVec<Packet, 32>) -> (r: bool)
        requires
            old(self).wf(),
        ensures
            final(self).wf(),
            final(self).same_pool(old(self)),
            r == (bulk_room(*old(buffer)) <= old(self).spec_available()),
            !r ==> burst_items(*final(buffer)) == burst_items(*old(buffer))
                && final(self).same_state(old(self)),
            r ==> final(self).bulk_filled(old(self), *old(buffer), *final(buffer)),
    {
        let start = burst_len(buffer);
        let remaining = MAX_PKT_BURST - start;
        if self.free.len() < remaining {
            return false;
        }
        let ghost f0 = self.free@;
        let mut k: usize = 0;
        while k < remaining
            invariant
                k <= remaining,
                remaining == MAX_PKT_BURST - start,
                start == burst_items(*old(buffer)).len(),
                remaining <= f0.len(),
                f0 == old(self).free_list(),
                old(self).wf(),
                self.wf(),
                self.same_pool(old(self)),
                self.free_list() == f0.subrange(0, f0.len() - k),
                burst_items(*buffer).len() == start + k,
                burst_items(*buffer).subrange(0, start as int) == burst_items(*old(buffer)),
                forall|j: int|
                    start <= j < start + k ==> self.fresh(
                        &#[trigger] burst_items(*buffer)[j],
                        f0[f0.len() - 1 - (j - start)],
                    ),
                forall|s: int|
                    0 <= s < self.spec_capacity() ==> #[trigger] self.refcounts()[s] == taken_count(
                        old(self).refcounts()[s],
                        self.free_list().contains(s as usize),
                    ),
            decreases remaining - k,
        {
            let ghost before = *self;
            let ghost items_before = burst_items(*buffer);
            let got = self.allocate();
            let pkt = got.unwrap();
            burst_push(buffer, pkt);
            proof {
                let slot = before.free_list().last();
                lemma_drop_last(before.free_list());
                assert(slot == f0[f0.len() - 1 - k]);
                assert(f0.contains(slot));
                assert(self.free_list() =~= f0.subrange(0, f0.len() - (k + 1)));
                assert(burst_items(*buffer).subrange(0, start as int) =~= items_before.subrange(
                    0,
                    start as int,
                ));
                assert forall|j: int| start <= j < start + k + 1 implies self.fresh(
                    &#[trigger] burst_items(*buffer)[j],
                    f0[f0.len() - 1 - (j - start)],
                ) by {
                    if j < start + k {
                        assert(burst_items(*buffer)[j] == items_before[j]);
                        assert(before.fresh(&items_before[j], f0[f0.len() - 1 - (j - start)]));
                    }
                }
                assert forall|s: int|
                    0 <= s < self.spec_capacity() implies #[trigger] self.refcounts()[s]
                    == taken_count(
                    old(self).refcounts()[s],
                    self.free_list().contains(s as usize),
                ) by {
                    assert(before.refcounts()[s] == taken_count(
                        old(self).refcounts()[s],
                        before.free_list().contains(s as usize),
                    ));
                    assert(old(self).refcounts()[s] == 0 <==> f0.contains(s as usize));
                    if s == slot {
                        assert(before.free_list().contains(s as usize));
                    }
                }
            }
            k += 1;
        }
        proof {
            assert(burst_items(*old(buffer)) =~= burst_items(*buffer).subrange(0, start as int));
        }
        true
    }

    /// What `alloc_bulk` did when it filled `after` from `before`, taking
    /// the pool from `start` to `self`: the free list lost as many slots at
    /// its end as the burst had room, each of them is held once, and the
    /// burst holds, behind what it held, a fresh buffer for each of them,
    /// the last slot of the free list first.
    pub open spec fn bulk_filled(
        &self,
        start: &MPool,
        before: ArrayVec<Packet, 32>,
        after: ArrayVec<Packet, 32>,
    ) -> bool {
        let n = burst_items(before).len() as int;
        let f0 = start.free_list();
        let k = bulk_room(before);
        &&& k <= f0.len()
        &&& self.free_list() == f0.subrange(0, f0.len() - k)
        &&& burst_items(after).len() == MAX_PKT_BURST
        &&& burst_items(after).subrange(0, n) == burst_items(before)
        &&& forall|j: int|
            n <= j < MAX_PKT_BURST ==> self.fresh(
                &#[trigger] burst_items(after)[j],
                f0[f0.len() - 1 - (j - n)],
            )
        &&& forall|s: int|
            0 <= s < self.spec_capacity() ==> #[trigger] self.refcounts()[s] == taken_count(
                start.refcounts()[s],
                self.free_list().contains(s as usize),
            )
    }
}

/// Without its last item, a list that holds nothing twice holds what it
/// held but that item.
proof fn lemma_drop_last(f: Seq<usize>)
    requires
        f.no_duplicates(),
        f.len() > 0,
    ensures
        f.drop_last().no_duplicates(),
        f.contains(f.last()),
        forall|s: usize| (#[trigger] f.drop_last().contains(s)) <==> f.contains(s) && s != f.last(),
{
    assert(f[f.len() - 1] == f.last());
    assert forall|s: usize| (#[trigger] f.drop_last().contains(s)) <==> f.contains(s) && s
        != f.last() by {
        if f.drop_last().contains(s) {
            let k = choose|k: int| 0 <= k < f.drop_last().len() && f.drop_last()[k] == s;
            assert(f[k] == s);
        }
        if f.contains(s) && s != f.last() {
            let k = choose|k: int| 0 <= k < f.len() && f[k] == s;
            assert(f.drop_last()[k] == s);
        }
    }
}

/// With one more item that it did not hold, a list that holds nothing twice
/// still holds nothing twice, and holds what it held and that item.
proof fn lemma_push(f: Seq<usize>, x: usize)
    requires
        f.no_duplicates(),
        !f.contains(x),
    ensures
        f.push(x).no_duplicates(),
        forall|s: usize| (#[trigger] f.push(x).contains(s)) <==> f.contains(s) || s == x,
{
    assert forall|s: usize| (#[trigger] f.push(x).contains(s)) <==> f.contains(s) || s == x by {
        if f.push(x).contains(s) {
            let k = choose|k: int| 0 <= k < f.push(x).len() && f.push(x)[k] == s;
            if k < f.len() {
                assert(f[k] == s);
            }
        }
        if f.contains(s) {
            let k = choose|k: int| 0 <= k < f.len() && f[k] == s;
            assert(f.push(x)[k] == s);
        }
        if s == x {
            assert(f.push(x)[f.len() as int] == s);
        }
    }
    assert forall|a: int, b: int|
        0 <= a < f.push(x).len() && 0 <= b < f.push(x).len() && a != b implies f.push(x)[a]
        != f.push(x)[b] by {
        if a == f.len() {
            assert(f.contains(f[b]));
        } else if b == f.len() {
            assert(f.contains(f[a]));
        }
    }
}

/// The count of a slot after a bulk allocation: a slot that was free and
/// is so no longer is held once, and every other slot is held as before.
pub open spec fn taken_count(before: u16, still_free: bool) -> u16 {
    if before == 0 && !still_free {
        1u16
    } else {
        before
    }
}

/// A buffer is given back once: when a pool has handed out a buffer and
/// taken it back, its counts and its free slots are what they were, and it
/// holds the buffer no longer, so that it would refuse it a second time.
pub proof fn lemma_release_once(before: MPool, held: MPool, after: MPool, pkt: Packet)
    requires
        before.wf(),
        before.spec_available() > 0,
        held.same_pool(&before),
        held.fresh(&pkt, before.free_list().last()),
        held.free_list() == before.free_list().drop_last(),
        held.refcounts() == before.refcounts().update(before.free_list().last() as int, 1u16),
        after.took_back(&held, &pkt),
    ensures
        held.holds(&pkt),
        after.refcounts() == before.refcounts(),
        after.free_list() == before.free_list(),
        !after.holds(&pkt),
{
    let f = before.free_list();
    let slot = f.last();
    assert(f[f.len() - 1] == slot);
    assert(f.contains(slot));
    assert(before.refcounts()[slot as int] == 0);
    assert(after.refcounts() =~= before.refcounts());
    assert(f.drop_last().push(slot) =~= f);
}

/// The counts and the free list of a pool with the identity `id`, after
/// it was offered `pkt`: a buffer that it holds goes back, any other
/// changes nothing.
pub open spec fn give_back(pool: (Seq<u16>, Seq<usize>), id: u64, pkt: Packet) -> (
    Seq<u16>,
    Seq<usize>,
) {
    let slot = pkt.slot_index() as int;
    if pkt.pool_id() == id && slot < pool.0.len() && pool.0[slot] > 0 {
        (
            pool.0.update(slot, (pool.0[slot] - 1) as u16),
            if pool.0[slot] == 1 {
                pool.1.push(slot as usize)
            } else {
                pool.1
            },
        )
    } else {
        pool
    }
}

/// The counts and the free list of a pool, after it was offered `pkts`
/// one after the other.
pub open spec fn give_back_all(pool: (Seq<u16>, Seq<usize>), id: u64, pkts: Seq<Packet>) -> (
    Seq<u16>,
    Seq<usize>,
)
    decreases pkts.len(),
{
    if pkts.len() == 0 {
        pool
    } else {
        give_back(give_back_all(pool, id, pkts.drop_last()), id, pkts.last())
    }
}

/// Offering `a` and then `b` is offering `a + b`.
pub proof fn lemma_give_back_split(
    pool: (Seq<u16>, Seq<usize>),
    id: u64,
    a: Seq<Packet>,
    b: Seq<Packet>,
)
    ensures
        give_back_all(pool, id, a + b) == give_back_all(give_back_all(pool, id, a), id, b),
    decreases b.len(),
{
    if b.len() == 0 {
        assert(a + b =~= a);
    } else {
        assert((a + b).drop_last() =~= a + b.drop_last());
        assert((a + b).last() == b.last());
        lemma_give_back_split(pool, id, a, b.drop_last());
    }
}

/// Every packet of `pkts` is a buffer of the pool with the identity `id`.
pub open spec fn from_pool(pkts: Seq<Packet>, id: u64) -> bool {
    forall|i: int| 0 <= i < pkts.len() ==> (#[trigger] pkts[i]).pool_id() == id
}

/// How many of `pkts` are handles to the slot `slot`.
pub open spec fn handles(pkts: Seq<Packet>, slot: nat) -> nat
    decreases pkts.len(),
{
    if pkts.len() == 0 {
        0
    } else {
        handles(pkts.drop_last(), slot) + if pkts.last().slot_index() == slot {
            1nat
        } else {
            0nat
        }
    }
}

/// The count of the slot `slot`; zero for a slot that there is not.
pub open spec fn count_at(refs: Seq<u16>, slot: nat) -> nat {
    if slot < refs.len() {
        refs[slot as int] as nat
    } else {
        0
    }
}

/// The counts `refs` cover the handles `pkts`: no slot counts fewer
/// handles than `pkts` holds to it.
pub open spec fn covers(refs: Seq<u16>, pkts: Seq<Packet>) -> bool {
    forall|slot: nat| #[trigger] handles(pkts, slot) <= count_at(refs, slot)
}

/// The handles of `a + b` are those of `a` and those of `b`.
pub proof fn lemma_handles_add(a: Seq<Packet>, b: Seq<Packet>, slot: nat)
    ensures
        handles(a + b, slot) == handles(a, slot) + handles(b, slot),
    decreases b.len(),
{
    if b.len() == 0 {
        assert(a + b =~= a);
    } else {
        assert((a + b).drop_last() =~= a + b.drop_last());
        assert((a + b).last() == b.last());
        lemma_handles_add(a, b.drop_last(), slot);
    }
}

/// Two runs of packets that are, place by place, handles to the same slots
/// hold as many handles to each slot.
pub proof fn lemma_handles_same_slots(a: Seq<Packet>, b: Seq<Packet>, slot: nat)
    requires
        a.len() == b.len(),
        forall|i: int| 0 <= i < a.len() ==> (#[trigger] a[i]).slot_index() == b[i].slot_index(),
    ensures
        handles(a, slot) == handles(b, slot),
    decreases a.len(),
{
    if a.len() > 0 {
        assert forall|i: int| 0 <= i < a.drop_last().len() implies (#[trigger] a.drop_last()[i])
            .slot_index() == b.drop_last()[i].slot_index() by {
            assert(a.drop_last()[i] == a[i]);
            assert(b.drop_last()[i] == b[i]);
        }
        lemma_handles_same_slots(a.drop_last(), b.drop_last(), slot);
        assert(a.last() == a[a.len() - 1]);
    }
}

/// A pool that is offered handles that it counts takes every one of them
/// back: each slot then counts as many handles less as were offered to it.
pub proof fn lemma_give_back_held(pool: (Seq<u16>, Seq<usize>), id: u64, pkts: Seq<Packet>)
    requires
        from_pool(pkts, id),
        covers(pool.0, pkts),
    ensures
        give_back_all(pool, id, pkts).0.len() == pool.0.len(),
        forall|slot: nat|
            slot < pool.0.len() ==> give_back_all(pool, id, pkts).0[slot as int]
                == pool.0[slot as int] - #[trigger] handles(pkts, slot),
    decreases pkts.len(),
{
    if pkts.len() > 0 {
        let front = pkts.drop_last();
        let last = pkts.last();
        let s = last.slot_index();
        assert forall|slot: nat| #[trigger] handles(front, slot) <= count_at(pool.0, slot) by {
            assert(handles(pkts, slot) <= count_at(pool.0, slot));
        }
        assert forall|i: int| 0 <= i < front.len() implies (#[trigger] front[i]).pool_id()
            == id by {
            assert(front[i] == pkts[i]);
        }
        lemma_give_back_held(pool, id, front);
        let mid = give_back_all(pool, id, front);
        assert(handles(pkts, s) <= count_at(pool.0, s));
        assert(handles(pkts, s) == handles(front, s) + 1);
        assert(s < pool.0.len());
        assert(mid.0[s as int] == pool.0[s as int] - handles(front, s));
        assert(last == pkts[pkts.len() - 1]);
        assert(last.pool_id() == id);
        let after = give_back(mid, id, last);
        assert(after.0 == mid.0.update(s as int, (mid.0[s as int] - 1) as u16));
        assert forall|slot: nat| slot < pool.0.len() implies after.0[slot as int]
            == pool.0[slot as int] - #[trigger] handles(pkts, slot) by {
            assert(mid.0[slot as int] == pool.0[slot as int] - handles(front, slot));
        }
    }
}

/// `copy` is a second handle to the slot of `pkt`: same slot, same bytes,
/// same window.
pub open spec fn is_copy_of(copy: &Packet, pkt: &Packet) -> bool {
    &&& copy.wf()
    &&& copy.same_slot(pkt)
    &&& copy.same_window(pkt)
    &&& copy@ == pkt@
}

/// The room that is left in a burst.
pub open spec fn bulk_room(b: ArrayVec<Packet, 32>) -> int {
    MAX_PKT_BURST - burst_items(b).len()
}

} // verus!
