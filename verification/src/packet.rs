//! The packet buffer: an owned handle to one slot of a buffer pool, with a
//! data window that can grow into and shrink from its head and tail room.

use std::sync::Arc;
use vstd::prelude::*;

verus! {

/// Head room that a freshly allocated buffer reserves in front of its data
/// window, as far as the slot is large enough.
pub const RTE_PKTMBUF_HEADROOM: usize = 128;

/// The largest slot that a packet buffer can describe.
pub const MAX_BUF_LEN: usize = 65535;

/// Why an adjustment of the data window was refused.
#[derive(Debug, Clone, Copy, PartialEq, Eq, Structural)]
pub enum PacketError {
    /// The window would reach past the end of the slot.
    ExceedsCapacity,
    /// More bytes were to be trimmed than the window holds.
    ExceedsLength,
    /// The head room is smaller than the bytes to prepend.
    NoHeadroom,
    /// The tail room is smaller than the bytes to append.
    NoTailroom,
}

/// An owned handle to one slot of a buffer pool.
///
/// The slot's memory is `capacity()` bytes. The data window starts
/// `headroom()` bytes into it and is `len()` bytes long; what lies behind the
/// window is the tail room.
///
/// Handles to one slot share its memory and its metadata: a second handle
/// copies no byte. A handle that is written through while it shares gets
/// memory of its own first, so that a write never shows through another
/// handle.
#[derive(Debug)]
pub struct Packet {
    pool: u64,
    slot: usize,
    room: Arc<Vec<u8>>,
    head: usize,
    len: usize,
    meta: Arc<Vec<u8>>,
}

/// `Arc::clone`: one more pointer to the same bytes. They are not copied.
#[verifier::external_body]
pub(crate) fn share_bytes(bytes: &Arc<Vec<u8>>) -> (r: Arc<Vec<u8>>)
    ensures
        r@ == bytes@,
{
    Arc::clone(bytes)
}

/// `Arc::make_mut`: the bytes behind the pointer, writable. Where other
/// pointers share them, the pointer gets a copy of its own first. What the
/// caller leaves in them is what the pointer then shows.
#[verifier::external_body]
pub(crate) fn own_bytes(bytes: &mut Arc<Vec<u8>>) -> (r: &mut Vec<u8>)
    ensures
        r@ == old(bytes)@,
        final(bytes)@ == final(r)@,
{
    Arc::make_mut(bytes)
}

/// Writes `bytes` over `room` from the place `head` on.
fn write_at(room: &mut Vec<u8>, head: usize, bytes: &[u8])
    requires
        head + bytes@.len() <= old(room)@.len(),
    ensures
        final(room)@ == old(room)@.subrange(0, head as int) + bytes@ + old(room)@.subrange(
            head + bytes@.len(),
            old(room)@.len() as int,
        ),
{
    let n = bytes.len();
    let total = room.len();
    let ghost m0 = room@;
    let mut i: usize = 0;
    while i < n
        invariant
            i <= n,
            n == bytes@.len(),
            total == m0.len(),
            head + n <= m0.len(),
            room@.len() == m0.len(),
            forall|k: int| 0 <= k < head ==> room@[k] == m0[k],
            forall|k: int| head <= k < head + i ==> room@[k] == bytes@[k - head],
            forall|k: int| head + i <= k < m0.len() ==> room@[k] == m0[k],
        decreases n - i,
    {
        room.set(head + i, bytes[i]);
        i += 1;
    }
    proof {
        assert(room@ =~= m0.subrange(0, head as int) + bytes@ + m0.subrange(
            head + n,
            m0.len() as int,
        ));
    }
}

impl View for Packet {
    type V = Seq<u8>;

    /// The bytes of the data window.
    closed spec fn view(&self) -> Seq<u8> {
        self.room@.subrange(self.head as int, self.head + self.len)
    }
}

impl Packet {
    /// The identity of the pool that owns the slot.
    pub closed spec fn pool_id(&self) -> u64 {
        self.pool
    }

    /// The index of the slot in its pool.
    pub closed spec fn slot_index(&self) -> nat {
        self.slot as nat
    }

    /// The whole memory of the slot.
    pub closed spec fn memory(&self) -> Seq<u8> {
        self.room@
    }

    /// The number of bytes in front of the data window.
    pub closed spec fn headroom(&self) -> nat {
        self.head as nat
    }

    /// The length of the data window.
    pub closed spec fn spec_len(&self) -> nat {
        self.len as nat
    }

    /// The private metadata region.
    pub closed spec fn metadata(&self) -> Seq<u8> {
        self.meta@
    }

    /// The size of the slot.
    pub open spec fn spec_capacity(&self) -> nat {
        self.memory().len()
    }

    /// The offset in the slot's memory at which the data window begins.
    pub open spec fn start(&self) -> int {
        self.headroom() as int
    }

    /// The offset in the slot's memory at which the data window ends.
    pub open spec fn end(&self) -> int {
        (self.headroom() + self.spec_len()) as int
    }

    /// The number of bytes behind the data window.
    pub open spec fn tailroom(&self) -> int {
        self.spec_capacity() - self.end()
    }

    /// The window fits behind the default head room.
    pub open spec fn can_reset(&self) -> bool {
        default_headroom(self.spec_capacity()) + self.spec_len() <= self.spec_capacity()
    }

    /// The data window lies within the slot, and the slot is no larger than
    /// a buffer can describe.
    pub open spec fn wf(&self) -> bool {
        &&& self.end() <= self.spec_capacity()
        &&& self.spec_capacity() <= MAX_BUF_LEN
    }

    /// Same slot, same memory, same metadata: what an adjustment of the
    /// window leaves alone.
    pub open spec fn same_slot(&self, other: &Packet) -> bool {
        &&& self.pool_id() == other.pool_id()
        &&& self.slot_index() == other.slot_index()
        &&& self.memory() == other.memory()
        &&& self.metadata() == other.metadata()
    }

    /// Same slot and same bounds of the window: what a write into the
    /// buffer leaves alone.
    pub open spec fn same_window(&self, other: &Packet) -> bool {
        &&& self.pool_id() == other.pool_id()
        &&& self.slot_index() == other.slot_index()
        &&& self.headroom() == other.headroom()
        &&& self.spec_len() == other.spec_len()
    }

    /// The window is the part of the slot's memory that begins at the head
    /// room and is as long as the packet.
    pub proof fn lemma_view(&self)
        ensures
            self@ == self.memory().subrange(self.start(), self.end()),
    {
    }

    /// A handle to slot `slot` of pool `pool`: `data_room` zeroed bytes of
    /// memory, an empty window behind the default head room, and `priv_size`
    /// zeroed bytes of metadata.
    pub(crate) fn fresh(pool: u64, slot: usize, data_room: usize, priv_size: usize) -> (p: Packet)
        requires
            data_room <= MAX_BUF_LEN,
        ensures
            p.wf(),
            p.pool_id() == pool,
            p.slot_index() == slot,
            p.memory() == Seq::new(data_room as nat, |i: int| 0u8),
            p.metadata() == Seq::new(priv_size as nat, |i: int| 0u8),
            p.headroom() == default_headroom(data_room as nat),
            p.spec_len() == 0,
    {
        let room = zeroed(data_room);
        let meta = zeroed(priv_size);
        let head = if data_room < RTE_PKTMBUF_HEADROOM {
            data_room
        } else {
            RTE_PKTMBUF_HEADROOM
        };
        Packet { pool, slot, room: Arc::new(room), head, len: 0, meta: Arc::new(meta) }
    }

    /// A second handle to the same slot, with the same window, on the same
    /// memory: no byte is copied.
    pub(crate) fn duplicate(&self) -> (p: Packet)
        requires
            self.wf(),
        ensures
            p.wf(),
            p.same_slot(self),
            p.headroom() == self.headroom(),
            p.spec_len() == self.spec_len(),
            p@ == self@,
    {
        Packet {
            pool: self.pool,
            slot: self.slot,
            room: share_bytes(&self.room),
            head: self.head,
            len: self.len,
            meta: share_bytes(&self.meta),
        }
    }

    /// The identity of the pool that owns the slot.
    pub fn pool(&self) -> (id: u64)
        ensures
            id == self.pool_id(),
    {
        self.pool
    }

    /// The index of the slot in its pool.
    pub fn slot(&self) -> (slot: usize)
        ensures
            slot == self.slot_index(),
    {
        self.slot
    }

    /// Whether the data window is empty.
    pub fn is_empty(&self) -> (r: bool)
        ensures
            r == (self.spec_len() == 0),
    {
        self.len == 0
    }

    /// The length of the data window.
    pub fn len(&self) -> (n: usize)
        ensures
            n == self.spec_len(),
            self.wf() ==> n == self@.len(),
    {
        self.len
    }

    /// The size of the slot.
    pub fn capacity(&self) -> (n: usize)
        ensures
            n == self.spec_capacity(),
    {
        self.room.len()
    }

    /// The private metadata region.
    pub fn priv_data(&self) -> (r: &[u8])
        ensures
            r@ == self.metadata(),
    {
        self.meta.as_slice()
    }

    /// The slot's memory from the start of the data window to the end of the
    /// slot: the window and the tail room behind it.
    pub fn buffer(&self) -> (r: &[u8])
        requires
            self.wf(),
        ensures
            r@ == self.memory().subrange(self.start(), self.spec_capacity() as int),
    {
        let n = self.room.len();
        vstd::slice::slice_subrange(self.room.as_slice(), self.head, n)
    }

    /// The bytes of the data window.
    pub fn data(&self) -> (r: &[u8])
        requires
            self.wf(),
        ensures
            r@ == self@,
    {
        vstd::slice::slice_subrange(self.room.as_slice(), self.head, self.head + self.len)
    }
    /// The private metadata region, writable. The region afterwards is
    /// whatever the caller leaves in the slice.
    pub fn priv_data_mut(&mut self) -> (r: &mut [u8])
        ensures
            r@ == old(self).metadata(),
            final(self).metadata() == final(r)@,
            final(self).same_window(old(self)),
            final(self).memory() == old(self).memory(),
    {
        own_bytes(&mut self.meta).as_mut_slice()
    }

    /// The bytes of the data window, writable. The head room, the tail room
    /// and the window's bounds stay as they are; a slice keeps its length, and
    /// with it the window is what the caller leaves in the slice.
    pub fn data_mut(&mut self) -> (r: &mut [u8])
        requires
            old(self).wf(),
        ensures
            r@ == old(self)@,
            final(self).memory() == old(self).memory().subrange(0, old(self).start()) + final(r)@
                + old(self).memory().subrange(old(self).end(), old(self).spec_capacity() as int),
            final(self).same_window(old(self)),
            final(self).metadata() == old(self).metadata(),
            final(r)@.len() == r@.len() ==> final(self).wf() && final(self)@ == final(r)@,
    {
        let head = self.head;
        let len = self.len;
        proof {
            lemma_window_of_parts(self.room@, head as int, (head + len) as int);
        }
        let (_front, rest) = own_bytes(&mut self.room).as_mut_slice().split_at_mut(head);
        let (window, _tail) = rest.split_at_mut(len);
        window
    }

    /// The slot's memory from the start of the data window to the end of the
    /// slot, writable: the window and the tail room behind it.
    pub fn buffer_mut(&mut self) -> (r: &mut [u8])
        requires
            old(self).wf(),
        ensures
            r@ == old(self).memory().subrange(old(self).start(), old(self).spec_capacity() as int),
            final(self).memory() == old(self).memory().subrange(0, old(self).start()) + final(r)@,
            final(self).same_window(old(self)),
            final(self).metadata() == old(self).metadata(),
            final(r)@.len() == r@.len() ==> final(self).wf(),
    {
        let head = self.head;
        let (_front, rest) = own_bytes(&mut self.room).as_mut_slice().split_at_mut(head);
        rest
    }

    /// Sets the window's length to `size`, keeping its start. Refused, with
    /// the packet unchanged, when the window would then reach past the end of
    /// the slot.
    pub fn set_len(&mut self, size: usize) -> (r: Result<(), PacketError>)
        requires
            old(self).wf(),
        ensures
            final(self).wf(),
            final(self).same_slot(old(self)),
            final(self).headroom() == old(self).headroom(),
            old(self).headroom() + size <= old(self).spec_capacity() ==> r is Ok
                && final(self).spec_len() == size,
            old(self).headroom() + size > old(self).spec_capacity() ==> r == Err::<
                (),
                PacketError,
            >(PacketError::ExceedsCapacity) && final(self).spec_len() == old(self).spec_len(),
    {
        if size <= self.room.len() - self.head {
            self.len = size;
            Ok(())
        } else {
            Err(PacketError::ExceedsCapacity)
        }
    }

    /// Drops the first `size` bytes of the window: they become head room.
    /// Refused, with the packet unchanged, when the window is shorter.
    pub fn trim_head(&mut self, size: usize) -> (r: Result<(), PacketError>)
        requires
            old(self).wf(),
        ensures
            final(self).wf(),
            final(self).same_slot(old(self)),
            size <= old(self).spec_len() ==> r is Ok
                && final(self).headroom() == old(self).headroom() + size
                && final(self).spec_len() == old(self).spec_len() - size
                && final(self)@ == old(self)@.subrange(size as int, old(self).spec_len() as int),
            size > old(self).spec_len() ==> r == Err::<(), PacketError>(
                PacketError::ExceedsLength,
            ) && final(self).same_window(old(self)),
    {
        if size <= self.len {
            self.head = self.head + size;
            self.len = self.len - size;
            assert(self@ =~= old(self)@.subrange(size as int, old(self).spec_len() as int));
            Ok(())
        } else {
            Err(PacketError::ExceedsLength)
        }
    }

    /// Drops the last `size` bytes of the window: they become tail room.
    /// Refused, with the packet unchanged, when the window is shorter.
    pub fn trim_tail(&mut self, size: usize) -> (r: Result<(), PacketError>)
        requires
            old(self).wf(),
        ensures
            final(self).wf(),
            final(self).same_slot(old(self)),
            final(self).headroom() == old(self).headroom(),
            size <= old(self).spec_len() ==> r is Ok
                && final(self).spec_len() == old(self).spec_len() - size
                && final(self)@ == old(self)@.subrange(
                0,
                old(self).spec_len() - size,
            ),
            size > old(self).spec_len() ==> r == Err::<(), PacketError>(
                PacketError::ExceedsLength,
            ) && final(self).spec_len() == old(self).spec_len(),
    {
        if size <= self.len {
            self.len = self.len - size;
            assert(self@ =~= old(self)@.subrange(0, old(self).spec_len() - size));
            Ok(())
        } else {
            Err(PacketError::ExceedsLength)
        }
    }

    /// Moves the start of the window back to the default head room, keeping
    /// its length. Refused, with the packet unchanged, when the window would
    /// then reach past the end of the slot.
    pub fn reset_headroom(&mut self) -> (r: Result<(), PacketError>)
        requires
            old(self).wf(),
        ensures
            final(self).wf(),
            final(self).same_slot(old(self)),
            final(self).spec_len() == old(self).spec_len(),
            old(self).can_reset() ==> r is Ok
                && final(self).headroom() == default_headroom(
                old(self).spec_capacity(),
            ),
            !old(self).can_reset() ==> r == Err::<(), PacketError>(PacketError::ExceedsCapacity)
                && final(self).headroom() == old(self).headroom(),
    {
        let cap = self.room.len();
        let head = if cap < RTE_PKTMBUF_HEADROOM {
            cap
        } else {
            RTE_PKTMBUF_HEADROOM
        };
        if self.len <= cap - head {
            self.head = head;
            Ok(())
        } else {
            Err(PacketError::ExceedsCapacity)
        }
    }

    /// Grows the window by `size` bytes at its front, out of the head room.
    /// Refused, with the packet unchanged, when the head room is smaller.
    pub fn prepend(&mut self, size: usize) -> (r: Result<(), PacketError>)
        requires
            old(self).wf(),
        ensures
            final(self).wf(),
            final(self).same_slot(old(self)),
            size <= old(self).headroom() ==> r is Ok
                && final(self).headroom() == old(self).headroom() - size
                && final(self).spec_len() == old(self).spec_len() + size
                && final(self)@.subrange(size as int, final(self).spec_len() as int) == old(self)@,
            size > old(self).headroom() ==> r == Err::<(), PacketError>(PacketError::NoHeadroom)
                && final(self).same_window(old(self)),
    {
        if size <= self.head {
            self.head = self.head - size;
            self.len = self.len + size;
            assert(self@.subrange(size as int, self.spec_len() as int) =~= old(self)@);
            Ok(())
        } else {
            Err(PacketError::NoHeadroom)
        }
    }

    /// Grows the window by `size` bytes at its back, out of the tail room.
    /// Refused, with the packet unchanged, when the tail room is smaller.
    pub fn append(&mut self, size: usize) -> (r: Result<(), PacketError>)
        requires
            old(self).wf(),
        ensures
            final(self).wf(),
            final(self).same_slot(old(self)),
            final(self).headroom() == old(self).headroom(),
            size <= old(self).tailroom() ==> r is Ok
                && final(self).spec_len() == old(self).spec_len() + size
                && final(self)@.subrange(0, old(self).spec_len() as int) == old(self)@,
            size > old(self).tailroom() ==> r == Err::<(), PacketError>(PacketError::NoTailroom)
                && final(self).spec_len() == old(self).spec_len(),
    {
        if size <= self.room.len() - self.head - self.len {
            self.len = self.len + size;
            assert(self@.subrange(0, old(self).spec_len() as int) =~= old(self)@);
            Ok(())
        } else {
            Err(PacketError::NoTailroom)
        }
    }
    /// Makes `bytes` the content of the window, which keeps its start and
    /// takes their length. Refused, with the packet unchanged, when the
    /// window would then reach past the end of the slot.
    pub fn fill(&mut self, bytes: &[u8]) -> (r: Result<(), PacketError>)
        requires
            old(self).wf(),
        ensures
            final(self).wf(),
            final(self).pool_id() == old(self).pool_id(),
            final(self).slot_index() == old(self).slot_index(),
            final(self).metadata() == old(self).metadata(),
            final(self).headroom() == old(self).headroom(),
            old(self).headroom() + bytes@.len() <= old(self).spec_capacity() ==> r is Ok
               
                    && final(self)@ == bytes@
                    && final(self).spec_len() == bytes@.len()
                    && final(self).memory() == old(self).memory().subrange(0, old(self).start())
                    + bytes@ + old(self).memory().subrange(
                old(self).start() + bytes@.len(),
                old(self).spec_capacity() as int,
            ),
            old(self).headroom() + bytes@.len() > old(self).spec_capacity() ==> r == Err::<
                (),
                PacketError,
            >(PacketError::ExceedsCapacity) && final(self).memory() == old(self).memory()
                && final(self).spec_len() == old(self).spec_len(),
    {
        let n = bytes.len();
        let head = self.head;
        if n > self.room.len() - head {
            return Err(PacketError::ExceedsCapacity);
        }
        let ghost m0 = self.room@;
        write_at(own_bytes(&mut self.room), head, bytes);
        self.len = n;
        proof {
            assert(self@ =~= bytes@);
        }
        Ok(())
    }
}

/// The head room of a fresh buffer in a slot of `data_room` bytes.
pub open spec fn default_headroom(data_room: nat) -> nat {
    if data_room < RTE_PKTMBUF_HEADROOM {
        data_room
    } else {
        RTE_PKTMBUF_HEADROOM as nat
    }
}

/// Whatever replaces the part `[from, to)` of a sequence, by as many items,
/// is then the part `[from, to)` of the whole.
proof fn lemma_window_of_parts(m: Seq<u8>, from: int, to: int)
    requires
        0 <= from <= to <= m.len(),
    ensures
        forall|w: Seq<u8>|
            w.len() == to - from ==> #[trigger] (m.subrange(0, from) + w + m.subrange(
                to,
                m.len() as int,
            )).subrange(from, to) == w,
        forall|w: Seq<u8>|
            w.len() == to - from ==> #[trigger] (m.subrange(0, from) + w + m.subrange(
                to,
                m.len() as int,
            )).len() == m.len(),
{
    assert forall|w: Seq<u8>| w.len() == to - from implies #[trigger] (m.subrange(0, from) + w
        + m.subrange(to, m.len() as int)).subrange(from, to) == w by {
        assert((m.subrange(0, from) + w + m.subrange(to, m.len() as int)).subrange(from, to)
            =~= w);
    }
}

/// `n` zero bytes.
pub(crate) fn zeroed(n: usize) -> (v: Vec<u8>)
    ensures
        v@ == Seq::new(n as nat, |i: int| 0u8),
{
    let mut v: Vec<u8> = Vec::new();
    let mut i: usize = 0;
    while i < n
        invariant
            i <= n,
            v@ == Seq::new(i as nat, |k: int| 0u8),
        decreases n - i,
    {
        v.push(0u8);
        i += 1;
        assert(v@ =~= Seq::new(i as nat, |k: int| 0u8));
    }
    v
}

} // verus!
