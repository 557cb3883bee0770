//! The environment: what was found at start-up, the registry of buffer
//! pools, and the pools that wait to be reclaimed.

use crate::ids::{ErrorCode, LCoreId, SocketId};
use crate::mpool::MPool;
use crate::packet::{Packet, MAX_BUF_LEN};
use crate::names::{lemma_rxq_name_injective, rxq_name, rxq_pool_name};
use crate::port::{Claim, DevInfo, Port, RteEthConf, DEFAULT_PACKET_DATA_LENGTH, DEFAULT_RX_DESC,
    DEFAULT_RX_PER_CORE_CACHE, DEFAULT_RX_POOL_SIZE, DEFAULT_TX_DESC, EINVAL};
use crate::queue::{RxQ, TxQ};
use vstd::prelude::*;

verus! {

/// The number of NUMA nodes that the environment knows.
pub const RTE_MAX_NUMA_NODES: u32 = 8;

/// The largest number of buffers in one pool.
pub const MAX_POOL_SIZE: usize = 0xffff_ffff;

/// An uninitialized port: a device that was found and not yet configured.
#[derive(Debug)]
pub struct UninitPort {
    pub(crate) info: DevInfo,
}

impl UninitPort {
    /// What is known of the device.
    pub closed spec fn info(&self) -> DevInfo {
        self.info
    }

    /// The index of the port: that of its device.
    pub open spec fn id(&self) -> u16 {
        self.info().port_id
    }

    /// The index of the port.
    pub fn port_id(&self) -> (id: u16)
        ensures
            id == self.id(),
    {
        self.info.port_id
    }

    /// What is known of the device.
    pub fn dev_info(&self) -> (info: DevInfo)
        ensures
            info == self.info(),
    {
        self.info
    }
}

/// The errno for a resource that ran out.
pub const ENOSPC: u8 = 28;

/// The names of the pools of the first `n` receive queues of a port.
pub open spec fn rxq_names(port_id: u16, n: nat) -> Seq<Seq<char>> {
    Seq::new(n, |k: int| rxq_name(port_id, k as u16))
}

/// `q` is the receive queue `queue_id` of `port` as `init` makes it: an
/// empty ring of the default size, fed from a pool of its own of the
/// default size, with the identity `pool_id`, on the node of the port.
pub open spec fn fresh_rxq(q: &RxQ, port: Port, queue_id: u16, pool_id: u64) -> bool {
    &&& q.wf()
    &&& q.queue() == queue_id
    &&& q.spec_port() == port
    &&& q.pending() == Seq::<Packet>::empty()
    &&& q.ring_size() == DEFAULT_RX_DESC
    &&& q.pool().id() == pool_id
    &&& q.pool().name() == rxq_name(port.id(), queue_id)
    &&& q.pool().cache_size() == DEFAULT_RX_PER_CORE_CACHE
    &&& q.pool().data_room() == DEFAULT_PACKET_DATA_LENGTH
    &&& q.pool().priv_size() == 0
    &&& q.pool().socket() == Some(port.socket())
    &&& q.pool().spec_capacity() == DEFAULT_RX_POOL_SIZE
    &&& q.pool().spec_available() == DEFAULT_RX_POOL_SIZE
}

/// `q` is the transmit queue `queue_id` of `port` as `init` makes it: an
/// empty ring of the default size.
pub open spec fn fresh_txq(q: &TxQ, port: Port, queue_id: u16) -> bool {
    &&& q.wf()
    &&& q.queue() == queue_id
    &&& q.spec_port() == port
    &&& q.in_flight() == Seq::<Packet>::empty()
    &&& q.ring_size() == DEFAULT_TX_DESC
}

impl UninitPort {
    /// Why `init` refuses, if it does: more queues than the device has, or
    /// a node that no pool can be bound to; a pool name that is taken; or
    /// no pool identities left.
    pub open spec fn refusal(&self, eal: &Eal, rx_queue_count: u16, tx_queue_count: u16) -> Option<
        ErrorCode,
    > {
        if rx_queue_count > self.info().max_rx_queues || tx_queue_count
            > self.info().max_tx_queues || self.info().socket_id >= RTE_MAX_NUMA_NODES {
            Some(ErrorCode::DeviceError { code: EINVAL })
        } else if exists|q: int|
            0 <= q < rx_queue_count && eal.registered(
                #[trigger] rxq_name(self.info().port_id, q as u16),
            ) {
            Some(ErrorCode::AlreadyInUse)
        } else if eal.next_pool_id() + rx_queue_count > u64::MAX {
            Some(ErrorCode::DeviceError { code: ENOSPC })
        } else {
            None
        }
    }

    /// Claims and configures the port with `rx_queue_count` receive and
    /// `tx_queue_count` transmit queues, under `opt_port_conf` or, where
    /// none is given, under the default configuration for that number of
    /// receive queues. Each receive queue gets a pool of its own. `claim`
    /// holds what the device answered: the owner's identity, and whether it
    /// resets its counters itself; where it does not, the counters in
    /// `claim` are the baseline that the port starts with. Where `init`
    /// refuses, the environment stays as it was.
    pub fn init(
        self,
        eal: &mut Eal,
        rx_queue_count: u16,
        tx_queue_count: u16,
        opt_port_conf: Option<RteEthConf>,
        claim: &Claim,
    ) -> (r: Result<(Port, (Vec<RxQ>, Vec<TxQ>)), ErrorCode>)
        requires
            old(eal).wf(),
        ensures
            final(eal).wf(),
            final(eal).claimed() == old(eal).claimed(),
            final(eal).devices() == old(eal).devices(),
            final(eal).cores() == old(eal).cores(),
            final(eal).garbage() == old(eal).garbage(),
            self.refusal(old(eal), rx_queue_count, tx_queue_count) is Some ==> r == Err::<
                (Port, (Vec<RxQ>, Vec<TxQ>)),
                ErrorCode,
            >(self.refusal(old(eal), rx_queue_count, tx_queue_count)->Some_0)
                && final(eal).pool_names() == old(eal).pool_names()
                && final(eal).next_pool_id() == old(eal).next_pool_id(),
            self.refusal(old(eal), rx_queue_count, tx_queue_count) is None ==> r is Ok
                && final(eal).pool_names() == old(eal).pool_names() + rxq_names(
                self.info().port_id,
                rx_queue_count as nat,
            )
                && final(eal).next_pool_id() == old(eal).next_pool_id() + rx_queue_count
                && self.made(
                old(eal),
                r->Ok_0,
                rx_queue_count,
                tx_queue_count,
                opt_port_conf,
                claim,
            ),
    {
        let info = self.info;
        let port_id = info.port_id;
        if rx_queue_count > info.max_rx_queues || tx_queue_count > info.max_tx_queues
            || info.socket_id >= RTE_MAX_NUMA_NODES {
            return Err(ErrorCode::DeviceError { code: EINVAL });
        }
        let mut q: u16 = 0;
        while q < rx_queue_count
            invariant
                q <= rx_queue_count,
                *eal == *old(eal),
                eal.wf(),
                port_id == self.info().port_id,
                info == self.info(),
                rx_queue_count <= info.max_rx_queues,
                tx_queue_count <= info.max_tx_queues,
                info.socket_id < RTE_MAX_NUMA_NODES,
                forall|k: int|
                    0 <= k < q ==> !eal.registered(#[trigger] rxq_name(port_id, k as u16)),
            decreases rx_queue_count - q,
        {
            let name = rxq_pool_name(port_id, q);
            if eal.has_pool(name.as_str()) {
                assert(eal.registered(rxq_name(port_id, q as int as u16)));
                return Err(ErrorCode::AlreadyInUse);
            }
            q += 1;
        }
        if eal.next_pool > u64::MAX - (rx_queue_count as u64) {
            return Err(ErrorCode::DeviceError { code: ENOSPC });
        }
        let port_conf = match opt_port_conf {
            Some(some_port_conf) => some_port_conf,
            None => RteEthConf::default_for(rx_queue_count),
        };
        let port = Port::new(&info, port_conf, claim);
        let ghost names0 = old(eal).pool_names();
        let ghost first_id = old(eal).next_pool_id();
        let mut rxq: Vec<RxQ> = Vec::new();
        let mut queue_id: u16 = 0;
        proof {
            assert(names0 + rxq_names(port_id, 0) =~= names0);
        }
        while queue_id < rx_queue_count
            invariant
                queue_id <= rx_queue_count,
                port_id == self.info().port_id,
                port.id() == port_id,
                port.socket().0 < RTE_MAX_NUMA_NODES,
                names0 == old(eal).pool_names(),
                first_id == old(eal).next_pool_id(),
                first_id + rx_queue_count <= u64::MAX,
                eal.wf(),
                eal.claimed() == old(eal).claimed(),
                eal.devices() == old(eal).devices(),
                eal.cores() == old(eal).cores(),
                eal.garbage() == old(eal).garbage(),
                eal.next_pool_id() == first_id + queue_id,
                eal.pool_names() == names0 + rxq_names(port_id, queue_id as nat),
                forall|k: int|
                    0 <= k < rx_queue_count ==> !names0.contains(
                        #[trigger] rxq_name(port_id, k as u16),
                    ),
                rxq@.len() == queue_id,
                forall|k: int|
                    0 <= k < queue_id ==> fresh_rxq(
                        &#[trigger] rxq@[k],
                        port,
                        k as u16,
                        (first_id + k) as u64,
                    ),
            decreases rx_queue_count - queue_id,
        {
            let name = rxq_pool_name(port_id, queue_id);
            proof {
                let made = rxq_names(port_id, queue_id as nat);
                assert(!names0.contains(rxq_name(port_id, queue_id as int as u16)));
                if eal.pool_names().contains(name@) {
                    let i = choose|i: int|
                        0 <= i < eal.pool_names().len() && eal.pool_names()[i] == name@;
                    if i < names0.len() {
                        assert(names0[i] == name@);
                        assert(names0.contains(name@));
                    } else {
                        let k = i - names0.len();
                        assert(made[k] == rxq_name(port_id, k as u16));
                        lemma_rxq_name_injective(port_id, k as u16, queue_id);
                    }
                }
            }
            let ghost before = rxq@;
            let mpool = eal.create_mpool(
                name.as_str(),
                DEFAULT_RX_POOL_SIZE,
                DEFAULT_RX_PER_CORE_CACHE,
                DEFAULT_PACKET_DATA_LENGTH,
                0,
                Some(port.socket_id()),
            );
            rxq.push(RxQ::new(queue_id, port, mpool, DEFAULT_RX_DESC as usize));
            proof {
                assert(eal.pool_names() =~= names0 + rxq_names(port_id, (queue_id + 1) as nat));
                assert forall|k: int| 0 <= k < queue_id + 1 implies fresh_rxq(
                    &#[trigger] rxq@[k],
                    port,
                    k as u16,
                    (first_id + k) as u64,
                ) by {
                    if k < queue_id {
                        assert(rxq@[k] == before[k]);
                    }
                }
            }
            queue_id += 1;
        }
        let mut txq: Vec<TxQ> = Vec::new();
        let mut queue_id: u16 = 0;
        while queue_id < tx_queue_count
            invariant
                queue_id <= tx_queue_count,
                txq@.len() == queue_id,
                forall|k: int| 0 <= k < queue_id ==> fresh_txq(&#[trigger] txq@[k], port, k as u16),
            decreases tx_queue_count - queue_id,
        {
            txq.push(TxQ::new(queue_id, port, DEFAULT_TX_DESC as usize));
            queue_id += 1;
        }
        Ok((port, (rxq, txq)))
    }

    /// What `init` made of the port, when it did not refuse: a stopped
    /// port for the device, claimed under the owner's identity, with the
    /// baseline that the device's answer asks for, and its queues, each
    /// with its index as its place in the list.
    pub open spec fn made(
        &self,
        eal: &Eal,
        out: (Port, (Vec<RxQ>, Vec<TxQ>)),
        rx_queue_count: u16,
        tx_queue_count: u16,
        opt_port_conf: Option<RteEthConf>,
        claim: &Claim,
    ) -> bool {
        let port = out.0;
        let rxq = out.1.0@;
        let txq = out.1.1@;
        &&& port.id() == self.info().port_id
        &&& port.owner() == claim.owner_id
        &&& port.socket() == SocketId(self.info().socket_id)
        &&& port.mac() == self.info().mac_addr
        &&& port.conf() == match opt_port_conf {
            Some(conf) => conf,
            None => RteEthConf::spec_default_for(rx_queue_count),
        }
        &&& port.hw_reset() == claim.resets()
        &&& claim.is_baseline(port.baseline())
        &&& !port.promiscuous()
        &&& !port.started()
        &&& rxq.len() == rx_queue_count
        &&& txq.len() == tx_queue_count
        &&& forall|k: int|
            0 <= k < rxq.len() ==> fresh_rxq(
                &#[trigger] rxq[k],
                port,
                k as u16,
                (eal.next_pool_id() + k) as u64,
            )
        &&& forall|k: int| 0 <= k < txq.len() ==> fresh_txq(&#[trigger] txq[k], port, k as u16)
    }
}

/// The environment.
///
/// It knows the devices and cores that were found, hands out the ports
/// once, keeps the names of the pools that live, and keeps the pools that
/// were given up while buffers of theirs were still out.
#[derive(Debug)]
pub struct Eal {
    setup_initialized: bool,
    devices: Vec<DevInfo>,
    lcores: Vec<(LCoreId, SocketId)>,
    names: Vec<String>,
    garbages: Vec<MPool>,
    next_pool: u64,
}

/// The names in `names`, each as its characters.
pub open spec fn name_views(names: Seq<String>) -> Seq<Seq<char>> {
    Seq::new(names.len(), |i: int| names[i]@)
}

/// Whether a pool may be bound to the node `socket`: to none, or to one
/// that the environment knows.
pub open spec fn spec_valid_affinity(socket: Option<SocketId>) -> bool {
    match socket {
        None => true,
        Some(s) => s.0 < RTE_MAX_NUMA_NODES,
    }
}

/// Whether a pool may be bound to the node `socket`.
pub fn valid_affinity(socket: Option<SocketId>) -> (r: bool)
    ensures
        r == spec_valid_affinity(socket),
{
    match socket {
        None => true,
        Some(s) => s.0 < RTE_MAX_NUMA_NODES,
    }
}

impl Eal {
    /// Whether the ports were handed out.
    pub closed spec fn claimed(&self) -> bool {
        self.setup_initialized
    }

    /// The devices that were found, in the order of discovery.
    pub closed spec fn devices(&self) -> Seq<DevInfo> {
        self.devices@
    }

    /// The cores that were found, each with its node, in the order of
    /// enumeration.
    pub closed spec fn cores(&self) -> Seq<(LCoreId, SocketId)> {
        self.lcores@
    }

    /// The names of the pools that live.
    pub closed spec fn pool_names(&self) -> Seq<Seq<char>> {
        name_views(self.names@)
    }

    /// The pools that wait to be reclaimed.
    pub closed spec fn garbage(&self) -> Seq<MPool> {
        self.garbages@
    }

    /// The identity that the next pool gets.
    pub closed spec fn next_pool_id(&self) -> u64 {
        self.next_pool
    }


    /// A pool of the name `name` lives.
    pub open spec fn registered(&self, name: Seq<char>) -> bool {
        self.pool_names().contains(name)
    }

    /// Every pool that waits is well formed.
    pub open spec fn wf(&self) -> bool {
        forall|i: int| 0 <= i < self.garbage().len() ==> (#[trigger] self.garbage()[i]).wf()
    }

    /// Nothing but the registry of pools and the pools that wait differs.
    pub open spec fn same_setup(&self, other: &Eal) -> bool {
        &&& self.claimed() == other.claimed()
        &&& self.devices() == other.devices()
        &&& self.cores() == other.cores()
    }

    /// The environment after start-up. `ret` is what the initialization
    /// returned: a negative value is its error, and nothing is made; any
    /// other value is the number of arguments that it used up, which leave
    /// `args`.
    pub fn new(
        args: &mut Vec<String>,
        ret: i32,
        devices: Vec<DevInfo>,
        lcores: Vec<(LCoreId, SocketId)>,
    ) -> (r: Result<Eal, ErrorCode>)
        requires
            -255 <= ret <= old(args)@.len(),
        ensures
            ret < 0 ==> r == Err::<Eal, ErrorCode>(ErrorCode::Unknown { code: (-ret) as u8 })
                && final(args)@ == old(args)@,
            ret >= 0 ==> r is Ok && final(args)@ == old(args)@.subrange(
                ret as int,
                old(args)@.len() as int,
            ) && r->Ok_0.wf() && !r->Ok_0.claimed() && r->Ok_0.devices() == devices@
                && r->Ok_0.cores() == lcores@ && r->Ok_0.pool_names() == Seq::<Seq<char>>::empty()
                && r->Ok_0.garbage() == Seq::<MPool>::empty() && r->Ok_0.next_pool_id() == 0,
    {
        if ret < 0 {
            return Err(ErrorCode::Unknown { code: (-ret) as u8 });
        }
        let _used = crate::queue::take_front(args, ret as usize);
        let eal = Eal {
            setup_initialized: false,
            devices,
            lcores,
            names: Vec::new(),
            garbages: Vec::new(),
            next_pool: 0,
        };
        proof {
            assert(eal.pool_names() =~= Seq::<Seq<char>>::empty());
        }
        Ok(eal)
    }

    /// Hands out the ports that were found, in the order of discovery. They
    /// are handed out once: a later call fails with `AlreadyInUse` and
    /// changes nothing.
    pub fn ports(&mut self) -> (r: Result<Vec<UninitPort>, ErrorCode>)
        ensures
            final(self).claimed(),
            final(self).devices() == old(self).devices(),
            final(self).cores() == old(self).cores(),
            final(self).pool_names() == old(self).pool_names(),
            final(self).garbage() == old(self).garbage(),
            final(self).next_pool_id() == old(self).next_pool_id(),
            old(self).claimed() ==> r == Err::<Vec<UninitPort>, ErrorCode>(
                ErrorCode::AlreadyInUse,
            ),
            !old(self).claimed() ==> r is Ok && r->Ok_0@.len() == old(self).devices().len()
                && forall|i: int|
                0 <= i < r->Ok_0@.len() ==> (#[trigger] r->Ok_0@[i]).info()
                    == old(self).devices()[i],
    {
        if self.setup_initialized {
            return Err(ErrorCode::AlreadyInUse);
        }
        let mut port_list: Vec<UninitPort> = Vec::new();
        let mut i: usize = 0;
        while i < self.devices.len()
            invariant
                i <= self.devices@.len(),
                *self == *old(self),
                port_list@.len() == i,
                forall|k: int|
                    0 <= k < i ==> (#[trigger] port_list@[k]).info() == self.devices@[k],
            decreases self.devices@.len() - i,
        {
            let info = self.devices[i];
            port_list.push(UninitPort { info });
            i += 1;
        }
        self.setup_initialized = true;
        Ok(port_list)
    }

    /// The cores that were found, in the order of enumeration.
    pub fn lcores(&self) -> (r: Vec<LCoreId>)
        ensures
            r@.len() == self.cores().len(),
            forall|i: int| 0 <= i < r@.len() ==> #[trigger] r@[i] == self.cores()[i].0,
    {
        let mut r: Vec<LCoreId> = Vec::new();
        let mut i: usize = 0;
        while i < self.lcores.len()
            invariant
                i <= self.lcores@.len(),
                r@.len() == i,
                forall|k: int| 0 <= k < i ==> #[trigger] r@[k] == self.lcores@[k].0,
            decreases self.lcores@.len() - i,
        {
            r.push(self.lcores[i].0);
            i += 1;
        }
        r
    }

    /// The cores that were found, each with its node.
    pub fn lcores_sockets(&self) -> (r: Vec<(LCoreId, SocketId)>)
        ensures
            r@ == self.cores(),
    {
        let mut r: Vec<(LCoreId, SocketId)> = Vec::new();
        let mut i: usize = 0;
        while i < self.lcores.len()
            invariant
                i <= self.lcores@.len(),
                r@ == self.lcores@.subrange(0, i as int),
            decreases self.lcores@.len() - i,
        {
            r.push(self.lcores[i]);
            i += 1;
            assert(r@ =~= self.lcores@.subrange(0, i as int));
        }
        assert(r@ =~= self.lcores@);
        r
    }

    /// Whether a pool of the name `name` lives.
    pub fn has_pool(&self, name: &str) -> (r: bool)
        ensures
            r == self.registered(name@),
    {
        let wanted = name.to_owned();
        let mut i: usize = 0;
        while i < self.names.len()
            invariant
                i <= self.names@.len(),
                wanted@ == name@,
                forall|k: int| 0 <= k < i ==> self.names@[k]@ != name@,
            decreases self.names@.len() - i,
        {
            if self.names[i] == wanted {
                assert(self.pool_names()[i as int] == name@);
                return true;
            }
            i += 1;
        }
        proof {
            if self.registered(name@) {
                let k = choose|k: int|
                    0 <= k < self.pool_names().len() && self.pool_names()[k] == name@;
                assert(self.names@[k]@ == name@);
            }
        }
        false
    }

    /// A pool can be made with these values: the name is free, the sizes
    /// fit, and the node is one that a pool may be bound to.
    pub open spec fn spec_can_create(
        &self,
        name: Seq<char>,
        n: usize,
        data_room_size: usize,
        socket_id: Option<SocketId>,
    ) -> bool {
        &&& !self.registered(name)
        &&& n <= MAX_POOL_SIZE
        &&& data_room_size <= MAX_BUF_LEN
        &&& spec_valid_affinity(socket_id)
        &&& self.next_pool_id() < u64::MAX
    }

    /// Whether a pool can be made with these values.
    pub fn can_create(
        &self,
        name: &str,
        n: usize,
        data_room_size: usize,
        socket_id: Option<SocketId>,
    ) -> (r: bool)
        ensures
            r == self.spec_can_create(name@, n, data_room_size, socket_id),
    {
        !self.has_pool(name) && n <= MAX_POOL_SIZE && data_room_size <= MAX_BUF_LEN
            && valid_affinity(socket_id) && self.next_pool < u64::MAX
    }

    /// Makes a pool of `n` free buffers under the name `name`, which no
    /// living pool has. Each buffer has `data_room_size` bytes of memory,
    /// head room included, and `priv_size` bytes of private metadata,
    /// rounded up to a multiple of eight.
    pub fn create_mpool(
        &mut self,
        name: &str,
        n: usize,
        cache_size: usize,
        data_room_size: usize,
        priv_size: usize,
        socket_id: Option<SocketId>,
    ) -> (pool: MPool)
        requires
            old(self).spec_can_create(name@, n, data_room_size, socket_id),
            priv_size <= usize::MAX - 7,
        ensures
            final(self).same_setup(old(self)),
            final(self).garbage() == old(self).garbage(),
            final(self).pool_names() == old(self).pool_names().push(name@),
            final(self).next_pool_id() == old(self).next_pool_id() + 1,
            pool.wf(),
            pool.id() == old(self).next_pool_id(),
            pool.name() == name@,
            pool.cache_size() == cache_size,
            pool.data_room() == data_room_size,
            pool.priv_size() == round_up_8(priv_size as nat),
            pool.socket() == socket_id,
            pool.refcounts() == Seq::new(n as nat, |i: int| 0u16),
            pool.free_list() == Seq::new(n as nat, |i: int| (n - 1 - i) as usize),
    {
        let id = self.next_pool;
        self.next_pool = id + 1;
        self.names.push(name.to_owned());
        proof {
            assert(self.pool_names() =~= old(self).pool_names().push(name@));
        }
        MPool::new(
            id,
            name.to_owned(),
            n,
            cache_size,
            data_room_size,
            (priv_size + 7) / 8 * 8,
            socket_id,
        )
    }

    /// Takes the name `name` out of the registry, where it stands first.
    fn unregister(&mut self, name: &str)
        ensures
            final(self).same_setup(old(self)),
            final(self).garbage() == old(self).garbage(),
            final(self).next_pool_id() == old(self).next_pool_id(),
            final(self).pool_names() == without(old(self).pool_names(), name@),
    {
        let wanted = name.to_owned();
        let mut i: usize = 0;
        while i < self.names.len()
            invariant
                i <= self.names@.len(),
                *self == *old(self),
                wanted@ == name@,
                forall|k: int| 0 <= k < i ==> self.pool_names()[k] != name@,
            decreases self.names@.len() - i,
        {
            if self.names[i] == wanted {
                proof {
                    assert(self.pool_names()[i as int] == name@);
                    lemma_without_at(self.pool_names(), name@, i as int);
                }
                let _gone = self.names.remove(i);
                proof {
                    assert(self.pool_names() =~= old(self).pool_names().remove(i as int));
                }
                return ;
            }
            i += 1;
        }
        proof {
            lemma_without_absent(self.pool_names(), name@);
        }
    }

    /// Gives up a pool. A pool that has all its buffers is reclaimed at
    /// once: its name is free again, and the answer is `true`. A pool with
    /// buffers still out waits until they are back.
    pub fn free_mpool(&mut self, pool: MPool) -> (reclaimed: bool)
        requires
            old(self).wf(),
            pool.wf(),
        ensures
            final(self).wf(),
            final(self).same_setup(old(self)),
            final(self).next_pool_id() == old(self).next_pool_id(),
            reclaimed == (pool.spec_available() == pool.spec_capacity()),
            reclaimed ==> final(self).garbage() == old(self).garbage() && final(self).pool_names()
                == without(old(self).pool_names(), pool.name()),
            !reclaimed ==> final(self).garbage() == old(self).garbage().push(pool)
                && final(self).pool_names() == old(self).pool_names(),
    {
        if pool.is_full() {
            self.unregister(pool.pool_name());
            true
        } else {
            self.garbages.push(pool);
            proof {
                assert forall|i: int| 0 <= i < self.garbage().len() implies (
                #[trigger] self.garbage()[i]).wf() by {
                    if i < old(self).garbage().len() {
                        assert(self.garbage()[i] == old(self).garbage()[i]);
                    }
                }
            }
            false
        }
    }

    /// Looks again at the pools that wait, oldest first, and reclaims those
    /// that have all their buffers back. The answer is their number.
    pub fn collect(&mut self) -> (n: usize)
        requires
            old(self).wf(),
        ensures
            final(self).wf(),
            final(self).same_setup(old(self)),
            final(self).next_pool_id() == old(self).next_pool_id(),
            n == collected(old(self).garbage(), old(self).pool_names()).count,
            final(self).garbage() == collected(old(self).garbage(), old(self).pool_names()).kept,
            final(self).pool_names() == collected(
                old(self).garbage(),
                old(self).pool_names(),
            ).names,
    {
        let mut n: usize = 0;
        let mut i: usize = 0;
        let total = self.garbages.len();
        let ghost g0 = self.garbages@;
        let ghost names0 = self.pool_names();
        proof {
            assert(g0.subrange(0, 0) =~= Seq::<MPool>::empty());
            assert(g0.subrange(0, g0.len() as int) =~= g0);
        }
        while i < self.garbages.len()
            invariant
                i <= self.garbages@.len(),
                n + self.garbages@.len() == g0.len(),
                g0.len() == total,
                self.wf(),
                self.same_setup(old(self)),
                self.next_pool_id() == old(self).next_pool_id(),
                g0 == old(self).garbage(),
                names0 == old(self).pool_names(),
                collected(g0, names0) == ({
                    let rest = collected(
                        self.garbages@.subrange(i as int, self.garbages@.len() as int),
                        self.pool_names(),
                    );
                    Collected {
                        kept: self.garbages@.subrange(0, i as int) + rest.kept,
                        names: rest.names,
                        count: n as nat + rest.count,
                    }
                }),
            decreases self.garbages@.len() - i,
        {
            let ghost before = self.garbages@;
            let ghost tail = before.subrange(i as int, before.len() as int);
            proof {
                assert(tail[0] == before[i as int]);
                assert forall|k: int| 0 <= k < before.len() implies (#[trigger] before[k]).wf() by {
                    assert(self.garbage()[k].wf());
                }
            }
            if self.garbages[i].is_full() {
                let pool = self.garbages.remove(i);
                proof {
                    assert(self.garbages@.subrange(i as int, self.garbages@.len() as int)
                        =~= tail.drop_first());
                    assert(self.garbages@.subrange(0, i as int) =~= before.subrange(0, i as int));
                    assert forall|k: int| 0 <= k < self.garbage().len() implies (
                    #[trigger] self.garbage()[k]).wf() by {
                        if k < i {
                            assert(self.garbage()[k] == before[k]);
                        } else {
                            assert(self.garbage()[k] == before[k + 1]);
                        }
                    }
                }
                self.unregister(pool.pool_name());
                n += 1;
            } else {
                i += 1;
                proof {
                    assert(self.garbages@.subrange(i as int, self.garbages@.len() as int)
                        =~= tail.drop_first());
                    let rest = collected(tail.drop_first(), self.pool_names());
                    assert(before.subrange(0, i as int) + rest.kept =~= before.subrange(
                        0,
                        i as int - 1,
                    ) + (seq![tail[0]] + rest.kept));
                }
            }
        }
        proof {
            assert(self.garbages@.subrange(i as int, self.garbages@.len() as int)
                =~= Seq::<MPool>::empty());
            assert(self.garbages@.subrange(0, i as int) + Seq::<MPool>::empty()
                =~= self.garbages@);
        }
        n
    }

    /// Gives a buffer back to the waiting pool that it came from. A buffer
    /// of no waiting pool, or one that its pool does not hold, is refused
    /// and nothing changes.
    pub fn release(&mut self, pkt: Packet) -> (r: bool)
        requires
            old(self).wf(),
        ensures
            final(self).wf(),
            final(self).same_setup(old(self)),
            final(self).next_pool_id() == old(self).next_pool_id(),
            final(self).pool_names() == old(self).pool_names(),
            final(self).garbage().len() == old(self).garbage().len(),
            (forall|j: int|
                0 <= j < old(self).garbage().len() ==> (#[trigger] old(self).garbage()[j]).id()
                    != pkt.pool_id()) ==> !r,
            forall|k: int|
                is_first_of(old(self).garbage(), pkt.pool_id(), k) ==> r
                    == old(self).garbage()[k].holds(&pkt)
                    && (forall|j: int|
                    0 <= j < old(self).garbage().len()
                        && j != k ==> #[trigger] final(self).garbage()[j] == old(self).garbage()[j])
                        && (if r {
                    final(self).garbage()[k].took_back(&old(self).garbage()[k], &pkt)
                } else {
                    final(self).garbage()[k].same_state(&old(self).garbage()[k])
                }),
            !r ==> forall|j: int|
                0 <= j < old(self).garbage().len() ==> (
                #[trigger] final(self).garbage()[j]).same_state(&old(self).garbage()[j]),
    {
        let mut i: usize = 0;
        while i < self.garbages.len()
            invariant
                i <= self.garbages@.len(),
                *self == *old(self),
                self.wf(),
                forall|j: int| 0 <= j < i ==> (#[trigger] self.garbages@[j]).id() != pkt.pool_id(),
            decreases self.garbages@.len() - i,
        {
            if self.garbages[i].pool_id() == pkt.pool() {
                let ghost g0 = self.garbages@;
                proof {
                    assert(self.garbage()[i as int].wf());
                }
                let mut pool = self.garbages.remove(i);
                let r = pool.release(pkt);
                self.garbages.insert(i, pool);
                proof {
                    let g1 = self.garbages@;
                    assert(g1.len() == g0.len());
                    assert forall|j: int| 0 <= j < g0.len() && j != i implies #[trigger] g1[j]
                        == g0[j] by {}
                    assert forall|j: int| 0 <= j < g1.len() implies (#[trigger] g1[j]).wf() by {
                        if j != i {
                            assert(g0[j].wf());
                        }
                    }
                    assert forall|k: int| is_first_of(g0, pkt.pool_id(), k) implies k == i by {
                        if k < i {
                            assert(g0[k].id() != pkt.pool_id());
                        }
                    }
                }
                return r;
            }
            i += 1;
        }
        proof {
            assert forall|k: int| is_first_of(self.garbage(), pkt.pool_id(), k) implies false by {
                assert(self.garbages@[k].id() != pkt.pool_id());
            }
        }
        false
    }

    /// Whether no pool waits that still has buffers out.
    pub fn can_cleanup(&self) -> (r: bool)
        ensures
            r == self.spec_can_cleanup(),
    {
        let mut i: usize = 0;
        while i < self.garbages.len()
            invariant
                i <= self.garbages@.len(),
                forall|k: int|
                    0 <= k < i ==> (#[trigger] self.garbages@[k]).spec_available()
                        == self.garbages@[k].spec_capacity(),
            decreases self.garbages@.len() - i,
        {
            if !self.garbages[i].is_full() {
                assert(self.garbage()[i as int].spec_available()
                    != self.garbage()[i as int].spec_capacity());
                return false;
            }
            i += 1;
        }
        true
    }

    /// No pool waits that still has buffers out.
    pub open spec fn spec_can_cleanup(&self) -> bool {
        forall|k: int|
            0 <= k < self.garbage().len() ==> (#[trigger] self.garbage()[k]).spec_available()
                == self.garbage()[k].spec_capacity()
    }

    /// Ends the environment: reclaims the pools that wait, and says how
    /// many they were. A pool that still has buffers out at this point is
    /// a broken invariant, which `requires` leaves out.
    pub fn cleanup(self) -> (n: usize)
        requires
            self.spec_can_cleanup(),
        ensures
            n == self.garbage().len(),
    {
        self.garbages.len()
    }
}

/// `names` without the first `name` in it.
pub open spec fn without(names: Seq<Seq<char>>, name: Seq<char>) -> Seq<Seq<char>>
    decreases names.len(),
{
    if names.len() == 0 {
        names
    } else if names[0] == name {
        names.drop_first()
    } else {
        seq![names[0]] + without(names.drop_first(), name)
    }
}

/// Where `name` stands first at the index `i`, it is the item at `i` that
/// leaves.
proof fn lemma_without_at(names: Seq<Seq<char>>, name: Seq<char>, i: int)
    requires
        0 <= i < names.len(),
        names[i] == name,
        forall|k: int| 0 <= k < i ==> names[k] != name,
    ensures
        without(names, name) == names.remove(i),
    decreases i,
{
    if i == 0 {
        assert(names.remove(0) =~= names.drop_first());
    } else {
        lemma_without_at(names.drop_first(), name, i - 1);
        assert(names.remove(i) =~= seq![names[0]] + names.drop_first().remove(i - 1));
    }
}

/// Where `name` does not stand, nothing leaves.
proof fn lemma_without_absent(names: Seq<Seq<char>>, name: Seq<char>)
    requires
        forall|k: int| 0 <= k < names.len() ==> names[k] != name,
    ensures
        without(names, name) == names,
    decreases names.len(),
{
    if names.len() > 0 {
        lemma_without_absent(names.drop_first(), name);
        assert(seq![names[0]] + names.drop_first() =~= names);
    }
}

/// The pool at the index `k` is the first of `garbage` with the identity
/// `id`.
pub open spec fn is_first_of(garbage: Seq<MPool>, id: u64, k: int) -> bool {
    &&& 0 <= k < garbage.len()
    &&& garbage[k].id() == id
    &&& forall|j: int| 0 <= j < k ==> (#[trigger] garbage[j]).id() != id
}

/// What a look at the waiting pools leaves.
pub struct Collected {
    /// The pools that still wait, in their order.
    pub kept: Seq<MPool>,
    /// The names of the pools that live.
    pub names: Seq<Seq<char>>,
    /// How many pools were reclaimed.
    pub count: nat,
}

/// A look at the waiting pools `garbage`, oldest first, with the living
/// names `names`: a pool that has all its buffers back is reclaimed and
/// its name is free again; the others wait on.
pub open spec fn collected(garbage: Seq<MPool>, names: Seq<Seq<char>>) -> Collected
    decreases garbage.len(),
{
    if garbage.len() == 0 {
        Collected { kept: garbage, names, count: 0 }
    } else if garbage[0].spec_available() == garbage[0].spec_capacity() {
        let rest = collected(garbage.drop_first(), without(names, garbage[0].name()));
        Collected { kept: rest.kept, names: rest.names, count: rest.count + 1 }
    } else {
        let rest = collected(garbage.drop_first(), names);
        Collected { kept: seq![garbage[0]] + rest.kept, names: rest.names, count: rest.count }
    }
}

/// `n` rounded up to a multiple of eight.
pub open spec fn round_up_8(n: nat) -> nat {
    (n + 7) / 8 * 8
}

} // verus!
