use arrayvec::ArrayVec;
use dpdk::eal::Eal;
use dpdk::ids::{LCoreId, SocketId};
use dpdk::packet::Packet;
use dpdk::port::{Claim, DevInfo, PortStat};
use dpdk::queue::{find_pool, RxQ, TxQ};

fn claim() -> Claim {
    Claim { owner_id: 1, reset_ret: 0, counters: PortStat::zeroed() }
}

fn queues() -> (Eal, RxQ, TxQ) {
    let mut args: Vec<String> = Vec::new();
    let info = DevInfo {
        port_id: 0,
        max_rx_queues: 1,
        max_tx_queues: 1,
        socket_id: 0,
        mac_addr: [2, 0, 0, 0, 0, 9],
    };
    let mut eal = Eal::new(&mut args, 0, vec![info], vec![(LCoreId(0), SocketId(0))]).unwrap();
    let port = eal.ports().unwrap().pop().unwrap();
    let (_port, (mut rxq, mut txq)) = port.init(&mut eal, 1, 1, None, &claim()).unwrap();
    (eal, rxq.pop().unwrap(), txq.pop().unwrap())
}

fn tags(pkts: &[Packet]) -> Vec<u8> {
    pkts.iter().map(|p| p.data()[0]).collect()
}

#[test]
fn rx_takes_the_oldest_frames_as_far_as_the_burst_has_room() {
    let (_eal, mut rxq, _txq) = queues();
    for i in 0..40u8 {
        assert!(rxq.deliver(&[i, 1, 2]));
    }
    assert_eq!(rxq.pending_len(), 40);
    let mut burst: ArrayVec<Packet, 32> = ArrayVec::new();
    assert_eq!(rxq.rx(&mut burst), 32);
    assert_eq!(tags(&burst), (0..32).collect::<Vec<u8>>());
    assert_eq!(rxq.rx(&mut burst), 0);
    assert_eq!(rxq.pending_len(), 8);
    let mut second: ArrayVec<Packet, 32> = ArrayVec::new();
    second.push(burst.pop().unwrap());
    assert_eq!(rxq.rx(&mut second), 8);
    assert_eq!(tags(&second), vec![31, 32, 33, 34, 35, 36, 37, 38, 39]);
    assert_eq!(rxq.rx(&mut second), 0);
    assert_eq!(second.len(), 9);
}

#[test]
fn deliver_drops_what_it_cannot_take() {
    let (_eal, mut rxq, _txq) = queues();
    assert!(!rxq.deliver(&vec![0u8; 1921]));
    assert!(rxq.deliver(&vec![7u8; 1920]));
    for _ in 1..128 {
        assert!(rxq.deliver(&[1]));
    }
    assert!(!rxq.deliver(&[1]));
    assert_eq!(rxq.pending_len(), 128);
    assert_eq!(rxq.mpool().available(), 1023 - 128);
}

#[test]
fn deliver_stops_when_the_pool_is_empty() {
    let (_eal, mut rxq, _txq) = queues();
    let mut held: Vec<Packet> = Vec::new();
    let mut delivered = 0;
    loop {
        if !rxq.deliver(&[1, 2, 3]) {
            let mut burst: ArrayVec<Packet, 32> = ArrayVec::new();
            if rxq.rx(&mut burst) == 0 {
                break;
            }
            held.extend(burst.drain(..));
        } else {
            delivered += 1;
        }
    }
    assert_eq!(delivered, 1023);
    assert_eq!(rxq.mpool().available(), 0);
    let pkt = held.pop().unwrap();
    assert!(rxq.release(pkt));
    assert!(rxq.deliver(&[4]));
    assert!(!rxq.deliver(&[5]));
}

#[test]
fn tx_takes_the_oldest_and_moves_the_others_to_the_front() {
    let (_eal, mut rxq, mut txq) = queues();
    let mut sent = 0;
    for round in 0..4u8 {
        for i in 0..30u8 {
            assert!(rxq.deliver(&[round * 30 + i]));
        }
        let mut burst: ArrayVec<Packet, 32> = ArrayVec::new();
        assert_eq!(rxq.rx(&mut burst), 30);
        assert_eq!(txq.tx(&mut burst), 30);
        assert!(burst.is_empty());
        sent += 30;
    }
    assert_eq!(txq.in_flight_len(), sent);
    for i in 0..20u8 {
        assert!(rxq.deliver(&[200 + i]));
    }
    let mut burst: ArrayVec<Packet, 32> = ArrayVec::new();
    assert_eq!(rxq.rx(&mut burst), 20);
    assert_eq!(txq.tx(&mut burst), 8);
    assert_eq!(tags(&burst), (208..220).map(|t| t as u8).collect::<Vec<u8>>());
    assert_eq!(txq.tx(&mut burst), 0);
    assert_eq!(burst.len(), 12);
    let done = txq.complete(125);
    assert_eq!(done.len(), 125);
    assert_eq!(done[0].data(), &[0]);
    assert_eq!(done[124].data(), &[204]);
    assert_eq!(txq.tx(&mut burst), 12);
    let rest = txq.complete(1000);
    assert_eq!(tags(&rest), (205..220).map(|t| t as u8).collect::<Vec<u8>>());
    assert_eq!(txq.in_flight_len(), 0);
}

#[test]
fn tx_cloned_leaves_the_burst_to_the_caller() {
    let (mut eal, _rxq, mut txq) = queues();
    let mut pools = vec![eal.create_mpool("clones", 8, 0, 256, 0, None)];
    let mut burst: ArrayVec<Packet, 32> = ArrayVec::new();
    for i in 0..3u8 {
        let mut pkt = pools[0].allocate().unwrap();
        pkt.fill(&[i, i]).unwrap();
        burst.push(pkt);
    }
    assert_eq!(txq.tx_cloned(&mut pools, &burst), 3);
    assert_eq!(burst.len(), 3);
    assert_eq!(txq.in_flight_len(), 3);
    let pool = &mut pools[0];
    assert_eq!((pool.refcnt(0), pool.refcnt(1), pool.refcnt(2)), (2, 2, 2));
    for pkt in burst.drain(..) {
        assert!(pool.release(pkt));
    }
    assert_eq!(pool.available(), 5);
    let done = txq.complete(3);
    assert_eq!(tags(&done), vec![0, 1, 2]);
    for pkt in done {
        assert!(pool.release(pkt));
    }
    assert!(pool.is_full());
}

#[test]
fn tx_cloned_shares_each_packet_from_its_own_pool() {
    let (mut eal, _rxq, mut txq) = queues();
    let mut pools = vec![
        eal.create_mpool("mine", 8, 0, 256, 0, None),
        eal.create_mpool("other", 8, 0, 256, 0, None),
    ];
    let mut burst: ArrayVec<Packet, 32> = ArrayVec::new();
    for (tag, from) in [(5u8, 0usize), (6, 1), (7, 0), (8, 1), (9, 1)] {
        let mut pkt = pools[from].allocate().unwrap();
        pkt.fill(&[tag]).unwrap();
        burst.push(pkt);
    }
    assert_eq!(txq.tx_cloned(&mut pools, &burst), 5);
    assert_eq!(tags(&burst), vec![5, 6, 7, 8, 9]);
    assert_eq!((pools[0].refcnt(0), pools[0].refcnt(1), pools[0].refcnt(2)), (2, 2, 0));
    assert_eq!((pools[1].refcnt(0), pools[1].refcnt(1), pools[1].refcnt(2)), (2, 2, 2));
    assert_eq!((pools[0].available(), pools[1].available()), (6, 5));
    let done = txq.complete(5);
    assert_eq!(tags(&done), vec![5, 6, 7, 8, 9]);
    for (pkt, from) in done.into_iter().zip([0usize, 1, 0, 1, 1]) {
        assert!(pools[from].release(pkt));
    }
    for (pkt, from) in burst.drain(..).zip([0usize, 1, 0, 1, 1]) {
        assert!(pools[from].release(pkt));
    }
    assert!(pools[0].is_full());
    assert!(pools[1].is_full());
}

#[test]
fn tx_cloned_stops_at_a_full_ring_and_at_a_buffer_without_its_pool() {
    let (mut eal, mut rxq, mut txq) = queues();
    let mut pools = vec![eal.create_mpool("mine", 8, 0, 256, 0, None)];
    let mut other = eal.create_mpool("other", 8, 0, 256, 0, None);
    let mut burst: ArrayVec<Packet, 32> = ArrayVec::new();
    burst.push(pools[0].allocate().unwrap());
    burst.push(other.allocate().unwrap());
    burst.push(pools[0].allocate().unwrap());
    assert_eq!(txq.tx_cloned(&mut pools, &burst), 1);
    assert_eq!(pools[0].refcnt(0), 2);
    assert_eq!(pools[0].refcnt(1), 1);
    assert_eq!(other.refcnt(0), 1);
    for _ in 0..127 {
        assert!(rxq.deliver(&[1]));
    }
    for _ in 0..4 {
        let mut fill: ArrayVec<Packet, 32> = ArrayVec::new();
        rxq.rx(&mut fill);
        txq.tx(&mut fill);
        assert!(fill.is_empty());
    }
    assert_eq!(txq.in_flight_len(), 128);
    let mut mine: ArrayVec<Packet, 32> = ArrayVec::new();
    mine.push(burst.remove(2));
    assert_eq!(txq.tx_cloned(&mut pools, &mine), 0);
    assert_eq!(pools[0].refcnt(1), 1);
}

#[test]
fn queue_that_is_given_up_hands_out_its_pool() {
    let (mut eal, mut rxq, _txq) = queues();
    assert!(eal.has_pool("rxq_be0dd4ab_0_0"));
    assert!(rxq.deliver(&[1, 2, 3]));
    assert!(rxq.deliver(&[4]));
    let mut burst: ArrayVec<Packet, 32> = ArrayVec::new();
    assert_eq!(rxq.rx(&mut burst), 2);
    let held = burst.pop().unwrap();
    assert!(rxq.release(burst.pop().unwrap()));
    assert!(rxq.deliver(&[5]));
    assert_eq!(rxq.pending_len(), 1);
    let pool = rxq.into_pool();
    assert_eq!(pool.pool_name(), "rxq_be0dd4ab_0_0");
    assert_eq!(pool.available(), pool.capacity() - 1);
    assert!(!eal.free_mpool(pool));
    assert!(eal.has_pool("rxq_be0dd4ab_0_0"));
    assert_eq!(eal.collect(), 0);
    assert!(eal.release(held));
    assert_eq!(eal.collect(), 1);
    assert!(!eal.has_pool("rxq_be0dd4ab_0_0"));
    assert_eq!(eal.cleanup(), 0);
}

#[test]
fn find_pool_finds_the_first_pool_with_the_identity() {
    let (mut eal, rxq, _txq) = queues();
    let first = eal.create_mpool("a", 1, 0, 64, 0, None);
    let second = eal.create_mpool("b", 1, 0, 64, 0, None);
    let (a, b) = (first.pool_id(), second.pool_id());
    let own = rxq.mpool().pool_id();
    assert_ne!(a, b);
    let pools = vec![second, first];
    assert_eq!(find_pool(&pools, a), Some(1));
    assert_eq!(find_pool(&pools, b), Some(0));
    assert_eq!(find_pool(&pools, own), None);
    assert_eq!(find_pool(&Vec::new(), a), None);
}

#[test]
fn release_all_gives_back_what_the_pool_holds() {
    let (mut eal, mut rxq, _txq) = queues();
    let mut other = eal.create_mpool("elsewhere", 2, 0, 64, 0, None);
    for tag in 0..3u8 {
        assert!(rxq.deliver(&[tag]));
    }
    let mut burst: ArrayVec<Packet, 32> = ArrayVec::new();
    assert_eq!(rxq.rx(&mut burst), 3);
    let capacity = rxq.mpool().capacity();
    assert_eq!(rxq.mpool().available(), capacity - 3);
    let mut back: Vec<Packet> = burst.drain(..).collect();
    back.insert(1, other.allocate().unwrap());
    rxq.release_all(back);
    assert_eq!(rxq.mpool().available(), capacity);
    assert_eq!(other.available(), 1);
    let pool = rxq.into_pool();
    assert!(pool.is_full());
    assert!(eal.free_mpool(pool));
    assert!(!eal.has_pool("rxq_be0dd4ab_0_0"));
}

#[test]
fn received_packet_is_shared_to_go_out_twice() {
    let (_eal, mut rxq, mut txq) = queues();
    assert!(rxq.deliver(&[7, 7, 7]));
    let mut burst: ArrayVec<Packet, 32> = ArrayVec::new();
    assert_eq!(rxq.rx(&mut burst), 1);
    let copy = rxq.share(&burst[0]).unwrap();
    assert_eq!(rxq.mpool().refcnt(copy.slot()), 2);
    assert_eq!(copy.data(), &[7, 7, 7]);
    burst.push(copy);
    assert_eq!(txq.tx(&mut burst), 2);
    let done = txq.complete(2);
    assert_eq!(tags(&done), vec![7, 7]);
    assert_eq!(done[0].slot(), done[1].slot());
    rxq.release_all(done);
    assert!(rxq.mpool().is_full());
}
