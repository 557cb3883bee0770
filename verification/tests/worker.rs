use dpdk::eal::Eal;
use dpdk::ids::{LCoreId, SocketId};
use dpdk::l2fwd::{pair_ports, ForwardDesc, PortWithQueues};
use dpdk::port::{Claim, DevInfo, PortStat};
use dpdk::worker::{drain_threshold, is_due, Lane, LaneStat, Worker};

fn claim() -> Claim {
    Claim { owner_id: 1, reset_ret: 0, counters: PortStat::zeroed() }
}

fn fwds(ids: &[u16]) -> Vec<ForwardDesc> {
    let mut args: Vec<String> = Vec::new();
    let devices: Vec<DevInfo> = ids
        .iter()
        .map(|id| DevInfo {
            port_id: *id,
            max_rx_queues: 1,
            max_tx_queues: 1,
            socket_id: 0,
            mac_addr: [0x52, 0x54, 0, 0, 0, *id as u8],
        })
        .collect();
    let mut eal = Eal::new(&mut args, 0, devices, vec![(LCoreId(0), SocketId(0))]).unwrap();
    let mut ports = Vec::new();
    for port in eal.ports().unwrap() {
        let (port, (mut rxq, mut txq)) = port.init(&mut eal, 1, 1, None, &claim()).unwrap();
        ports.push(PortWithQueues { port, rx: rxq.pop().unwrap(), tx: txq.pop().unwrap() });
    }
    pair_ports(ports)
}

fn frame(tag: u8) -> Vec<u8> {
    let mut f = vec![0xffu8; 12];
    f.extend([0x08, 0x00, tag, tag]);
    f
}

const HZ: u64 = 2_000_000_000;
const DRAIN: u64 = 200_000;

#[test]
fn drain_threshold_is_a_hundred_microseconds() {
    assert_eq!(drain_threshold(HZ), DRAIN);
    assert_eq!(drain_threshold(1_000_000), 100);
    assert_eq!(drain_threshold(1_000_001), 200);
    assert_eq!(drain_threshold(1), 100);
    assert_eq!(drain_threshold(0), 0);
    assert_eq!(drain_threshold(u64::MAX), 1_844_674_407_371_000);
}

#[test]
fn packets_are_due_after_the_threshold() {
    assert!(!is_due(10, 10 + DRAIN, DRAIN));
    assert!(is_due(10, 11 + DRAIN, DRAIN));
    assert!(!is_due(10, 9, DRAIN));
    assert!(is_due(0, u64::MAX, DRAIN));
}

#[test]
fn lane_takes_its_addresses_from_the_port_that_it_sends_to() {
    let mut all = fwds(&[3, 260]);
    let second = all.pop().unwrap();
    let first = all.pop().unwrap();
    let lane = Lane::new(first);
    assert_eq!(lane.src_mac, [0x52, 0x54, 0, 0, 0, 4]);
    assert_eq!(lane.dst_mac, [2, 0, 0, 0, 0, 4]);
    assert_eq!(lane.stat, LaneStat { received: 0, sent: 0, dropped: 0, short: 0 });
    let back = Lane::new(second);
    assert_eq!(back.src_mac, [0x52, 0x54, 0, 0, 0, 3]);
    assert_eq!(back.dst_mac, [2, 0, 0, 0, 0, 3]);
}

#[test]
fn staged_packet_is_flushed_within_one_drain_interval() {
    let mut worker = Worker::new(LCoreId(1), fwds(&[0, 1]), HZ, 1000);
    assert_eq!(worker.drain_tsc, DRAIN);
    assert!(worker.lanes[0].src.deliver(&frame(7)));
    assert!(!worker.step(1001));
    assert_eq!(worker.lanes[0].buf.len(), 1);
    assert_eq!(worker.lanes[0].dst.in_flight_len(), 0);
    assert!(!worker.step(1000 + DRAIN));
    assert_eq!(worker.lanes[0].buf.len(), 1);
    assert!(worker.step(1001 + DRAIN));
    assert_eq!(worker.prev_tsc, 1001 + DRAIN);
    assert_eq!(worker.lanes[0].buf.len(), 0);
    assert_eq!(worker.lanes[0].dst.in_flight_len(), 1);
    assert_eq!(worker.lanes[1].dst.in_flight_len(), 0);
    let out = worker.lanes[0].dst.complete(1);
    let mut expected = vec![2, 0, 0, 0, 0, 1, 0x52, 0x54, 0, 0, 0, 1];
    expected.extend([0x08, 0x00, 7, 7]);
    assert_eq!(out[0].data(), &expected[..]);
    assert_eq!(worker.lanes[0].stat, LaneStat { received: 1, sent: 1, dropped: 0, short: 0 });
    assert!(!worker.step(1002 + DRAIN));
}

#[test]
fn full_burst_is_sent_without_waiting() {
    let mut worker = Worker::new(LCoreId(1), fwds(&[0, 1]), HZ, 0);
    for i in 0..40u8 {
        assert!(worker.lanes[1].src.deliver(&frame(i)));
    }
    assert!(!worker.step(1));
    assert_eq!(worker.lanes[1].dst.in_flight_len(), 32);
    assert_eq!(worker.lanes[1].buf.len(), 0);
    assert_eq!(worker.lanes[1].src.pending_len(), 8);
    assert!(!worker.step(2));
    assert_eq!(worker.lanes[1].dst.in_flight_len(), 32);
    assert_eq!(worker.lanes[1].buf.len(), 8);
    assert_eq!(worker.lanes[1].stat, LaneStat { received: 40, sent: 32, dropped: 0, short: 0 });
    let out = worker.lanes[1].dst.complete(32);
    let tags: Vec<u8> = out.iter().map(|p| p.data()[15]).collect();
    assert_eq!(tags, (0..32).collect::<Vec<u8>>());
    assert_eq!(&out[0].data()[..12], &[2, 0, 0, 0, 0, 0, 0x52, 0x54, 0, 0, 0, 0]);
}

#[test]
fn short_frame_is_counted_and_forwarded_as_it_is() {
    let mut worker = Worker::new(LCoreId(1), fwds(&[0]), HZ, 0);
    assert!(worker.lanes[0].src.deliver(&[1, 2, 3]));
    assert!(worker.lanes[0].src.deliver(&frame(9)));
    worker.step(1);
    worker.step(2 + DRAIN);
    assert_eq!(worker.lanes[0].stat, LaneStat { received: 2, sent: 2, dropped: 0, short: 1 });
    let out = worker.lanes[0].dst.complete(2);
    assert_eq!(out[0].data(), &[1, 2, 3]);
    assert_eq!(&out[1].data()[..6], &[2, 0, 0, 0, 0, 0]);
}

#[test]
fn packets_that_the_ring_does_not_take_go_back_to_their_pool() {
    let mut worker = Worker::new(LCoreId(1), fwds(&[0]), HZ, 0);
    let lane = &mut worker.lanes[0];
    let mut given = 0u64;
    for round in 0..6u64 {
        for i in 0..32u8 {
            assert!(lane.src.deliver(&frame(i)));
            given += 1;
        }
        lane.step(false);
        let want_sent = if round < 4 { 32 * (round + 1) } else { 128 };
        assert_eq!(lane.stat.sent, want_sent);
    }
    assert_eq!(lane.stat.received, given);
    assert_eq!(lane.stat.dropped, 64);
    assert_eq!(lane.dst.in_flight_len(), 128);
    assert_eq!(lane.buf.len(), 0);
    assert_eq!(lane.src.mpool().available(), 1023 - 128);
}

#[test]
fn every_buffer_is_disposed_once_over_a_run() {
    let mut worker = Worker::new(LCoreId(0), fwds(&[0, 1, 2]), HZ, 0);
    let mut now = 0u64;
    let mut delivered = [0u64; 3];
    let mut completed = [0u64; 3];
    for round in 0..200u64 {
        for lane in 0..3usize {
            let burst = (round as usize * 7 + lane * 3) % 45;
            for i in 0..burst {
                if worker.lanes[lane].src.deliver(&frame(i as u8)) {
                    delivered[lane] += 1;
                }
            }
        }
        now += 50_000;
        worker.step(now);
        for lane in 0..3usize {
            let take = if round % 5 == 0 { 0 } else { 20 };
            let done = worker.lanes[lane].dst.complete(take);
            for pkt in done {
                completed[lane] += 1;
                assert!(worker.lanes[lane].src.release(pkt));
            }
        }
    }
    for lane in 0..3usize {
        let l = &mut worker.lanes[lane];
        l.step(true);
        let rest = l.dst.complete(usize::MAX);
        for pkt in rest {
            completed[lane] += 1;
            assert!(l.src.release(pkt));
        }
        while l.src.pending_len() > 0 || l.buf.len() > 0 {
            l.step(true);
            for pkt in l.dst.complete(usize::MAX) {
                completed[lane] += 1;
                assert!(l.src.release(pkt));
            }
        }
        assert_eq!(l.stat.received, delivered[lane]);
        assert_eq!(l.stat.sent + l.stat.dropped, delivered[lane]);
        assert_eq!(l.stat.sent, completed[lane]);
        assert!(l.src.mpool().is_full());
        for slot in 0..l.src.mpool().capacity() {
            assert_eq!(l.src.mpool().refcnt(slot), 0);
        }
    }
}
