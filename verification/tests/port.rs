use dpdk::eal::Eal;
use dpdk::ids::{ErrorCode, LCoreId, SocketId};
use dpdk::names::rxq_pool_name;
use dpdk::port::{
    subtract_array, Claim, DevInfo, Port, PortStat, RteEthConf, DEFAULT_RX_POOL_SIZE,
    ETH_MQ_RX_NONE, ETH_MQ_RX_RSS, ETH_MQ_TX_NONE, RTE_ETHER_MAX_LEN,
};
use dpdk::queue::{RxQ, TxQ};

fn claim(reset_ret: i32, counters: PortStat) -> Claim {
    Claim { owner_id: 41, reset_ret, counters }
}

fn plain() -> Claim {
    claim(0, PortStat::zeroed())
}

fn device(port_id: u16) -> DevInfo {
    DevInfo {
        port_id,
        max_rx_queues: 2,
        max_tx_queues: 3,
        socket_id: 1,
        mac_addr: [2, 0, 0, 0, 1, port_id as u8],
    }
}

fn eal_with(devices: Vec<DevInfo>) -> Eal {
    let mut args: Vec<String> = Vec::new();
    Eal::new(&mut args, 0, devices, vec![(LCoreId(0), SocketId(0))]).unwrap()
}

fn one_port(reset_ret: i32, counters: PortStat) -> (Eal, Port, Vec<RxQ>, Vec<TxQ>) {
    let mut eal = eal_with(vec![device(3)]);
    let port = eal.ports().unwrap().pop().unwrap();
    let (port, (rxq, txq)) = port.init(&mut eal, 1, 1, None, &claim(reset_ret, counters)).unwrap();
    (eal, port, rxq, txq)
}

#[test]
fn init_makes_the_queues_that_were_asked_for() {
    let mut eal = eal_with(vec![device(3)]);
    let port = eal.ports().unwrap().pop().unwrap();
    let (port, (rxq, txq)) = port.init(&mut eal, 2, 3, None, &plain()).unwrap();
    assert_eq!(port.port_id(), 3);
    assert_eq!(port.socket_id(), SocketId(1));
    assert_eq!(port.mac_addr(), [2, 0, 0, 0, 1, 3]);
    assert_eq!(port.owner_id(), 41);
    assert!(port.has_stats_reset());
    assert!(!port.is_started());
    assert!(!port.is_promiscuous());
    assert_eq!(rxq.len(), 2);
    assert_eq!(txq.len(), 3);
    for (i, q) in rxq.iter().enumerate() {
        assert_eq!(q.queue_id() as usize, i);
        assert_eq!(q.port().port_id(), 3);
        assert_eq!(q.pending_len(), 0);
        assert_eq!(q.mpool().capacity(), DEFAULT_RX_POOL_SIZE);
        assert_eq!(q.mpool().available(), DEFAULT_RX_POOL_SIZE);
        assert_eq!(q.mpool().pool_id(), i as u64);
        assert_eq!(q.mpool().socket_id(), Some(SocketId(1)));
    }
    for (i, q) in txq.iter().enumerate() {
        assert_eq!(q.queue_id() as usize, i);
        assert_eq!(q.port().mac_addr(), [2, 0, 0, 0, 1, 3]);
        assert_eq!(q.in_flight_len(), 0);
    }
    assert_eq!(rxq[0].mpool().pool_name(), "rxq_be0dd4ab_3_0");
    assert_eq!(rxq[1].mpool().pool_name(), "rxq_be0dd4ab_3_1");
    assert!(eal.has_pool("rxq_be0dd4ab_3_0"));
    assert!(eal.has_pool("rxq_be0dd4ab_3_1"));
    assert!(!eal.has_pool("rxq_be0dd4ab_3_2"));
}

#[test]
fn init_gives_the_default_configuration() {
    let (_eal, port, _rxq, _txq) = one_port(0, PortStat::zeroed());
    let conf = port.port_conf();
    assert_eq!(conf.max_rx_pkt_len, RTE_ETHER_MAX_LEN);
    assert_eq!(conf.rx_mq_mode, ETH_MQ_RX_NONE);
    assert_eq!(conf.tx_mq_mode, ETH_MQ_TX_NONE);
    assert_eq!(conf.rss_hf, 0);
    let many = RteEthConf::default_for(2);
    assert_eq!(many.rx_mq_mode, ETH_MQ_RX_RSS);
    assert_eq!(many.rss_hf, 0x30);
    assert_eq!(RteEthConf::default_for(1), conf);
    assert_eq!(RteEthConf::new().max_rx_pkt_len, 0);
}

#[test]
fn init_keeps_a_configuration_that_is_given() {
    let mut eal = eal_with(vec![device(0)]);
    let port = eal.ports().unwrap().pop().unwrap();
    let conf = RteEthConf { max_rx_pkt_len: 9000, rx_mq_mode: 1, tx_mq_mode: 0, rss_hf: 4 };
    let (port, _queues) = port.init(&mut eal, 2, 1, Some(conf), &plain()).unwrap();
    assert_eq!(port.port_conf(), conf);
}

#[test]
fn init_refuses_more_queues_than_the_device_has() {
    let mut eal = eal_with(vec![device(0), device(1)]);
    let mut ports = eal.ports().unwrap();
    let second = ports.pop().unwrap();
    let first = ports.pop().unwrap();
    assert_eq!(
        first.init(&mut eal, 3, 1, None, &plain()).err(),
        Some(ErrorCode::DeviceError { code: 22 })
    );
    assert_eq!(
        second.init(&mut eal, 1, 4, None, &plain()).err(),
        Some(ErrorCode::DeviceError { code: 22 })
    );
    assert!(!eal.has_pool("rxq_be0dd4ab_0_0"));
}

#[test]
fn init_refuses_a_pool_name_that_is_taken() {
    let mut eal = eal_with(vec![device(7)]);
    let taken = eal.create_mpool("rxq_be0dd4ab_7_1", 1, 0, 64, 0, None);
    let port = eal.ports().unwrap().pop().unwrap();
    assert_eq!(port.init(&mut eal, 2, 1, None, &plain()).err(), Some(ErrorCode::AlreadyInUse));
    assert!(!eal.has_pool("rxq_be0dd4ab_7_0"));
    assert_eq!(taken.pool_name(), "rxq_be0dd4ab_7_1");
}

#[test]
fn init_refuses_a_node_that_is_unknown() {
    let mut far = device(0);
    far.socket_id = 8;
    let mut eal = eal_with(vec![far]);
    let port = eal.ports().unwrap().pop().unwrap();
    assert_eq!(
        port.init(&mut eal, 1, 1, None, &plain()).err(),
        Some(ErrorCode::DeviceError { code: 22 })
    );
}

#[test]
fn pool_names_are_written_in_decimal() {
    assert_eq!(rxq_pool_name(0, 0), "rxq_be0dd4ab_0_0");
    assert_eq!(rxq_pool_name(12, 345), "rxq_be0dd4ab_12_345");
    assert_eq!(rxq_pool_name(65535, 1000), "rxq_be0dd4ab_65535_1000");
    for (port, queue) in [(1u16, 10u16), (10, 1), (110, 0), (9, 99), (60000, 7)] {
        assert_eq!(rxq_pool_name(port, queue), format!("rxq_{}_{}_{}", "be0dd4ab", port, queue));
    }
}

#[test]
fn start_takes_the_answer_of_the_device() {
    let (_eal, mut port, _rxq, _txq) = one_port(0, PortStat::zeroed());
    assert_eq!(port.start(-19), Err(ErrorCode::DeviceError { code: 19 }));
    assert!(!port.is_started());
    assert_eq!(port.start(0), Ok(()));
    assert!(port.is_started());
    port.set_promiscuous(true);
    assert!(port.is_promiscuous());
    port.set_promiscuous(false);
    assert!(!port.is_promiscuous());
    assert!(!port.is_link_up());
    port.set_link(true);
    assert!(port.is_link_up());
}

fn counters(base: u64) -> PortStat {
    let mut s = PortStat::zeroed();
    s.ipackets = base + 1;
    s.opackets = base + 2;
    s.ibytes = base + 3;
    s.obytes = base + 4;
    s.imissed = base + 5;
    s.ierrors = base + 6;
    s.oerrors = base + 7;
    s.rx_nombuf = base + 8;
    s.q_ipackets[0] = base + 9;
    s.q_errors[15] = base + 10;
    s
}

#[test]
fn device_that_resets_its_counters_is_read_as_it_is() {
    let (_eal, mut port, _rxq, _txq) = one_port(0, counters(7));
    assert!(port.has_stats_reset());
    let raw = counters(100);
    assert!(port.reset_stat(&raw));
    let seen = port.get_stat(&raw);
    assert_eq!(seen.ipackets, 101);
    assert_eq!(seen.rx_nombuf, 108);
    assert_eq!(seen.q_errors[15], 110);
}

#[test]
fn any_answer_but_unsupported_leaves_the_reset_to_the_device() {
    for answer in [0, -19, -22, 95, 1] {
        let (_eal, port, _rxq, _txq) = one_port(answer, counters(7));
        assert!(port.has_stats_reset());
        assert_eq!(port.get_stat(&counters(7)).ipackets, 8);
    }
    let (_eal, port, _rxq, _txq) = one_port(-95, counters(7));
    assert!(!port.has_stats_reset());
}

fn assert_all_zero(seen: &PortStat) {
    assert_eq!(
        (seen.ipackets, seen.opackets, seen.ibytes, seen.obytes),
        (0, 0, 0, 0)
    );
    assert_eq!(
        (seen.imissed, seen.ierrors, seen.oerrors, seen.rx_nombuf),
        (0, 0, 0, 0)
    );
    assert_eq!(seen.q_ipackets, [0u64; 16]);
    assert_eq!(seen.q_opackets, [0u64; 16]);
    assert_eq!(seen.q_ibytes, [0u64; 16]);
    assert_eq!(seen.q_obytes, [0u64; 16]);
    assert_eq!(seen.q_errors, [0u64; 16]);
}

#[test]
fn port_that_keeps_its_baseline_reads_zero_after_init() {
    let (_eal, port, _rxq, _txq) = one_port(-95, counters(1000));
    assert!(!port.has_stats_reset());
    assert_all_zero(&port.get_stat(&counters(1000)));
    let seen = port.get_stat(&counters(1020));
    assert_eq!(seen.ipackets, 20);
    assert_eq!(seen.imissed, 20);
    assert_eq!(seen.q_ipackets[0], 20);
    assert_eq!(seen.q_ipackets[1], 0);
    assert_eq!(seen.q_errors[15], 20);
}

#[test]
fn port_that_keeps_its_baseline_reads_zero_after_a_reset() {
    let (_eal, mut port, _rxq, _txq) = one_port(-95, PortStat::zeroed());
    assert_eq!(port.get_stat(&counters(100)).ipackets, 101);
    assert!(!port.reset_stat(&counters(100)));
    assert_all_zero(&port.get_stat(&counters(100)));
}

#[test]
fn counters_are_read_against_the_baseline() {
    let (_eal, mut port, _rxq, _txq) = one_port(-95, PortStat::zeroed());
    assert!(!port.has_stats_reset());
    let seen = port.get_stat(&counters(100));
    assert_eq!(seen.ipackets, 101);
    assert_eq!(seen.q_errors[15], 110);
    assert!(!port.reset_stat(&counters(100)));
    let seen = port.get_stat(&counters(150));
    assert_eq!(seen.ipackets, 50);
    assert_eq!(seen.opackets, 50);
    assert_eq!(seen.ibytes, 50);
    assert_eq!(seen.obytes, 50);
    assert_eq!(seen.ierrors, 50);
    assert_eq!(seen.oerrors, 50);
    assert_eq!(seen.imissed, 50);
    assert_eq!(seen.rx_nombuf, 50);
    assert_eq!(seen.q_ipackets[0], 50);
    assert_eq!(seen.q_ipackets[1], 0);
    assert_eq!(seen.q_errors[15], 50);
}

#[test]
fn counter_that_wrapped_is_read_across_the_wrap() {
    let (_eal, mut port, _rxq, _txq) = one_port(-95, PortStat::zeroed());
    let mut before = PortStat::zeroed();
    before.ipackets = u64::MAX - 1;
    port.reset_stat(&before);
    let mut after = PortStat::zeroed();
    after.ipackets = 3;
    assert_eq!(port.get_stat(&after).ipackets, 5);
    let mut x = [0u64; 16];
    let mut y = [0u64; 16];
    x[2] = 10;
    y[2] = 4;
    y[3] = 1;
    let d = subtract_array(&x, &y);
    assert_eq!(d[2], 6);
    assert_eq!(d[3], u64::MAX);
    assert_eq!(d[0], 0);
}
