use dpdk::eal::Eal;
use dpdk::ids::{LCoreId, SocketId};
use dpdk::l2fwd::{assign_work, pair_ports, ForwardDesc, PortWithQueues};
use dpdk::port::{Claim, DevInfo, PortStat};

fn claim() -> Claim {
    Claim { owner_id: 1, reset_ret: 0, counters: PortStat::zeroed() }
}

fn ports(ids: &[u16]) -> Vec<PortWithQueues> {
    let mut args: Vec<String> = Vec::new();
    let devices: Vec<DevInfo> = ids
        .iter()
        .map(|id| DevInfo {
            port_id: *id,
            max_rx_queues: 1,
            max_tx_queues: 1,
            socket_id: 0,
            mac_addr: [2, 0, 0, 0, 0, *id as u8],
        })
        .collect();
    let mut eal = Eal::new(&mut args, 0, devices, vec![(LCoreId(0), SocketId(0))]).unwrap();
    let mut out = Vec::new();
    for port in eal.ports().unwrap() {
        let (port, (mut rxq, mut txq)) = port.init(&mut eal, 1, 1, None, &claim()).unwrap();
        out.push(PortWithQueues { port, rx: rxq.pop().unwrap(), tx: txq.pop().unwrap() });
    }
    out
}

fn pairs(fwds: &[ForwardDesc]) -> Vec<(u16, u16)> {
    fwds.iter().map(|f| (f.src.port().port_id(), f.dst.port().port_id())).collect()
}

fn descs(n: u16) -> Vec<ForwardDesc> {
    let ids: Vec<u16> = (0..n).collect();
    ports(&ids).into_iter().map(|p| ForwardDesc { src: p.rx, dst: p.tx }).collect()
}

fn shares(assigned: &[(LCoreId, Vec<ForwardDesc>)]) -> Vec<(u32, Vec<u16>)> {
    assigned
        .iter()
        .map(|(core, fwds)| (core.0, fwds.iter().map(|f| f.src.port().port_id()).collect()))
        .collect()
}

#[test]
fn four_ports_make_two_pairs() {
    let fwds = pair_ports(ports(&[0, 1, 2, 3]));
    assert_eq!(pairs(&fwds), vec![(0, 1), (1, 0), (2, 3), (3, 2)]);
}

#[test]
fn odd_port_forwards_to_itself() {
    let fwds = pair_ports(ports(&[0, 1, 2]));
    assert_eq!(pairs(&fwds), vec![(0, 1), (1, 0), (2, 2)]);
    assert_eq!(pairs(&pair_ports(ports(&[5]))), vec![(5, 5)]);
    assert!(pair_ports(ports(&[])).is_empty());
}

#[test]
fn ports_pair_in_their_order_and_not_by_their_index() {
    let fwds = pair_ports(ports(&[4, 9, 1, 7, 3]));
    assert_eq!(pairs(&fwds), vec![(4, 9), (9, 4), (1, 7), (7, 1), (3, 3)]);
}

#[test]
fn last_core_takes_what_is_left() {
    let cores = vec![LCoreId(0), LCoreId(1), LCoreId(2)];
    let assigned = assign_work(cores, descs(8), 2);
    assert_eq!(
        shares(&assigned),
        vec![(0, vec![0, 1]), (1, vec![2, 3]), (2, vec![4, 5, 6, 7])]
    );
}

#[test]
fn cores_without_work_are_left_out() {
    let cores = vec![LCoreId(3), LCoreId(5), LCoreId(7)];
    let assigned = assign_work(cores, descs(3), 2);
    assert_eq!(shares(&assigned), vec![(3, vec![0, 1]), (5, vec![2])]);
    let none = assign_work(vec![LCoreId(0)], descs(0), 1);
    assert!(none.is_empty());
    let no_cores = assign_work(Vec::new(), Vec::new(), 4);
    assert!(no_cores.is_empty());
}

#[test]
fn work_is_shared_evenly_where_it_fits() {
    let cores = vec![LCoreId(0), LCoreId(1), LCoreId(2)];
    let assigned = assign_work(cores, descs(6), 2);
    assert_eq!(shares(&assigned), vec![(0, vec![0, 1]), (1, vec![2, 3]), (2, vec![4, 5])]);
    let one = assign_work(vec![LCoreId(9)], descs(5), 1);
    assert_eq!(shares(&one), vec![(9, vec![0, 1, 2, 3, 4])]);
    let wide = assign_work(vec![LCoreId(0), LCoreId(1)], descs(3), 10);
    assert_eq!(shares(&wide), vec![(0, vec![0, 1, 2])]);
}
