use dpdk::eal::Eal;
use dpdk::ether::{get_fake_dst_mac, set_macs};
use dpdk::ids::{LCoreId, SocketId};
use dpdk::packet::Packet;
use dpdk::port::{Claim, DevInfo, PortStat};

fn claim() -> Claim {
    Claim { owner_id: 1, reset_ret: 0, counters: PortStat::zeroed() }
}

fn packet(frame: &[u8]) -> Packet {
    let mut args: Vec<String> = Vec::new();
    let mut eal = Eal::new(&mut args, 0, Vec::new(), Vec::new()).unwrap();
    let mut pool = eal.create_mpool("frames", 2, 0, 256, 0, None);
    let mut pkt = pool.allocate().unwrap();
    pkt.fill(frame).unwrap();
    pkt
}

const SRC: [u8; 6] = [0x52, 0x54, 0, 1, 2, 3];
const DST: [u8; 6] = [2, 0, 0, 0, 0, 7];

#[test]
fn set_macs_writes_destination_then_source() {
    let frame: Vec<u8> = (10..30).collect();
    let mut pkt = packet(&frame);
    assert!(set_macs(&mut pkt, SRC, DST));
    let mut expected = vec![2, 0, 0, 0, 0, 7, 0x52, 0x54, 0, 1, 2, 3];
    expected.extend(22..30);
    assert_eq!(pkt.data(), &expected[..]);
    assert_eq!(pkt.len(), 20);
}

#[test]
fn set_macs_twice_is_set_macs_once() {
    let frame: Vec<u8> = (100..164).collect();
    let mut once = packet(&frame);
    let mut twice = packet(&frame);
    assert!(set_macs(&mut once, SRC, DST));
    assert!(set_macs(&mut twice, SRC, DST));
    assert!(set_macs(&mut twice, SRC, DST));
    assert_eq!(once.data(), twice.data());
}

#[test]
fn short_frame_is_left_as_it_is() {
    for len in 0..12usize {
        let frame: Vec<u8> = (0..len as u8).collect();
        let mut pkt = packet(&frame);
        assert!(!set_macs(&mut pkt, SRC, DST));
        assert_eq!(pkt.data(), &frame[..]);
    }
}

#[test]
fn frame_of_twelve_bytes_is_rewritten() {
    let mut pkt = packet(&[9u8; 12]);
    assert!(set_macs(&mut pkt, SRC, DST));
    assert_eq!(pkt.data(), &[2, 0, 0, 0, 0, 7, 0x52, 0x54, 0, 1, 2, 3]);
    let mut longer = packet(&[9u8; 13]);
    assert!(set_macs(&mut longer, SRC, DST));
    assert_eq!(longer.data(), &[2, 0, 0, 0, 0, 7, 0x52, 0x54, 0, 1, 2, 3, 9]);
}

#[test]
fn set_macs_stays_within_the_window() {
    let mut pkt = packet(&[1u8; 20]);
    pkt.trim_head(4).unwrap();
    assert!(set_macs(&mut pkt, SRC, DST));
    assert_eq!(pkt.len(), 16);
    pkt.prepend(4).unwrap();
    assert_eq!(&pkt.data()[..4], &[1, 1, 1, 1]);
    assert_eq!(&pkt.data()[4..10], &DST);
    assert_eq!(&pkt.data()[10..16], &SRC);
    assert_eq!(&pkt.data()[16..], &[1, 1, 1, 1]);
}

#[test]
fn placeholder_address_ends_in_the_low_byte_of_the_port() {
    for (id, low) in [(0u16, 0u8), (5, 5), (255, 255), (256, 0), (0x1234, 0x34)] {
        let mut args: Vec<String> = Vec::new();
        let info = DevInfo {
            port_id: id,
            max_rx_queues: 1,
            max_tx_queues: 1,
            socket_id: 0,
            mac_addr: [0; 6],
        };
        let mut eal = Eal::new(&mut args, 0, vec![info], vec![(LCoreId(0), SocketId(0))]).unwrap();
        let port = eal.ports().unwrap().pop().unwrap();
        let (port, _queues) = port.init(&mut eal, 1, 1, None, &claim()).unwrap();
        assert_eq!(get_fake_dst_mac(&port), [2, 0, 0, 0, 0, low]);
    }
}
