use dpdk::eal::Eal;
use dpdk::mpool::MPool;
use dpdk::packet::{Packet, PacketError, RTE_PKTMBUF_HEADROOM};

fn pool(data_room: usize) -> MPool {
    let mut args: Vec<String> = Vec::new();
    let mut eal = Eal::new(&mut args, 0, Vec::new(), Vec::new()).unwrap();
    assert!(eal.can_create("pkt", 8, data_room, None));
    eal.create_mpool("pkt", 8, 0, data_room, 0, None)
}

fn packet(data_room: usize) -> Packet {
    pool(data_room).allocate().unwrap()
}

#[test]
fn fresh_packet_is_empty_behind_its_headroom() {
    let pkt = packet(2048);
    assert!(pkt.is_empty());
    assert_eq!(pkt.len(), 0);
    assert_eq!(pkt.capacity(), 2048);
    assert_eq!(pkt.data(), &[] as &[u8]);
    assert_eq!(pkt.buffer().len(), 2048 - RTE_PKTMBUF_HEADROOM);
    assert_eq!(pkt.slot(), 0);
}

#[test]
fn fresh_packet_in_a_small_slot_has_no_tailroom() {
    let mut pkt = packet(100);
    assert_eq!(pkt.capacity(), 100);
    assert_eq!(pkt.buffer().len(), 0);
    assert_eq!(pkt.append(1), Err(PacketError::NoTailroom));
    assert_eq!(pkt.prepend(100), Ok(()));
    assert_eq!(pkt.len(), 100);
}

#[test]
fn set_len_stays_within_the_slot() {
    let mut pkt = packet(2048);
    assert_eq!(pkt.set_len(1920), Ok(()));
    assert_eq!(pkt.len(), 1920);
    assert_eq!(pkt.set_len(1921), Err(PacketError::ExceedsCapacity));
    assert_eq!(pkt.len(), 1920);
    assert_eq!(pkt.set_len(usize::MAX), Err(PacketError::ExceedsCapacity));
    assert_eq!(pkt.set_len(0), Ok(()));
    assert!(pkt.is_empty());
}

#[test]
fn fill_sets_the_window() {
    let mut pkt = packet(2048);
    assert_eq!(pkt.fill(&[1, 2, 3, 4, 5]), Ok(()));
    assert_eq!(pkt.len(), 5);
    assert_eq!(pkt.data(), &[1, 2, 3, 4, 5]);
    assert_eq!(&pkt.buffer()[..6], &[1, 2, 3, 4, 5, 0]);
    let big = vec![9u8; 1921];
    assert_eq!(pkt.fill(&big), Err(PacketError::ExceedsCapacity));
    assert_eq!(pkt.data(), &[1, 2, 3, 4, 5]);
}

#[test]
fn trim_head_and_tail_shrink_the_window() {
    let mut pkt = packet(2048);
    pkt.fill(&[1, 2, 3, 4, 5, 6]).unwrap();
    assert_eq!(pkt.trim_head(2), Ok(()));
    assert_eq!(pkt.data(), &[3, 4, 5, 6]);
    assert_eq!(pkt.trim_tail(1), Ok(()));
    assert_eq!(pkt.data(), &[3, 4, 5]);
    assert_eq!(pkt.trim_head(4), Err(PacketError::ExceedsLength));
    assert_eq!(pkt.trim_tail(4), Err(PacketError::ExceedsLength));
    assert_eq!(pkt.data(), &[3, 4, 5]);
    assert_eq!(pkt.trim_head(3), Ok(()));
    assert!(pkt.is_empty());
}

#[test]
fn prepend_and_append_grow_into_the_rooms() {
    let mut pkt = packet(2048);
    pkt.fill(&[7, 8]).unwrap();
    assert_eq!(pkt.prepend(RTE_PKTMBUF_HEADROOM + 1), Err(PacketError::NoHeadroom));
    assert_eq!(pkt.prepend(2), Ok(()));
    assert_eq!(pkt.data(), &[0, 0, 7, 8]);
    assert_eq!(pkt.append(3), Ok(()));
    assert_eq!(pkt.data(), &[0, 0, 7, 8, 0, 0, 0]);
    assert_eq!(pkt.append(2048), Err(PacketError::NoTailroom));
    assert_eq!(pkt.len(), 7);
    assert_eq!(pkt.prepend(RTE_PKTMBUF_HEADROOM - 2), Ok(()));
    assert_eq!(pkt.prepend(1), Err(PacketError::NoHeadroom));
}

#[test]
fn reset_headroom_moves_the_window_back() {
    let mut pkt = packet(2048);
    pkt.fill(&[1, 2, 3, 4]).unwrap();
    pkt.trim_head(2).unwrap();
    assert_eq!(pkt.reset_headroom(), Ok(()));
    assert_eq!(pkt.data(), &[1, 2]);
    assert_eq!(pkt.prepend(RTE_PKTMBUF_HEADROOM), Ok(()));
    assert_eq!(pkt.set_len(2048), Ok(()));
    assert_eq!(pkt.reset_headroom(), Err(PacketError::ExceedsCapacity));
    assert_eq!(pkt.len(), 2048);
}

#[test]
fn data_mut_writes_into_the_window_only() {
    let mut pkt = packet(2048);
    pkt.fill(&[1, 2, 3]).unwrap();
    pkt.data_mut().copy_from_slice(&[4, 5, 6]);
    assert_eq!(pkt.data(), &[4, 5, 6]);
    assert_eq!(pkt.len(), 3);
    pkt.buffer_mut()[3] = 9;
    assert_eq!(pkt.append(1), Ok(()));
    assert_eq!(pkt.data(), &[4, 5, 6, 9]);
}

#[test]
fn private_data_is_zeroed_and_rounded_up() {
    let mut args: Vec<String> = Vec::new();
    let mut eal = Eal::new(&mut args, 0, Vec::new(), Vec::new()).unwrap();
    let mut pool = eal.create_mpool("meta", 2, 0, 256, 5, None);
    let mut pkt = pool.allocate().unwrap();
    assert_eq!(pkt.priv_data(), &[0u8; 8]);
    pkt.priv_data_mut()[7] = 3;
    assert_eq!(pkt.priv_data(), &[0, 0, 0, 0, 0, 0, 0, 3]);
    assert!(pkt.is_empty());
}
