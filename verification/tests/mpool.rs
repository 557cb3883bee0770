use arrayvec::ArrayVec;
use dpdk::eal::Eal;
use dpdk::mpool::MPool;
use dpdk::packet::Packet;

fn eal() -> Eal {
    let mut args: Vec<String> = Vec::new();
    Eal::new(&mut args, 0, Vec::new(), Vec::new()).unwrap()
}

fn pool(eal: &mut Eal, name: &str, n: usize) -> MPool {
    eal.create_mpool(name, n, 0, 2048, 0, None)
}

#[test]
fn pool_of_four_gives_four_buffers_and_then_nothing() {
    let mut eal = eal();
    let mut pool = pool(&mut eal, "four", 4);
    let a = pool.allocate().unwrap();
    let b = pool.allocate().unwrap();
    let c = pool.allocate().unwrap();
    let d = pool.allocate().unwrap();
    assert!(pool.allocate().is_none());
    assert_eq!(pool.available(), 0);
    assert!(pool.release(b));
    let again = pool.allocate();
    assert!(again.is_some());
    assert_eq!(again.unwrap().slot(), 1);
    assert!(pool.allocate().is_none());
    assert_eq!((a.slot(), c.slot(), d.slot()), (0, 2, 3));
}

#[test]
fn slots_leave_in_their_order() {
    let mut eal = eal();
    let mut pool = pool(&mut eal, "order", 3);
    assert_eq!(pool.capacity(), 3);
    assert_eq!(pool.available(), 3);
    assert!(pool.is_full());
    let slots: Vec<usize> = (0..3).map(|_| pool.allocate().unwrap().slot()).collect();
    assert_eq!(slots, vec![0, 1, 2]);
    assert!(!pool.is_full());
    assert_eq!(pool.refcnt(1), 1);
    assert_eq!(pool.refcnt(3), 0);
}

#[test]
fn release_refuses_what_the_pool_does_not_hold() {
    let mut eal = eal();
    let mut one = pool(&mut eal, "one", 2);
    let mut two = pool(&mut eal, "two", 2);
    let pkt = one.allocate().unwrap();
    assert!(!two.release(pkt));
    assert_eq!(two.available(), 2);
    assert_eq!(one.available(), 1);
    let pkt = one.allocate().unwrap();
    let copy = one.share(&pkt).unwrap();
    assert!(one.release(pkt));
    assert!(one.release(copy));
    assert_eq!(one.refcnt(1), 0);
}

#[test]
fn shared_slot_is_free_after_its_last_handle() {
    let mut eal = eal();
    let mut pool = pool(&mut eal, "share", 1);
    let mut pkt = pool.allocate().unwrap();
    pkt.fill(&[1, 2, 3]).unwrap();
    let copy = pool.share(&pkt).unwrap();
    assert_eq!(copy.data(), &[1, 2, 3]);
    assert_eq!(copy.slot(), pkt.slot());
    assert_eq!(pool.refcnt(0), 2);
    assert!(pool.release(pkt));
    assert_eq!(pool.available(), 0);
    assert!(pool.allocate().is_none());
    assert!(pool.release(copy));
    assert_eq!(pool.available(), 1);
    assert!(pool.is_full());
}

#[test]
fn share_refuses_a_foreign_buffer() {
    let mut eal = eal();
    let mut one = pool(&mut eal, "a", 1);
    let mut two = pool(&mut eal, "b", 1);
    let pkt = one.allocate().unwrap();
    assert!(two.share(&pkt).is_none());
    assert_eq!(two.refcnt(0), 0);
}

#[test]
fn alloc_bulk_fills_the_burst_or_does_nothing() {
    let mut eal = eal();
    let mut pool = pool(&mut eal, "bulk", 40);
    let mut burst: ArrayVec<Packet, 32> = ArrayVec::new();
    burst.push(pool.allocate().unwrap());
    burst.push(pool.allocate().unwrap());
    assert!(pool.alloc_bulk(&mut burst));
    assert_eq!(burst.len(), 32);
    assert_eq!(pool.available(), 8);
    let slots: Vec<usize> = burst.iter().map(|p| p.slot()).collect();
    assert_eq!(slots, (0..32).collect::<Vec<usize>>());
    let mut second: ArrayVec<Packet, 32> = ArrayVec::new();
    assert!(!pool.alloc_bulk(&mut second));
    assert_eq!(second.len(), 0);
    assert_eq!(pool.available(), 8);
    assert!(pool.alloc_bulk(&mut burst));
    assert_eq!(burst.len(), 32);
    assert_eq!(pool.available(), 8);
}

#[test]
fn every_slot_is_released_once() {
    let mut eal = eal();
    let mut pool = pool(&mut eal, "once", 16);
    let mut out: Vec<Packet> = Vec::new();
    for _ in 0..16 {
        out.push(pool.allocate().unwrap());
    }
    let mut released = vec![0usize; 16];
    for pkt in out {
        let slot = pkt.slot();
        assert_eq!(pool.refcnt(slot), 1);
        assert!(pool.release(pkt));
        assert_eq!(pool.refcnt(slot), 0);
        released[slot] += 1;
    }
    assert_eq!(released, vec![1usize; 16]);
    assert!(pool.is_full());
}

#[test]
fn share_copies_no_byte_until_a_handle_is_written_through() {
    let mut args: Vec<String> = Vec::new();
    let mut eal = Eal::new(&mut args, 0, Vec::new(), Vec::new()).unwrap();
    let mut pool = eal.create_mpool("shared", 2, 0, 256, 4, None);
    let mut pkt = pool.allocate().unwrap();
    pkt.fill(&[1, 2, 3]).unwrap();
    let copy = pool.share(&pkt).unwrap();
    assert_eq!(pool.refcnt(0), 2);
    assert_eq!(copy.data().as_ptr(), pkt.data().as_ptr());
    assert_eq!(copy.priv_data().as_ptr(), pkt.priv_data().as_ptr());
    pkt.data_mut()[0] = 9;
    assert_eq!(pkt.data(), &[9, 2, 3]);
    assert_eq!(copy.data(), &[1, 2, 3]);
    assert_ne!(copy.data().as_ptr(), pkt.data().as_ptr());
    assert!(pool.release(copy));
    let before = pkt.data().as_ptr();
    pkt.data_mut()[1] = 8;
    assert_eq!(pkt.data().as_ptr(), before);
    assert_eq!(pkt.data(), &[9, 8, 3]);
    assert!(pool.release(pkt));
    assert!(pool.is_full());
}
