use dpdk::headers::UdpFlow;
use dpdk::pkt_perf::{
    can_nat_etherparse, can_nat_smoltcp, nat_etherparse, nat_etherparse_fast_cursor,
    nat_etherparse_fast_slice, nat_pnet, nat_smoltcp, rebuild, try_nat_etherparse,
};

fn sample() -> Vec<u8> {
    let mut v = vec![
        7, 8, 9, 10, 11, 12, 1, 2, 3, 4, 5, 6, 8, 0, 69, 0, 0, 36, 0, 0, 64, 0, 20, 17, 227, 117,
        192, 168, 1, 1, 192, 168, 1, 2, 21, 179, 30, 97, 0, 16, 56, 82, 1, 2, 3, 4, 5, 6, 7, 8,
    ];
    v.extend(vec![0u8; 100]);
    v
}

fn expected() -> Vec<u8> {
    let mut v = sample();
    v[..6].copy_from_slice(&[100, 101, 102, 103, 104, 105]);
    v[6..12].copy_from_slice(&[200, 201, 202, 203, 204, 205]);
    v[30..34].copy_from_slice(&[10, 0, 0, 1]);
    v
}

#[test]
fn nat_pnet_rewrites_the_addresses() {
    let mut buf = sample();
    nat_pnet(&mut buf);
    assert_eq!(buf, expected());
    assert_ne!(buf, sample());
    let mut least = vec![0xaau8; 34];
    nat_pnet(&mut least);
    assert_eq!(&least[..6], &[100, 101, 102, 103, 104, 105]);
    assert_eq!(&least[6..12], &[200, 201, 202, 203, 204, 205]);
    assert_eq!(&least[12..30], &[0xaau8; 18]);
    assert_eq!(&least[30..], &[10, 0, 0, 1]);
}

#[test]
fn nat_smoltcp_rewrites_the_addresses() {
    let mut buf = sample();
    assert!(can_nat_smoltcp(&buf));
    nat_smoltcp(&mut buf);
    assert_eq!(buf, expected());
    assert_ne!(buf, sample());
}

#[test]
fn the_crates_agree() {
    let mut a = sample();
    let mut b = sample();
    nat_pnet(&mut a);
    nat_smoltcp(&mut b);
    assert_eq!(a, b);
}

#[test]
fn nat_smoltcp_asks_for_lengths_that_fit() {
    assert!(!can_nat_smoltcp(&[0u8; 13]));
    assert!(!can_nat_smoltcp(&sample()[..33]));
    let mut short_header = sample();
    short_header[14] = 0x44;
    assert!(!can_nat_smoltcp(&short_header));
    let mut long_header = sample();
    long_header[14] = 0x4f;
    assert!(!can_nat_smoltcp(&long_header));
    let mut long_packet = sample();
    long_packet[16] = 1;
    assert!(!can_nat_smoltcp(&long_packet));
    let mut small_total = sample();
    small_total[17] = 19;
    assert!(!can_nat_smoltcp(&small_total));
    let mut exact = sample();
    exact.truncate(14 + 36);
    assert!(can_nat_smoltcp(&exact));
    exact.truncate(14 + 35);
    assert!(!can_nat_smoltcp(&exact));
}

#[test]
fn nat_etherparse_fast_cursor_rewrites_the_addresses() {
    let mut buf = sample();
    assert!(can_nat_etherparse(&buf));
    nat_etherparse_fast_cursor(&mut buf);
    assert_eq!(buf, expected());
}

#[test]
fn nat_etherparse_fast_slice_rewrites_the_addresses() {
    let mut buf = sample();
    nat_etherparse_fast_slice(&mut buf);
    assert_eq!(buf, expected());
}

#[test]
fn etherparse_drops_the_highest_flag_bit() {
    let mut with_flag = sample();
    with_flag[20] = 0xe5;
    with_flag[21] = 0x77;
    let mut want = expected();
    want[20] = 0x65;
    want[21] = 0x77;
    let mut a = with_flag.clone();
    nat_etherparse_fast_cursor(&mut a);
    assert_eq!(a, want);
    let mut b = with_flag.clone();
    nat_etherparse_fast_slice(&mut b);
    assert_eq!(b, want);
}

#[test]
fn etherparse_keeps_the_options() {
    let mut frame = sample();
    frame[14] = 0x47;
    frame[16] = 0;
    frame[17] = 28;
    for i in 34..42 {
        frame[i] = i as u8;
    }
    assert!(can_nat_etherparse(&frame));
    let mut want = frame.clone();
    want[..6].copy_from_slice(&[100, 101, 102, 103, 104, 105]);
    want[6..12].copy_from_slice(&[200, 201, 202, 203, 204, 205]);
    want[30..34].copy_from_slice(&[10, 0, 0, 1]);
    let mut a = frame.clone();
    nat_etherparse_fast_cursor(&mut a);
    assert_eq!(a, want);
    let mut b = frame.clone();
    nat_etherparse_fast_slice(&mut b);
    assert_eq!(b, want);
}

#[test]
fn etherparse_asks_for_a_header_that_can_be_read() {
    assert!(!can_nat_etherparse(&[0u8; 10]));
    assert!(!can_nat_etherparse(&sample()[..33]));
    assert!(can_nat_etherparse(&sample()[..34]));
    let mut v6 = sample();
    v6[14] = 0x65;
    assert!(!can_nat_etherparse(&v6));
    let mut short_header = sample();
    short_header[14] = 0x44;
    assert!(!can_nat_etherparse(&short_header));
    let mut long_header = sample();
    long_header[14] = 0x4f;
    long_header.truncate(14 + 59);
    assert!(!can_nat_etherparse(&long_header));
    let mut small_total = sample();
    small_total[17] = 19;
    assert!(!can_nat_etherparse(&small_total));
    let mut big_total = sample();
    big_total[16] = 0xff;
    assert!(can_nat_etherparse(&big_total));
}

#[test]
fn nat_etherparse_builds_the_datagram_anew() {
    let mut buf = sample();
    let built = nat_etherparse(&mut buf);
    assert_eq!(buf, sample());
    assert_eq!(built.len(), 42);
    assert_eq!(&built[..6], &[200, 201, 202, 203, 204, 205]);
    assert_eq!(&built[6..12], &[100, 101, 102, 103, 104, 105]);
    assert_eq!(&built[12..14], &[8, 0]);
    assert_eq!(built[14], 0x45);
    assert_eq!(&built[16..18], &[0, 28]);
    assert_eq!(built[22], 20);
    assert_eq!(built[23], 17);
    assert_eq!(&built[26..30], &[192, 168, 1, 1]);
    assert_eq!(&built[30..34], &[10, 0, 0, 1]);
    assert_eq!(&built[34..38], &[21, 179, 30, 97]);
    assert_eq!(&built[38..40], &[0, 8]);
    let flow =
        UdpFlow { ip_source: [192, 168, 1, 1], ttl: 20, source_port: 5555, destination_port: 7777 };
    assert_eq!(rebuild(flow), built);
    let other =
        UdpFlow { ip_source: [192, 168, 1, 1], ttl: 19, source_port: 5555, destination_port: 7777 };
    assert_ne!(rebuild(other), built);
}

#[test]
fn try_nat_etherparse_takes_udp_over_ipv4_only() {
    let mut udp = sample();
    assert_eq!(try_nat_etherparse(&mut udp), Some(nat_etherparse(&mut sample())));
    let mut tcp = sample();
    tcp[23] = 6;
    assert_eq!(try_nat_etherparse(&mut tcp), None);
    let mut arp = sample();
    arp[12] = 8;
    arp[13] = 6;
    assert_eq!(try_nat_etherparse(&mut arp), None);
    let mut short = sample();
    short.truncate(20);
    assert_eq!(try_nat_etherparse(&mut short), None);
    assert_eq!(short, &sample()[..20]);
}
