use dpdk::common::{rte_errno, ProcType};
use dpdk::ids::Affinity;
use dpdk::utils::{port_enabled, ConfigurationError, Opt};

#[test]
fn process_kinds_have_their_numbers() {
    assert_eq!(ProcType::Auto.to_i32(), -1);
    assert_eq!(ProcType::Primary.to_i32(), 0);
    assert_eq!(ProcType::Secondary.to_i32(), 1);
    assert_eq!(ProcType::Invalid.to_i32(), 2);
    for n in -1..=2 {
        assert_eq!(ProcType::from_i32(n).unwrap().to_i32(), n);
    }
    assert_eq!(ProcType::from_i32(-2), None);
    assert_eq!(ProcType::from_i32(3), None);
    assert_eq!(ProcType::from_i32(0), Some(ProcType::Primary));
}

#[test]
fn errno_is_always_zero() {
    assert_eq!(rte_errno(), 0);
    assert_ne!(Affinity::Full, Affinity::Numa);
}

#[test]
fn port_mask_selects_by_bit() {
    assert!(port_enabled(None, 0));
    assert!(port_enabled(None, 1000));
    assert!(port_enabled(Some(0b101), 0));
    assert!(!port_enabled(Some(0b101), 1));
    assert!(port_enabled(Some(0b101), 2));
    assert!(port_enabled(Some(1 << 63), 63));
    assert!(!port_enabled(Some(u64::MAX), 64));
    assert!(!port_enabled(Some(0), 5));
}

#[test]
fn options_are_held_to_their_limits() {
    assert_eq!(Opt::new(None, 0, 10), Err(ConfigurationError::NoQueuesPerLcore));
    assert_eq!(
        Opt::new(Some(3), 2, 10),
        Ok(Opt { portmask: Some(3), queues_per_lcore: 2, stats_period: 10 })
    );
    assert_eq!(Opt::new(None, 1, 0).unwrap().stats_period, 0);
    assert_eq!(Opt::new(None, 1, 86399).unwrap().stats_period, 86399);
    assert_eq!(Opt::new(None, 1, 86400).unwrap().stats_period, 86399);
    assert_eq!(Opt::new(None, 1, u32::MAX).unwrap().stats_period, 86399);
}
