use ipcp::termination::Termination;
use ipcp::value::{Delta, Overflow, Width};

#[test]
fn limits_of_the_widths() {
    assert_eq!(Width::W8.max(), 255);
    assert_eq!(Width::W16.max(), 65_535);
    assert_eq!(Width::W32.max(), 4_294_967_295);
    assert_eq!(Width::W64.max(), u64::MAX);
    assert!(Width::W8.contains(255));
    assert!(!Width::W8.contains(256));
}

#[test]
fn update_within_the_range_is_exact_under_every_mode() {
    for mode in [Overflow::Fault, Overflow::Wrap, Overflow::Saturate] {
        assert_eq!(Width::W8.update(254, Delta::Add(1), mode), Some(255));
        assert_eq!(Width::W8.update(1, Delta::Sub(1), mode), Some(0));
        assert_eq!(Width::W32.update(9, Delta::Add(0), mode), Some(9));
    }
}

#[test]
fn overflow_is_a_fault_under_fault_mode() {
    assert_eq!(Width::W8.update(255, Delta::Add(1), Overflow::Fault), None);
    assert_eq!(Width::W8.update(0, Delta::Sub(1), Overflow::Fault), None);
    assert_eq!(Width::W64.update(u64::MAX, Delta::Add(1), Overflow::Fault), None);
    assert_eq!(Width::W32.update(4_294_967_295, Delta::Add(1), Overflow::Fault), None);
}

#[test]
fn overflow_wraps_modulo_the_range() {
    assert_eq!(Width::W8.update(255, Delta::Add(1), Overflow::Wrap), Some(0));
    assert_eq!(Width::W8.update(200, Delta::Add(100), Overflow::Wrap), Some(44));
    assert_eq!(Width::W8.update(0, Delta::Sub(1), Overflow::Wrap), Some(255));
    assert_eq!(Width::W8.update(3, Delta::Sub(515), Overflow::Wrap), Some(0));
    assert_eq!(Width::W8.update(3, Delta::Sub(516), Overflow::Wrap), Some(255));
    assert_eq!(Width::W8.update(5, Delta::Add(u64::MAX), Overflow::Wrap), Some(4));
    assert_eq!(Width::W16.update(65_535, Delta::Add(2), Overflow::Wrap), Some(1));
    assert_eq!(Width::W32.update(0, Delta::Sub(1), Overflow::Wrap), Some(4_294_967_295));
    assert_eq!(Width::W64.update(u64::MAX, Delta::Add(u64::MAX), Overflow::Wrap), Some(u64::MAX - 1));
    assert_eq!(Width::W64.update(0, Delta::Sub(u64::MAX), Overflow::Wrap), Some(1));
}

#[test]
fn overflow_saturates_at_the_nearest_end() {
    assert_eq!(Width::W8.update(250, Delta::Add(10), Overflow::Saturate), Some(255));
    assert_eq!(Width::W8.update(5, Delta::Sub(10), Overflow::Saturate), Some(0));
    assert_eq!(Width::W64.update(1, Delta::Add(u64::MAX), Overflow::Saturate), Some(u64::MAX));
}

#[test]
fn wrap_reduces_to_the_width() {
    assert_eq!(Width::W8.wrap(300), 44);
    assert_eq!(Width::W8.wrap(255), 255);
    assert_eq!(Width::W16.wrap(65_536), 0);
    assert_eq!(Width::W32.wrap(u64::MAX), 4_294_967_295);
    assert_eq!(Width::W64.wrap(u64::MAX), u64::MAX);
}

#[test]
fn unit_reports_success() {
    assert_eq!(().report(), 0);
}
