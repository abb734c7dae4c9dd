use reactive_fabric::actor::Address;
use reactive_fabric::address_map::AddressSet;
use reactive_fabric::basis::{BasisStamp, Iteration};

fn addr(index: usize) -> Address {
    Address { index }
}

#[test]
fn empty_stamp_records_nothing() {
    let stamp = BasisStamp::empty();
    assert!(stamp.is_empty());
    assert_eq!(stamp.latest(addr(3)), Iteration(0));
}

#[test]
fn add_keeps_the_later_iteration() {
    let mut stamp = BasisStamp::empty();
    stamp.add(addr(1), Iteration(4));
    stamp.add(addr(1), Iteration(2));
    assert_eq!(stamp.latest(addr(1)), Iteration(4));
    stamp.add(addr(1), Iteration(7));
    assert_eq!(stamp.latest(addr(1)), Iteration(7));
    assert!(!stamp.is_empty());
}

#[test]
fn merge_takes_the_pointwise_maximum() {
    let mut a = BasisStamp::empty();
    a.add(addr(1), Iteration(3));
    a.add(addr(2), Iteration(1));
    let mut b = BasisStamp::empty();
    b.add(addr(2), Iteration(5));
    b.add(addr(3), Iteration(2));
    a.merge_from(&b);
    assert_eq!(a.latest(addr(1)), Iteration(3));
    assert_eq!(a.latest(addr(2)), Iteration(5));
    assert_eq!(a.latest(addr(3)), Iteration(2));
}

#[test]
fn precedence_looks_at_the_given_roots_only() {
    let mut a = BasisStamp::empty();
    a.add(addr(1), Iteration(3));
    a.add(addr(2), Iteration(9));
    let mut b = BasisStamp::empty();
    b.add(addr(1), Iteration(3));
    let mut roots = AddressSet::new();
    roots.insert(addr(1));
    assert!(a.prec_eq_wrt_roots(&b, &roots));
    assert!(b.prec_eq_wrt_roots(&a, &roots));
    roots.insert(addr(2));
    assert!(!a.prec_eq_wrt_roots(&b, &roots));
    assert!(b.prec_eq_wrt_roots(&a, &roots));
}
