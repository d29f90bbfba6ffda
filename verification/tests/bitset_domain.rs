use crab::bitset_domain::BitsetDomain;

const TEST_SIZE: i32 = 4096;

fn new() -> BitsetDomain {
    BitsetDomain::new(TEST_SIZE)
}

#[test]
fn test_default_is_top() {
    let d = new();
    assert!(d.is_top());
    assert!(!d.is_bottom());
}

#[test]
fn test_reset_and_all_num() {
    let mut d = new();
    d.reset(100, 4);
    assert!(d.all_num(100, 104));
    assert!(!d.all_num(100, 105));
}

#[test]
fn test_uniformity() {
    let mut d = new();
    assert_eq!(d.uniformity(0, 4), (false, true));
    d.reset(0, 4);
    assert_eq!(d.uniformity(0, 4), (true, false));
}

#[test]
fn bitset_domain_test_join() {
    let mut a = new();
    a.set_to_bottom();
    a.reset(0, 4);
    let mut b = new();
    b.set_to_bottom();
    b.reset(2, 4);
    let c = a.join(&b);
    assert!(!c.get_bit(0));
    assert!(!c.get_bit(1));
}

#[test]
fn test_join_meaningful() {
    let mut a = new();
    a.reset(0, 4);
    let mut b = new();
    b.reset(2, 4);
    let c = a.join(&b);
    assert!(c.get_bit(0));
    assert!(c.get_bit(1));
    assert!(!c.get_bit(2));
    assert!(!c.get_bit(3));
    assert!(c.get_bit(4));
    assert!(c.get_bit(5));
}

#[test]
fn test_all_num_width() {
    let mut d = new();
    d.reset(10, 5);
    assert_eq!(d.all_num_width(10), 5);
    assert_eq!(d.all_num_width(12), 3);
}

#[test]
fn test_havoc() {
    let mut d = new();
    d.set_to_bottom();
    d.havoc(0, 4);
    assert_eq!(d.uniformity(0, 4), (false, true));
}

#[test]
fn test_clone_independence() {
    let mut a = new();
    a.reset(0, 8);
    let b = a.copy();
    assert!(!b.get_bit(0));
    a.set_to_top();
    assert!(!b.get_bit(0));
    assert!(a.get_bit(0));
}

#[test]
fn bitset_domain_test_is_included_in() {
    let mut a = new();
    a.set_to_bottom();
    a.havoc(10, 5);
    let mut b = new();
    b.set_to_bottom();
    b.havoc(8, 10);
    assert!(a.is_included_in(&b));
    assert!(!b.is_included_in(&a));
}

#[test]
fn bitset_domain_test_meet() {
    let mut a = new();
    a.reset(0, 4);
    let mut b = new();
    b.reset(2, 4);
    let c = a.meet(&b);
    assert!(!c.get_bit(0));
    assert!(!c.get_bit(2));
    assert!(!c.get_bit(4));
    assert!(c.get_bit(6));
}

#[test]
fn test_word_boundary() {
    let mut d = new();
    d.reset(62, 4);
    assert!(!d.get_bit(62));
    assert!(!d.get_bit(63));
    assert!(!d.get_bit(64));
    assert!(!d.get_bit(65));
    assert!(d.get_bit(61));
    assert!(d.get_bit(66));
    assert!(d.all_num(62, 66));
    assert_eq!(d.all_num_width(62), 4);
}

#[test]
fn test_custom_size() {
    let d = BitsetDomain::new(256);
    assert_eq!(d.len(), 256);
    assert!(d.is_top());
}
