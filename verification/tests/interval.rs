use crab::arith::extended_number::PLUS_INFINITY;
use crab::arith::number::Number;
use crab::interval::{Bound, Interval};

#[test]
fn interval_test_top_and_bottom() {
    assert!(Interval::top().is_top());
    assert!(!Interval::top().is_bottom());
    assert!(Interval::bottom().is_bottom());
    assert!(!Interval::bottom().is_top());
}

#[test]
fn test_singleton() {
    let i = Interval::from_i64(42);
    assert!(i.is_singleton());
    assert_eq!(i.singleton().unwrap(), Number::from(42i64));
}

#[test]
fn test_contains() {
    let i = Interval::from_i64_pair(1, 10);
    assert!(i.contains(&Number::from(5i64)));
    assert!(!i.contains(&Number::from(11i64)));
}

#[test]
fn interval_test_join() {
    let a = Interval::from_i64_pair(1, 5);
    let b = Interval::from_i64_pair(3, 10);
    let c = a.join(&b);
    assert_eq!(c.lb(), &Bound::from(1i64));
    assert_eq!(c.ub(), &Bound::from(10i64));
}

#[test]
fn interval_test_meet() {
    let a = Interval::from_i64_pair(1, 10);
    let b = Interval::from_i64_pair(5, 15);
    let c = a.meet(&b);
    assert_eq!(c.lb(), &Bound::from(5i64));
    assert_eq!(c.ub(), &Bound::from(10i64));
}

#[test]
fn test_meet_empty() {
    let a = Interval::from_i64_pair(1, 5);
    let b = Interval::from_i64_pair(6, 10);
    assert!(a.meet(&b).is_bottom());
}

#[test]
fn test_add() {
    let a = Interval::from_i64_pair(1, 5);
    let b = Interval::from_i64_pair(10, 20);
    let c = a.add(&b);
    assert_eq!(c.lb(), &Bound::from(11i64));
    assert_eq!(c.ub(), &Bound::from(25i64));
}

#[test]
fn test_negate() {
    let a = Interval::from_i64_pair(1, 5);
    let b = a.negate();
    assert_eq!(b.lb(), &Bound::from(-5i64));
    assert_eq!(b.ub(), &Bound::from(-1i64));
}

#[test]
fn test_mul() {
    let a = Interval::from_i64_pair(2, 3);
    let b = Interval::from_i64_pair(4, 5);
    let c = a.mul(&b);
    assert_eq!(c.lb(), &Bound::from(8i64));
    assert_eq!(c.ub(), &Bound::from(15i64));
}

#[test]
fn test_signed_int() {
    let si = Interval::signed_int(8);
    assert_eq!(si.lb(), &Bound::Finite(Number::from(-128i64)));
    assert_eq!(si.ub(), &Bound::Finite(Number::from(127i64)));
}

#[test]
fn test_unsigned_int() {
    let ui = Interval::unsigned_int(8);
    assert_eq!(ui.lb(), &Bound::Finite(Number::from(0i64)));
    assert_eq!(ui.ub(), &Bound::Finite(Number::from(255i64)));
}

#[test]
fn test_widen() {
    let a = Interval::from_i64_pair(0, 5);
    let b = Interval::from_i64_pair(0, 10);
    let c = a.widen(&b);
    assert_eq!(c.lb(), &Bound::from(0i64));
    assert_eq!(c.ub(), &PLUS_INFINITY);
}

#[test]
fn interval_test_is_included_in() {
    let a = Interval::from_i64_pair(2, 5);
    let b = Interval::from_i64_pair(1, 10);
    assert!(a.is_included_in(&b));
    assert!(!b.is_included_in(&a));
}

#[test]
fn test_bottom_is_included_in_everything() {
    assert!(Interval::bottom().is_included_in(&Interval::top()));
    assert!(Interval::bottom().is_included_in(&Interval::from_i64(0)));
}

#[test]
fn interval_test_display() {
    assert_eq!(Interval::from_i64_pair(1, 5).to_string(), "[1, 5]");
    assert_eq!(Interval::bottom().to_string(), "_|_");
    assert_eq!(Interval::top().to_string(), "[-oo, +oo]");
}
