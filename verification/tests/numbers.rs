use crab::arith::extended_number::{ExtendedNumber, MINUS_INFINITY, PLUS_INFINITY};
use crab::arith::linear_constraint::{expr_eq, geq, leq, lt, neq};
use crab::arith::linear_expression::LinearExpression;
use crab::arith::number::Number;
use crab::arith::variable::Variable;
use crab::interval::Interval;

fn n(x: i128) -> Number {
    Number::of(x)
}

fn pair(a: i64, b: i64) -> Interval {
    Interval::from_i64_pair(a, b)
}

fn shown(i: Interval) -> String {
    i.to_string()
}

#[test]
fn numbers_stay_within_their_range() {
    assert_eq!(n(i128::MAX).add(n(1)), n(i128::MAX));
    assert_eq!(n(i128::MIN).sub(n(1)), n(i128::MIN));
    assert_eq!(n(i128::MIN).neg(), n(i128::MAX));
    assert_eq!(n(i128::MAX).mul(n(-2)), n(i128::MIN));
    assert_eq!(n(-7).div(n(2)), n(-3));
    assert_eq!(n(-7).rem(n(2)), n(-1));
    assert_eq!(n(6).bit_and(n(3)), n(2));
    assert_eq!(n(6).bit_or(n(3)), n(7));
    assert_eq!(n(6).bit_xor(n(3)), n(5));
    assert_eq!(n(-5).shr(1), n(-3));
    assert_eq!(n(5).fill_ones(), n(7));
    assert_eq!(n(-4).abs(), n(4));
}

#[test]
fn numbers_at_widths() {
    assert_eq!(n(-1).zero_extend(8), n(255));
    assert_eq!(n(255).sign_extend(8), n(-1));
    assert_eq!(n(200).cast_to_signed_width(8), n(-56));
    assert_eq!(n(-1).cast_to_unsigned_width(16), n(65535));
    assert_eq!(Number::min_int(8), n(-128));
    assert_eq!(Number::max_int(8), n(127));
    assert_eq!(Number::max_uint(8), n(255));
    assert!(n(255).fits_cast_to(8));
    assert!(!n(256).fits_cast_to(8));
    assert!(!n(-1).fits_unsigned(8));
    assert_eq!(n(-12).to_string(), "-12");
    assert_eq!(n(0).to_string(), "0");
    assert_eq!(n(1 << 63).to_i64(), None);
    assert_eq!(n(1 << 63).to_u64(), Some(1 << 63));
}

#[test]
fn extended_numbers() {
    let two = ExtendedNumber::Finite(n(2));
    assert_eq!(two.add(PLUS_INFINITY), PLUS_INFINITY);
    assert_eq!(two.sub(PLUS_INFINITY), MINUS_INFINITY);
    assert_eq!(ExtendedNumber::Finite(n(0)).mul(MINUS_INFINITY), ExtendedNumber::Finite(n(0)));
    assert_eq!(ExtendedNumber::Finite(n(-3)).mul(MINUS_INFINITY), PLUS_INFINITY);
    assert_eq!(two.div(PLUS_INFINITY), ExtendedNumber::Finite(n(0)));
    assert!(MINUS_INFINITY.lt(&two) && two.le(&PLUS_INFINITY));
    assert_eq!(PLUS_INFINITY.to_string(), "+oo");
    assert_eq!(MINUS_INFINITY.neg(), PLUS_INFINITY);
}

#[test]
fn interval_divisions() {
    assert_eq!(shown(pair(10, 20).div(&pair(2, 5))), "[2, 10]");
    assert_eq!(shown(pair(10, 20).sdiv(&pair(2, 5))), "[2, 10]");
    assert_eq!(shown(pair(4, 8).sdiv(&pair(-2, -2))), "[-4, -2]");
    assert_eq!(shown(pair(-7, 9).sdiv(&pair(-2, -2))), "[-4, 3]");
    assert_eq!(shown(pair(4, 8).div(&pair(-2, -2))), "[-4, -2]");
    assert_eq!(shown(pair(4, 9).sdiv(&pair(-4, 2))), "[-9, 9]");
    assert_eq!(shown(pair(10, 20).udiv(&pair(2, 5))), "[2, 10]");
    assert_eq!(shown(pair(10, 20).srem(&pair(3, 7))), "[0, 6]");
    assert_eq!(shown(pair(-10, 20).srem(&pair(3, 7))), "[-6, 6]");
    assert_eq!(Interval::from_i64(-7).srem(&Interval::from_i64(4)).singleton(), Some(n(-3)));
    assert_eq!(Interval::from_i64(17).urem(&Interval::from_i64(5)).singleton(), Some(n(2)));
}

#[test]
fn interval_bits() {
    assert_eq!(Interval::from_i64(6).bitwise_and(&Interval::from_i64(3)).singleton(), Some(n(2)));
    assert_eq!(Interval::from_i64(6).bitwise_or(&Interval::from_i64(3)).singleton(), Some(n(7)));
    assert_eq!(Interval::from_i64(6).bitwise_xor(&Interval::from_i64(3)).singleton(), Some(n(5)));
    assert_eq!(shown(pair(1, 2).shl(&Interval::from_i64(3))), "[8, 16]");
    assert_eq!(shown(pair(8, 16).lshr(&Interval::from_i64(2))), "[2, 4]");
    assert_eq!(shown(pair(8, 16).ashr(&Interval::from_i64(2))), "[2, 4]");
    assert_eq!(Interval::from_i64(255).sign_extend(8).singleton(), Some(n(-1)));
    assert_eq!(Interval::from_i64(-1).zero_extend(8).singleton(), Some(n(255)));
    assert_eq!(shown(pair(-1, 1).zero_extend(8)), "[0, 255]");
    assert_eq!(shown(pair(127, 128).sign_extend(8)), "[-128, 127]");
    assert_eq!(shown(Interval::nonnegative(8)), "[0, 127]");
    assert_eq!(shown(Interval::negative(8)), "[-128, -1]");
    assert_eq!(shown(Interval::unsigned_high(8)), "[128, 255]");
}

fn samples() -> Vec<Interval> {
    vec![pair(-3, -1), pair(-2, 2), pair(0, 0), pair(1, 4), Interval::new(MINUS_INFINITY, ExtendedNumber::from(1)), Interval::new(ExtendedNumber::from(-1), PLUS_INFINITY), Interval::top()]
}

#[test]
fn results_hold_the_results_of_members() {
    for a in samples() {
        for b in samples() {
            for x in -4..5i128 {
                for y in -4..5i128 {
                    if !a.contains(&n(x)) || !b.contains(&n(y)) {
                        continue;
                    }
                    assert!(a.add(&b).contains(&n(x + y)));
                    assert!(a.sub(&b).contains(&n(x - y)));
                    assert!(a.mul(&b).contains(&n(x * y)));
                    assert!(a.negate().contains(&n(-x)));
                    assert!(a.join(&b).contains(&n(x)) && a.join(&b).contains(&n(y)));
                    assert!(a.widen(&b).contains(&n(x)) && a.widen(&b).contains(&n(y)));
                    assert_eq!(a.meet(&b).contains(&n(x)), b.contains(&n(x)));
                    assert!(a.sign_extend(3).contains(&n(x).sign_extend(3)));
                    assert!(a.zero_extend(3).contains(&n(x).zero_extend(3)));
                    if b.contains(&n(x)) {
                        assert!(a.narrow(&b).contains(&n(x)));
                    }
                }
            }
            assert!(a.is_included_in(&a.join(&b)));
            assert!(a.meet(&b).is_included_in(&a));
            assert_eq!(shown(a.widen(&b).widen(&b)), shown(a.widen(&b)));
        }
    }
}

#[test]
fn linear_expressions() {
    let x = LinearExpression::from_variable(Variable::new(3));
    let y = LinearExpression::from_variable(Variable::new(4));
    let e = x.plus(&y).plus_constant(&n(5));
    assert_eq!(e.constant, n(5));
    assert_eq!(e.terms.len(), 2);
    let d = e.subtract(&y);
    assert_eq!(d.terms.len(), 1);
    assert_eq!(e.negate().constant, n(-5));
    assert!(LinearExpression::from_i64(2).is_constant());
    assert!(leq(LinearExpression::from_i64(2), LinearExpression::from_i64(2)).is_tautology());
    assert!(lt(LinearExpression::from_i64(2), LinearExpression::from_i64(2)).is_contradiction());
    assert!(geq(LinearExpression::from_i64(3), LinearExpression::from_i64(2)).is_tautology());
    assert!(expr_eq(x.subtract(&x), LinearExpression::from_i64(0)).is_tautology());
    assert!(!neq(Variable::new(1), Variable::new(2)).is_tautology());
}

#[test]
fn words_under_interval_operations() {
    let spans = [(0i64, 0i64), (0, 3), (2, 5), (4, 4), (1, 9), (7, 12)];
    for (al, ah) in spans {
        for (bl, bh) in spans {
            let (a, b) = (pair(al, ah), pair(bl, bh));
            for v in al..ah + 1 {
                for w in bl..bh + 1 {
                    let holds = |i: Interval, x: i64| i.contains(&n(x as i128));
                    assert!(holds(a.bitwise_and(&b), v & w));
                    assert!(holds(a.bitwise_or(&b), v | w));
                    assert!(holds(a.bitwise_xor(&b), v ^ w));
                    assert!(holds(a.lshr(&b), v >> w));
                    assert!(holds(a.shl(&b), v << w));
                    assert!(holds(a.udiv(&b), if w == 0 { 0 } else { v / w }));
                    assert!(holds(a.urem(&b), if w == 0 { v } else { v % w }));
                    for (x, y) in [(v, w), (-v, w), (v, -w), (-v, -w)] {
                        let (p, q) = (if x == v { a } else { a.negate() }, if y == w { b } else { b.negate() });
                        assert!(holds(p.srem(&q), if y == 0 { x } else { x % y }));
                    }
                }
            }
        }
    }
    assert_eq!(shown(Interval::from_i64(13).lshr(&Interval::from_i64(2))), "[3, 3]");
    assert_eq!(shown(pair(3, 9).bitwise_or(&pair(0, 4))), "[0, 15]");
}
