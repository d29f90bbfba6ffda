//! Soundness of the interval operations on words.
use vstd::prelude::*;
use vstd::arithmetic::div_mod::*;
use vstd::arithmetic::power2::*;
use crate::arith::extended_number::ExtendedNumber;
use crate::arith::number;
use crate::arith::number::Number;
use crate::interval::{Division, Interval};
use crate::interval_laws;

verus! {

/// A value of sixty-four bits.
pub open spec fn is_word(x: int) -> bool {
    0 <= x <= u64::MAX
}

/// An interval of values of sixty-four bits.
pub open spec fn words(a: Interval) -> bool {
    &&& a.lb matches ExtendedNumber::Finite(l) && is_word(l@)
    &&& a.ub matches ExtendedNumber::Finite(u) && is_word(u@)
}

/// The logical right shift holds the shifted values.
pub proof fn right_shifts_are_sound(a: Interval, x: Interval, v: int, k: int)
    requires a.has(v), x.has(k), v >= 0, k >= 0,
    ensures a.lshr_spec(x).has(v / (pow2(k as nat) as int)),
{
    let m = pow2(k as nat) as int;
    lemma_pow2_pos(k as nat);
    if let (Some(c), ExtendedNumber::Finite(l), ExtendedNumber::Finite(u)) = (x.singleton_spec(), a.lb, a.ub) {
        assert(c@ == k);
        if k > 0 && l@ >= 0 {
            lemma_div_is_ordered(l@, v, m);
            lemma_div_is_ordered(v, u@, m);
            lemma_div_pos_is_pos(l@, m);
            lemma_div_nonincreasing(u@, m);
        }
    }
}

/// The left shift by a number of bits below the width of numbers holds the products.
pub proof fn left_shifts_are_sound(a: Interval, x: Interval, v: int, k: int)
    requires a.has(v), x.has(k), 0 <= k < 127, interval_laws::representable(v), interval_laws::representable(v * pow2(k as nat)),
    ensures a.shl_spec(x).has(v * pow2(k as nat)),
{
    if let Some(c) = x.singleton_spec() {
        assert(c@ == k);
        number::lemma_pow2_127();
        lemma_pow2_strictly_increases(k as nat, 127);
        let f = Number::nearest(pow2(k as nat) as int);
        lemma_pow2_pos(k as nat);
        assert(f@ == pow2(k as nat));
        interval_laws::multiplication_is_sound(a, Interval::point(f), v, f@);
    }
}

pub proof fn lemma_mask(v: u64, w: u64)
    ensures
        v & w <= v,
        v & w <= w,
        (v as i128) & (w as i128) == (v & w) as i128,
        (v as i128) | (w as i128) == (v | w) as i128,
        (v as i128) ^ (w as i128) == (v ^ w) as i128,
        v & 0xffff_ffff == v % 0x1_0000_0000,
        v & 0xffff == v % 0x1_0000,
        v & 0xff == v % 0x100,
        v & 0xffff_ffff_ffff_ffff == v,
        0u64 & w == 0,
        v & 0u64 == 0,
{
    assert(v & w <= v && v & w <= w) by (bit_vector);
    assert((v as i128) & (w as i128) == (v & w) as i128) by (bit_vector);
    assert((v as i128) | (w as i128) == (v | w) as i128) by (bit_vector);
    assert((v as i128) ^ (w as i128) == (v ^ w) as i128) by (bit_vector);
    assert(v & 0xffff_ffff == v % 0x1_0000_0000 && v & 0xffff == v % 0x1_0000 && v & 0xff == v % 0x100) by (bit_vector);
    assert(v & 0xffff_ffff_ffff_ffff == v && 0u64 & w == 0 && v & 0u64 == 0) by (bit_vector);
}

/// The bitwise conjunction holds the conjunctions, unless the right interval holds the mask of all
/// bits beside other values.
pub proof fn conjunctions_are_sound(a: Interval, x: Interval, v: u64, w: u64)
    requires
        a.has(v as int),
        x.has(w as int),
        x.has(u64::MAX as int) ==> x.singleton_spec() is Some,
    ensures a.bitwise_and_spec(x).has((v & w) as int),
{
    lemma_mask(v, w);
    lemma2_to64();
    lemma2_to64_rest();
    interval_laws::zero_extension_is_sound(a, 32, v as int);
    interval_laws::zero_extension_is_sound(a, 16, v as int);
    interval_laws::zero_extension_is_sound(a, 8, v as int);
    interval_laws::zero_extension_is_sound(a, 64, v as int);
    number::lemma_wrap_identity(v as int, 64);
    if let Some(n) = x.singleton_spec() {
        assert(n@ == w);
    }
    if let Some(n) = a.singleton_spec() {
        assert(n@ == v);
    }
}

/// The bits up to the highest one of `m` cover the bits of numbers up to `m`.
proof fn lemma_covered(v: u64, w: u64, m: int)
    requires v <= m, w <= m,
    ensures v | w <= number::ones_above(m), v ^ w <= number::ones_above(m),
    decreases m,
{
    if m == 0 {
        assert(0u64 | 0u64 == 0 && 0u64 ^ 0u64 == 0) by (bit_vector);
    } else {
        let p = v / 2;
        let q = w / 2;
        assert(v | w <= 2 * ((v / 2) | (w / 2)) + 1 && v ^ w <= 2 * ((v / 2) ^ (w / 2)) + 1) by (bit_vector);
        lemma_covered(p, q, m / 2);
    }
}

/// The bitwise disjunction and the exclusive one hold the results.
pub proof fn disjunctions_are_sound(a: Interval, x: Interval, v: u64, w: u64)
    requires a.has(v as int), x.has(w as int),
    ensures
        a.bitwise_or_spec(x).has((v | w) as int),
        a.bitwise_xor_spec(x).has((v ^ w) as int),
{
    lemma_mask(v, w);
    if let (Some(n), Some(k)) = (a.singleton_spec(), x.singleton_spec()) {
        assert(n@ == v && k@ == w);
    }
    if let (ExtendedNumber::Finite(p), ExtendedNumber::Finite(q)) = (a.ub, x.ub) {
        let m = if p@ >= q@ { p@ } else { q@ };
        lemma_covered(v, w, m);
        lemma_ones(m);
    }
}

proof fn lemma_ones(m: int)
    requires 0 <= m <= i128::MAX,
    ensures m <= number::ones_above(m) <= i128::MAX,
{
    number::lemma_pow2_127();
    number::lemma_ones_bound(m, 127);
}

/// The unsigned quotient of two words.
proof fn lemma_word_quotient(a: Number, b: Number)
    requires is_word(a@), is_word(b@), b@ != 0,
    ensures
        ExtendedNumber::Finite(a).udiv_spec(ExtendedNumber::Finite(b)) == ExtendedNumber::fin(a@ / b@),
        0 <= a@ / b@ <= a@,
{
    lemma2_to64();
    number::lemma_wrap_identity(a@, 64);
    number::lemma_wrap_identity(b@, 64);
    lemma_div_pos_is_pos(a@, b@);
    lemma_div_nonincreasing(a@, b@);
}

/// Division lies between the quotients of the ends.
proof fn lemma_divided_ends(a: Interval, x: Interval, v: int, w: int)
    requires
        words(a),
        words(x),
        a.has(v),
        x.has(w),
        x.lb->Finite_0@ > 0,
    ensures a.div_ends_spec(Division::Unsigned, x).has(v / w),
{
    let al = a.lb->Finite_0;
    let au = a.ub->Finite_0;
    let xl = x.lb->Finite_0;
    let xu = x.ub->Finite_0;
    lemma_word_quotient(al, xl);
    lemma_word_quotient(al, xu);
    lemma_word_quotient(au, xl);
    lemma_word_quotient(au, xu);
    lemma_div_is_ordered(al@, v, xu@);
    lemma_div_is_ordered_by_denominator(v, w, xu@);
    lemma_div_is_ordered(v, au@, xl@);
    lemma_div_is_ordered_by_denominator(v, xl@, w);
    assert(al@ / xu@ <= v / w <= au@ / xl@);
}

proof fn lemma_divided_by(a: Interval, x: Interval, v: int, w: int)
    requires
        words(a),
        words(x),
        a.has(v),
        x.has(w),
        x.lb->Finite_0@ > 0,
    ensures a.div_nonzero_spec(Division::Unsigned, x).has(v / w),
{
    lemma2_to64();
    if let Some(c) = x.constant_divisor(Division::Unsigned) {
        let n = x.singleton_spec()->Some_0;
        assert(n@ == w);
        number::lemma_wrap_identity(n@, 64);
        assert(c@ == w);
        lemma_word_quotient(a.lb->Finite_0, c);
        lemma_word_quotient(a.ub->Finite_0, c);
        lemma_div_is_ordered(a.lb->Finite_0@, v, w);
        lemma_div_is_ordered(v, a.ub->Finite_0@, w);
        if w == 1 { assert(v / 1 == v); }
    } else if a.has(0) {
        if v > 0 {
            assert(words(a.positive_half()));
            lemma_divided_ends(a.positive_half(), x, v, w);
        } else {
            assert(0int / w == 0) by (nonlinear_arith) requires w > 0;
        }
    } else {
        lemma_divided_ends(a, x, v, w);
    }
}

/// The unsigned quotient of intervals of words holds the quotients, and zero for the division by
/// zero.
pub proof fn unsigned_divisions_are_sound(a: Interval, x: Interval, v: int, w: int)
    requires words(a), words(x), a.has(v), x.has(w),
    ensures a.divide_spec(Division::Unsigned, x).has(if w == 0 { 0 } else { v / w }),
{
    lemma2_to64();
    if let Some(c) = x.constant_divisor(Division::Unsigned) {
        let n = x.singleton_spec()->Some_0;
        assert(n@ == w);
        number::lemma_wrap_identity(n@, 64);
        assert(c@ == w);
        if w > 0 {
            lemma_divided_by(a, x, v, w);
        }
    } else if x.has(0) {
        if w > 0 {
            assert(words(x.positive_half()));
            lemma_divided_by(a, x.positive_half(), v, w);
        }
    } else {
        lemma_divided_by(a, x, v, w);
    }
}

proof fn lemma_remainder(a: Interval, x: Interval, v: int, w: int)
    requires
        words(a),
        words(x),
        a.has(v),
        x.has(w),
        x.lb->Finite_0@ > 0,
    ensures a.urem_nonzero_spec(x).has(v % w), a.urem_split_spec(x).has(v % w),
{
    lemma2_to64();
    let al = a.lb->Finite_0@;
    let au = a.ub->Finite_0@;
    let xl = x.lb->Finite_0@;
    let xu = x.ub->Finite_0@;
    number::lemma_wrap_identity(al, 64);
    number::lemma_wrap_identity(au, 64);
    number::lemma_wrap_identity(xl, 64);
    number::lemma_wrap_identity(xu, 64);
    lemma_mod_bound(v, w);
    if v < w {
        lemma_small_mod(v as nat, w as nat);
    }
    if a.urem_const_spec(x) is None {
        assert(a.urem_nonzero_spec(x).has(v % w));
        if a.has(0) {
            let p = a.positive_half();
            if v > 0 {
                assert(words(p) && p.has(v));
                number::lemma_wrap_identity(1, 64);
                assert(p.urem_nonzero_spec(x).has(v % w));
            }
        }
    }
}

/// The unsigned remainder of intervals of words holds the remainders, and the dividend for the
/// division by zero.
pub proof fn unsigned_remainders_are_sound(a: Interval, x: Interval, v: int, w: int)
    requires words(a), words(x), a.has(v), x.has(w),
    ensures a.urem_spec(x).has(if w == 0 { v } else { v % w }),
{
    lemma2_to64();
    if a.urem_const_spec(x) is Some {
        if w > 0 { lemma_remainder(a, x, v, w); }
    } else if x.has(0) {
        if w > 0 {
            let p = x.positive_half();
            assert(words(p) && p.has(w));
            lemma_remainder(a, p, v, w);
        }
    } else {
        lemma_remainder(a, x, v, w);
    }
}

/// The remainder of truncating division is smaller than the divisor, and takes the sign of the
/// dividend.
pub proof fn lemma_truncated(v: int, w: int)
    requires w != 0,
    ensures
        -number::abs_int(w) < number::trunc_rem(v, w) < number::abs_int(w),
        v >= 0 ==> number::trunc_rem(v, w) >= 0,
        v <= 0 ==> number::trunc_rem(v, w) <= 0,
        -number::abs_int(w) < v < number::abs_int(w) ==> number::trunc_rem(v, w) == v,
{
    let p = number::abs_int(v);
    let q = number::abs_int(w);
    lemma_mod_bound(p, q);
    if p < q {
        lemma_small_mod(p as nat, q as nat);
    }
}

proof fn lemma_signed_remainder(a: Interval, x: Interval, v: int, w: int)
    requires
        a.has(v),
        x.has(w),
        w != 0,
        !x.has(0),
        interval_laws::representable(v),
        -i128::MAX <= w <= i128::MAX,
    ensures a.srem_nonzero_spec(x).has(number::trunc_rem(v, w)),
{
    lemma_truncated(v, w);
    if let (ExtendedNumber::Finite(l), ExtendedNumber::Finite(u)) = (x.lb, x.ub) {
        assert(number::abs_int(l@) <= number::abs_int(w) || number::abs_int(u@) <= number::abs_int(w));
        assert(number::abs_int(w) <= number::abs_int(l@) || number::abs_int(w) <= number::abs_int(u@));
    }
}

/// The signed remainder holds the remainders, and the dividend for the division by zero.
pub proof fn signed_remainders_are_sound(a: Interval, x: Interval, v: int, w: int)
    requires
        a.has(v),
        x.has(w),
        interval_laws::representable(v),
        -i128::MAX <= w <= i128::MAX,
    ensures a.srem_spec(x).has(if w == 0 { v } else { number::trunc_rem(v, w) }),
{
    if w != 0 { lemma_truncated(v, w); }
    if a.singleton_spec() is Some && x.singleton_spec() is Some {
        assert(a.singleton_spec()->Some_0@ == v && x.singleton_spec()->Some_0@ == w);
    } else if x.has(0) {
        if w > 0 {
            lemma_signed_remainder(a, x.positive_half(), v, w);
        } else if w < 0 {
            lemma_signed_remainder(a, x.negative_half(), v, w);
        }
    } else {
        lemma_signed_remainder(a, x, v, w);
    }
}

/// An interval whose ends are finite and have at most sixty-five bits.
pub open spec fn narrow(a: Interval) -> bool {
    &&& a.lb matches ExtendedNumber::Finite(l) && -0x1_0000_0000_0000_0000 <= l@ <= 0x1_0000_0000_0000_0000
    &&& a.ub matches ExtendedNumber::Finite(u) && -0x1_0000_0000_0000_0000 <= u@ <= 0x1_0000_0000_0000_0000
}

/// The truncated quotient, by the sizes of its operands.
pub proof fn lemma_truncated_quotient(v: int, w: int)
    requires w != 0,
    ensures
        v >= 0 && w > 0 ==> number::trunc_div(v, w) == v / w,
        v >= 0 && w < 0 ==> number::trunc_div(v, w) == -(v / -w),
        v <= 0 && w > 0 ==> number::trunc_div(v, w) == -(-v / w),
        v <= 0 && w < 0 ==> number::trunc_div(v, w) == -v / -w,
        -number::abs_int(v) <= number::trunc_div(v, w) <= number::abs_int(v),
        (v >= 0) == (w > 0) || v == 0 ==> number::trunc_div(v, w) >= 0,
        (v >= 0) != (w > 0) || v == 0 ==> number::trunc_div(v, w) <= 0,
{
    let p = number::abs_int(v);
    let q = number::abs_int(w);
    lemma_div_pos_is_pos(p, q);
    lemma_div_nonincreasing(p, q);
    if v == 0 {
        lemma_div_basics(q);
    }
}

/// A larger dividend over a smaller divisor gives a larger quotient.
proof fn lemma_quotient_grows(p: int, q: int, p1: int, q1: int)
    requires 0 <= p <= p1, 0 < q1 <= q,
    ensures p / q <= p1 / q1,
{
    lemma_div_is_ordered(p, p1, q);
    lemma_div_is_ordered_by_denominator(p1, q1, q);
}

/// Rounding toward zero keeps the order of the dividends under a positive divisor and reverses it
/// under a negative one.
proof fn lemma_truncated_order(v: int, v1: int, w: int)
    requires v <= v1, w != 0,
    ensures
        w > 0 ==> number::trunc_div(v, w) <= number::trunc_div(v1, w),
        w < 0 ==> number::trunc_div(v1, w) <= number::trunc_div(v, w),
{
    lemma_truncated_quotient(v, w);
    lemma_truncated_quotient(v1, w);
    let q = number::abs_int(w);
    if v >= 0 {
        lemma_quotient_grows(v, q, v1, q);
    } else if v1 <= 0 {
        lemma_quotient_grows(-v1, q, -v, q);
    }
}

/// The quotients of the ends of a positive dividend.
proof fn lemma_signed_ends(k: Division, a: Interval, x: Interval, v: int, w: int)
    requires
        !(k is Unsigned),
        narrow(a),
        narrow(x),
        a.has(v),
        x.has(w),
        !x.has(0),
        a.lb->Finite_0@ > 0,
    ensures a.div_ends_spec(k, x).has(number::trunc_div(v, w)),
{
    let al = a.lb->Finite_0@;
    let au = a.ub->Finite_0@;
    let xl = x.lb->Finite_0@;
    let xu = x.ub->Finite_0@;
    lemma_truncated_quotient(v, w);
    lemma_truncated_quotient(al, xl);
    lemma_truncated_quotient(al, xu);
    lemma_truncated_quotient(au, xl);
    lemma_truncated_quotient(au, xu);
    if xl > 0 {
        lemma_quotient_grows(al, xu, v, w);
        lemma_quotient_grows(v, w, au, xl);
    } else {
        lemma_quotient_grows(al, -xl, v, -w);
        lemma_quotient_grows(v, -w, au, -xu);
    }
}

/// The quotients of the ends of a negative dividend reach at least as far from zero as the quotients.
proof fn lemma_negative_ends(k: Division, a: Interval, x: Interval, v: int, w: int)
    requires
        !(k is Unsigned),
        narrow(a),
        narrow(x),
        a.has(v),
        x.has(w),
        !x.has(0),
        a.ub->Finite_0@ < 0,
    ensures
        a.div_ends_spec(k, x).join_spec(Interval::point(Number::nearest(0))).has(number::trunc_div(v, w)),
{
    let al = a.lb->Finite_0@;
    let xl = x.lb->Finite_0@;
    let xu = x.ub->Finite_0@;
    let s = a.shifted_dividend_spec(x);
    lemma_truncated_quotient(v, w);
    if xl > 0 {
        let sl = al + 1 - xu;
        assert(s.lb == ExtendedNumber::fin(sl));
        lemma_truncated_quotient(sl, xl);
        lemma_quotient_grows(-v, w, -sl, xl);
    } else {
        let sl = al + xl + 1;
        assert(s.lb == ExtendedNumber::fin(sl));
        lemma_truncated_quotient(sl, xu);
        lemma_quotient_grows(-v, -w, -sl, -xu);
    }
}

/// The quotients by a constant.
proof fn lemma_constant_divisor(k: Division, a: Interval, c: Number, v: int)
    requires
        !(k is Unsigned),
        narrow(a),
        a.has(v),
        c@ != 0,
    ensures a.div_const_spec(k, c).has(number::trunc_div(v, c@)),
{
    let w = c@;
    lemma_truncated_quotient(v, w);
    lemma_truncated_quotient(a.lb->Finite_0@, w);
    lemma_truncated_quotient(a.ub->Finite_0@, w);
    lemma_truncated_order(a.lb->Finite_0@, v, w);
    lemma_truncated_order(v, a.ub->Finite_0@, w);
    if w == 1 {
        assert(v / 1 == v && -v / 1 == -v);
    }
}

proof fn lemma_signed_by(k: Division, a: Interval, x: Interval, v: int, w: int)
    requires
        !(k is Unsigned),
        narrow(a),
        narrow(x),
        a.has(v),
        x.has(w),
        !x.has(0),
        a.ub->Finite_0@ >= 0 || x.constant_divisor(k) is Some,
    ensures a.div_nonzero_spec(k, x).has(number::trunc_div(v, w)),
{
    if let Some(c) = x.constant_divisor(k) {
        assert(c@ == w);
        lemma_constant_divisor(k, a, c, v);
    } else if a.has(0) {
        if v > 0 {
            lemma_signed_ends(k, a.positive_half(), x, v, w);
        } else if v < 0 {
            lemma_negative_ends(k, a.negative_half(), x, v, w);
        } else {
            lemma_truncated_quotient(0, w);
        }
        lemma_joined(a.negative_half().div_ends_spec(k, x), a.positive_half().div_ends_spec(k, x), number::trunc_div(v, w));
    } else {
        lemma_signed_ends(k, a, x, v, w);
    }
}

/// A division other than the unsigned one holds the quotients, which round toward zero, and zero for
/// the division by zero. The dividends are not all negative, or the divisor is a constant.
pub proof fn signed_divisions_are_sound(k: Division, a: Interval, x: Interval, v: int, w: int)
    requires
        !(k is Unsigned),
        narrow(a),
        narrow(x),
        a.has(v),
        x.has(w),
        a.ub->Finite_0@ >= 0 || x.constant_divisor(k) is Some,
    ensures a.divide_spec(k, x).has(if w == 0 { 0 } else { number::trunc_div(v, w) }),
{
    if x.constant_divisor(k) is Some {
        assert(x.constant_divisor(k)->Some_0@ == w);
        if w != 0 {
            lemma_signed_by(k, a, x, v, w);
        }
    } else if x.has(0) {
        if w > 0 {
            lemma_signed_by(k, a, x.positive_half(), v, w);
        } else if w < 0 {
            lemma_signed_by(k, a, x.negative_half(), v, w);
        }
        lemma_joined(
            a.div_nonzero_spec(k, x.negative_half()),
            a.div_nonzero_spec(k, x.positive_half()),
            if w == 0 { 0 } else { number::trunc_div(v, w) },
        );
    } else {
        lemma_signed_by(k, a, x, v, w);
    }
}

/// A join with zero holds zero and the members of both sides.
proof fn lemma_joined(a: Interval, b: Interval, t: int)
    requires t == 0 || a.has(t) || b.has(t) || a.join_spec(Interval::point(Number::nearest(0))).has(t),
    ensures a.join_spec(b).join_spec(Interval::point(Number::nearest(0))).has(t),
{}

}
