//! Intervals of integers and interval arithmetic.
use vstd::prelude::*;
use vstd::string::*;
use vstd::arithmetic::power2::*;
use crate::arith::extended_number::{ExtendedNumber, MINUS_INFINITY, PLUS_INFINITY};
use crate::arith::number;
use crate::arith::number::Number;

verus! {

/// An end of an interval.
pub type Bound = ExtendedNumber;

/// An interval `[lb, ub]`. It is empty when `lb > ub`; the canonical empty
/// interval is `[0, -1]`.
#[derive(Clone, Copy, Debug)]
pub struct Interval {
    pub lb: Bound,
    pub ub: Bound,
}

/// `b` is at most `x`.
pub open spec fn bound_le(b: Bound, x: int) -> bool {
    match b {
        ExtendedNumber::MinusInfinity => true,
        ExtendedNumber::Finite(a) => a@ <= x,
        ExtendedNumber::PlusInfinity => false,
    }
}

/// `b` is at least `x`.
pub open spec fn bound_ge(b: Bound, x: int) -> bool {
    match b {
        ExtendedNumber::MinusInfinity => false,
        ExtendedNumber::Finite(a) => a@ >= x,
        ExtendedNumber::PlusInfinity => true,
    }
}

/// The three divisions on intervals.
#[derive(Clone, Copy, Debug, PartialEq, Eq, Structural)]
pub enum Division {
    /// Rounded toward zero, as the linear solver needs it.
    General,
    /// The signed division instruction.
    Signed,
    /// The unsigned division instruction.
    Unsigned,
}

pub open spec fn min4(a: Bound, b: Bound, c: Bound, d: Bound) -> Bound {
    a.min_spec(b).min_spec(c.min_spec(d))
}

pub open spec fn max4(a: Bound, b: Bound, c: Bound, d: Bound) -> Bound {
    a.max_spec(b).max_spec(c.max_spec(d))
}

/// The quotient of two ends under a division.
pub open spec fn quotient(k: Division, a: Bound, b: Bound) -> Bound {
    match k {
        Division::Unsigned => a.udiv_spec(b),
        _ => a.div_spec(b),
    }
}

impl Interval {
    pub open spec fn empty() -> Interval {
        Interval { lb: Bound::fin(0), ub: Bound::fin(-1) }
    }

    pub open spec fn all() -> Interval {
        Interval { lb: ExtendedNumber::MinusInfinity, ub: ExtendedNumber::PlusInfinity }
    }

    /// `[n, n]`.
    pub open spec fn point(n: Number) -> Interval {
        Interval { lb: ExtendedNumber::Finite(n), ub: ExtendedNumber::Finite(n) }
    }

    pub open spec fn of_bounds(lb: Bound, ub: Bound) -> Interval {
        if ub.lt_spec(lb) { Interval::empty() } else { Interval { lb, ub } }
    }

    pub open spec fn is_empty_spec(self) -> bool {
        self.ub.lt_spec(self.lb)
    }

    /// Membership of an integer.
    pub open spec fn has(self, x: int) -> bool {
        bound_le(self.lb, x) && bound_ge(self.ub, x)
    }

    pub open spec fn is_top_spec(self) -> bool {
        !(self.lb is Finite) && !(self.ub is Finite)
    }

    pub open spec fn singleton_spec(self) -> Option<Number> {
        if self.lb == self.ub {
            match self.lb {
                ExtendedNumber::Finite(n) => Some(n),
                _ => None,
            }
        } else {
            None
        }
    }

    /// Equality of intervals; all empty intervals are equal.
    pub open spec fn same(self, o: Interval) -> bool {
        if self.is_empty_spec() { o.is_empty_spec() } else { self.lb == o.lb && self.ub == o.ub }
    }

    pub open spec fn size_spec(self) -> Bound {
        if self.is_empty_spec() { Bound::fin(0) } else { self.ub.sub_spec(self.lb).add_spec(Bound::fin(1)) }
    }

    pub open spec fn included_spec(self, x: Interval) -> bool {
        self.is_empty_spec() || (!x.is_empty_spec() && x.lb.le_spec(self.lb) && self.ub.le_spec(x.ub))
    }

    pub open spec fn join_spec(self, x: Interval) -> Interval {
        if self.is_empty_spec() {
            x
        } else if x.is_empty_spec() {
            self
        } else {
            Self::of_bounds(self.lb.min_spec(x.lb), self.ub.max_spec(x.ub))
        }
    }

    pub open spec fn meet_spec(self, x: Interval) -> Interval {
        if self.is_empty_spec() || x.is_empty_spec() {
            Interval::empty()
        } else {
            Self::of_bounds(self.lb.max_spec(x.lb), self.ub.min_spec(x.ub))
        }
    }

    pub open spec fn widen_spec(self, x: Interval) -> Interval {
        if self.is_empty_spec() {
            x
        } else if x.is_empty_spec() {
            self
        } else {
            Interval {
                lb: if x.lb.lt_spec(self.lb) { MINUS_INFINITY } else { self.lb },
                ub: if self.ub.lt_spec(x.ub) { PLUS_INFINITY } else { self.ub },
            }
        }
    }

    pub open spec fn narrow_spec(self, x: Interval) -> Interval {
        if self.is_empty_spec() || x.is_empty_spec() {
            Interval::empty()
        } else {
            Interval {
                lb: if !(self.lb is Finite) && x.lb is Finite { x.lb } else { self.lb },
                ub: if !(self.ub is Finite) && x.ub is Finite { x.ub } else { self.ub },
            }
        }
    }

    pub open spec fn add_spec(self, x: Interval) -> Interval {
        if self.is_empty_spec() || x.is_empty_spec() {
            Interval::empty()
        } else {
            Self::of_bounds(self.lb.add_spec(x.lb), self.ub.add_spec(x.ub))
        }
    }

    pub open spec fn negate_spec(self) -> Interval {
        if self.is_empty_spec() {
            Interval::empty()
        } else {
            Self::of_bounds(self.ub.neg_spec(), self.lb.neg_spec())
        }
    }

    pub open spec fn sub_spec(self, x: Interval) -> Interval {
        if self.is_empty_spec() || x.is_empty_spec() {
            Interval::empty()
        } else {
            Self::of_bounds(self.lb.sub_spec(x.ub), self.ub.sub_spec(x.lb))
        }
    }

    pub open spec fn mul_spec(self, x: Interval) -> Interval {
        if self.is_empty_spec() || x.is_empty_spec() {
            Interval::empty()
        } else {
            let a = self.lb.mul_spec(x.lb);
            let b = self.lb.mul_spec(x.ub);
            let c = self.ub.mul_spec(x.lb);
            let d = self.ub.mul_spec(x.ub);
            Self::of_bounds(min4(a, b, c, d), max4(a, b, c, d))
        }
    }

    /// The part below zero.
    pub open spec fn negative_half(self) -> Interval {
        Self::of_bounds(self.lb, Bound::fin(-1))
    }

    /// The part above zero.
    pub open spec fn positive_half(self) -> Interval {
        Self::of_bounds(Bound::fin(1), self.ub)
    }

    /// The constant divisor of a division, where the division treats it specially.
    pub open spec fn constant_divisor(self, k: Division) -> Option<Number> {
        match self.singleton_spec() {
            Some(n) => match k {
                Division::General => Some(n),
                Division::Signed => if i64::MIN <= n@ <= i64::MAX { Some(n) } else { None },
                Division::Unsigned => if i64::MIN <= n@ <= i64::MAX {
                    Some(Number::nearest(number::wrap_unsigned(n@, 64)))
                } else {
                    None
                },
            },
            None => None,
        }
    }

    /// Division by a constant.
    pub open spec fn div_const_spec(self, k: Division, c: Number) -> Interval {
        let b = ExtendedNumber::Finite(c);
        if c@ == 1 {
            self
        } else if c@ == 0 {
            Interval::point(Number::nearest(0))
        } else if !(k is Unsigned) && c@ < 0 {
            Self::of_bounds(self.ub.div_spec(b), self.lb.div_spec(b))
        } else {
            Self::of_bounds(quotient(k, self.lb, b), quotient(k, self.ub, b))
        }
    }

    /// The dividend shifted so that rounding toward zero rounds down.
    pub open spec fn shifted_dividend_spec(self, divisor: Interval) -> Interval {
        if Bound::fin(0).le_spec(self.ub) {
            self
        } else if divisor.ub.lt_spec(Bound::fin(0)) {
            self.add_spec(divisor).add_spec(Interval::point(Number::nearest(1)))
        } else {
            self.add_spec(Interval::point(Number::nearest(1))).sub_spec(divisor)
        }
    }

    /// Hull of the quotients of the ends.
    pub open spec fn div_ends_spec(self, k: Division, x: Interval) -> Interval {
        if self.is_empty_spec() || x.is_empty_spec() {
            Interval::empty()
        } else {
            let s = self.shifted_dividend_spec(x);
            let a = quotient(k, s.lb, x.lb);
            let b = quotient(k, s.lb, x.ub);
            let c = quotient(k, s.ub, x.lb);
            let d = quotient(k, s.ub, x.ub);
            Self::of_bounds(min4(a, b, c, d), max4(a, b, c, d))
        }
    }

    /// Division by an interval without zero: the dividend is split at zero.
    pub open spec fn div_nonzero_spec(self, k: Division, x: Interval) -> Interval {
        if self.is_empty_spec() || x.is_empty_spec() {
            Interval::empty()
        } else if x.constant_divisor(k) is Some {
            self.div_const_spec(k, x.constant_divisor(k).unwrap())
        } else if self.has(0) {
            self.negative_half().div_ends_spec(k, x)
                .join_spec(self.positive_half().div_ends_spec(k, x))
                .join_spec(Interval::point(Number::nearest(0)))
        } else {
            self.div_ends_spec(k, x)
        }
    }

    /// Division: a divisor that contains zero is split there, and dividing by zero gives zero.
    pub open spec fn divide_spec(self, k: Division, x: Interval) -> Interval {
        if self.is_empty_spec() || x.is_empty_spec() {
            Interval::empty()
        } else if x.constant_divisor(k) is Some {
            self.div_const_spec(k, x.constant_divisor(k).unwrap())
        } else if x.has(0) {
            self.div_nonzero_spec(k, x.negative_half())
                .join_spec(self.div_nonzero_spec(k, x.positive_half()))
                .join_spec(Interval::point(Number::nearest(0)))
        } else {
            self.div_nonzero_spec(k, x)
        }
    }

    /// Signed remainder by an interval without zero.
    pub open spec fn srem_nonzero_spec(self, x: Interval) -> Interval {
        if self.is_empty_spec() || x.is_empty_spec() {
            Interval::empty()
        } else {
            match (self.singleton_spec(), x.singleton_spec()) {
                (Some(a), Some(b)) => Interval::point(Number::nearest(if b@ == 0 { a@ } else { number::trunc_rem(a@, b@) })),
                _ => match (x.lb, x.ub) {
                    (ExtendedNumber::Finite(l), ExtendedNumber::Finite(u)) => {
                        let p = number::saturate(number::abs_int(l@));
                        let q = number::saturate(number::abs_int(u@));
                        let least = if p <= q { p } else { q };
                        let most = if p <= q { q } else { p };
                        if self.ub.lt_spec(Bound::fin(least)) && self.lb.neg_spec().lt_spec(Bound::fin(least)) {
                            self
                        } else if self.lb.lt_spec(Bound::fin(0)) {
                            if Bound::fin(0).lt_spec(self.ub) {
                                Self::of_bounds(Bound::fin(-(most - 1)), Bound::fin(most - 1))
                            } else {
                                Self::of_bounds(Bound::fin(-(most - 1)), Bound::fin(0))
                            }
                        } else {
                            Self::of_bounds(Bound::fin(0), Bound::fin(most - 1))
                        }
                    },
                    _ => self.join_spec(Interval::point(Number::nearest(0))),
                },
            }
        }
    }

    /// Signed remainder; the remainder by zero is the dividend.
    pub open spec fn srem_spec(self, x: Interval) -> Interval {
        if self.is_empty_spec() || x.is_empty_spec() {
            Interval::empty()
        } else if self.singleton_spec() is Some && x.singleton_spec() is Some {
            self.srem_nonzero_spec(x)
        } else if x.has(0) {
            self.srem_nonzero_spec(x.negative_half())
                .join_spec(self.srem_nonzero_spec(x.positive_half()))
                .join_spec(self)
        } else {
            self.srem_nonzero_spec(x)
        }
    }

    /// The unsigned remainder of two constants that fit 64 bits.
    pub open spec fn urem_const_spec(self, x: Interval) -> Option<Interval> {
        match (self.singleton_spec(), x.singleton_spec()) {
            (Some(a), Some(b)) => {
                if i64::MIN <= a@ <= u64::MAX && i64::MIN <= b@ <= u64::MAX {
                    if b@ == 0 {
                        Some(Interval::point(a))
                    } else {
                        Some(Interval::point(Number::nearest(number::wrap_unsigned(a@, 64) % number::wrap_unsigned(b@, 64))))
                    }
                } else {
                    None
                }
            },
            _ => None,
        }
    }

    /// Unsigned remainder where neither interval contains zero.
    pub open spec fn urem_nonzero_spec(self, x: Interval) -> Interval {
        if self.is_empty_spec() || x.is_empty_spec() {
            Interval::empty()
        } else if self.urem_const_spec(x) is Some {
            self.urem_const_spec(x).unwrap()
        } else {
            match (x.lb, x.ub) {
                (ExtendedNumber::Finite(l), ExtendedNumber::Finite(u)) => {
                    let below = match self.ub {
                        ExtendedNumber::Finite(m) => number::wrap_unsigned(m@, 64) < number::wrap_unsigned(l@, 64),
                        _ => false,
                    };
                    if below {
                        self
                    } else {
                        Self::of_bounds(Bound::fin(0), Bound::fin(number::wrap_unsigned(u@, 64) - 1))
                    }
                },
                _ => if self.ub.lt_spec(Bound::fin(0)) {
                    Interval::all()
                } else {
                    self.sub_spec(Interval::point(Number::nearest(1))).join_spec(Interval::point(Number::nearest(0)))
                },
            }
        }
    }

    /// Unsigned remainder by an interval without zero.
    pub open spec fn urem_split_spec(self, x: Interval) -> Interval {
        if self.is_empty_spec() || x.is_empty_spec() {
            Interval::empty()
        } else if self.urem_const_spec(x) is Some {
            self.urem_const_spec(x).unwrap()
        } else if self.has(0) {
            self.negative_half().urem_nonzero_spec(x)
                .join_spec(self.positive_half().urem_nonzero_spec(x))
                .join_spec(self)
        } else {
            self.urem_nonzero_spec(x)
        }
    }

    /// Unsigned remainder; the remainder by zero is the dividend.
    pub open spec fn urem_spec(self, x: Interval) -> Interval {
        if self.is_empty_spec() || x.is_empty_spec() {
            Interval::empty()
        } else if self.urem_const_spec(x) is Some {
            self.urem_const_spec(x).unwrap()
        } else if x.has(0) {
            self.urem_split_spec(x.negative_half())
                .join_spec(self.urem_split_spec(x.positive_half()))
                .join_spec(self)
        } else {
            self.urem_split_spec(x)
        }
    }

    pub open spec fn signed_int_spec(width: int) -> Interval {
        Interval { lb: Bound::fin(-(pow2((width - 1) as nat) as int)), ub: Bound::fin(pow2((width - 1) as nat) - 1) }
    }

    pub open spec fn unsigned_int_spec(width: int) -> Interval {
        Interval { lb: Bound::fin(0), ub: Bound::fin(pow2(width as nat) - 1) }
    }

    pub open spec fn nonnegative_spec(width: int) -> Interval {
        Interval { lb: Bound::fin(0), ub: Bound::fin(pow2((width - 1) as nat) - 1) }
    }

    pub open spec fn negative_spec(width: int) -> Interval {
        Interval { lb: Bound::fin(-(pow2((width - 1) as nat) as int)), ub: Bound::fin(-1) }
    }

    pub open spec fn unsigned_high_spec(width: int) -> Interval {
        Interval { lb: Bound::fin(pow2((width - 1) as nat) as int), ub: Bound::fin(pow2(width as nat) - 1) }
    }

    /// Two's complement reading of the low `width` bits of the members: the
    /// wrapped ends where they stay in order, else the full signed range.
    pub open spec fn sign_extend_spec(self, width: int) -> Interval {
        let full = Self::signed_int_spec(width);
        match (self.lb, self.ub) {
            (ExtendedNumber::Finite(l), ExtendedNumber::Finite(u)) => {
                let e = Self::of_bounds(Bound::fin(number::wrap_signed(l@, width)), Bound::fin(number::wrap_signed(u@, width)));
                if self.size_spec().lt_spec(full.size_spec()) && !e.is_empty_spec() { e } else { full }
            },
            _ => full,
        }
    }

    /// Unsigned reading of the low `width` bits of the members: the wrapped
    /// ends where they stay in order, else the full unsigned range.
    pub open spec fn zero_extend_spec(self, width: int) -> Interval {
        let full = Self::unsigned_int_spec(width);
        match (self.lb, self.ub) {
            (ExtendedNumber::Finite(l), ExtendedNumber::Finite(u)) => {
                let e = Self::of_bounds(Bound::fin(number::wrap_unsigned(l@, width)), Bound::fin(number::wrap_unsigned(u@, width)));
                if self.size_spec().lt_spec(full.size_spec()) && !e.is_empty_spec() { e } else { full }
            },
            _ => full,
        }
    }

    pub open spec fn bitwise_and_spec(self, x: Interval) -> Interval {
        let zero = Interval::point(Number::nearest(0));
        if self.is_empty_spec() || x.is_empty_spec() {
            Interval::empty()
        } else if self.same(zero) || x.same(zero) {
            zero
        } else if self.singleton_spec() is Some && x.singleton_spec() is Some {
            Interval::point(Number { n: self.singleton_spec().unwrap().n & x.singleton_spec().unwrap().n })
        } else if x.singleton_spec() == Some(Number::nearest(0xffff_ffff)) {
            self.zero_extend_spec(32)
        } else if x.singleton_spec() == Some(Number::nearest(0xffff)) {
            self.zero_extend_spec(16)
        } else if x.singleton_spec() == Some(Number::nearest(0xff)) {
            self.zero_extend_spec(8)
        } else if x.has(u64::MAX as int) {
            self.zero_extend_spec(64)
        } else if !self.is_top_spec() && !x.is_top_spec() {
            Self::of_bounds(Bound::fin(0), self.ub.min_spec(x.ub))
        } else if !x.is_top_spec() {
            Self::of_bounds(Bound::fin(0), x.ub)
        } else if !self.is_top_spec() {
            Self::of_bounds(Bound::fin(0), self.ub)
        } else {
            Interval::all()
        }
    }

    pub open spec fn or_hull_spec(self, x: Interval) -> Interval {
        if Bound::fin(0).le_spec(self.lb) && Bound::fin(0).le_spec(x.lb) {
            match (self.ub, x.ub) {
                (ExtendedNumber::Finite(a), ExtendedNumber::Finite(b)) =>
                    Self::of_bounds(Bound::fin(0), Bound::fin(number::ones_above(if a@ >= b@ { a@ } else { b@ }))),
                _ => Interval { lb: Bound::fin(0), ub: ExtendedNumber::PlusInfinity },
            }
        } else {
            Interval::all()
        }
    }

    pub open spec fn bitwise_or_spec(self, x: Interval) -> Interval {
        if self.is_empty_spec() || x.is_empty_spec() {
            Interval::empty()
        } else if self.singleton_spec() is Some && x.singleton_spec() is Some {
            Interval::point(Number { n: self.singleton_spec().unwrap().n | x.singleton_spec().unwrap().n })
        } else {
            self.or_hull_spec(x)
        }
    }

    pub open spec fn bitwise_xor_spec(self, x: Interval) -> Interval {
        if self.is_empty_spec() || x.is_empty_spec() {
            Interval::empty()
        } else if self.singleton_spec() is Some && x.singleton_spec() is Some {
            Interval::point(Number { n: self.singleton_spec().unwrap().n ^ x.singleton_spec().unwrap().n })
        } else {
            self.or_hull_spec(x)
        }
    }

    /// The factor `2^k` of a constant shift by `k` bits, up to the width of a number.
    pub open spec fn shift_factor_spec(self) -> Option<Number> {
        match self.singleton_spec() {
            Some(k) => if 0 <= k@ <= 128 { Some(Number::nearest(pow2(k@ as nat) as int)) } else { None },
            None => None,
        }
    }

    pub open spec fn shl_spec(self, x: Interval) -> Interval {
        if self.is_empty_spec() || x.is_empty_spec() {
            Interval::empty()
        } else {
            match x.shift_factor_spec() {
                Some(f) => self.mul_spec(Interval::point(f)),
                None => Interval::all(),
            }
        }
    }

    pub open spec fn ashr_spec(self, x: Interval) -> Interval {
        if self.is_empty_spec() || x.is_empty_spec() {
            Interval::empty()
        } else {
            match x.shift_factor_spec() {
                Some(f) => self.divide_spec(Division::General, Interval::point(f)),
                None => Interval::all(),
            }
        }
    }

    pub open spec fn lshr_spec(self, x: Interval) -> Interval {
        if self.is_empty_spec() || x.is_empty_spec() {
            Interval::empty()
        } else {
            match (x.singleton_spec(), self.lb, self.ub) {
                (Some(k), ExtendedNumber::Finite(l), ExtendedNumber::Finite(u)) => {
                    if k@ > 0 && l@ >= 0 {
                        Self::of_bounds(
                            Bound::fin(l@ / (pow2(k@ as nat) as int)),
                            Bound::fin(u@ / (pow2(k@ as nat) as int)),
                        )
                    } else {
                        Interval::all()
                    }
                },
                _ => Interval::all(),
            }
        }
    }

    /// Restriction of the value to `width` bits; other widths leave it as it is.
    pub open spec fn mask_value_spec(self, width: int) -> Interval {
        if 0 < width < 64 {
            self.bitwise_and_spec(Interval::point(Number::nearest(pow2(width as nat) - 1)))
        } else {
            self
        }
    }

    /// Restriction of a shift count to the width of the shifted value.
    pub open spec fn mask_shift_count_spec(self, width: int) -> Interval {
        if width > 0 {
            self.bitwise_and_spec(Interval::point(Number::nearest(width - 1)))
        } else {
            self
        }
    }

    pub open spec fn text(self) -> Seq<char> {
        if self.is_empty_spec() {
            seq!['_', '|', '_']
        } else {
            seq!['['] + self.lb.text() + seq![',', ' '] + self.ub.text() + seq![']']
        }
    }
}

impl PartialEq for Interval {
    fn eq(&self, other: &Self) -> (r: bool) {
        if self.is_bottom() {
            other.is_bottom()
        } else {
            self.lb == other.lb && self.ub == other.ub
        }
    }
}

impl vstd::std_specs::cmp::PartialEqSpecImpl for Interval {
    open spec fn obeys_eq_spec() -> bool {
        true
    }

    open spec fn eq_spec(&self, other: &Self) -> bool {
        self.same(*other)
    }
}

impl Interval {
    /// The interval `[lb, ub]`, empty when `lb > ub`.
    pub fn new(lb: Bound, ub: Bound) -> (r: Self)
        ensures r == Self::of_bounds(lb, ub),
    {
        if ub.lt(&lb) { Self::bottom() } else { Interval { lb, ub } }
    }

    pub fn from_i64_pair(lb: i64, ub: i64) -> (r: Self)
        ensures r == Self::of_bounds(Bound::fin(lb as int), Bound::fin(ub as int)),
    {
        Self::new(Bound::from(lb), Bound::from(ub))
    }

    /// `[n, n]`.
    pub fn from_number(n: Number) -> (r: Self)
        ensures r == Self::point(n),
    {
        Interval { lb: ExtendedNumber::Finite(n), ub: ExtendedNumber::Finite(n) }
    }

    pub fn from_i64(n: i64) -> (r: Self)
        ensures r == Self::point(Number::nearest(n as int)),
    {
        Self::from_number(Number::from(n))
    }

    pub fn from_u64(n: u64) -> (r: Self)
        ensures r == Self::point(Number::nearest(n as int)),
    {
        Self::from_number(Number::from(n))
    }

    pub fn from_number_pair(lb: Number, ub: Number) -> (r: Interval)
        ensures r == Self::of_bounds(ExtendedNumber::Finite(lb), ExtendedNumber::Finite(ub)),
    {
        Interval::new(ExtendedNumber::Finite(lb), ExtendedNumber::Finite(ub))
    }

    pub fn top() -> (r: Self)
        ensures r == Self::all(),
    {
        Interval { lb: MINUS_INFINITY, ub: PLUS_INFINITY }
    }

    pub fn bottom() -> (r: Self)
        ensures r == Self::empty(),
    {
        Interval { lb: ExtendedNumber::Finite(Number { n: 0 }), ub: ExtendedNumber::Finite(Number { n: -1 }) }
    }

    pub fn lb(&self) -> (r: &Bound)
        ensures *r == self.lb,
    {
        &self.lb
    }

    pub fn ub(&self) -> (r: &Bound)
        ensures *r == self.ub,
    {
        &self.ub
    }

    pub fn pair(&self) -> (r: (&Bound, &Bound))
        ensures *r.0 == self.lb, *r.1 == self.ub,
    {
        (&self.lb, &self.ub)
    }

    /// Both ends of a bounded interval.
    pub fn pair_number(&self) -> (r: (Number, Number))
        requires self.lb is Finite, self.ub is Finite,
        ensures
            self.lb == ExtendedNumber::Finite(r.0),
            self.ub == ExtendedNumber::Finite(r.1),
    {
        (self.lb.number().unwrap(), self.ub.number().unwrap())
    }

    /// `ub - lb`, if it is finite.
    pub fn finite_size(&self) -> (r: Option<Number>)
        ensures
            r == (match self.ub.sub_spec(self.lb) {
                ExtendedNumber::Finite(n) => Some(n),
                _ => None,
            }),
    {
        self.ub.sub(self.lb).number()
    }

    pub fn is_bottom(&self) -> (r: bool)
        ensures r == self.is_empty_spec(),
    {
        self.ub.lt(&self.lb)
    }

    pub fn is_top(&self) -> (r: bool)
        ensures r == self.is_top_spec(),
    {
        self.lb.is_infinite() && self.ub.is_infinite()
    }

    pub fn is_singleton(&self) -> (r: bool)
        ensures r == (self.lb == self.ub),
    {
        self.lb == self.ub
    }

    pub fn singleton(&self) -> (r: Option<Number>)
        ensures r == self.singleton_spec(),
    {
        if self.is_singleton() { self.lb.number() } else { None }
    }

    pub fn contains(&self, n: &Number) -> (r: bool)
        ensures r == self.has(n@),
    {
        if self.is_bottom() {
            return false;
        }
        let b = ExtendedNumber::Finite(*n);
        self.lb.le(&b) && b.le(&self.ub)
    }

    /// The number of members.
    pub fn size(&self) -> (r: Bound)
        ensures r == self.size_spec(),
    {
        if self.is_bottom() {
            return ExtendedNumber::Finite(Number { n: 0 });
        }
        self.ub.sub(self.lb).add(ExtendedNumber::Finite(Number { n: 1 }))
    }

    pub fn is_included_in(&self, x: &Interval) -> (r: bool)
        ensures r == self.included_spec(*x),
    {
        if self.is_bottom() {
            return true;
        }
        if x.is_bottom() {
            return false;
        }
        x.lb.le(&self.lb) && self.ub.le(&x.ub)
    }

    /// The least interval that contains both.
    pub fn join(&self, x: &Interval) -> (r: Interval)
        ensures r == self.join_spec(*x),
    {
        if self.is_bottom() {
            return *x;
        }
        if x.is_bottom() {
            return *self;
        }
        Interval::new(self.lb.min(x.lb), self.ub.max(x.ub))
    }

    /// Intersection.
    pub fn meet(&self, x: &Interval) -> (r: Interval)
        ensures r == self.meet_spec(*x),
    {
        if self.is_bottom() || x.is_bottom() {
            return Interval::bottom();
        }
        Interval::new(self.lb.max(x.lb), self.ub.min(x.ub))
    }

    /// Widening: ends that move outwards become infinite.
    pub fn widen(&self, x: &Interval) -> (r: Interval)
        ensures r == self.widen_spec(*x),
    {
        if self.is_bottom() {
            return *x;
        }
        if x.is_bottom() {
            return *self;
        }
        Interval {
            lb: if x.lb.lt(&self.lb) { MINUS_INFINITY } else { self.lb },
            ub: if self.ub.lt(&x.ub) { PLUS_INFINITY } else { self.ub },
        }
    }

    /// Narrowing: infinite ends are refined.
    pub fn narrow(&self, x: &Interval) -> (r: Interval)
        ensures r == self.narrow_spec(*x),
    {
        if self.is_bottom() || x.is_bottom() {
            return Interval::bottom();
        }
        Interval {
            lb: if self.lb.is_infinite() && x.lb.is_finite() { x.lb } else { self.lb },
            ub: if self.ub.is_infinite() && x.ub.is_finite() { x.ub } else { self.ub },
        }
    }

    pub fn add(&self, x: &Interval) -> (r: Interval)
        ensures r == self.add_spec(*x),
    {
        if self.is_bottom() || x.is_bottom() {
            return Interval::bottom();
        }
        Interval::new(self.lb.add(x.lb), self.ub.add(x.ub))
    }

    pub fn negate(&self) -> (r: Interval)
        ensures r == self.negate_spec(),
    {
        if self.is_bottom() {
            return Interval::bottom();
        }
        Interval::new(self.ub.neg(), self.lb.neg())
    }

    pub fn sub(&self, x: &Interval) -> (r: Interval)
        ensures r == self.sub_spec(*x),
    {
        if self.is_bottom() || x.is_bottom() {
            return Interval::bottom();
        }
        Interval::new(self.lb.sub(x.ub), self.ub.sub(x.lb))
    }

    pub fn mul(&self, x: &Interval) -> (r: Interval)
        ensures r == self.mul_spec(*x),
    {
        if self.is_bottom() || x.is_bottom() {
            return Interval::bottom();
        }
        let a: Bound = self.lb.mul(x.lb);
        let b: Bound = self.lb.mul(x.ub);
        let c: Bound = self.ub.mul(x.lb);
        let d: Bound = self.ub.mul(x.ub);
        Interval::new(a.min(b).min(c.min(d)), a.max(b).max(c.max(d)))
    }

    fn divisor_constant(&self, k: Division) -> (r: Option<Number>)
        ensures r == self.constant_divisor(k),
    {
        let n: Number = match self.singleton() {
            Some(n) => n,
            None => return None,
        };
        match k {
            Division::General => Some(n),
            Division::Signed => if n.to_i64().is_some() { Some(n) } else { None },
            Division::Unsigned => if n.to_i64().is_some() {
                proof { number::lemma_wrap_range(n@, 64); number::lemma_pow2_127(); }
                Some(n.cast_to_unsigned_width(64))
            } else {
                None
            },
        }
    }

    fn div_const(&self, k: Division, c: Number) -> (r: Interval)
        ensures r == self.div_const_spec(k, c),
    {
        let b: Bound = ExtendedNumber::Finite(c);
        if c.n == 1 {
            *self
        } else if c.n == 0 {
            Interval::from_i64(0)
        } else {
            match k {
                Division::Unsigned => Interval::new(self.lb.udiv(&b), self.ub.udiv(&b)),
                _ => if c.n < 0 {
                    Interval::new(self.ub.div(b), self.lb.div(b))
                } else {
                    Interval::new(self.lb.div(b), self.ub.div(b))
                },
            }
        }
    }

    /// The dividend, shifted where it is negative so that rounding toward zero rounds down.
    fn make_dividend_when_both_nonzero(&self, divisor: &Interval) -> (r: Interval)
        ensures r == self.shifted_dividend_spec(*divisor),
    {
        let zero: Bound = ExtendedNumber::Finite(Number { n: 0 });
        if zero.le(&self.ub) {
            return *self;
        }
        if divisor.ub.lt(&zero) {
            return self.add(divisor).add(&Interval::from_i64(1));
        }
        self.add(&Interval::from_i64(1)).sub(divisor)
    }

    fn quotient_of_bounds(k: Division, a: Bound, b: Bound) -> (r: Bound)
        requires k is Unsigned || !b.is_zero_spec(),
        ensures r == quotient(k, a, b),
    {
        match k {
            Division::Unsigned => a.udiv(&b),
            _ => a.div(b),
        }
    }

    fn div_ends(&self, k: Division, x: &Interval) -> (r: Interval)
        requires !x.has(0),
        ensures r == self.div_ends_spec(k, *x),
    {
        if self.is_bottom() || x.is_bottom() {
            return Interval::bottom();
        }
        let s: Interval = self.make_dividend_when_both_nonzero(x);
        let a: Bound = Self::quotient_of_bounds(k, s.lb, x.lb);
        let b: Bound = Self::quotient_of_bounds(k, s.lb, x.ub);
        let c: Bound = Self::quotient_of_bounds(k, s.ub, x.lb);
        let d: Bound = Self::quotient_of_bounds(k, s.ub, x.ub);
        Interval::new(a.min(b).min(c.min(d)), a.max(b).max(c.max(d)))
    }

    /// The parts below and above zero.
    fn halves_excluding_zero(&self) -> (r: (Interval, Interval))
        ensures r.0 == self.negative_half(), r.1 == self.positive_half(),
    {
        (
            Interval::new(self.lb, ExtendedNumber::Finite(Number { n: -1 })),
            Interval::new(ExtendedNumber::Finite(Number { n: 1 }), self.ub),
        )
    }

    fn try_split_dividend_at_zero(&self, k: Division, x: &Interval) -> (r: Interval)
        requires !x.has(0),
        ensures r == self.div_nonzero_spec(k, *x),
    {
        if self.is_bottom() || x.is_bottom() {
            return Interval::bottom();
        }
        if let Some(c) = x.divisor_constant(k) {
            return self.div_const(k, c);
        }
        if self.contains(&Number { n: 0 }) {
            let (lo, hi) = self.halves_excluding_zero();
            return lo.div_ends(k, x).join(&hi.div_ends(k, x)).join(&Interval::from_i64(0));
        }
        self.div_ends(k, x)
    }

    fn try_split_divisor_at_zero(&self, k: Division, x: &Interval) -> (r: Interval)
        ensures r == self.divide_spec(k, *x),
    {
        if self.is_bottom() || x.is_bottom() {
            return Interval::bottom();
        }
        if let Some(c) = x.divisor_constant(k) {
            return self.div_const(k, c);
        }
        if x.contains(&Number { n: 0 }) {
            let (lo, hi) = x.halves_excluding_zero();
            return self.try_split_dividend_at_zero(k, &lo)
                .join(&self.try_split_dividend_at_zero(k, &hi))
                .join(&Interval::from_i64(0));
        }
        self.try_split_dividend_at_zero(k, x)
    }

    /// Division as the linear solver needs it.
    pub fn div(&self, x: &Interval) -> (r: Interval)
        ensures r == self.divide_spec(Division::General, *x),
    {
        self.try_split_divisor_at_zero(Division::General, x)
    }

    /// The signed division instruction.
    pub fn sdiv(&self, x: &Interval) -> (r: Interval)
        ensures r == self.divide_spec(Division::Signed, *x),
    {
        self.try_split_divisor_at_zero(Division::Signed, x)
    }

    /// The unsigned division instruction.
    pub fn udiv(&self, x: &Interval) -> (r: Interval)
        ensures r == self.divide_spec(Division::Unsigned, *x),
    {
        self.try_split_divisor_at_zero(Division::Unsigned, x)
    }

    fn srem_nonzero(&self, x: &Interval) -> (r: Interval)
        ensures r == self.srem_nonzero_spec(*x),
    {
        if self.is_bottom() || x.is_bottom() {
            return Interval::bottom();
        }
        let zero: Bound = ExtendedNumber::Finite(Number { n: 0 });
        if let Some(a) = self.singleton() {
            if let Some(b) = x.singleton() {
                if b.is_zero() {
                    return Interval::from_number(a);
                }
                return Interval::from_number(a.rem(b));
            }
        }
        if x.ub.is_finite() && x.lb.is_finite() {
            let (xlb, xub) = x.pair_number();
            let p: Number = xlb.abs();
            let q: Number = xub.abs();
            let (least, most) = if p.le(q) { (p, q) } else { (q, p) };
            if self.ub.lt(&ExtendedNumber::Finite(least)) && self.lb.neg().lt(&ExtendedNumber::Finite(least)) {
                return *self;
            }
            let m: Number = Number { n: most.n - 1 };
            if self.lb.lt(&zero) {
                return if zero.lt(&self.ub) {
                    Interval::from_number_pair(m.neg(), m)
                } else {
                    Interval::from_number_pair(m.neg(), Number { n: 0 })
                };
            }
            return Interval::from_number_pair(Number { n: 0 }, m);
        }
        self.join(&Interval::from_i64(0))
    }

    /// Signed remainder.
    pub fn srem(&self, x: &Interval) -> (r: Interval)
        ensures r == self.srem_spec(*x),
    {
        if self.is_bottom() || x.is_bottom() {
            return Interval::bottom();
        }
        if self.singleton().is_some() && x.singleton().is_some() {
            return self.srem_nonzero(x);
        }
        if x.contains(&Number { n: 0 }) {
            let (lo, hi) = x.halves_excluding_zero();
            return self.srem_nonzero(&lo).join(&self.srem_nonzero(&hi)).join(self);
        }
        self.srem_nonzero(x)
    }

    fn urem_const(&self, x: &Interval) -> (r: Option<Interval>)
        ensures r == self.urem_const_spec(*x),
    {
        let a: Number = match self.singleton() {
            Some(a) => a,
            None => return None,
        };
        let b: Number = match x.singleton() {
            Some(b) => b,
            None => return None,
        };
        if (a.to_u64().is_some() || a.to_i64().is_some()) && (b.to_u64().is_some() || b.to_i64().is_some()) {
            if b.is_zero() {
                return Some(Interval::from_number(a));
            }
            proof {
                number::lemma_wrap_range(a@, 64);
                number::lemma_wrap_range(b@, 64);
                number::lemma_pow2_127();
                if b@ > 0 {
                    number::lemma_wrap_identity(b@, 64);
                } else {
                    vstd::arithmetic::div_mod::lemma_mod_add_multiples_vanish(b@, pow2(64) as int);
                    vstd::arithmetic::div_mod::lemma_small_mod((b@ + pow2(64)) as nat, pow2(64));
                }
            }
            let dv: u64 = a.cast_to_unsigned_width(64).narrow_to_u64();
            let ds: u64 = b.cast_to_unsigned_width(64).narrow_to_u64();
            return Some(Interval::from_u64(dv % ds));
        }
        None
    }

    fn urem_nonzero(&self, x: &Interval) -> (r: Interval)
        ensures r == self.urem_nonzero_spec(*x),
    {
        if self.is_bottom() || x.is_bottom() {
            return Interval::bottom();
        }
        if let Some(r) = self.urem_const(x) {
            return r;
        }
        let zero: Bound = ExtendedNumber::Finite(Number { n: 0 });
        if x.lb.is_infinite() || x.ub.is_infinite() {
            if self.ub.lt(&zero) {
                return Interval::top();
            }
            return self.sub(&Interval::from_i64(1)).join(&Interval::from_i64(0));
        }
        let (xlb, xub) = x.pair_number();
        if let Some(m) = self.ub.number() {
            if m.cast_to_unsigned_width(64).lt(xlb.cast_to_unsigned_width(64)) {
                return *self;
            }
        }
        let most: Number = xub.cast_to_unsigned_width(64);
        proof { number::lemma_wrap_range(xub@, 64); number::lemma_pow2_127(); }
        Interval::from_number_pair(Number { n: 0 }, Number { n: most.n - 1 })
    }

    fn urem_split(&self, x: &Interval) -> (r: Interval)
        ensures r == self.urem_split_spec(*x),
    {
        if self.is_bottom() || x.is_bottom() {
            return Interval::bottom();
        }
        if let Some(r) = self.urem_const(x) {
            return r;
        }
        if self.contains(&Number { n: 0 }) {
            let (lo, hi) = self.halves_excluding_zero();
            return lo.urem_nonzero(x).join(&hi.urem_nonzero(x)).join(self);
        }
        self.urem_nonzero(x)
    }

    /// Unsigned remainder.
    pub fn urem(&self, x: &Interval) -> (r: Interval)
        ensures r == self.urem_spec(*x),
    {
        if self.is_bottom() || x.is_bottom() {
            return Interval::bottom();
        }
        if let Some(r) = self.urem_const(x) {
            return r;
        }
        if x.contains(&Number { n: 0 }) {
            let (lo, hi) = x.halves_excluding_zero();
            return self.urem_split(&lo).join(&self.urem_split(&hi)).join(self);
        }
        self.urem_split(x)
    }

    /// Keeps the low `width` bits, for widths between one and 63.
    pub fn mask_value(&mut self, width: i32)
        ensures *final(self) == old(self).mask_value_spec(width as int),
    {
        if width > 0 && width < 64 {
            *self = self.bitwise_and(&Interval::from_number(Number::max_uint(width)));
        }
    }

    /// Reduces a shift count modulo the width.
    pub fn mask_shift_count(&mut self, width: i32)
        ensures *final(self) == old(self).mask_shift_count_spec(width as int),
    {
        if width > 0 {
            *self = self.bitwise_and(&Interval::from_i64((width - 1) as i64));
        }
    }

    pub fn bitwise_and(&self, x: &Interval) -> (r: Interval)
        ensures r == self.bitwise_and_spec(*x),
    {
        if self.is_bottom() || x.is_bottom() {
            return Interval::bottom();
        }
        let zero: Interval = Interval::from_i64(0);
        if *self == zero || *x == zero {
            return zero;
        }
        if let Some(right) = x.singleton() {
            if let Some(left) = self.singleton() {
                return Interval::from_number(left.bit_and(right));
            }
            if right.n == 0xffff_ffff {
                return self.zero_extend(32);
            }
            if right.n == 0xffff {
                return self.zero_extend(16);
            }
            if right.n == 0xff {
                return self.zero_extend(8);
            }
        }
        if x.contains(&Number::from(u64::MAX)) {
            return self.truncate_to_unsigned(64);
        }
        let lo: Bound = ExtendedNumber::Finite(Number { n: 0 });
        if !self.is_top() && !x.is_top() {
            return Interval::new(lo, self.ub.min(x.ub));
        } else if !x.is_top() {
            return Interval::new(lo, x.ub);
        } else if !self.is_top() {
            return Interval::new(lo, self.ub);
        }
        Interval::top()
    }

    fn or_hull(&self, x: &Interval) -> (r: Interval)
        requires !self.is_empty_spec(), !x.is_empty_spec(),
        ensures r == self.or_hull_spec(*x),
    {
        let zero: Bound = ExtendedNumber::Finite(Number { n: 0 });
        if zero.le(&self.lb) && zero.le(&x.lb) {
            if let Some(a) = self.ub.number() {
                if let Some(b) = x.ub.number() {
                    let m: Number = a.max(b).fill_ones();
                    return Interval::from_number_pair(Number { n: 0 }, m);
                }
            }
            return Interval { lb: zero, ub: PLUS_INFINITY };
        }
        Interval::top()
    }

    pub fn bitwise_or(&self, x: &Interval) -> (r: Interval)
        ensures r == self.bitwise_or_spec(*x),
    {
        if self.is_bottom() || x.is_bottom() {
            return Interval::bottom();
        }
        if let Some(a) = self.singleton() {
            if let Some(b) = x.singleton() {
                return Interval::from_number(a.bit_or(b));
            }
        }
        self.or_hull(x)
    }

    pub fn bitwise_xor(&self, x: &Interval) -> (r: Interval)
        ensures r == self.bitwise_xor_spec(*x),
    {
        if self.is_bottom() || x.is_bottom() {
            return Interval::bottom();
        }
        if let Some(a) = self.singleton() {
            if let Some(b) = x.singleton() {
                return Interval::from_number(a.bit_xor(b));
            }
        }
        self.or_hull(x)
    }

    /// `2^k` for a constant shift by `k` bits.
    fn shift_to_power_of_two(&self) -> (r: Option<Number>)
        ensures r == self.shift_factor_spec(),
    {
        let k: Number = match self.singleton() {
            Some(k) => k,
            None => return None,
        };
        if k.n < 0 || k.n > 128 {
            return None;
        }
        let mut factor: Number = Number { n: 1 };
        let mut i: i128 = 0;
        proof { lemma2_to64(); }
        while i < k.n
            invariant
                0 <= i <= k.n <= 128,
                factor == Number::nearest(pow2(i as nat) as int),
            decreases k.n - i,
        {
            proof {
                lemma_pow2_unfold((i + 1) as nat);
                if i <= 127 { number::lemma_pow2_bounds(i as nat); }
            }
            factor = factor.mul(Number { n: 2 });
            i = i + 1;
        }
        Some(factor)
    }

    pub fn shl(&self, x: &Interval) -> (r: Interval)
        ensures r == self.shl_spec(*x),
    {
        if self.is_bottom() || x.is_bottom() {
            return Interval::bottom();
        }
        match x.shift_to_power_of_two() {
            Some(f) => self.mul(&Interval::from_number(f)),
            None => Interval::top(),
        }
    }

    pub fn lshr(&self, x: &Interval) -> (r: Interval)
        ensures r == self.lshr_spec(*x),
    {
        if self.is_bottom() || x.is_bottom() {
            return Interval::bottom();
        }
        if let Some(k) = x.singleton() {
            if k.is_positive() && self.lb.is_finite() && self.ub.is_finite() {
                let (l, u) = self.pair_number();
                if l.n >= 0 {
                    let s: u32 = if k.n > 127 { 127 } else { k.n as u32 };
                    proof {
                        lemma_shift_out(l@, k@ as nat);
                        lemma_shift_out(u@, k@ as nat);
                    }
                    return Interval::from_number_pair(l.shr(s), u.shr(s));
                }
            }
        }
        Interval::top()
    }

    pub fn ashr(&self, x: &Interval) -> (r: Interval)
        ensures r == self.ashr_spec(*x),
    {
        if self.is_bottom() || x.is_bottom() {
            return Interval::bottom();
        }
        match x.shift_to_power_of_two() {
            Some(f) => self.div(&Interval::from_number(f)),
            None => Interval::top(),
        }
    }

    /// Two's complement reading of the low `width` bits.
    pub fn sign_extend(&self, width: i32) -> (r: Interval)
        requires 1 <= width <= 127,
        ensures r == self.sign_extend_spec(width as int),
    {
        let full: Interval = Interval::signed_int(width);
        if self.lb.is_finite() && self.ub.is_finite() && self.size().lt(&full.size()) {
            let (l, u) = self.pair_number();
            let e: Interval = Interval::from_number_pair(l.sign_extend(width), u.sign_extend(width));
            if !e.is_bottom() {
                return e;
            }
        }
        full
    }

    /// Unsigned reading of the low `width` bits.
    pub fn zero_extend(&self, width: i32) -> (r: Interval)
        requires 1 <= width <= 127,
        ensures r == self.zero_extend_spec(width as int),
    {
        let full: Interval = Interval::unsigned_int(width);
        if self.lb.is_finite() && self.ub.is_finite() && self.size().lt(&full.size()) {
            let (l, u) = self.pair_number();
            let e: Interval = Interval::from_number_pair(l.zero_extend(width), u.zero_extend(width));
            if !e.is_bottom() {
                return e;
            }
        }
        full
    }

    pub fn truncate_to_signed(&self, width: i32) -> (r: Interval)
        requires 1 <= width <= 127,
        ensures r == self.sign_extend_spec(width as int),
    {
        self.sign_extend(width)
    }

    pub fn truncate_to_unsigned(&self, width: i32) -> (r: Interval)
        requires 1 <= width <= 127,
        ensures r == self.zero_extend_spec(width as int),
    {
        self.zero_extend(width)
    }

    /// The signed range of a width.
    pub fn signed_int(width: i32) -> (r: Interval)
        requires 1 <= width <= 127,
        ensures r == Self::signed_int_spec(width as int), !r.is_empty_spec(),
    {
        proof { number::lemma_pow2_bounds((width - 1) as nat); }
        Interval::from_number_pair(Number::min_int(width), Number::max_int(width))
    }

    /// The unsigned range of a width.
    pub fn unsigned_int(width: i32) -> (r: Interval)
        requires 1 <= width <= 127,
        ensures r == Self::unsigned_int_spec(width as int), !r.is_empty_spec(),
    {
        proof { number::lemma_pow2_bounds(width as nat); }
        Interval::from_number_pair(Number { n: 0 }, Number::max_uint(width))
    }

    /// The nonnegative part of the signed range.
    pub fn nonnegative(width: i32) -> (r: Interval)
        requires 1 <= width <= 127,
        ensures r == Self::nonnegative_spec(width as int), !r.is_empty_spec(),
    {
        proof { number::lemma_pow2_bounds((width - 1) as nat); }
        Interval::from_number_pair(Number { n: 0 }, Number::max_int(width))
    }

    /// The negative part of the signed range.
    pub fn negative(width: i32) -> (r: Interval)
        requires 1 <= width <= 127,
        ensures r == Self::negative_spec(width as int), !r.is_empty_spec(),
    {
        proof { number::lemma_pow2_bounds((width - 1) as nat); }
        Interval::from_number_pair(Number::min_int(width), Number { n: -1 })
    }

    /// The part of the unsigned range above the signed maximum.
    pub fn unsigned_high(width: i32) -> (r: Interval)
        requires 1 <= width <= 127,
        ensures r == Self::unsigned_high_spec(width as int), !r.is_empty_spec(),
    {
        proof {
            number::lemma_pow2_bounds((width - 1) as nat);
            number::lemma_pow2_bounds(width as nat);
            lemma_pow2_unfold(width as nat);
            number::lemma_pow2_127();
            lemma_pow2_strictly_increases((width - 1) as nat, 127);
        }
        let m: Number = Number::max_int(width);
        Interval::from_number_pair(m.add(Number { n: 1 }), Number::max_uint(width))
    }

    /// Appends the rendering `[lb, ub]`, or `_|_` for the empty interval.
    pub fn write_to(&self, s: &mut String)
        ensures final(s)@ == old(s)@ + self.text(),
    {
        proof {
            reveal_strlit("_|_"); reveal_strlit("["); reveal_strlit(", "); reveal_strlit("]");
        }
        if self.is_bottom() {
            s.append("_|_");
        } else {
            s.append("[");
            self.lb.write_to(s);
            s.append(", ");
            self.ub.write_to(s);
            s.append("]");
        }
        assert(s@ =~= old(s)@ + self.text());
    }

    pub fn to_string(&self) -> (r: String)
        ensures r@ == self.text(),
    {
        let mut s = String::new();
        self.write_to(&mut s);
        assert(s@ =~= self.text());
        s
    }
}

/// Shifting a number right by its width or more leaves nothing.
proof fn lemma_shift_out(x: int, k: nat)
    requires 0 <= x <= i128::MAX,
    ensures
        k >= 127 ==> x / (pow2(k) as int) == 0 && x / (pow2(127) as int) == 0,
        0 <= x / (pow2(k) as int) <= x,
{
    lemma_pow2_pos(k);
    number::lemma_pow2_127();
    if k > 127 {
        lemma_pow2_strictly_increases(127, k);
    }
    let m = pow2(k) as int;
    assert(0 <= x / m <= x) by (nonlinear_arith)
        requires x >= 0, m >= 1;
    if k >= 127 {
        vstd::arithmetic::div_mod::lemma_basic_div(x, m);
        vstd::arithmetic::div_mod::lemma_basic_div(x, pow2(127) as int);
    }
}

}
