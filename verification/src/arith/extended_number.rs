//! Numbers extended with the two infinities.
use vstd::prelude::*;
use vstd::string::*;
use crate::arith::number;
use crate::arith::number::Number;
use crate::text;

verus! {

/// A number or an infinity.
#[derive(Clone, Copy, Debug, PartialEq, Eq, PartialOrd, Ord, Hash, Structural)]
pub enum ExtendedNumber {
    MinusInfinity,
    Finite(Number),
    PlusInfinity,
}

pub const MINUS_INFINITY: ExtendedNumber = ExtendedNumber::MinusInfinity;

pub const PLUS_INFINITY: ExtendedNumber = ExtendedNumber::PlusInfinity;

impl From<i64> for ExtendedNumber {
    fn from(x: i64) -> (r: Self) {
        ExtendedNumber::Finite(Number { n: x as i128 })
    }
}

impl vstd::std_specs::convert::FromSpecImpl<i64> for ExtendedNumber {
    open spec fn obeys_from_spec() -> bool {
        true
    }

    open spec fn from_spec(x: i64) -> Self {
        ExtendedNumber::Finite(Number { n: x as i128 })
    }
}

impl ExtendedNumber {
    /// The finite extended number nearest to `x`.
    pub open spec fn fin(x: int) -> ExtendedNumber {
        ExtendedNumber::Finite(Number::nearest(x))
    }

    /// Order, with the infinities at the ends.
    pub open spec fn le_spec(self, o: ExtendedNumber) -> bool {
        match (self, o) {
            (ExtendedNumber::MinusInfinity, _) => true,
            (_, ExtendedNumber::PlusInfinity) => true,
            (ExtendedNumber::Finite(a), ExtendedNumber::Finite(b)) => a@ <= b@,
            _ => false,
        }
    }

    pub open spec fn lt_spec(self, o: ExtendedNumber) -> bool {
        !o.le_spec(self)
    }

    pub open spec fn min_spec(self, o: ExtendedNumber) -> ExtendedNumber {
        if self.le_spec(o) { self } else { o }
    }

    pub open spec fn max_spec(self, o: ExtendedNumber) -> ExtendedNumber {
        if o.le_spec(self) { self } else { o }
    }

    /// Below zero.
    pub open spec fn negative(self) -> bool {
        match self {
            ExtendedNumber::MinusInfinity => true,
            ExtendedNumber::Finite(a) => a@ < 0,
            ExtendedNumber::PlusInfinity => false,
        }
    }

    pub open spec fn is_zero_spec(self) -> bool {
        self == ExtendedNumber::Finite(Number { n: 0 })
    }

    /// The infinity on the side given by `negative`.
    pub open spec fn infinity(negative: bool) -> ExtendedNumber {
        if negative { ExtendedNumber::MinusInfinity } else { ExtendedNumber::PlusInfinity }
    }

    /// Sum; an infinite operand absorbs a finite one, and the left of two infinities prevails.
    pub open spec fn add_spec(self, o: ExtendedNumber) -> ExtendedNumber {
        match (self, o) {
            (ExtendedNumber::Finite(a), ExtendedNumber::Finite(b)) => Self::fin(a@ + b@),
            (ExtendedNumber::Finite(_), _) => o,
            _ => self,
        }
    }

    pub open spec fn neg_spec(self) -> ExtendedNumber {
        match self {
            ExtendedNumber::MinusInfinity => ExtendedNumber::PlusInfinity,
            ExtendedNumber::Finite(a) => Self::fin(-a@),
            ExtendedNumber::PlusInfinity => ExtendedNumber::MinusInfinity,
        }
    }

    /// Difference; an infinite operand absorbs a finite one, and the left of two infinities prevails.
    pub open spec fn sub_spec(self, o: ExtendedNumber) -> ExtendedNumber {
        match (self, o) {
            (ExtendedNumber::Finite(a), ExtendedNumber::Finite(b)) => Self::fin(a@ - b@),
            (ExtendedNumber::Finite(_), _) => o.neg_spec(),
            _ => self,
        }
    }

    /// Product; zero annihilates the infinities.
    pub open spec fn mul_spec(self, o: ExtendedNumber) -> ExtendedNumber {
        match (self, o) {
            (ExtendedNumber::Finite(a), ExtendedNumber::Finite(b)) => Self::fin(a@ * b@),
            _ => if self.is_zero_spec() || o.is_zero_spec() {
                Self::fin(0)
            } else {
                Self::infinity(self.negative() != o.negative())
            },
        }
    }

    /// Quotient rounded toward zero; a finite number over an infinity is zero.
    pub open spec fn div_spec(self, o: ExtendedNumber) -> ExtendedNumber {
        match (self, o) {
            (ExtendedNumber::Finite(a), ExtendedNumber::Finite(b)) => Self::fin(number::trunc_div(a@, b@)),
            (ExtendedNumber::Finite(_), _) => Self::fin(0),
            _ => Self::infinity(self.negative() != o.negative()),
        }
    }

    /// Quotient of the 64-bit unsigned readings; infinities behave as in `div`.
    pub open spec fn udiv_spec(self, o: ExtendedNumber) -> ExtendedNumber {
        match (self, o) {
            (ExtendedNumber::Finite(a), ExtendedNumber::Finite(b)) => {
                if number::wrap_unsigned(b@, 64) == 0 {
                    Self::fin(0)
                } else {
                    Self::fin(number::wrap_unsigned(a@, 64) / number::wrap_unsigned(b@, 64))
                }
            },
            (ExtendedNumber::Finite(_), _) => Self::fin(0),
            _ => Self::infinity(self.negative() != o.negative()),
        }
    }

    pub fn le(&self, o: &ExtendedNumber) -> (r: bool)
        ensures r == self.le_spec(*o),
    {
        match (*self, *o) {
            (ExtendedNumber::MinusInfinity, _) => true,
            (_, ExtendedNumber::PlusInfinity) => true,
            (ExtendedNumber::Finite(a), ExtendedNumber::Finite(b)) => a.n <= b.n,
            _ => false,
        }
    }

    pub fn lt(&self, o: &ExtendedNumber) -> (r: bool)
        ensures r == self.lt_spec(*o),
    {
        !o.le(self)
    }

    pub fn min(self, o: ExtendedNumber) -> (r: ExtendedNumber)
        ensures r == self.min_spec(o),
    {
        if self.le(&o) { self } else { o }
    }

    pub fn max(self, o: ExtendedNumber) -> (r: ExtendedNumber)
        ensures r == self.max_spec(o),
    {
        if o.le(&self) { self } else { o }
    }

    pub fn number(&self) -> (r: Option<Number>)
        ensures r == (match *self {
            ExtendedNumber::Finite(a) => Some(a),
            _ => None,
        }),
    {
        match *self {
            ExtendedNumber::Finite(a) => Some(a),
            _ => None,
        }
    }

    pub fn is_finite(&self) -> (r: bool)
        ensures r == (self is Finite),
    {
        matches!(*self, ExtendedNumber::Finite(_))
    }

    pub fn is_infinite(&self) -> (r: bool)
        ensures r == !(self is Finite),
    {
        !self.is_finite()
    }

    fn below_zero(&self) -> (r: bool)
        ensures r == self.negative(),
    {
        match *self {
            ExtendedNumber::MinusInfinity => true,
            ExtendedNumber::Finite(a) => a.n < 0,
            ExtendedNumber::PlusInfinity => false,
        }
    }

    fn equals_zero(&self) -> (r: bool)
        ensures r == self.is_zero_spec(),
    {
        match *self {
            ExtendedNumber::Finite(a) => a.n == 0,
            _ => false,
        }
    }

    fn signed_infinity(negative: bool) -> (r: ExtendedNumber)
        ensures r == Self::infinity(negative),
    {
        if negative { ExtendedNumber::MinusInfinity } else { ExtendedNumber::PlusInfinity }
    }

    pub fn add(self, o: ExtendedNumber) -> (r: ExtendedNumber)
        ensures r == self.add_spec(o),
    {
        match (self, o) {
            (ExtendedNumber::Finite(a), ExtendedNumber::Finite(b)) => ExtendedNumber::Finite(a.add(b)),
            (ExtendedNumber::Finite(_), _) => o,
            _ => self,
        }
    }

    pub fn neg(self) -> (r: ExtendedNumber)
        ensures r == self.neg_spec(),
    {
        match self {
            ExtendedNumber::MinusInfinity => ExtendedNumber::PlusInfinity,
            ExtendedNumber::Finite(a) => ExtendedNumber::Finite(a.neg()),
            ExtendedNumber::PlusInfinity => ExtendedNumber::MinusInfinity,
        }
    }

    pub fn sub(self, o: ExtendedNumber) -> (r: ExtendedNumber)
        ensures r == self.sub_spec(o),
    {
        match (self, o) {
            (ExtendedNumber::Finite(a), ExtendedNumber::Finite(b)) => ExtendedNumber::Finite(a.sub(b)),
            (ExtendedNumber::Finite(_), _) => o.neg(),
            _ => self,
        }
    }

    pub fn mul(self, o: ExtendedNumber) -> (r: ExtendedNumber)
        ensures r == self.mul_spec(o),
    {
        match (self, o) {
            (ExtendedNumber::Finite(a), ExtendedNumber::Finite(b)) => ExtendedNumber::Finite(a.mul(b)),
            _ => if self.equals_zero() || o.equals_zero() {
                ExtendedNumber::Finite(Number { n: 0 })
            } else {
                Self::signed_infinity(self.below_zero() != o.below_zero())
            },
        }
    }

    pub fn div(self, o: ExtendedNumber) -> (r: ExtendedNumber)
        requires !o.is_zero_spec(),
        ensures r == self.div_spec(o),
    {
        match (self, o) {
            (ExtendedNumber::Finite(a), ExtendedNumber::Finite(b)) => ExtendedNumber::Finite(a.div(b)),
            (ExtendedNumber::Finite(_), _) => ExtendedNumber::Finite(Number { n: 0 }),
            _ => Self::signed_infinity(self.below_zero() != o.below_zero()),
        }
    }

    pub fn udiv(self, o: &ExtendedNumber) -> (r: ExtendedNumber)
        ensures r == self.udiv_spec(*o),
    {
        match (self, *o) {
            (ExtendedNumber::Finite(a), ExtendedNumber::Finite(b)) => {
                let x: Number = a.zero_extend(64);
                let y: Number = b.zero_extend(64);
                proof { number::lemma_wrap_range(a@, 64); number::lemma_wrap_range(b@, 64); }
                if y.n == 0 {
                    ExtendedNumber::Finite(Number { n: 0 })
                } else {
                    ExtendedNumber::Finite(x.div(y))
                }
            },
            (ExtendedNumber::Finite(_), _) => ExtendedNumber::Finite(Number { n: 0 }),
            _ => Self::signed_infinity(self.below_zero() != o.below_zero()),
        }
    }

    /// Rendering: decimal, `-oo` or `+oo`.
    pub open spec fn text(self) -> Seq<char> {
        match self {
            ExtendedNumber::MinusInfinity => seq!['-', 'o', 'o'],
            ExtendedNumber::Finite(a) => text::dec_int(a@),
            ExtendedNumber::PlusInfinity => seq!['+', 'o', 'o'],
        }
    }

    pub fn write_to(&self, s: &mut String)
        ensures final(s)@ == old(s)@ + self.text(),
    {
        match *self {
            ExtendedNumber::MinusInfinity => {
                proof { reveal_strlit("-oo"); }
                s.append("-oo");
                assert("-oo"@ =~= self.text());
            },
            ExtendedNumber::Finite(a) => a.write_to(s),
            ExtendedNumber::PlusInfinity => {
                proof { reveal_strlit("+oo"); }
                s.append("+oo");
                assert("+oo"@ =~= self.text());
            },
        }
    }

    pub fn to_string(&self) -> (r: String)
        ensures r@ == self.text(),
    {
        let mut s = String::new();
        self.write_to(&mut s);
        assert(s@ =~= self.text());
        s
    }
}

}
