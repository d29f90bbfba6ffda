//! Integers of the abstract domains.
use vstd::prelude::*;
use vstd::arithmetic::power2::*;
use crate::text;

verus! {

/// An integer. Arithmetic is exact on the 128-bit range and saturates at its ends.
#[derive(Clone, Copy, Debug, PartialEq, Eq, PartialOrd, Ord, Hash, Structural)]
pub struct Number {
    pub n: i128,
}

impl View for Number {
    type V = int;

    open spec fn view(&self) -> int {
        self.n as int
    }
}

/// The representable integer nearest to `x`.
pub open spec fn saturate(x: int) -> int {
    if x > i128::MAX {
        i128::MAX as int
    } else if x < i128::MIN {
        i128::MIN as int
    } else {
        x
    }
}

pub open spec fn abs_int(x: int) -> int {
    if x < 0 { -x } else { x }
}

/// Division that rounds toward zero.
pub open spec fn trunc_div(a: int, b: int) -> int {
    if (a >= 0) == (b >= 0) {
        abs_int(a) / abs_int(b)
    } else {
        -(abs_int(a) / abs_int(b))
    }
}

/// Remainder of the division that rounds toward zero; it takes the sign of `a`.
pub open spec fn trunc_rem(a: int, b: int) -> int {
    if a >= 0 {
        abs_int(a) % abs_int(b)
    } else {
        -(abs_int(a) % abs_int(b))
    }
}

/// The unsigned value of the low `width` bits of `x`.
pub open spec fn wrap_unsigned(x: int, width: int) -> int {
    x % (pow2(width as nat) as int)
}

/// The two's complement value of the low `width` bits of `x`.
pub open spec fn wrap_signed(x: int, width: int) -> int {
    let u = wrap_unsigned(x, width);
    if u >= pow2((width - 1) as nat) {
        u - pow2(width as nat)
    } else {
        u
    }
}

/// The least number of the form `2^k - 1` that is at least `x`.
pub open spec fn ones_above(x: int) -> int
    decreases x,
{
    if x <= 0 {
        0
    } else {
        2 * ones_above(x / 2) + 1
    }
}

/// Powers of two below the width of a number.
pub proof fn lemma_pow2_bounds(k: nat)
    requires k <= 127,
    ensures
        1 <= pow2(k) <= 0x8000_0000_0000_0000_0000_0000_0000_0000int,
    decreases k,
{
    if k == 0 {
        lemma2_to64();
    } else {
        lemma_pow2_bounds((k - 1) as nat);
        lemma_pow2_unfold(k);
        if k < 127 {
            assert(pow2(127) == 0x8000_0000_0000_0000_0000_0000_0000_0000int) by {
                lemma_pow2_127();
            }
            lemma_pow2_strictly_increases(k, 127);
        } else {
            lemma_pow2_127();
        }
    }
}

/// The value of `2^127`.
pub proof fn lemma_pow2_127()
    ensures
        pow2(127) == 0x8000_0000_0000_0000_0000_0000_0000_0000int,
        pow2(64) == 0x1_0000_0000_0000_0000int,
        pow2(63) == 0x8000_0000_0000_0000int,
        pow2(32) == 0x1_0000_0000int,
        pow2(31) == 0x8000_0000int,
        pow2(16) == 0x1_0000int,
        pow2(8) == 0x100int,
{
    lemma2_to64();
    lemma2_to64_rest();
    lemma_pow2_adds(63, 64);
    assert(0x8000_0000_0000_0000int * 0x1_0000_0000_0000_0000int == 0x8000_0000_0000_0000_0000_0000_0000_0000int);
}

/// A wrapped unsigned value lies below `2^width`, a wrapped signed one in the two's complement range.
pub proof fn lemma_wrap_range(x: int, width: int)
    requires 1 <= width,
    ensures
        0 <= wrap_unsigned(x, width) < pow2(width as nat),
        -(pow2((width - 1) as nat) as int) <= wrap_signed(x, width) < pow2((width - 1) as nat),
        pow2(width as nat) == 2 * pow2((width - 1) as nat),
{
    lemma_pow2_pos(width as nat);
    lemma_pow2_unfold(width as nat);
    vstd::arithmetic::div_mod::lemma_mod_bound(x, pow2(width as nat) as int);
}

/// Values already in range are not changed by wrapping.
pub proof fn lemma_wrap_identity(x: int, width: int)
    requires 1 <= width,
    ensures
        0 <= x < pow2(width as nat) ==> wrap_unsigned(x, width) == x,
        -(pow2((width - 1) as nat) as int) <= x < pow2((width - 1) as nat) ==> wrap_signed(x, width) == x,
{
    lemma_wrap_range(x, width);
    let m = pow2(width as nat) as int;
    if 0 <= x < m {
        vstd::arithmetic::div_mod::lemma_small_mod(x as nat, m as nat);
    }
    if -(pow2((width - 1) as nat) as int) <= x < 0 {
        vstd::arithmetic::div_mod::lemma_mod_add_multiples_vanish(x, m);
        vstd::arithmetic::div_mod::lemma_small_mod((x + m) as nat, m as nat);
    } else if 0 <= x < pow2((width - 1) as nat) {
        vstd::arithmetic::div_mod::lemma_small_mod(x as nat, m as nat);
    }
}

pub proof fn lemma_ones_bound(x: int, k: nat)
    requires 0 <= x < pow2(k),
    ensures
        x <= ones_above(x) < pow2(k),
    decreases k,
{
    if x > 0 {
        if k == 0 {
            lemma2_to64();
        } else {
            lemma_pow2_unfold(k);
            lemma_ones_bound(x / 2, (k - 1) as nat);
        }
    } else {
        lemma_pow2_pos(k);
    }
}

impl Default for Number {
    fn default() -> (r: Self)
        ensures r@ == 0,
    {
        Number { n: 0 }
    }
}

impl From<i64> for Number {
    fn from(x: i64) -> (r: Self) {
        Number { n: x as i128 }
    }
}

impl vstd::std_specs::convert::FromSpecImpl<i64> for Number {
    open spec fn obeys_from_spec() -> bool {
        true
    }

    open spec fn from_spec(x: i64) -> Self {
        Number { n: x as i128 }
    }
}

impl From<u64> for Number {
    fn from(x: u64) -> (r: Self) {
        Number { n: x as i128 }
    }
}

impl vstd::std_specs::convert::FromSpecImpl<u64> for Number {
    open spec fn obeys_from_spec() -> bool {
        true
    }

    open spec fn from_spec(x: u64) -> Self {
        Number { n: x as i128 }
    }
}

impl From<i32> for Number {
    fn from(x: i32) -> (r: Self) {
        Number { n: x as i128 }
    }
}

impl vstd::std_specs::convert::FromSpecImpl<i32> for Number {
    open spec fn obeys_from_spec() -> bool {
        true
    }

    open spec fn from_spec(x: i32) -> Self {
        Number { n: x as i128 }
    }
}

/// `2^k` as an unsigned machine integer.
pub fn pow2_u128(k: u32) -> (r: u128)
    requires k <= 127,
    ensures r as int == pow2(k as nat),
{
    let mut r: u128 = 1;
    let mut i: u32 = 0;
    proof { lemma2_to64(); }
    while i < k
        invariant
            i <= k,
            k <= 127,
            r as int == pow2(i as nat),
        decreases k - i,
    {
        proof {
            lemma_pow2_unfold((i + 1) as nat);
            lemma_pow2_bounds((i + 1) as nat);
        }
        r = r * 2;
        i = i + 1;
    }
    r
}

impl Number {
    /// The number nearest to `x`.
    pub open spec fn nearest(x: int) -> Number {
        Number { n: saturate(x) as i128 }
    }

    /// The number `x`.
    pub fn of(x: i128) -> (r: Number)
        ensures r@ == x as int, r == Number::nearest(x as int),
    {
        Number { n: x }
    }

    /// Sum.
    pub fn add(self, o: Number) -> (r: Number)
        ensures r == Number::nearest(self@ + o@),
    {
        match self.n.checked_add(o.n) {
            Some(x) => Number { n: x },
            None => if self.n > 0 { Number { n: i128::MAX } } else { Number { n: i128::MIN } },
        }
    }

    /// Difference.
    pub fn sub(self, o: Number) -> (r: Number)
        ensures r == Number::nearest(self@ - o@),
    {
        match self.n.checked_sub(o.n) {
            Some(x) => Number { n: x },
            None => if o.n < 0 { Number { n: i128::MAX } } else { Number { n: i128::MIN } },
        }
    }

    /// Product.
    pub fn mul(self, o: Number) -> (r: Number)
        ensures r == Number::nearest(self@ * o@),
    {
        match self.n.checked_mul(o.n) {
            Some(x) => Number { n: x },
            None => {
                if (self.n > 0) == (o.n > 0) {
                    assert(self.n * o.n >= 0) by (nonlinear_arith)
                        requires (self.n > 0) == (o.n > 0);
                    Number { n: i128::MAX }
                } else {
                    assert(self.n * o.n <= 0) by (nonlinear_arith)
                        requires (self.n > 0) != (o.n > 0);
                    Number { n: i128::MIN }
                }
            },
        }
    }

    /// Opposite.
    pub fn neg(self) -> (r: Number)
        ensures r == Number::nearest(-self@),
    {
        if self.n == i128::MIN {
            Number { n: i128::MAX }
        } else {
            Number { n: -self.n }
        }
    }

    /// Quotient, rounded toward zero.
    pub fn div(self, o: Number) -> (r: Number)
        requires o@ != 0,
        ensures r == Number::nearest(trunc_div(self@, o@)),
    {
        if self.n == i128::MIN && o.n == -1 {
            assert(trunc_div(self@, o@) == -(i128::MIN as int)) by (nonlinear_arith)
                requires self@ == i128::MIN, o@ == -1;
            Number { n: i128::MAX }
        } else {
            proof { lemma_trunc_div_range(self@, o@); }
            let q: i128 = self.n.checked_div(o.n).unwrap();
            Number { n: q }
        }
    }

    /// Remainder, with the sign of the dividend.
    pub fn rem(self, o: Number) -> (r: Number)
        requires o@ != 0,
        ensures r@ == trunc_rem(self@, o@),
    {
        if self.n == i128::MIN && o.n == -1 {
            assert(trunc_rem(self@, o@) == 0) by (nonlinear_arith)
                requires self@ == i128::MIN, o@ == -1;
            Number { n: 0 }
        } else {
            let q: i128 = self.n.checked_rem(o.n).unwrap();
            Number { n: q }
        }
    }

    /// Bitwise conjunction of the two's complement representations.
    pub fn bit_and(self, o: Number) -> (r: Number)
        ensures r.n == self.n & o.n,
    {
        Number { n: self.n & o.n }
    }

    /// Bitwise disjunction of the two's complement representations.
    pub fn bit_or(self, o: Number) -> (r: Number)
        ensures r.n == self.n | o.n,
    {
        Number { n: self.n | o.n }
    }

    /// Bitwise exclusive disjunction of the two's complement representations.
    pub fn bit_xor(self, o: Number) -> (r: Number)
        ensures r.n == self.n ^ o.n,
    {
        Number { n: self.n ^ o.n }
    }

    /// Division by `2^k`, rounded down.
    pub fn shr(self, k: u32) -> (r: Number)
        ensures r@ == self@ / (pow2(k as nat) as int),
    {
        if k >= 127 {
            proof { lemma_shr_large(self@, k as nat); }
            if self.n < 0 { Number { n: -1 } } else { Number { n: 0 } }
        } else {
            let m: u128 = pow2_u128(k);
            proof {
                lemma_pow2_bounds(k as nat);
                lemma_pow2_127();
                lemma_pow2_strictly_increases(k as nat, 127);
            }
            proof { lemma_floor_div_range(self@, m as int); }
            let q: i128 = self.n.checked_div_euclid(m as i128).unwrap();
            Number { n: q }
        }
    }

    /// The unsigned value of the low `width` bits.
    pub fn zero_extend(self, width: i32) -> (r: Number)
        requires 1 <= width <= 127,
        ensures r@ == wrap_unsigned(self@, width as int),
    {
        proof { lemma_wrap_range(self@, width as int); lemma_pow2_bounds(width as nat); lemma_pow2_127(); }
        if width == 127 {
            if self.n >= 0 {
                proof { lemma_wrap_identity(self@, 127); }
                self
            } else {
                proof {
                    vstd::arithmetic::div_mod::lemma_mod_add_multiples_vanish(self@, pow2(127) as int);
                    vstd::arithmetic::div_mod::lemma_small_mod((self@ + pow2(127)) as nat, pow2(127));
                }
                Number { n: (self.n + i128::MAX) + 1 }
            }
        } else {
            let m: u128 = pow2_u128(width as u32);
            proof { lemma_pow2_strictly_increases(width as nat, 127); }
            let q: i128 = self.n.checked_rem_euclid(m as i128).unwrap();
            Number { n: q }
        }
    }

    /// The two's complement value of the low `width` bits.
    pub fn sign_extend(self, width: i32) -> (r: Number)
        requires 1 <= width <= 127,
        ensures r@ == wrap_signed(self@, width as int),
    {
        let u: Number = self.zero_extend(width);
        let h: u128 = pow2_u128((width - 1) as u32);
        proof {
            lemma_wrap_range(self@, width as int);
            lemma_pow2_bounds(width as nat);
            lemma_pow2_bounds((width - 1) as nat);
            lemma_pow2_strictly_increases((width - 1) as nat, 127);
            lemma_pow2_127();
        }
        let hi: i128 = h as i128;
        if u.n >= hi {
            Number { n: (u.n - hi) - hi }
        } else {
            u
        }
    }

    /// The low `width` bits, read as an unsigned number.
    pub fn cast_to_unsigned_width(self, width: u32) -> (r: Number)
        requires 1 <= width <= 127,
        ensures r@ == wrap_unsigned(self@, width as int),
    {
        self.zero_extend(width as i32)
    }

    /// The low `width` bits, read as a two's complement number.
    pub fn cast_to_signed_width(self, width: u32) -> (r: Number)
        requires 1 <= width <= 127,
        ensures r@ == wrap_signed(self@, width as int),
    {
        self.sign_extend(width as i32)
    }

    /// `-2^(width-1)`.
    pub fn min_int(width: i32) -> (r: Number)
        requires 1 <= width <= 127,
        ensures r@ == -(pow2((width - 1) as nat) as int),
    {
        let h: u128 = pow2_u128((width - 1) as u32);
        proof {
            lemma_pow2_bounds((width - 1) as nat);
            lemma_pow2_strictly_increases((width - 1) as nat, 127);
            lemma_pow2_127();
        }
        Number { n: -(h as i128) }
    }

    /// `2^(width-1) - 1`.
    pub fn max_int(width: i32) -> (r: Number)
        requires 1 <= width <= 127,
        ensures r@ == pow2((width - 1) as nat) - 1,
    {
        let h: u128 = pow2_u128((width - 1) as u32);
        proof {
            lemma_pow2_bounds((width - 1) as nat);
            lemma_pow2_strictly_increases((width - 1) as nat, 127);
            lemma_pow2_127();
        }
        Number { n: h as i128 - 1 }
    }

    /// `2^width - 1`.
    pub fn max_uint(width: i32) -> (r: Number)
        requires 1 <= width <= 127,
        ensures r@ == pow2(width as nat) - 1,
    {
        let h: u128 = pow2_u128(width as u32);
        proof {
            lemma_pow2_bounds(width as nat);
            lemma_pow2_127();
        }
        Number { n: (h - 1) as i128 }
    }

    /// Magnitude.
    pub fn abs(self) -> (r: Number)
        ensures r == Number::nearest(abs_int(self@)),
    {
        if self.n < 0 { self.neg() } else { self }
    }

    /// Sets every bit below the highest set bit.
    pub fn fill_ones(self) -> (r: Number)
        requires self@ >= 0,
        ensures r@ == ones_above(self@),
        decreases self@,
    {
        if self.n <= 0 {
            Number { n: 0 }
        } else {
            let h: Number = Number { n: self.n / 2 }.fill_ones();
            proof {
                lemma_pow2_127();
                lemma_ones_bound(self@, 127);
            }
            Number { n: 2 * h.n + 1 }
        }
    }

    pub fn is_zero(self) -> (r: bool)
        ensures r == (self@ == 0),
    {
        self.n == 0
    }

    pub fn is_positive(self) -> (r: bool)
        ensures r == (self@ > 0),
    {
        self.n > 0
    }

    pub fn is_negative(self) -> (r: bool)
        ensures r == (self@ < 0),
    {
        self.n < 0
    }

    pub fn le(self, o: Number) -> (r: bool)
        ensures r == (self@ <= o@),
    {
        self.n <= o.n
    }

    pub fn lt(self, o: Number) -> (r: bool)
        ensures r == (self@ < o@),
    {
        self.n < o.n
    }

    pub fn min(self, o: Number) -> (r: Number)
        ensures r == (if self@ <= o@ { self } else { o }),
    {
        if self.n <= o.n { self } else { o }
    }

    pub fn max(self, o: Number) -> (r: Number)
        ensures r == (if self@ >= o@ { self } else { o }),
    {
        if self.n >= o.n { self } else { o }
    }

    /// The value as a signed 64-bit integer, if it fits.
    pub fn to_i64(self) -> (r: Option<i64>)
        ensures
            r is Some <==> i64::MIN <= self@ <= i64::MAX,
            r matches Some(x) ==> x as int == self@,
    {
        if self.n >= i64::MIN as i128 && self.n <= i64::MAX as i128 {
            Some(self.n as i64)
        } else {
            None
        }
    }

    /// The value as an unsigned 64-bit integer, if it fits.
    pub fn to_u64(self) -> (r: Option<u64>)
        ensures
            r is Some <==> 0 <= self@ <= u64::MAX,
            r matches Some(x) ==> x as int == self@,
    {
        if self.n >= 0 && self.n <= u64::MAX as i128 {
            Some(self.n as u64)
        } else {
            None
        }
    }

    /// The value as a signed 64-bit integer.
    pub fn narrow_to_i64(self) -> (r: i64)
        requires i64::MIN <= self@ <= i64::MAX,
        ensures r as int == self@,
    {
        self.n as i64
    }

    /// The value as an unsigned 64-bit integer.
    pub fn narrow_to_u64(self) -> (r: u64)
        requires 0 <= self@ <= u64::MAX,
        ensures r as int == self@,
    {
        self.n as u64
    }

    /// Whether the value fits an integer of `width` bits, signed or unsigned.
    pub fn fits_cast_to(self, width: i32) -> (r: bool)
        requires 1 <= width <= 127,
        ensures r == (-(pow2((width - 1) as nat) as int) <= self@ < pow2(width as nat)),
    {
        Number::min_int(width).le(self) && self.le(Number::max_uint(width))
    }

    /// Whether the value fits an unsigned integer of `width` bits.
    pub fn fits_unsigned(self, width: i32) -> (r: bool)
        requires 1 <= width <= 127,
        ensures r == (0 <= self@ < pow2(width as nat)),
    {
        self.n >= 0 && self.le(Number::max_uint(width))
    }

    /// Appends the decimal rendering.
    pub fn write_to(self, s: &mut String)
        ensures final(s)@ == old(s)@ + text::dec_int(self@),
    {
        text::push_int(s, self.n);
    }

    /// Decimal rendering.
    pub fn to_string(self) -> (r: String)
        ensures r@ == text::dec_int(self@),
    {
        let mut s = String::new();
        self.write_to(&mut s);
        assert(s@ =~= text::dec_int(self@));
        s
    }
}

proof fn lemma_trunc_div_range(a: int, b: int)
    requires
        b != 0,
        i128::MIN <= a <= i128::MAX,
        !(a == i128::MIN && b == -1),
    ensures
        i128::MIN <= trunc_div(a, b) <= i128::MAX,
        a == 0 ==> trunc_div(a, b) == 0,
{
    let x = abs_int(a);
    let d = abs_int(b);
    assert(0 <= x / d <= x) by (nonlinear_arith)
        requires x >= 0, d >= 1;
    if a == i128::MIN && b < 0 {
        assert(x / d <= x / 2) by (nonlinear_arith)
            requires x >= 0, d >= 2;
    }
}

proof fn lemma_floor_div_range(a: int, m: int)
    requires m >= 1, i128::MIN <= a <= i128::MAX,
    ensures i128::MIN <= a / m <= i128::MAX,
{
    assert(i128::MIN <= a / m <= i128::MAX) by (nonlinear_arith)
        requires m >= 1, i128::MIN <= a <= i128::MAX;
}

proof fn lemma_shr_large(x: int, k: nat)
    requires k >= 127, i128::MIN <= x <= i128::MAX,
    ensures x / (pow2(k) as int) == (if x < 0 { -1int } else { 0int }),
{
    lemma_pow2_127();
    if k > 127 {
        lemma_pow2_strictly_increases(127, k);
    }
    let m = pow2(k) as int;
    assert(x / m == (if x < 0 { -1int } else { 0int })) by (nonlinear_arith)
        requires m >= 0x8000_0000_0000_0000_0000_0000_0000_0000int, -m <= x < m;
}

}
