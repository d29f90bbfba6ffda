//! What a comparison says of registers is sound: it holds of all values that compare so.
use vstd::prelude::*;
use vstd::arithmetic::power2::*;
use crate::arith::extended_number::ExtendedNumber;
use crate::arith::linear_constraint::LinearConstraint;
use crate::arith::linear_expression::{Env, LinearExpression};
use crate::arith::number;
use crate::arith::number::Number;
use crate::ebpf_domain;
use crate::finite_assume;
use crate::finite_assume::Claim;
use crate::finite_domain;
use crate::interval::Interval;
use crate::interval_laws;
use crate::numeric_steps;
use crate::numeric_steps::{Num, Step};
use crate::ord_map;
use crate::syntax::ConditionOp;
use crate::var_registry::RegistryView;
use crate::zone_domain;
use crate::splitdbm::constraints;
use crate::zone_model;
use crate::zone_model::ZEdges;

verus! {

/// The signed and the unsigned reading of one register of sixty-four bits.
pub open spec fn readings(s: int, u: int) -> bool {
    i64::MIN <= s <= i64::MAX && u == (if s < 0 { s + 0x1_0000_0000_0000_0000 } else { s })
}

/// The signed value that a comparison takes: the register, or its low half.
pub open spec fn signed_part(s: int, is64: bool) -> int {
    if is64 { s } else { number::wrap_signed(s, 32) }
}

/// The unsigned value that a comparison takes: the register, or its low half.
pub open spec fn unsigned_part(u: int, is64: bool) -> int {
    if is64 { u } else { number::wrap_unsigned(u, 32) }
}

/// The registers compare so. `ls` and `lu` are the readings of the left one, `rs` and `ru` those
/// of the right one.
pub open spec fn compares(op: ConditionOp, is64: bool, ls: int, lu: int, rs: int, ru: int) -> bool {
    match op {
        ConditionOp::EQ => unsigned_part(lu, is64) == unsigned_part(ru, is64),
        ConditionOp::NE => unsigned_part(lu, is64) != unsigned_part(ru, is64),
        ConditionOp::SGE => signed_part(ls, is64) >= signed_part(rs, is64),
        ConditionOp::SLE => signed_part(ls, is64) <= signed_part(rs, is64),
        ConditionOp::SGT => signed_part(ls, is64) > signed_part(rs, is64),
        ConditionOp::SLT => signed_part(ls, is64) < signed_part(rs, is64),
        ConditionOp::GE => unsigned_part(lu, is64) >= unsigned_part(ru, is64),
        ConditionOp::LE => unsigned_part(lu, is64) <= unsigned_part(ru, is64),
        ConditionOp::GT => unsigned_part(lu, is64) > unsigned_part(ru, is64),
        ConditionOp::LT => unsigned_part(lu, is64) < unsigned_part(ru, is64),
        ConditionOp::SET => (lu as u64) & (unsigned_part(ru, is64) as u64) != 0,
        ConditionOp::NSET => (lu as u64) & (unsigned_part(ru, is64) as u64) == 0,
    }
}

/// A valuation of a zone in which two variables, and two expressions, are the readings of
/// registers.
pub open spec fn reads(z: ZEdges, s: u64, u: u64, rs: &LinearExpression, ru: &LinearExpression, env: Env) -> bool {
    &&& zone_model::mild(env)
    &&& zone_model::zholds(z, env)
    &&& readings(env(s), env(u))
    &&& readings(rs.eval(env), ru.eval(env))
    &&& zone_model::zeval(z, rs).has(rs.eval(env))
    &&& zone_model::zeval(z, ru).has(ru.eval(env))
}

/// All claims hold.
pub open spec fn all_hold(cs: Seq<Claim>, env: Env) -> bool {
    forall|i: int| 0 <= i < cs.len() ==> ((#[trigger] cs[i]).says)(env)
}

proof fn lemma_powers()
    ensures
        pow2(31) == 0x8000_0000,
        pow2(32) == 0x1_0000_0000,
        pow2(63) == 0x8000_0000_0000_0000,
        pow2(64) == 0x1_0000_0000_0000_0000,
{
    lemma2_to64();
    lemma2_to64_rest();
}

/// The readings of a register wrap into one another.
proof fn lemma_readings(s: int, u: int)
    requires readings(s, u),
    ensures
        number::wrap_signed(s, 64) == s,
        number::wrap_unsigned(u, 64) == u,
        number::wrap_signed(u, 64) == s,
        number::wrap_unsigned(s, 64) == u,
        number::wrap_unsigned(s, 32) == number::wrap_unsigned(u, 32),
        0 <= number::wrap_unsigned(u, 32) < 0x1_0000_0000,
        -0x8000_0000 <= number::wrap_signed(s, 32) < 0x8000_0000,
        number::wrap_signed(s, 32) == (if number::wrap_unsigned(u, 32) >= 0x8000_0000 { number::wrap_unsigned(u, 32) - 0x1_0000_0000 } else { number::wrap_unsigned(u, 32) }),
        -0x8000_0000 <= s < 0x8000_0000 ==> number::wrap_signed(s, 32) == s,
        0 <= u < 0x1_0000_0000 ==> number::wrap_unsigned(u, 32) == u,
        number::wrap_signed(number::wrap_signed(s, 32), 64) == number::wrap_signed(s, 32),
        number::wrap_unsigned(number::wrap_unsigned(u, 32), 64) == number::wrap_unsigned(u, 32),
{
    lemma_powers();
    number::lemma_wrap_identity(s, 64);
    number::lemma_wrap_identity(u, 64);
    number::lemma_wrap_identity(s, 32);
    number::lemma_wrap_identity(u, 32);
    number::lemma_wrap_range(s, 32);
    number::lemma_wrap_range(u, 32);
    number::lemma_wrap_identity(number::wrap_signed(s, 32), 64);
    number::lemma_wrap_identity(number::wrap_unsigned(u, 32), 64);
    assert((s + 0x1_0000_0000_0000_0000) % 0x1_0000_0000 == s % 0x1_0000_0000);
    if s < 0 {
        assert(s % 0x1_0000_0000_0000_0000 == s + 0x1_0000_0000_0000_0000);
    }
}

/// The intervals of a signed comparison hold the values that it takes.
proof fn lemma_signed_split(z: ZEdges, is64: bool, s: u64, u: u64, right: Interval, a: int, au: int, b: int)
    requires
        zone_model::zinterval(z, s).has(a),
        zone_model::zinterval(z, u).has(au),
        right.has(b),
        readings(a, au),
        i64::MIN <= b <= i64::MAX,
    ensures
        finite_domain::signed_split(z, is64, s, u, right).left.has(signed_part(a, is64)),
        finite_domain::signed_split(z, is64, s, u, right).right.has(signed_part(b, is64)),
        signed_part(a, is64) >= 0 ==> finite_domain::signed_split(z, is64, s, u, right).low.has(signed_part(a, is64)),
        signed_part(a, is64) < 0 ==> finite_domain::signed_split(z, is64, s, u, right).high.has(signed_part(a, is64))
            || finite_domain::signed_split(z, is64, s, u, right).high.has(-0x8000_0000_0000_0000),
{
    lemma_powers();
    lemma_readings(a, au);
    lemma_readings(b, if b < 0 { b + 0x1_0000_0000_0000_0000 } else { b });
    let l0 = zone_model::zinterval(z, s);
    let ui = zone_model::zinterval(z, u);
    let wide = is64 || finite_domain::same_signed_half(l0, right);
    let x = signed_part(a, is64);
    let y = signed_part(b, is64);
    let l1 = if wide { l0 } else { l0.sign_extend_spec(32) };
    let r1 = if wide { right } else { right.sign_extend_spec(32) };
    interval_laws::sign_extension_is_sound(l0, 32, a);
    interval_laws::sign_extension_is_sound(right, 32, b);
    if wide && !is64 {
        assert(-0x8000_0000 <= a < 0x8000_0000 && -0x8000_0000 <= b < 0x8000_0000);
    }
    assert(l1.has(x) && r1.has(y));
    interval_laws::sign_extension_is_sound(l1, 64, x);
    interval_laws::sign_extension_is_sound(r1, 64, y);
    interval_laws::sign_extension_is_sound(ui, 64, au);
    let w: int = if wide { 64 } else { 32 };
    interval_laws::meet_is_exact(l1, Interval::nonnegative_spec(w), x);
    interval_laws::meet_is_exact(l1, Interval::negative_spec(w), x);
    interval_laws::meet_is_exact(ui, Interval::nonnegative_spec(w), x);
    if l1.is_top_spec() {
        assert(wide);
        assert(is64);
        if let ExtendedNumber::Finite(n) = ui.ub {
            number::lemma_wrap_range(n@, 64);
        }
    }
}

proof fn lemma_order_fails(strict: bool, is_lt: bool, l: Interval, r: Interval, a: int, b: int)
    requires l.has(a), r.has(b), finite_assume::ordered(strict, is_lt, a, b),
    ensures !finite_assume::order_fails(strict, is_lt, l, r),
{
}

/// Where both values are readings of one sign, they compare alike.
proof fn lemma_same_sign(strict: bool, is_lt: bool, ls: int, lu: int, rs: int, ru: int)
    requires
        readings(ls, lu),
        readings(rs, ru),
        (ls < 0) == (rs < 0),
    ensures finite_assume::ordered(strict, is_lt, ls, rs) == finite_assume::ordered(strict, is_lt, lu, ru),
{
}

proof fn lemma_upper_number(iv: Interval, width: int, x: int)
    requires
        width == 32 || width == 64,
        iv.has(x),
        number::wrap_signed(x, width) == x,
    ensures x <= finite_assume::upper_number(iv.sign_extend_spec(width)),
{
    interval_laws::sign_extension_is_sound(iv, width, x);
}

proof fn lemma_low_match(base: int, n: int, x: int)
    requires number::wrap_unsigned(x, 32) == number::wrap_unsigned(n, 32),
    ensures
        x >= base ==> x >= finite_assume::match_above(base, n),
        x <= base ==> x <= finite_assume::match_below(base, n),
{
    lemma_powers();
    let m = 0x1_0000_0000int;
    assert(x % m == n % m);
    assert(x == m * (x / m) + x % m);
    assert(base == m * (base / m) + base % m);
    let d = x / m - base / m;
    assert(x - finite_assume::low_match(base, n) == m * d) by (nonlinear_arith)
        requires
            x == m * (x / m) + x % m,
            base == m * (base / m) + base % m,
            d == x / m - base / m,
            finite_assume::low_match(base, n) == base - base % m + x % m,
    ;
    assert(0 <= n % m < m && 0 <= base % m < m);
}

/// Equality of the low halves.
proof fn lemma_eq32(z: ZEdges, s: u64, u: u64, right: Interval, a: int, au: int, b: int, env: Env)
    requires
        env(s) == a,
        env(u) == au,
        readings(a, au),
        zone_model::zinterval(z, s).has(a),
        right.has(number::wrap_signed(b, 32)),
        number::wrap_unsigned(a, 32) == number::wrap_unsigned(b, 32),
        i64::MIN <= b <= i64::MAX,
    ensures all_hold(finite_assume::eq32_claims(s, u, zone_model::zinterval(z, s), right), env),
{
    lemma_powers();
    let left = zone_model::zinterval(z, s);
    lemma_readings(b, if b < 0 { b + 0x1_0000_0000_0000_0000 } else { b });
    if let (Some(rn), ExtendedNumber::Finite(l), ExtendedNumber::Finite(h)) = (right.singleton_spec(), left.lb, left.ub) {
        let n = number::wrap_signed(rn@, 64);
        assert(rn@ == number::wrap_signed(b, 32));
        assert(n == rn@);
        assert(number::wrap_unsigned(n, 32) == number::wrap_unsigned(b, 32)) by {
            let c = number::wrap_unsigned(b, 32);
            assert((c - 0x1_0000_0000) % 0x1_0000_0000 == c % 0x1_0000_0000);
            number::lemma_wrap_identity(c, 32);
            number::lemma_wrap_range(b, 32);
        }
        lemma_low_match(l@, n, a);
        lemma_low_match(h@, n, a);
        let lo = finite_assume::match_above(l@, n);
        let hi = finite_assume::match_below(h@, n);
        assert(lo <= a <= hi);
        if i64::MIN <= l@ <= i64::MAX && i64::MIN <= h@ <= i64::MAX && lo <= i64::MAX && hi >= i64::MIN {
            number::lemma_wrap_range(l@, 32);
            number::lemma_wrap_range(h@, 32);
            number::lemma_wrap_range(n, 32);
            assert(lo >= l@ && hi <= h@);
            lemma_readings(lo, if lo < 0 { lo + 0x1_0000_0000_0000_0000 } else { lo });
            lemma_readings(hi, if hi < 0 { hi + 0x1_0000_0000_0000_0000 } else { hi });
        }
    }
}

/// What the parts of a signed comparison hold.
spec fn signed_parts(low: Interval, high: Interval, right: Interval, x: int, y: int) -> bool {
    &&& right.has(y)
    &&& x >= 0 ==> low.has(x)
    &&& x < 0 ==> high.has(x) || high.has(-0x8000_0000_0000_0000)
}

proof fn lemma_slt64(strict: bool, s: u64, u: u64, low: Interval, high: Interval, rs: &LinearExpression, ru: &LinearExpression, right: Interval, env: Env)
    requires
        readings(env(s), env(u)),
        readings(rs.eval(env), ru.eval(env)),
        finite_assume::ordered(strict, true, env(s), rs.eval(env)),
        signed_parts(low, high, right, env(s), rs.eval(env)),
    ensures all_hold(finite_assume::slt64_claims(strict, s, u, low, high, rs, ru, right), env),
{
    lemma_powers();
    let a = env(s);
    let b = rs.eval(env);
    if right.included_spec(Interval::negative_spec(64)) {
        interval_laws::inclusion_is_sound(right, Interval::negative_spec(64), b);
    } else if high.join_spec(low).included_spec(Interval::nonnegative_spec(64)) && right.included_spec(Interval::nonnegative_spec(64)) {
        interval_laws::inclusion_is_sound(right, Interval::nonnegative_spec(64), b);
        if a < 0 {
            let w = if high.has(a) { a } else { -0x8000_0000_0000_0000 };
            interval_laws::join_is_sound(high, low, w);
            interval_laws::inclusion_is_sound(high.join_spec(low), Interval::nonnegative_spec(64), w);
        }
    }
    if (a < 0) == (b < 0) {
        lemma_same_sign(strict, true, a, env(u), b, ru.eval(env));
    }
}

proof fn lemma_sgt64(strict: bool, s: u64, u: u64, low: Interval, high: Interval, rs: &LinearExpression, ru: &LinearExpression, right: Interval, env: Env)
    requires
        readings(env(s), env(u)),
        readings(rs.eval(env), ru.eval(env)),
        finite_assume::ordered(strict, false, env(s), rs.eval(env)),
        signed_parts(low, high, right, env(s), rs.eval(env)),
    ensures all_hold(finite_assume::sgt64_claims(strict, s, u, low, high, rs, ru, right), env),
{
    lemma_powers();
    let a = env(s);
    let b = rs.eval(env);
    if right.included_spec(Interval::nonnegative_spec(64)) {
        interval_laws::inclusion_is_sound(right, Interval::nonnegative_spec(64), b);
        lemma_readings(a, env(u));
        lemma_upper_number(low, 64, a);
    } else if high.join_spec(low).included_spec(Interval::negative_spec(64)) && right.included_spec(Interval::negative_spec(64)) {
        interval_laws::inclusion_is_sound(right, Interval::negative_spec(64), b);
        if a >= 0 {
            interval_laws::join_is_sound(high, low, a);
            interval_laws::inclusion_is_sound(high.join_spec(low), Interval::negative_spec(64), a);
        }
    }
    if (a < 0) == (b < 0) {
        lemma_same_sign(strict, false, a, env(u), b, ru.eval(env));
    }
}

/// The intervals of the two readings' low halves, where they fit.
proof fn lemma_halves(l: Interval, a: int)
    requires l.has(a),
    ensures
        l.included_spec(Interval::signed_int_spec(32)) ==> -0x8000_0000 <= a < 0x8000_0000,
        l.included_spec(Interval::negative_spec(32)) ==> -0x8000_0000 <= a < 0,
        l.included_spec(Interval::nonnegative_spec(32)) ==> 0 <= a < 0x8000_0000,
        l.included_spec(Interval::unsigned_int_spec(32)) ==> 0 <= a < 0x1_0000_0000,
        l.included_spec(Interval::unsigned_high_spec(32)) ==> 0x8000_0000 <= a < 0x1_0000_0000,
        l.included_spec(Interval::signed_int_spec(64)) ==> -0x8000_0000_0000_0000 <= a < 0x8000_0000_0000_0000,
        l.included_spec(Interval::negative_spec(64)) ==> -0x8000_0000_0000_0000 <= a < 0,
        l.included_spec(Interval::nonnegative_spec(64)) ==> 0 <= a < 0x8000_0000_0000_0000,
        l.included_spec(Interval::unsigned_high_spec(64)) ==> 0x8000_0000_0000_0000 <= a < 0x1_0000_0000_0000_0000,
{
    lemma_powers();
}

proof fn lemma_signed32(z: ZEdges, strict: bool, is_lt: bool, s: u64, u: u64, low: Interval, rs: &LinearExpression, ru: &LinearExpression, env: Env)
    requires
        readings(env(s), env(u)),
        readings(rs.eval(env), ru.eval(env)),
        zone_model::zinterval(z, s).has(env(s)),
        zone_model::zeval(z, rs).has(rs.eval(env)),
        finite_assume::ordered(strict, is_lt, number::wrap_signed(env(s), 32), number::wrap_signed(rs.eval(env), 32)),
        number::wrap_signed(env(s), 32) >= 0 ==> low.has(number::wrap_signed(env(s), 32)),
    ensures all_hold(if is_lt { finite_assume::slt32_claims(z, strict, s, u, low, rs, ru) } else { finite_assume::sgt32_claims(z, strict, s, u, low, rs, ru) }, env),
{
    let a = env(s);
    let b = rs.eval(env);
    lemma_halves(zone_model::zinterval(z, s), a);
    lemma_halves(zone_model::zeval(z, rs), b);
    lemma_readings(a, env(u));
    lemma_readings(b, ru.eval(env));
    if 0 <= a < 0x8000_0000 {
        lemma_upper_number(low, 32, a);
    }
    if (a < 0) == (b < 0) {
        lemma_same_sign(strict, is_lt, a, env(u), b, ru.eval(env));
    }
}

/// What a signed comparison or an equality says is sound: it holds of every valuation of the zone
/// in which the registers compare so.
pub proof fn signed_comparisons_are_sound(z: ZEdges, op: ConditionOp, is64: bool, s: u64, u: u64, rs: &LinearExpression, ru: &LinearExpression, env: Env)
    requires
        op is EQ || op is SGE || op is SLE || op is SGT || op is SLT,
        reads(z, s, u, rs, ru, env),
        compares(op, is64, env(s), env(u), rs.eval(env), ru.eval(env)),
    ensures all_hold(finite_assume::signed_claims(z, op, is64, s, u, rs, ru), env),
{
    lemma_powers();
    let a = env(s);
    let au = env(u);
    let b = rs.eval(env);
    let bu = ru.eval(env);
    let l = zone_model::zinterval(z, s);
    let r = zone_model::zeval(z, rs);
    zone_model::interval_is_sound(z, s, env);
    zone_model::interval_is_sound(z, u, env);
    lemma_signed_split(z, is64, s, u, r, a, au, b);
    lemma_readings(a, au);
    lemma_readings(b, bu);
    let sp = finite_domain::signed_split(z, is64, s, u, r);
    let x = signed_part(a, is64);
    let y = signed_part(b, is64);
    let is_lt = op is SLT || op is SLE;
    let strict = op is SLT || op is SGT;
    if op is EQ {
        if !is64 {
            lemma_eq32(z, s, u, sp.right, a, au, b, env);
        }
    } else {
        assert(finite_assume::ordered(strict, is_lt, x, y));
        lemma_order_fails(strict, is_lt, sp.left, sp.right, x, y);
        if finite_assume::order_certain(strict, is_lt, sp.left, sp.right) {
        } else if is64 {
            if is_lt { lemma_slt64(strict, s, u, sp.low, sp.high, rs, ru, sp.right, env); } else { lemma_sgt64(strict, s, u, sp.low, sp.high, rs, ru, sp.right, env); }
        } else {
            lemma_signed32(z, strict, is_lt, s, u, sp.low, rs, ru, env);
        }
    }
}

/// The sign extension of an interval of signed values is the interval.
proof fn lemma_signed_interval(l: Interval)
    requires !l.is_empty_spec(), l.included_spec(Interval::signed_int_spec(64)),
    ensures
        l.sign_extend_spec(64) == l,
        !l.is_top_spec(),
        l.lb is Finite,
        l.ub is Finite,
{
    lemma_powers();
    number::lemma_pow2_127();
    if let (ExtendedNumber::Finite(a), ExtendedNumber::Finite(b)) = (l.lb, l.ub) {
        number::lemma_wrap_identity(a@, 64);
        number::lemma_wrap_identity(b@, 64);
    }
}

/// No two values of the intervals are ordered so.
pub open spec fn never_ordered(strict: bool, is_lt: bool, l: Interval, r: Interval) -> bool {
    forall|a: int, b: int| #![trigger l.has(a), r.has(b)] l.has(a) && r.has(b) ==> !finite_assume::ordered(strict, is_lt, a, b)
}

/// Any two values of the intervals are ordered so.
pub open spec fn always_ordered(strict: bool, is_lt: bool, l: Interval, r: Interval) -> bool {
    forall|a: int, b: int| #![trigger l.has(a), r.has(b)] l.has(a) && r.has(b) ==> finite_assume::ordered(strict, is_lt, a, b)
}

/// The constraints are the constant one that always holds, or never.
pub open spec fn is_constantly(r: Seq<LinearConstraint>, b: bool) -> bool {
    r.len() == 1 && numeric_steps::lin_of(&r[0]) == finite_assume::constantly(b).lin
}

proof fn lemma_order_decided(strict: bool, is_lt: bool, l: Interval, r: Interval)
    requires
        !l.is_empty_spec(),
        !r.is_empty_spec(),
        l.lb is Finite,
        l.ub is Finite,
        r.lb is Finite,
        r.ub is Finite,
    ensures
        finite_assume::order_fails(strict, is_lt, l, r) == never_ordered(strict, is_lt, l, r),
        finite_assume::order_certain(strict, is_lt, l, r) == always_ordered(strict, is_lt, l, r),
        !(finite_assume::order_fails(strict, is_lt, l, r) && finite_assume::order_certain(strict, is_lt, l, r)),
{
    let a = l.lb->Finite_0@;
    let b = l.ub->Finite_0@;
    let c = r.lb->Finite_0@;
    let d = r.ub->Finite_0@;
    assert(l.has(a) && l.has(b) && r.has(c) && r.has(d));
}

/// A signed comparison of sixty-four bits is decided exactly where the intervals decide it: the
/// result is the constant constraint that never holds where no two values are ordered so, and the
/// one that always holds where any two are.
pub proof fn signed_comparisons_are_decided(z: ZEdges, op: ConditionOp, s: u64, u: u64, rs: &LinearExpression, ru: &LinearExpression, r: Seq<LinearConstraint>)
    requires
        op is SGE || op is SLE || op is SGT || op is SLT,
        finite_assume::states(r, finite_assume::signed_claims(z, op, true, s, u, rs, ru)),
        !zone_model::zinterval(z, s).is_empty_spec(),
        !zone_model::zeval(z, rs).is_empty_spec(),
        zone_model::zinterval(z, s).included_spec(Interval::signed_int_spec(64)),
        zone_model::zeval(z, rs).included_spec(Interval::signed_int_spec(64)),
    ensures
        is_constantly(r, false) <==> never_ordered(op is SLT || op is SGT, op is SLT || op is SLE, zone_model::zinterval(z, s), zone_model::zeval(z, rs)),
        is_constantly(r, true) <==> always_ordered(op is SLT || op is SGT, op is SLT || op is SLE, zone_model::zinterval(z, s), zone_model::zeval(z, rs)),
        is_constantly(r, false) ==> r[0].is_contradiction_spec(),
        is_constantly(r, true) ==> r[0].is_tautology_spec(),
{
    let l = zone_model::zinterval(z, s);
    let q = zone_model::zeval(z, rs);
    let is_lt = op is SLT || op is SLE;
    let strict = op is SLT || op is SGT;
    lemma_signed_interval(l);
    lemma_signed_interval(q);
    let sp = finite_domain::signed_split(z, true, s, u, q);
    assert(sp.left == l && sp.right == q);
    lemma_order_decided(strict, is_lt, l, q);
    let cs = finite_assume::signed_claims(z, op, true, s, u, rs, ru);
    if finite_assume::order_fails(strict, is_lt, l, q) {
        finite_assume::constants_are_decided(r, false);
        assert(numeric_steps::lin_of(&r[0]) == cs[0].lin);
    } else if finite_assume::order_certain(strict, is_lt, l, q) {
        finite_assume::constants_are_decided(r, true);
        assert(numeric_steps::lin_of(&r[0]) == cs[0].lin);
    } else {
        assert(cs[0].lin.kind is LessThanZero || cs[0].lin.kind is LessThanOrEqualsZero);
        assert(numeric_steps::lin_of(&r[0]) == cs[0].lin);
    }
}

/// The intervals of an unsigned comparison hold the values that it takes.
proof fn lemma_unsigned_split(z: ZEdges, is64: bool, s: u64, u: u64, right: Interval, a: int, au: int, b: int, bu: int)
    requires
        zone_model::zinterval(z, s).has(a),
        zone_model::zinterval(z, u).has(au),
        right.has(bu),
        readings(a, au),
        readings(b, bu),
    ensures
        finite_domain::unsigned_split(z, is64, s, u, right).left.has(unsigned_part(au, is64)),
        finite_domain::unsigned_split(z, is64, s, u, right).right.has(unsigned_part(bu, is64)),
        is64 && au < 0x8000_0000_0000_0000 ==> finite_domain::unsigned_split(z, is64, s, u, right).low.has(au),
        is64 && au >= 0x8000_0000_0000_0000 ==> finite_domain::unsigned_split(z, is64, s, u, right).high.has(au),
        finite_domain::unsigned_split(z, is64, s, u, right).left.lb matches ExtendedNumber::Finite(n) && 0 <= n@,
        finite_domain::unsigned_split(z, is64, s, u, right).left.ub matches ExtendedNumber::Finite(n) && n@ < (if is64 { 0x1_0000_0000_0000_0000 } else { 0x1_0000_0000int }),
{
    lemma_powers();
    lemma_readings(a, au);
    lemma_readings(b, bu);
    let l0 = zone_model::zinterval(z, u);
    let si = zone_model::zinterval(z, s);
    let wide = is64 || finite_domain::same_unsigned_half(l0, right);
    let x = unsigned_part(au, is64);
    let y = unsigned_part(bu, is64);
    let l1 = if wide { l0 } else { l0.zero_extend_spec(32) };
    let r1 = if wide { right } else { right.zero_extend_spec(32) };
    interval_laws::zero_extension_is_sound(l0, 32, au);
    interval_laws::zero_extension_is_sound(right, 32, bu);
    lemma_halves(l0, au);
    lemma_halves(right, bu);
    assert(l1.has(x) && r1.has(y));
    interval_laws::zero_extension_is_sound(l1, 64, x);
    interval_laws::zero_extension_is_sound(r1, 64, y);
    interval_laws::zero_extension_is_sound(si, 64, a);
    interval_laws::meet_is_exact(l1, Interval::nonnegative_spec(64), x);
    interval_laws::meet_is_exact(l1, Interval::unsigned_high_spec(64), x);
    if is64 && l1.is_top_spec() && !si.is_top_spec() {
        if a >= 0 {
            interval_laws::zero_extension_is_sound(Interval::of_bounds(ExtendedNumber::fin(0), si.ub), 64, a);
        } else {
            interval_laws::zero_extension_is_sound(Interval::of_bounds(si.lb, ExtendedNumber::fin(-1)), 64, a);
        }
    }
    let last = if l1.is_top_spec() { si } else { l1 };
    lemma_zero_extended(last, 64);
    if !is64 {
        lemma_zero_extended(l0, 32);
        assert(l1.lb matches ExtendedNumber::Finite(n) && 0 <= n@);
        assert(l1.ub matches ExtendedNumber::Finite(n) && n@ < 0x1_0000_0000);
        lemma_extended_again(l1, 64);
    }
}

/// A zero-extended interval lies within its width.
proof fn lemma_zero_extended(iv: Interval, width: int)
    requires width == 32 || width == 64,
    ensures
        iv.zero_extend_spec(width).lb matches ExtendedNumber::Finite(n) && 0 <= n@,
        iv.zero_extend_spec(width).ub matches ExtendedNumber::Finite(n) && n@ < pow2(width as nat),
{
    lemma_powers();
    if let (ExtendedNumber::Finite(l), ExtendedNumber::Finite(h)) = (iv.lb, iv.ub) {
        number::lemma_wrap_range(l@, width);
        number::lemma_wrap_range(h@, width);
    }
}

/// An interval within a width keeps its ends.
proof fn lemma_extended_again(iv: Interval, width: int)
    requires
        width == 32 || width == 64,
        !iv.is_empty_spec(),
        iv.lb matches ExtendedNumber::Finite(n) && 0 <= n@,
        iv.ub matches ExtendedNumber::Finite(n) && n@ < pow2(width as nat),
    ensures iv.zero_extend_spec(width) == iv,
{
    lemma_powers();
    if let (ExtendedNumber::Finite(l), ExtendedNumber::Finite(h)) = (iv.lb, iv.ub) {
        number::lemma_wrap_identity(l@, width);
        number::lemma_wrap_identity(h@, width);
    }
}

/// What the parts of an unsigned comparison hold.
spec fn unsigned_parts(low: Interval, high: Interval, right: Interval, x: int, y: int) -> bool {
    &&& right.has(y)
    &&& x < 0x8000_0000_0000_0000 ==> low.has(x)
    &&& x >= 0x8000_0000_0000_0000 ==> high.has(x)
}

proof fn lemma_extended_value(iv: Interval, x: int)
    requires iv.has(x), 0 <= x < 0x1_0000_0000_0000_0000,
    ensures
        iv.zero_extend_spec(64).has(x),
        finite_assume::lower_number(iv.zero_extend_spec(64)) <= x <= finite_assume::upper_number(iv.zero_extend_spec(64)),
{
    lemma_powers();
    number::lemma_wrap_identity(x, 64);
    interval_laws::zero_extension_is_sound(iv, 64, x);
    lemma_zero_extended(iv, 64);
}

proof fn lemma_ult64(z: ZEdges, strict: bool, s: u64, u: u64, low: Interval, high: Interval, rs: &LinearExpression, ru: &LinearExpression, right: Interval, env: Env)
    requires
        readings(env(s), env(u)),
        readings(rs.eval(env), ru.eval(env)),
        zone_model::zinterval(z, s).has(env(s)),
        finite_assume::ordered(strict, true, env(u), ru.eval(env)),
        unsigned_parts(low, high, right, env(u), ru.eval(env)),
        right.ub is Finite,
    ensures all_hold(finite_assume::ult64_claims(z, strict, s, u, low, high, rs, ru, right), env),
{
    let a = env(s);
    let au = env(u);
    let b = rs.eval(env);
    let bu = ru.eval(env);
    lemma_halves(right, bu);
    if au < 0x8000_0000_0000_0000 {
        lemma_extended_value(low, au);
        lemma_order_fails(strict, true, low.zero_extend_spec(64), right, au, bu);
        if low.is_empty_spec() { interval_laws::empty_holds_nothing(low, au); }
    } else {
        lemma_extended_value(high, au);
        lemma_order_fails(strict, true, high.zero_extend_spec(64), right, au, bu);
    }
    if (a < 0) == (b < 0) {
        lemma_same_sign(strict, true, a, au, b, bu);
    }
}

proof fn lemma_ugt64(strict: bool, s: u64, u: u64, low: Interval, high: Interval, rs: &LinearExpression, ru: &LinearExpression, right: Interval, env: Env)
    requires
        readings(env(s), env(u)),
        readings(rs.eval(env), ru.eval(env)),
        finite_assume::ordered(strict, false, env(u), ru.eval(env)),
        unsigned_parts(low, high, right, env(u), ru.eval(env)),
    ensures all_hold(finite_assume::ugt64_claims(strict, s, u, low, high, rs, ru, right), env),
{
    let a = env(s);
    let au = env(u);
    let b = rs.eval(env);
    let bu = ru.eval(env);
    lemma_halves(right, bu);
    interval_laws::join_is_sound(low, high, au);
    lemma_halves(low.join_spec(high), au);
    if au < 0x8000_0000_0000_0000 {
        lemma_extended_value(low, au);
        lemma_order_fails(strict, false, low.zero_extend_spec(64), right, au, bu);
    } else {
        lemma_extended_value(high, au);
    }
    if (a < 0) == (b < 0) {
        lemma_same_sign(strict, false, a, au, b, bu);
    }
}

proof fn lemma_unsigned32(z: ZEdges, strict: bool, is_lt: bool, s: u64, u: u64, rs: &LinearExpression, ru: &LinearExpression, env: Env)
    requires
        readings(env(s), env(u)),
        readings(rs.eval(env), ru.eval(env)),
        zone_model::zinterval(z, s).has(env(s)),
        zone_model::zinterval(z, u).has(env(u)),
        zone_model::zeval(z, rs).has(rs.eval(env)),
        zone_model::zeval(z, ru).has(ru.eval(env)),
        finite_assume::ordered(strict, is_lt, number::wrap_unsigned(env(u), 32), number::wrap_unsigned(ru.eval(env), 32)),
    ensures all_hold(if is_lt { finite_assume::ult32_claims(z, strict, s, u, rs, ru) } else { finite_assume::ugt32_claims(z, strict, s, u, rs, ru) }, env),
{
    let a = env(s);
    let b = rs.eval(env);
    lemma_halves(zone_model::zinterval(z, s), a);
    lemma_halves(zone_model::zinterval(z, u), env(u));
    lemma_halves(zone_model::zeval(z, rs), b);
    lemma_halves(zone_model::zeval(z, ru), ru.eval(env));
    lemma_readings(a, env(u));
    lemma_readings(b, ru.eval(env));
    if (a < 0) == (b < 0) {
        lemma_same_sign(strict, is_lt, a, env(u), b, ru.eval(env));
    }
}

proof fn lemma_unsigned_order(z: ZEdges, strict: bool, is_lt: bool, is64: bool, s: u64, u: u64, right: Interval, rs: &LinearExpression, ru: &LinearExpression, env: Env)
    requires
        reads(z, s, u, rs, ru, env),
        right.has(unsigned_part(ru.eval(env), is64)),
        right.ub is Finite,
        finite_assume::ordered(strict, is_lt, unsigned_part(env(u), is64), unsigned_part(ru.eval(env), is64)),
    ensures
        all_hold(finite_assume::unsigned_order_claims(z, strict, is_lt, is64, s, u,
            finite_domain::unsigned_split(z, is64, s, u, zone_model::zeval(z, ru)), right, rs, ru), env),
{
    let sp = finite_domain::unsigned_split(z, is64, s, u, zone_model::zeval(z, ru));
    zone_model::interval_is_sound(z, s, env);
    zone_model::interval_is_sound(z, u, env);
    lemma_unsigned_split(z, is64, s, u, zone_model::zeval(z, ru), env(s), env(u), rs.eval(env), ru.eval(env));
    lemma_order_fails(strict, is_lt, sp.left, right, unsigned_part(env(u), is64), unsigned_part(ru.eval(env), is64));
    if finite_assume::order_certain(strict, is_lt, sp.left, right) {
    } else if is64 {
        if is_lt { lemma_ult64(z, strict, s, u, sp.low, sp.high, rs, ru, right, env); } else { lemma_ugt64(strict, s, u, sp.low, sp.high, rs, ru, right, env); }
    } else {
        lemma_unsigned32(z, strict, is_lt, s, u, rs, ru, env);
    }
}

/// What an unsigned comparison or a disequality says is sound: it holds of every valuation of the
/// zone in which the registers compare so.
pub proof fn unsigned_comparisons_are_sound(z: ZEdges, op: ConditionOp, is64: bool, s: u64, u: u64, rs: &LinearExpression, ru: &LinearExpression, env: Env)
    requires
        op is NE || op is GE || op is LE || op is GT || op is LT,
        reads(z, s, u, rs, ru, env),
        compares(op, is64, env(s), env(u), rs.eval(env), ru.eval(env)),
    ensures all_hold(finite_assume::unsigned_claims(z, op, is64, s, u, rs, ru), env),
{
    let r = zone_model::zeval(z, ru);
    let sp = finite_domain::unsigned_split(z, is64, s, u, r);
    let x = unsigned_part(env(u), is64);
    let y = unsigned_part(ru.eval(env), is64);
    let w: int = if is64 { 64 } else { 32 };
    lemma_powers();
    zone_model::interval_is_sound(z, s, env);
    zone_model::interval_is_sound(z, u, env);
    lemma_unsigned_split(z, is64, s, u, r, env(s), env(u), rs.eval(env), ru.eval(env));
    if op is NE {
        if let Some(n) = sp.right.singleton_spec() {
            assert(n@ == y);
            lemma_extended_again(sp.left, w);
            if sp.left.zero_extend_spec(w).lb == ExtendedNumber::Finite(n) {
                lemma_unsigned_order(z, true, false, is64, s, u, Interval::of_bounds(sp.left.lb, sp.left.lb), rs, ru, env);
            } else if sp.left.ub == ExtendedNumber::Finite(n) {
                lemma_unsigned_order(z, true, true, is64, s, u, Interval::of_bounds(sp.left.ub, sp.left.ub), rs, ru, env);
            }
        }
    } else {
        let wide = is64 || finite_domain::same_unsigned_half(zone_model::zinterval(z, u), r);
        lemma_zero_extended(if wide { r } else { r.zero_extend_spec(32) }, 64);
        lemma_unsigned_order(z, op is LT || op is GT, op is LT || op is LE, is64, s, u, sp.right, rs, ru, env);
    }
}

/// What a bit test says is sound. `v` is either reading of the right register.
pub proof fn bit_tests_are_sound(op: ConditionOp, is64: bool, dst: Interval, src: Interval, lu: int, v: int, rs: int, ru: int, ls: int, env: Env)
    requires
        op is SET || op is NSET,
        readings(ls, lu),
        readings(rs, ru),
        v == rs || v == ru,
        dst.has(lu),
        src.has(v),
        compares(op, is64, ls, lu, rs, ru),
    ensures all_hold(finite_assume::bit_test_claims(op, is64, dst, src), env),
{
    lemma_powers();
    lemma_readings(ls, lu);
    lemma_readings(rs, ru);
}

/// What a comparison with an immediate says is sound: it holds of every valuation of the zone in
/// which the register compares so.
pub proof fn immediate_comparisons_are_sound(z: ZEdges, op: ConditionOp, is64: bool, s: u64, u: u64, imm: i64, rs: &LinearExpression, ru: &LinearExpression, env: Env)
    requires
        finite_assume::is_constant(rs, imm as int),
        finite_assume::is_constant(ru, imm as u64 as int),
        zone_model::mild(env),
        zone_model::zholds(z, env),
        readings(env(s), env(u)),
        compares(op, is64, env(s), env(u), imm as int, imm as u64 as int),
    ensures all_hold(finite_assume::immediate_claims(z, op, is64, s, u, imm, rs, ru), env),
{
    assert(imm < 0 ==> (imm as u64) as i128 == imm + 0x1_0000_0000_0000_0000) by (bit_vector);
    assert(imm >= 0 ==> (imm as u64) as i128 == imm) by (bit_vector);
    assert(rs.eval(env) == imm as int && ru.eval(env) == imm as u64 as int);
    assert(zone_model::zeval(z, rs) == Interval::point(rs.constant));
    assert(zone_model::zeval(z, ru) == Interval::point(ru.constant));
    match op {
        ConditionOp::EQ | ConditionOp::SGE | ConditionOp::SLE | ConditionOp::SGT | ConditionOp::SLT => {
            signed_comparisons_are_sound(z, op, is64, s, u, rs, ru, env);
        },
        ConditionOp::SET | ConditionOp::NSET => {
            zone_model::interval_is_sound(z, u, env);
            bit_tests_are_sound(op, is64, zone_model::zinterval(z, u), Interval::point(Number { n: imm as i128 }), env(u), imm as int, imm as int, imm as u64 as int, env(s), env);
        },
        _ => {
            unsigned_comparisons_are_sound(z, op, is64, s, u, rs, ru, env);
        },
    }
}

/// What a comparison of two registers says is sound: it holds of every valuation of the zone in
/// which the registers compare so.
pub proof fn register_comparisons_are_sound(z: ZEdges, op: ConditionOp, is64: bool, s: u64, u: u64, src_s: u64, src_u: u64, rs: &LinearExpression, ru: &LinearExpression, env: Env)
    requires
        zone_domain::is_variable(rs, src_s),
        zone_domain::is_variable(ru, src_u),
        reads(z, s, u, rs, ru, env),
        compares(op, is64, env(s), env(u), env(src_s), env(src_u)),
    ensures all_hold(finite_assume::register_claims(z, op, is64, s, u, src_s, src_u, rs, ru), env),
{
    assert(rs.eval(env) == env(src_s) && ru.eval(env) == env(src_u));
    zone_model::interval_is_sound(z, src_s, env);
    zone_model::interval_is_sound(z, src_u, env);
    zone_model::interval_is_sound(z, u, env);
    lemma_halves(zone_model::zinterval(z, src_s), env(src_s));
    match op {
        ConditionOp::SET | ConditionOp::NSET => {
            bit_tests_are_sound(op, is64, zone_model::zinterval(z, u), zone_model::zinterval(z, src_u), env(u), env(src_u), env(src_s), env(src_u), env(s), env);
        },
        ConditionOp::EQ => {
            if !is64 { signed_comparisons_are_sound(z, op, is64, s, u, rs, ru, env); }
        },
        ConditionOp::NE => {
            if !is64 { unsigned_comparisons_are_sound(z, op, is64, s, u, rs, ru, env); }
        },
        ConditionOp::SGE | ConditionOp::SLE | ConditionOp::SGT | ConditionOp::SLT => {
            if !is64 { signed_comparisons_are_sound(z, op, is64, s, u, rs, ru, env); }
        },
        _ => {
            unsigned_comparisons_are_sound(z, op, is64, s, u, rs, ru, env);
        },
    }
}

/// A constraint that can be added without rounding, and is no disequality.
pub open spec fn plain_constraint(c: &LinearConstraint) -> bool {
    c.expression.orderly() && zone_domain::exact_constraint(c) && !(c.kind is NotZero)
}

/// Constraints with the same terms and constants hold alike.
proof fn lemma_same_constraint(c: &LinearConstraint, d: &LinearConstraint, env: Env)
    requires
        c.expression.orderly(),
        d.expression.orderly(),
        numeric_steps::lin_of(c) == numeric_steps::lin_of(d),
    ensures
        c.holds(env) == d.holds(env),
        zone_domain::exact_constraint(c) == zone_domain::exact_constraint(d),
{
    ord_map::lemma_entries_unique(c.expression.terms.entries(), d.expression.terms.entries());
    assert forall|k: u64| c.expression.coeff(k) == #[trigger] d.expression.coeff(k) by {}
    assert forall|k: u64| #[trigger] c.expression.coeff(k) == d.expression.coeff(k) by {}
}

/// One constraint that holds keeps a valuation.
proof fn lemma_said_once(a: Num, older: RegistryView, newer: RegistryView, c: &LinearConstraint, b: Num, env: Env)
    requires
        numeric_steps::step_between(a, older, newer, Step::Say(numeric_steps::lin_of(c)), b),
        plain_constraint(c),
        c.holds(env),
        zone_model::mild(env),
        a is Some,
        zone_model::zholds(a->Some_0, env),
    ensures b is Some, zone_model::zholds(b->Some_0, env),
{
    reveal(numeric_steps::step);
    let l = numeric_steps::lin_of(c);
    let r = choose|r: RegistryView| r.extends(older) && newer.extends(r) && #[trigger] numeric_steps::step(a, r, Step::Say(l), b);
    let mo = zone_domain::min_only_of(r);
    let x = a->Some_0;
    if b is None {
        let d = choose|d: LinearConstraint| l == #[trigger] numeric_steps::lin_of(&d) && d.expression.orderly()
            && zone_domain::constraint_refuted(x, &d, mo) && !d.is_tautology_spec();
        lemma_same_constraint(c, &d, env);
        zone_domain::refusals_are_sound(x, &d, mo, env);
    } else {
        let d = choose|d: LinearConstraint| l == #[trigger] numeric_steps::lin_of(&d) && d.expression.orderly()
            && zone_domain::constraint_added(x, &d, mo, b->Some_0) && !d.is_contradiction_spec();
        lemma_same_constraint(c, &d, env);
        zone_domain::constraints_are_sound(x, &d, mo, b->Some_0, env);
    }
}

/// Adding constraints is sound: a valuation in which they hold is kept.
pub proof fn said_constraints_are_sound(a: Num, older: RegistryView, newer: RegistryView, cs: Seq<LinearConstraint>, b: Num, env: Env)
    requires
        numeric_steps::performs(a, older, newer, ebpf_domain::said(cs), b),
        forall|i: int| 0 <= i < cs.len() ==> plain_constraint(#[trigger] &cs[i]) && cs[i].holds(env),
        zone_model::mild(env),
        a is Some,
        zone_model::zholds(a->Some_0, env),
    ensures b is Some, zone_model::zholds(b->Some_0, env),
{
    let ops = ebpf_domain::said(cs);
    let path = choose|path: Seq<Num>| path.len() == ops.len() + 1 && path[0] == a && path[ops.len() as int] == b
        && #[trigger] numeric_steps::is_path(path, older, newer, ops);
    lemma_along(path, older, newer, cs, cs.len(), env);
}

proof fn lemma_along(path: Seq<Num>, older: RegistryView, newer: RegistryView, cs: Seq<LinearConstraint>, n: nat, env: Env)
    requires
        numeric_steps::is_path(path, older, newer, ebpf_domain::said(cs)),
        path.len() == cs.len() + 1,
        n <= cs.len(),
        forall|i: int| 0 <= i < cs.len() ==> plain_constraint(#[trigger] &cs[i]) && cs[i].holds(env),
        zone_model::mild(env),
        path[0] is Some,
        zone_model::zholds(path[0]->Some_0, env),
    ensures path[n as int] is Some, zone_model::zholds(path[n as int]->Some_0, env),
    decreases n,
{
    if n > 0 {
        lemma_along(path, older, newer, cs, (n - 1) as nat, env);
        let ops = ebpf_domain::said(cs);
        let i = n - 1;
        assert(ops[i] == Step::Say(numeric_steps::lin_of(&cs[i])));
        assert(numeric_steps::step_between(path[i], older, newer, ops[i], path[i + 1]));
        assert(plain_constraint(&cs[i]));
        lemma_said_once(path[i], older, newer, &cs[i], path[i + 1], env);
    }
}

/// All claims are exact.
pub open spec fn all_exact(cs: Seq<Claim>) -> bool {
    forall|i: int| 0 <= i < cs.len() ==> (#[trigger] cs[i]).exact
}

spec fn says_so(c: &LinearConstraint, env: Env) -> bool {
    c.holds(env)
}

/// Constraints that state exact claims hold where the claims do.
proof fn lemma_stated(r: Seq<LinearConstraint>, cs: Seq<Claim>, env: Env)
    requires finite_assume::states(r, cs), all_exact(cs), all_hold(cs, env),
    ensures forall|i: int| 0 <= i < r.len() ==> says_so(#[trigger] &r[i], env),
{
    assert forall|i: int| 0 <= i < r.len() implies says_so(#[trigger] &r[i], env) by {
        assert(cs[i].exact && (cs[i].says)(env));
        assert(r[i].holds(env) == (cs[i].says)(env));
    }
}

proof fn lemma_exact_signed_eq(s: u64, u: u64, left: Interval, right: Interval, rs: &LinearExpression, ru: &LinearExpression)
    requires finite_assume::exact_operand(rs), finite_assume::exact_operand(ru),
    ensures
        all_exact(finite_assume::eq64_claims(s, u, right, rs, ru)),
        all_exact(finite_assume::eq32_claims(s, u, left, right)),
{}

proof fn lemma_exact_slt64(strict: bool, s: u64, u: u64, low: Interval, high: Interval, rs: &LinearExpression, ru: &LinearExpression, right: Interval)
    requires finite_assume::exact_operand(rs), finite_assume::exact_operand(ru),
    ensures all_exact(finite_assume::slt64_claims(strict, s, u, low, high, rs, ru, right)),
{}

proof fn lemma_exact_sgt64(strict: bool, s: u64, u: u64, low: Interval, high: Interval, rs: &LinearExpression, ru: &LinearExpression, right: Interval)
    requires finite_assume::exact_operand(rs), finite_assume::exact_operand(ru),
    ensures all_exact(finite_assume::sgt64_claims(strict, s, u, low, high, rs, ru, right)),
{}

proof fn lemma_exact_slt32(z: ZEdges, strict: bool, s: u64, u: u64, low: Interval, rs: &LinearExpression, ru: &LinearExpression)
    requires finite_assume::exact_operand(rs), finite_assume::exact_operand(ru),
    ensures all_exact(finite_assume::slt32_claims(z, strict, s, u, low, rs, ru)),
{}

proof fn lemma_exact_sgt32(z: ZEdges, strict: bool, s: u64, u: u64, low: Interval, rs: &LinearExpression, ru: &LinearExpression)
    requires finite_assume::exact_operand(rs), finite_assume::exact_operand(ru),
    ensures all_exact(finite_assume::sgt32_claims(z, strict, s, u, low, rs, ru)),
{}

proof fn lemma_exact_ult64(z: ZEdges, strict: bool, s: u64, u: u64, low: Interval, high: Interval, rs: &LinearExpression, ru: &LinearExpression, right: Interval)
    requires finite_assume::exact_operand(rs), finite_assume::exact_operand(ru),
    ensures all_exact(finite_assume::ult64_claims(z, strict, s, u, low, high, rs, ru, right)),
{}

proof fn lemma_exact_ugt64(strict: bool, s: u64, u: u64, low: Interval, high: Interval, rs: &LinearExpression, ru: &LinearExpression, right: Interval)
    requires finite_assume::exact_operand(rs), finite_assume::exact_operand(ru),
    ensures all_exact(finite_assume::ugt64_claims(strict, s, u, low, high, rs, ru, right)),
{}

proof fn lemma_exact_ult32(z: ZEdges, strict: bool, s: u64, u: u64, rs: &LinearExpression, ru: &LinearExpression)
    requires finite_assume::exact_operand(rs), finite_assume::exact_operand(ru),
    ensures all_exact(finite_assume::ult32_claims(z, strict, s, u, rs, ru)),
{}

proof fn lemma_exact_ugt32(z: ZEdges, strict: bool, s: u64, u: u64, rs: &LinearExpression, ru: &LinearExpression)
    requires finite_assume::exact_operand(rs), finite_assume::exact_operand(ru),
    ensures all_exact(finite_assume::ugt32_claims(z, strict, s, u, rs, ru)),
{}

proof fn lemma_exact_unsigned_order(z: ZEdges, strict: bool, is_lt: bool, is64: bool, s: u64, u: u64, sp: finite_domain::Split, right: Interval, rs: &LinearExpression, ru: &LinearExpression)
    requires finite_assume::exact_operand(rs), finite_assume::exact_operand(ru),
    ensures all_exact(finite_assume::unsigned_order_claims(z, strict, is_lt, is64, s, u, sp, right, rs, ru)),
{
    if is64 {
        if is_lt { lemma_exact_ult64(z, strict, s, u, sp.low, sp.high, rs, ru, right); } else { lemma_exact_ugt64(strict, s, u, sp.low, sp.high, rs, ru, right); }
    } else {
        if is_lt { lemma_exact_ult32(z, strict, s, u, rs, ru); } else { lemma_exact_ugt32(z, strict, s, u, rs, ru); }
    }
}

/// What a signed comparison with an exact operand says is exact.
proof fn lemma_signed_exact(z: ZEdges, op: ConditionOp, is64: bool, s: u64, u: u64, rs: &LinearExpression, ru: &LinearExpression)
    requires finite_assume::exact_operand(rs), finite_assume::exact_operand(ru),
    ensures all_exact(finite_assume::signed_claims(z, op, is64, s, u, rs, ru)),
{
    let sp = finite_domain::signed_split(z, is64, s, u, zone_model::zeval(z, rs));
    let strict = op is SLT || op is SGT;
    if op is EQ {
        lemma_exact_signed_eq(s, u, zone_model::zinterval(z, s), sp.right, rs, ru);
    } else if op is SLT || op is SLE {
        lemma_exact_slt64(strict, s, u, sp.low, sp.high, rs, ru, sp.right);
        lemma_exact_slt32(z, strict, s, u, sp.low, rs, ru);
    } else {
        lemma_exact_sgt64(strict, s, u, sp.low, sp.high, rs, ru, sp.right);
        lemma_exact_sgt32(z, strict, s, u, sp.low, rs, ru);
    }
}

/// What an unsigned comparison with an exact operand says is exact.
proof fn lemma_unsigned_exact(z: ZEdges, op: ConditionOp, is64: bool, s: u64, u: u64, rs: &LinearExpression, ru: &LinearExpression)
    requires finite_assume::exact_operand(rs), finite_assume::exact_operand(ru),
    ensures all_exact(finite_assume::unsigned_claims(z, op, is64, s, u, rs, ru)),
{
    let sp = finite_domain::unsigned_split(z, is64, s, u, zone_model::zeval(z, ru));
    lemma_exact_unsigned_order(z, true, false, is64, s, u, sp, Interval::of_bounds(sp.left.lb, sp.left.lb), rs, ru);
    lemma_exact_unsigned_order(z, true, true, is64, s, u, sp, Interval::of_bounds(sp.left.ub, sp.left.ub), rs, ru);
    lemma_exact_unsigned_order(z, op is LT || op is GT, op is LT || op is LE, is64, s, u, sp, sp.right, rs, ru);
}

/// The constraint of a claim can be added without rounding, and is a disequality only where it never holds.
pub open spec fn plain_claim(c: Claim) -> bool {
    &&& c.lin.kind is LessThanZero ==> c.lin.constant < i128::MAX
    &&& c.lin.kind is EqualsZero ==> c.lin.constant > i128::MIN && forall|k: u64| #[trigger] c.lin.terms.contains_key(k) ==> c.lin.terms[k]@ > i128::MIN
    &&& c.lin.kind is NotZero ==> forall|env: Env| !(#[trigger] (c.says)(env))
}

pub open spec fn all_plain(cs: Seq<Claim>) -> bool {
    forall|i: int| 0 <= i < cs.len() ==> plain_claim(#[trigger] cs[i])
}

/// An operand that is a number of a register, or a variable.
pub open spec fn small_operand(e: &LinearExpression) -> bool {
    &&& -0x1_0000_0000_0000_0000 <= e.constant@ <= 0x1_0000_0000_0000_0000
    &&& forall|k: u64| #[trigger] e.terms@.contains_key(k) ==> -1 <= e.terms@[k]@ <= 1
}

proof fn lemma_plain_against(strict: bool, is_lt: bool, v: u64, e: &LinearExpression)
    requires small_operand(e),
    ensures plain_claim(finite_assume::against(strict, is_lt, v, e)), plain_claim(finite_assume::equals(v, e)),
{
}

proof fn lemma_plain_bounded(strict: bool, is_lt: bool, v: u64, n: int)
    requires strict ==> -0x1_0000_0000_0000_0000 <= n <= 0x1_0000_0000_0000_0000,
    ensures
        plain_claim(finite_assume::bounded(strict, is_lt, v, n)),
        -0x1_0000_0000_0000_0000 <= n <= 0x1_0000_0000_0000_0000 ==> plain_claim(finite_assume::is_number(v, n)),
{
}

proof fn lemma_plain_related(strict: bool, is_lt: bool, a: u64, b: u64, t: bool)
    ensures plain_claim(finite_assume::related(strict, is_lt, a, b)), plain_claim(finite_assume::same_value(a, b)), plain_claim(finite_assume::constantly(t)),
{
}

/// What comparisons are made of is plain.
spec fn plain_parts(s: u64, u: u64, rs: &LinearExpression, ru: &LinearExpression) -> bool {
    &&& forall|strict: bool, is_lt: bool| plain_claim(#[trigger] finite_assume::against(strict, is_lt, s, rs))
    &&& forall|strict: bool, is_lt: bool| plain_claim(#[trigger] finite_assume::against(strict, is_lt, u, ru))
    &&& forall|is_lt: bool, v: u64, n: int| plain_claim(#[trigger] finite_assume::bounded(false, is_lt, v, n))
    &&& forall|is_lt: bool, v: u64, n: int| -0x1_0000_0000_0000_0000 <= n <= 0x1_0000_0000_0000_0000 ==> plain_claim(#[trigger] finite_assume::bounded(true, is_lt, v, n))
    &&& forall|strict: bool, is_lt: bool| plain_claim(#[trigger] finite_assume::related(strict, is_lt, s, u))
    &&& plain_claim(finite_assume::same_value(s, u))
    &&& plain_claim(finite_assume::equals(s, rs))
    &&& plain_claim(finite_assume::equals(u, ru))
    &&& plain_claim(finite_assume::is_number(u, u64::MAX as int))
    &&& forall|t: bool| plain_claim(#[trigger] finite_assume::constantly(t))
}

proof fn lemma_plain_parts(s: u64, u: u64, rs: &LinearExpression, ru: &LinearExpression)
    requires small_operand(rs), small_operand(ru),
    ensures plain_parts(s, u, rs, ru),
{
    assert forall|strict: bool, is_lt: bool| plain_claim(#[trigger] finite_assume::against(strict, is_lt, s, rs)) by { lemma_plain_against(strict, is_lt, s, rs); }
    assert forall|strict: bool, is_lt: bool| plain_claim(#[trigger] finite_assume::against(strict, is_lt, u, ru)) by { lemma_plain_against(strict, is_lt, u, ru); }
    assert forall|is_lt: bool, v: u64, n: int| plain_claim(#[trigger] finite_assume::bounded(false, is_lt, v, n)) by { lemma_plain_bounded(false, is_lt, v, n); }
    assert forall|is_lt: bool, v: u64, n: int| -0x1_0000_0000_0000_0000 <= n <= 0x1_0000_0000_0000_0000 implies plain_claim(#[trigger] finite_assume::bounded(true, is_lt, v, n)) by {
        lemma_plain_bounded(true, is_lt, v, n);
    }
    assert forall|strict: bool, is_lt: bool| plain_claim(#[trigger] finite_assume::related(strict, is_lt, s, u)) by { lemma_plain_related(strict, is_lt, s, u, true); }
    assert forall|t: bool| plain_claim(#[trigger] finite_assume::constantly(t)) by { lemma_plain_related(true, true, s, u, t); }
    lemma_plain_related(true, true, s, u, true);
    lemma_plain_against(true, true, s, rs);
    lemma_plain_against(true, true, u, ru);
    lemma_plain_bounded(false, true, u, u64::MAX as int);
}

proof fn lemma_plain_eq(s: u64, u: u64, left: Interval, right: Interval, rs: &LinearExpression, ru: &LinearExpression)
    requires plain_parts(s, u, rs, ru),
    ensures
        all_plain(finite_assume::eq64_claims(s, u, right, rs, ru)),
        all_plain(finite_assume::eq32_claims(s, u, left, right)),
{}

proof fn lemma_plain_nonnegative(strict: bool, is_lt: bool, s: u64, u: u64, rs: &LinearExpression, ru: &LinearExpression, top_end: int)
    requires plain_parts(s, u, rs, ru),
    ensures all_plain(finite_assume::nonnegative_claims(strict, is_lt, s, u, rs, ru, top_end)),
{}

proof fn lemma_plain_slt64(strict: bool, s: u64, u: u64, low: Interval, high: Interval, rs: &LinearExpression, ru: &LinearExpression, right: Interval)
    requires plain_parts(s, u, rs, ru),
    ensures all_plain(finite_assume::slt64_claims(strict, s, u, low, high, rs, ru, right)),
{}

proof fn lemma_plain_sgt64(strict: bool, s: u64, u: u64, low: Interval, high: Interval, rs: &LinearExpression, ru: &LinearExpression, right: Interval)
    requires plain_parts(s, u, rs, ru),
    ensures all_plain(finite_assume::sgt64_claims(strict, s, u, low, high, rs, ru, right)),
{
    lemma_plain_nonnegative(strict, false, s, u, rs, ru, finite_assume::upper_number(low.sign_extend_spec(64)));
}

proof fn lemma_plain_slt32(z: ZEdges, strict: bool, s: u64, u: u64, low: Interval, rs: &LinearExpression, ru: &LinearExpression)
    requires plain_parts(s, u, rs, ru),
    ensures all_plain(finite_assume::slt32_claims(z, strict, s, u, low, rs, ru)),
{
    lemma_plain_nonnegative(strict, true, s, u, rs, ru, finite_assume::upper_number(low.sign_extend_spec(32)));
}

proof fn lemma_plain_sgt32(z: ZEdges, strict: bool, s: u64, u: u64, low: Interval, rs: &LinearExpression, ru: &LinearExpression)
    requires plain_parts(s, u, rs, ru),
    ensures all_plain(finite_assume::sgt32_claims(z, strict, s, u, low, rs, ru)),
{
    lemma_plain_nonnegative(strict, false, s, u, rs, ru, finite_assume::upper_number(low.sign_extend_spec(32)));
}

proof fn lemma_plain_ult64(z: ZEdges, strict: bool, s: u64, u: u64, low: Interval, high: Interval, rs: &LinearExpression, ru: &LinearExpression, right: Interval)
    requires plain_parts(s, u, rs, ru),
    ensures all_plain(finite_assume::ult64_claims(z, strict, s, u, low, high, rs, ru, right)),
{
    lemma_powers();
    let n = finite_assume::upper_number(right);
    if right.included_spec(Interval::unsigned_high_spec(64)) {
        assert(-0x1_0000_0000_0000_0000 <= n <= 0x1_0000_0000_0000_0000 || right.is_empty_spec());
        assert(plain_claim(finite_assume::bounded(false, true, u, n)));
    }
}

proof fn lemma_plain_ugt64(strict: bool, s: u64, u: u64, low: Interval, high: Interval, rs: &LinearExpression, ru: &LinearExpression, right: Interval)
    requires plain_parts(s, u, rs, ru),
    ensures all_plain(finite_assume::ugt64_claims(strict, s, u, low, high, rs, ru, right)),
{}

proof fn lemma_plain_ult32(z: ZEdges, strict: bool, s: u64, u: u64, rs: &LinearExpression, ru: &LinearExpression)
    requires plain_parts(s, u, rs, ru),
    ensures all_plain(finite_assume::ult32_claims(z, strict, s, u, rs, ru)),
{}

proof fn lemma_plain_ugt32(z: ZEdges, strict: bool, s: u64, u: u64, rs: &LinearExpression, ru: &LinearExpression)
    requires plain_parts(s, u, rs, ru),
    ensures all_plain(finite_assume::ugt32_claims(z, strict, s, u, rs, ru)),
{}

proof fn lemma_plain_order(z: ZEdges, strict: bool, is_lt: bool, is64: bool, s: u64, u: u64, sp: finite_domain::Split, right: Interval, rs: &LinearExpression, ru: &LinearExpression)
    requires plain_parts(s, u, rs, ru),
    ensures all_plain(finite_assume::unsigned_order_claims(z, strict, is_lt, is64, s, u, sp, right, rs, ru)),
{
    if is64 {
        if is_lt { lemma_plain_ult64(z, strict, s, u, sp.low, sp.high, rs, ru, right); } else { lemma_plain_ugt64(strict, s, u, sp.low, sp.high, rs, ru, right); }
    } else {
        if is_lt { lemma_plain_ult32(z, strict, s, u, rs, ru); } else { lemma_plain_ugt32(z, strict, s, u, rs, ru); }
    }
}

/// What a signed comparison says is plain.
proof fn lemma_signed_plain(z: ZEdges, op: ConditionOp, is64: bool, s: u64, u: u64, rs: &LinearExpression, ru: &LinearExpression)
    requires small_operand(rs), small_operand(ru),
    ensures all_plain(finite_assume::signed_claims(z, op, is64, s, u, rs, ru)),
{
    lemma_plain_parts(s, u, rs, ru);
    let sp = finite_domain::signed_split(z, is64, s, u, zone_model::zeval(z, rs));
    let strict = op is SLT || op is SGT;
    if op is EQ {
        lemma_plain_eq(s, u, zone_model::zinterval(z, s), sp.right, rs, ru);
    } else if op is SLT || op is SLE {
        lemma_plain_slt64(strict, s, u, sp.low, sp.high, rs, ru, sp.right);
        lemma_plain_slt32(z, strict, s, u, sp.low, rs, ru);
    } else {
        lemma_plain_sgt64(strict, s, u, sp.low, sp.high, rs, ru, sp.right);
        lemma_plain_sgt32(z, strict, s, u, sp.low, rs, ru);
    }
}

/// What an unsigned comparison says is plain.
proof fn lemma_unsigned_plain(z: ZEdges, op: ConditionOp, is64: bool, s: u64, u: u64, rs: &LinearExpression, ru: &LinearExpression)
    requires small_operand(rs), small_operand(ru),
    ensures all_plain(finite_assume::unsigned_claims(z, op, is64, s, u, rs, ru)),
{
    lemma_plain_parts(s, u, rs, ru);
    let sp = finite_domain::unsigned_split(z, is64, s, u, zone_model::zeval(z, ru));
    lemma_plain_order(z, true, false, is64, s, u, sp, Interval::of_bounds(sp.left.lb, sp.left.lb), rs, ru);
    lemma_plain_order(z, true, true, is64, s, u, sp, Interval::of_bounds(sp.left.ub, sp.left.ub), rs, ru);
    lemma_plain_order(z, op is LT || op is GT, op is LT || op is LE, is64, s, u, sp, sp.right, rs, ru);
}

/// A conditional jump on a number is sound: a valuation in which the register compares so is kept,
/// so the state stays possible.
pub proof fn immediate_jumps_are_sound(z: ZEdges, op: ConditionOp, is64: bool, s: u64, u: u64, imm: i64, rs: &LinearExpression, ru: &LinearExpression,
    cs: Seq<LinearConstraint>, older: RegistryView, newer: RegistryView, b: Num, env: Env)
    requires
        finite_assume::is_constant(rs, imm as int),
        finite_assume::is_constant(ru, imm as u64 as int),
        finite_assume::states(cs, finite_assume::immediate_claims(z, op, is64, s, u, imm, rs, ru)),
        forall|i: int| 0 <= i < cs.len() ==> plain_constraint(#[trigger] &cs[i]),
        numeric_steps::performs(Some(z), older, newer, ebpf_domain::said(cs), b),
        zone_model::mild(env),
        zone_model::zholds(z, env),
        readings(env(s), env(u)),
        compares(op, is64, env(s), env(u), imm as int, imm as u64 as int),
    ensures b is Some, zone_model::zholds(b->Some_0, env),
{
    immediate_comparisons_are_sound(z, op, is64, s, u, imm, rs, ru, env);
    let claims = finite_assume::immediate_claims(z, op, is64, s, u, imm, rs, ru);
    if op is SET || op is NSET {
    } else if op is EQ || op is SGE || op is SLE || op is SGT || op is SLT {
        lemma_signed_exact(z, op, is64, s, u, rs, ru);
    } else {
        lemma_unsigned_exact(z, op, is64, s, u, rs, ru);
    }
    assert(all_exact(claims));
    lemma_stated(cs, claims, env);
    assert forall|i: int| 0 <= i < cs.len() implies plain_constraint(#[trigger] &cs[i]) && cs[i].holds(env) by {
        assert(says_so(&cs[i], env));
    }
    said_constraints_are_sound(Some(z), older, newer, cs, b, env);
}

/// Constraints that state plain and exact claims are plain and hold where the claims do.
proof fn lemma_plain_stated(r: Seq<LinearConstraint>, cs: Seq<Claim>, env: Env)
    requires finite_assume::states(r, cs), all_exact(cs), all_plain(cs), all_hold(cs, env),
    ensures forall|i: int| 0 <= i < r.len() ==> plain_constraint(#[trigger] &r[i]) && r[i].holds(env),
{
    lemma_stated(r, cs, env);
    assert forall|i: int| 0 <= i < r.len() implies plain_constraint(#[trigger] &r[i]) && r[i].holds(env) by {
        assert(says_so(&r[i], env));
        let c = cs[i];
        assert(plain_claim(c) && (c.says)(env));
        assert(numeric_steps::lin_of(&r[i]) == c.lin);
        let e = &r[i].expression;
        if r[i].kind is EqualsZero {
            assert forall|k: u64| i128::MIN < #[trigger] e.coeff(k) by {
                if e.terms@.contains_key(k) { assert(c.lin.terms.contains_key(k)); }
            }
        }
    }
}

/// What follows from a comparison with an immediate keeps every valuation in which the register compares so.
pub proof fn immediate_claims_are_kept(z: ZEdges, op: ConditionOp, is64: bool, s: u64, u: u64, imm: i64, rs: &LinearExpression, ru: &LinearExpression,
    cs: Seq<LinearConstraint>, older: RegistryView, newer: RegistryView, b: Num, env: Env)
    requires
        finite_assume::is_constant(rs, imm as int),
        finite_assume::is_constant(ru, imm as u64 as int),
        finite_assume::states(cs, finite_assume::immediate_claims(z, op, is64, s, u, imm, rs, ru)),
        numeric_steps::performs(Some(z), older, newer, ebpf_domain::said(cs), b),
        zone_model::mild(env),
        zone_model::zholds(z, env),
        readings(env(s), env(u)),
        compares(op, is64, env(s), env(u), imm as int, imm as u64 as int),
    ensures b is Some, zone_model::zholds(b->Some_0, env),
{
    immediate_comparisons_are_sound(z, op, is64, s, u, imm, rs, ru, env);
    let claims = finite_assume::immediate_claims(z, op, is64, s, u, imm, rs, ru);
    if op is SET || op is NSET {
        lemma_plain_related(true, true, s, u, true);
        lemma_plain_related(true, true, s, u, false);
    } else if op is EQ || op is SGE || op is SLE || op is SGT || op is SLT {
        lemma_signed_exact(z, op, is64, s, u, rs, ru);
        lemma_signed_plain(z, op, is64, s, u, rs, ru);
    } else {
        lemma_unsigned_exact(z, op, is64, s, u, rs, ru);
        lemma_unsigned_plain(z, op, is64, s, u, rs, ru);
    }
    assert(all_exact(claims) && all_plain(claims));
    lemma_plain_stated(cs, claims, env);
    said_constraints_are_sound(Some(z), older, newer, cs, b, env);
}

/// What follows from a comparison of two registers keeps every valuation in which they compare so. Of a
/// disequality of 64 bits see the disequations of simple constraints.
pub proof fn register_claims_are_kept(z: ZEdges, op: ConditionOp, is64: bool, s: u64, u: u64, src_s: u64, src_u: u64, rs: &LinearExpression, ru: &LinearExpression,
    cs: Seq<LinearConstraint>, older: RegistryView, newer: RegistryView, b: Num, env: Env)
    requires
        zone_domain::is_variable(rs, src_s),
        zone_domain::is_variable(ru, src_u),
        finite_assume::states(cs, finite_assume::register_claims(z, op, is64, s, u, src_s, src_u, rs, ru)),
        !(op is NE && is64),
        numeric_steps::performs(Some(z), older, newer, ebpf_domain::said(cs), b),
        reads(z, s, u, rs, ru, env),
        compares(op, is64, env(s), env(u), env(src_s), env(src_u)),
    ensures b is Some, zone_model::zholds(b->Some_0, env),
{
    register_comparisons_are_sound(z, op, is64, s, u, src_s, src_u, rs, ru, env);
    let claims = finite_assume::register_claims(z, op, is64, s, u, src_s, src_u, rs, ru);
    lemma_register_plain(z, op, is64, s, u, src_s, src_u, rs, ru);
    lemma_plain_stated(cs, claims, env);
    said_constraints_are_sound(Some(z), older, newer, cs, b, env);
}

/// What a comparison of two registers says is exact and plain.
proof fn lemma_register_plain(z: ZEdges, op: ConditionOp, is64: bool, s: u64, u: u64, src_s: u64, src_u: u64, rs: &LinearExpression, ru: &LinearExpression)
    requires zone_domain::is_variable(rs, src_s), zone_domain::is_variable(ru, src_u), !(op is NE && is64),
    ensures
        all_exact(finite_assume::register_claims(z, op, is64, s, u, src_s, src_u, rs, ru)),
        all_plain(finite_assume::register_claims(z, op, is64, s, u, src_s, src_u, rs, ru)),
{
    assert(finite_assume::exact_operand(rs) && finite_assume::exact_operand(ru)) by {
        assert forall|k: u64| #[trigger] rs.coeff(k) >= -constraints::REACH by {}
        assert forall|k: u64| #[trigger] ru.coeff(k) >= -constraints::REACH by {}
    }
    match op {
        ConditionOp::SET | ConditionOp::NSET => {
            lemma_plain_related(true, true, s, u, true);
            lemma_plain_related(true, true, s, u, false);
        },
        ConditionOp::EQ => {
            lemma_plain_related(true, true, s, src_s, true);
            lemma_plain_related(true, true, u, src_u, true);
            lemma_plain_related(true, true, s, u, true);
            if !is64 {
                lemma_signed_exact(z, op, is64, s, u, rs, ru);
                lemma_signed_plain(z, op, is64, s, u, rs, ru);
            }
        },
        ConditionOp::SGE | ConditionOp::SLE | ConditionOp::SGT | ConditionOp::SLT => {
            if is64 {
                lemma_plain_related(op is SLT || op is SGT, op is SLT || op is SLE, s, src_s, true);
            } else {
                lemma_signed_exact(z, op, is64, s, u, rs, ru);
                lemma_signed_plain(z, op, is64, s, u, rs, ru);
            }
        },
        _ => {
            lemma_unsigned_exact(z, op, is64, s, u, rs, ru);
            lemma_unsigned_plain(z, op, is64, s, u, rs, ru);
        },
    }
}

}
