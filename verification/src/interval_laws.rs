//! What the operations on intervals promise of the numbers in them.
use vstd::prelude::*;
use vstd::arithmetic::power2::*;
use crate::arith::extended_number::ExtendedNumber;
use crate::arith::linear_constraint::LinearConstraint;
use crate::arith::linear_expression;
use crate::arith::linear_expression::{Env, LinearExpression};
use crate::arith::number;
use crate::arith::number::Number;
use crate::interval;
use crate::interval::{Bound, Interval};
use crate::zone_domain;
use crate::zone_model;
use crate::zone_model::ZEdges;

verus! {

/// The integers that numbers represent exactly.
pub open spec fn representable(x: int) -> bool {
    i128::MIN <= x <= i128::MAX
}

/// An interval holds no number exactly where it is empty, if its ends are on their sides.
pub proof fn empty_holds_nothing(a: Interval, x: int)
    requires a.is_empty_spec(),
    ensures !a.has(x),
{
}

/// An interval within another holds nothing else.
pub proof fn inclusion_is_sound(a: Interval, b: Interval, x: int)
    requires a.included_spec(b), a.has(x),
    ensures b.has(x),
{
}

/// The join holds what either interval holds.
pub proof fn join_is_sound(a: Interval, b: Interval, x: int)
    requires a.has(x) || b.has(x),
    ensures a.join_spec(b).has(x),
{
}

/// The meet holds what both intervals hold, and nothing else.
pub proof fn meet_is_exact(a: Interval, b: Interval, x: int)
    ensures a.meet_spec(b).has(x) <==> a.has(x) && b.has(x),
{
}

/// The join is the least upper bound: it lies within every interval that both lie within.
pub proof fn join_is_least(a: Interval, b: Interval, c: Interval)
    requires a.included_spec(c), b.included_spec(c),
    ensures a.included_spec(a.join_spec(b)), b.included_spec(a.join_spec(b)), a.join_spec(b).included_spec(c),
{
}

/// The widening holds what either interval holds.
pub proof fn widening_is_sound(a: Interval, b: Interval, x: int)
    requires a.has(x) || b.has(x),
    ensures a.widen_spec(b).has(x),
{
}

/// Widening stops: an interval that has been widened by another stays when it is widened by it
/// again, and each widening that changes an interval makes an end infinite.
pub proof fn widening_stops(a: Interval, b: Interval)
    ensures
        a.widen_spec(b).widen_spec(b).same(a.widen_spec(b)),
        !a.is_empty_spec() && !b.is_empty_spec() && !a.widen_spec(b).same(a) ==>
            (a.widen_spec(b).lb != a.lb && !(a.widen_spec(b).lb is Finite)) || (a.widen_spec(b).ub != a.ub && !(a.widen_spec(b).ub is Finite)),
{
}

/// The narrowing holds what both intervals hold.
pub proof fn narrowing_is_sound(a: Interval, b: Interval, x: int)
    requires a.has(x), b.has(x),
    ensures a.narrow_spec(b).has(x),
{
}

/// Sums of members are in the sum.
pub proof fn addition_is_sound(a: Interval, b: Interval, x: int, y: int)
    requires a.has(x), b.has(y), representable(x + y),
    ensures a.add_spec(b).has(x + y),
{
}

/// Differences of members are in the difference.
pub proof fn subtraction_is_sound(a: Interval, b: Interval, x: int, y: int)
    requires a.has(x), b.has(y), representable(x - y),
    ensures a.sub_spec(b).has(x - y),
{
}

/// Opposites of members are in the opposite.
pub proof fn negation_is_sound(a: Interval, x: int)
    requires a.has(x), representable(-x),
    ensures a.negate_spec().has(-x),
{
}

/// The product of an end with a number lies between its products with the ends of an interval that
/// holds the number.
proof fn lemma_mul_between(p: Bound, l: Bound, u: Bound, y: int)
    requires interval::bound_le(l, y), interval::bound_ge(u, y), representable(y),
    ensures
        p.mul_spec(l).min_spec(p.mul_spec(u)).le_spec(p.mul_spec(ExtendedNumber::fin(y))),
        p.mul_spec(ExtendedNumber::fin(y)).le_spec(p.mul_spec(l).max_spec(p.mul_spec(u))),
{
    match p {
        ExtendedNumber::Finite(a) => {
            if let ExtendedNumber::Finite(b) = l {
                if a@ >= 0 {
                    assert(a@ * b@ <= a@ * y) by(nonlinear_arith) requires a@ >= 0, b@ <= y;
                } else {
                    assert(a@ * b@ >= a@ * y) by(nonlinear_arith) requires a@ <= 0, b@ <= y;
                }
            }
            if let ExtendedNumber::Finite(c) = u {
                if a@ >= 0 {
                    assert(a@ * y <= a@ * c@) by(nonlinear_arith) requires a@ >= 0, y <= c@;
                } else {
                    assert(a@ * y >= a@ * c@) by(nonlinear_arith) requires a@ <= 0, y <= c@;
                }
            }
            if a@ == 0 {
                assert(a@ * y == 0) by(nonlinear_arith) requires a@ == 0;
                if let ExtendedNumber::Finite(b) = l { assert(a@ * b@ == 0) by(nonlinear_arith) requires a@ == 0; }
                if let ExtendedNumber::Finite(c) = u { assert(a@ * c@ == 0) by(nonlinear_arith) requires a@ == 0; }
            }
        }
        _ => {}
    }
}

/// Products of members are in the product.
pub proof fn multiplication_is_sound(a: Interval, b: Interval, x: int, y: int)
    requires a.has(x), b.has(y), representable(x), representable(y), representable(x * y),
    ensures a.mul_spec(b).has(x * y),
{
    let fx = ExtendedNumber::fin(x);
    let fy = ExtendedNumber::fin(y);
    lemma_mul_between(a.lb, b.lb, b.ub, y);
    lemma_mul_between(a.ub, b.lb, b.ub, y);
    lemma_mul_between(fy, a.lb, a.ub, x);
    lemma_mul_commutes(fy, a.lb);
    lemma_mul_commutes(fy, a.ub);
    lemma_mul_commutes(fy, fx);
    assert(fx.mul_spec(fy) == ExtendedNumber::fin(x * y));
    let p = a.lb.mul_spec(b.lb);
    let q = a.lb.mul_spec(b.ub);
    let r = a.ub.mul_spec(b.lb);
    let s = a.ub.mul_spec(b.ub);
    assert(interval::min4(p, q, r, s).le_spec(ExtendedNumber::fin(x * y)));
    assert(ExtendedNumber::fin(x * y).le_spec(interval::max4(p, q, r, s)));
}

proof fn lemma_mul_commutes(a: Bound, b: Bound)
    ensures a.mul_spec(b) == b.mul_spec(a),
{
    if let (ExtendedNumber::Finite(x), ExtendedNumber::Finite(y)) = (a, b) {
        assert(x@ * y@ == y@ * x@) by(nonlinear_arith);
    }
}

// ---------------------------------------------------------------------------------------------
// Reading the low bits
// ---------------------------------------------------------------------------------------------

/// Within fewer numbers than a width has values, the order of wrapped numbers is that of the numbers
/// unless they wrap around.
proof fn lemma_wrap_between(l: int, x: int, u: int, m: int)
    requires l <= x <= u, u - l + 1 < m, m > 0, l % m <= u % m,
    ensures l % m <= x % m <= u % m,
{
    let ql = l / m;
    let qu = u / m;
    let qx = x / m;
    vstd::arithmetic::div_mod::lemma_fundamental_div_mod(l, m);
    vstd::arithmetic::div_mod::lemma_fundamental_div_mod(u, m);
    vstd::arithmetic::div_mod::lemma_fundamental_div_mod(x, m);
    vstd::arithmetic::div_mod::lemma_mod_bound(l, m);
    vstd::arithmetic::div_mod::lemma_mod_bound(u, m);
    vstd::arithmetic::div_mod::lemma_mod_bound(x, m);
    vstd::arithmetic::div_mod::lemma_div_is_ordered(l, x, m);
    vstd::arithmetic::div_mod::lemma_div_is_ordered(x, u, m);
    assert(qu == ql) by {
        if qu > ql {
            assert(m * qu >= m * ql + m) by(nonlinear_arith) requires qu >= ql + 1, m > 0;
            assert(u - l >= m);
        }
    }
    assert(m * ql == m * qx);
}

/// The unsigned reading of the low bits of a member is in the unsigned reading of the interval.
pub proof fn zero_extension_is_sound(a: Interval, width: int, x: int)
    requires a.has(x), 1 <= width <= 64,
    ensures a.zero_extend_spec(width).has(number::wrap_unsigned(x, width)),
{
    let m = pow2(width as nat) as int;
    lemma_pow2_pos(width as nat);
    lemma2_to64();
    lemma2_to64_rest();
    if width < 64 { lemma_pow2_strictly_increases(width as nat, 64); }
    vstd::arithmetic::div_mod::lemma_mod_bound(x, m);
    let full = Interval::unsigned_int_spec(width);
    assert(full.has(number::wrap_unsigned(x, width)));
    match (a.lb, a.ub) {
        (ExtendedNumber::Finite(l), ExtendedNumber::Finite(u)) => {
            vstd::arithmetic::div_mod::lemma_mod_bound(l@, m);
            vstd::arithmetic::div_mod::lemma_mod_bound(u@, m);
            if a.size_spec().lt_spec(full.size_spec()) {
                let e = Interval::of_bounds(Bound::fin(number::wrap_unsigned(l@, width)), Bound::fin(number::wrap_unsigned(u@, width)));
                if !e.is_empty_spec() {
                    lemma_wrap_between(l@, x, u@, m);
                }
            }
        }
        _ => {}
    }
}

/// The signed reading is the unsigned one of the number moved up by half the values, moved down again.
proof fn lemma_signed_by_unsigned(x: int, width: int)
    requires 1 <= width <= 64,
    ensures
        number::wrap_signed(x, width) == (x + pow2((width - 1) as nat)) % (pow2(width as nat) as int) - pow2((width - 1) as nat),
        -(pow2((width - 1) as nat) as int) <= number::wrap_signed(x, width) < pow2((width - 1) as nat),
{
    let m = pow2(width as nat) as int;
    let h = pow2((width - 1) as nat) as int;
    lemma_pow2_pos(width as nat);
    lemma_pow2_pos((width - 1) as nat);
    lemma2_to64();
    lemma_pow2_adds((width - 1) as nat, 1);
    assert(m == 2 * h);
    let u = x % m;
    vstd::arithmetic::div_mod::lemma_mod_bound(x, m);
    vstd::arithmetic::div_mod::lemma_fundamental_div_mod(x, m);
    let q = x / m;
    if u >= h {
        assert(x + h == (q + 1) * m + (u - h)) by(nonlinear_arith) requires x == m * q + u, m == 2 * h;
        vstd::arithmetic::div_mod::lemma_fundamental_div_mod_converse(x + h, m, q + 1, u - h);
    } else {
        assert(x + h == q * m + (u + h)) by(nonlinear_arith) requires x == m * q + u;
        vstd::arithmetic::div_mod::lemma_fundamental_div_mod_converse(x + h, m, q, u + h);
    }
}

/// The signed reading of the low bits of a member is in the signed reading of the interval.
pub proof fn sign_extension_is_sound(a: Interval, width: int, x: int)
    requires a.has(x), 1 <= width <= 64,
    ensures a.sign_extend_spec(width).has(number::wrap_signed(x, width)),
{
    let m = pow2(width as nat) as int;
    let h = pow2((width - 1) as nat) as int;
    lemma_pow2_pos(width as nat);
    lemma_pow2_pos((width - 1) as nat);
    lemma2_to64();
    lemma2_to64_rest();
    lemma_pow2_adds((width - 1) as nat, 1);
    if width < 64 { lemma_pow2_strictly_increases(width as nat, 64); }
    lemma_signed_by_unsigned(x, width);
    let full = Interval::signed_int_spec(width);
    assert(full.has(number::wrap_signed(x, width)));
    match (a.lb, a.ub) {
        (ExtendedNumber::Finite(l), ExtendedNumber::Finite(u)) => {
            lemma_signed_by_unsigned(l@, width);
            lemma_signed_by_unsigned(u@, width);
            if a.size_spec().lt_spec(full.size_spec()) {
                let e = Interval::of_bounds(Bound::fin(number::wrap_signed(l@, width)), Bound::fin(number::wrap_signed(u@, width)));
                if !e.is_empty_spec() {
                    lemma_wrap_between(l@ + h, x + h, u@ + h, m);
                }
            }
        }
        _ => {}
    }
}

// ---------------------------------------------------------------------------------------------
// Expressions
// ---------------------------------------------------------------------------------------------

/// Magnitude of the values of a modest valuation.
pub const MODEST: i128 = 0x1_0000_0000_0000_0000_0000;

/// A valuation whose values leave room for sums.
pub open spec fn modest(env: Env) -> bool {
    forall|k: u64| -MODEST <= #[trigger] env(k) <= MODEST
}

/// An expression with few terms and small coefficients.
pub open spec fn tame(e: &LinearExpression) -> bool {
    &&& e.terms.entries().len() <= 16
    &&& -0x1_0000_0000_0000_0000_0000_0000 <= e.constant@ <= 0x1_0000_0000_0000_0000_0000_0000
    &&& forall|i: int| 0 <= i < e.terms.entries().len() ==> -0x1_0000 <= (#[trigger] e.terms.entries()[i]).1@ <= 0x1_0000
}

/// The value of the first terms of an expression.
pub open spec fn prefix_value(c: int, s: Seq<(u64, Number)>, n: nat, env: Env) -> int
    decreases n,
{
    if n == 0 { c } else { prefix_value(c, s, (n - 1) as nat, env) + s[n - 1].1@ * env(s[n - 1].0) }
}

proof fn lemma_prefix(z: ZEdges, e: &LinearExpression, n: nat, env: Env)
    requires tame(e), modest(env), zone_model::zholds(z, env), zone_model::mild(env), n <= e.terms.entries().len(),
    ensures
        zone_model::eval_prefix(z, e.constant, e.terms.entries(), n).has(prefix_value(e.constant@, e.terms.entries(), n, env)),
        -0x1_0000_0000_0000_0000_0000_0000 - n * 0x1_0000_0000_0000_0000_0000_0000 <= prefix_value(e.constant@, e.terms.entries(), n, env),
        prefix_value(e.constant@, e.terms.entries(), n, env) <= 0x1_0000_0000_0000_0000_0000_0000 + n * 0x1_0000_0000_0000_0000_0000_0000,
    decreases n,
{
    let s = e.terms.entries();
    if n > 0 {
        lemma_prefix(z, e, (n - 1) as nat, env);
        let (v, k) = s[n - 1];
        let x = env(v);
        zone_model::interval_is_sound(z, v, env);
        let c = k@;
        assert(-0x1_0000 <= c <= 0x1_0000);
        assert(-MODEST <= x <= MODEST);
        assert(-0x1_0000_0000_0000_0000_0000_0000 <= c * x <= 0x1_0000_0000_0000_0000_0000_0000) by(nonlinear_arith)
            requires -0x1_0000 <= c <= 0x1_0000, -0x1_0000_0000_0000_0000_0000 <= x <= 0x1_0000_0000_0000_0000_0000;
        multiplication_is_sound(Interval::point(k), zone_model::zinterval(z, v), c, x);
        addition_is_sound(zone_model::eval_prefix(z, e.constant, s, (n - 1) as nat), Interval::point(k).mul_spec(zone_model::zinterval(z, v)),
            prefix_value(e.constant@, s, (n - 1) as nat, env), c * x);
    }
}

/// The interval of an expression holds its value under every valuation of the zone.
pub proof fn evaluation_is_sound(z: ZEdges, e: &LinearExpression, env: Env)
    requires tame(e), modest(env), zone_model::zholds(z, env),
    ensures zone_model::zeval(z, e).has(e.eval(env)),
{
    assert(zone_model::mild(env));
    let s = e.terms.entries();
    lemma_prefix(z, e, s.len(), env);
    lemma_prefix_is_eval(e.constant@, s, s.len(), env);
}

proof fn lemma_prefix_is_eval(c: int, s: Seq<(u64, Number)>, n: nat, env: Env)
    requires n <= s.len(),
    ensures prefix_value(c, s, n, env) == c + linear_expression::terms_value(s.take(n as int), env), n == s.len() ==> s.take(n as int) == s,
    decreases n,
{
    assert(n == s.len() ==> s.take(n as int) =~= s);
    if n > 0 {
        lemma_prefix_is_eval(c, s, (n - 1) as nat, env);
        assert(s.take(n as int).drop_last() =~= s.take(n - 1));
    }
}

/// An implied constraint holds under every modest valuation of the zone.
pub proof fn implied_constraints_hold(z: ZEdges, c: &LinearConstraint, mo: spec_fn(u64) -> bool, env: Env)
    requires
        zone_domain::entailed(z, c, mo),
        tame(&c.expression),
        c.expression.negation_fits(),
        modest(env),
        zone_model::zholds(z, env),
    ensures c.holds(env),
{
    assert(zone_model::mild(env));
    evaluation_is_sound(z, &c.expression, env);
    zone_domain::entailment_is_sound(z, c, mo, env);
}

}
