//! The meaning of a zone: bounds of variables and of their differences.
//!
//! A zone is read as a map of constraints between nodes. Node zero stands for the constant zero,
//! node `v + 1` for the variable with number `v`; the constraint `(a, b)` of weight `w` says that
//! `b - a <= w`.
use vstd::prelude::*;
use crate::arith::extended_number::ExtendedNumber;
use crate::arith::linear_expression;
use crate::arith::linear_expression::{Env, LinearExpression};
use crate::arith::number;
use crate::arith::number::Number;
use crate::arith::variable::Variable;
use crate::interval::{Bound, Interval};
use crate::ord_map;
use crate::splitdbm::constraints;

verus! {

/// The constraints of a zone, by pairs of nodes.
pub type ZEdges = Map<(int, int), Number>;

/// The node of a variable.
pub open spec fn node(v: u64) -> int {
    v + 1
}

/// The value of a node.
pub open spec fn node_value(env: Env, n: int) -> int {
    if n <= 0 { 0 } else { env((n - 1) as u64) }
}

/// The values and their differences are numbers other than the outermost.
pub open spec fn mild(env: Env) -> bool {
    &&& forall|k: u64| -constraints::REACH <= #[trigger] env(k) <= constraints::REACH
    &&& forall|j: u64, k: u64| #![trigger env(j), env(k)] env(j) - env(k) <= constraints::REACH
}

/// The values and their differences are numbers other than the outermost, or further away than any
/// two constraints reach together. Such a valuation can hold nodes apart that no constraints tie.
pub open spec fn broad(env: Env) -> bool {
    &&& forall|k: u64| #![trigger env(k)] constraints::near_or_far(env(k)) && constraints::near_or_far(-env(k))
    &&& forall|j: u64, k: u64| #![trigger env(j), env(k)] constraints::near_or_far(env(j) - env(k))
}

/// The differences of nodes of a mild valuation are numbers.
pub proof fn lemma_mild_nodes(env: Env, a: int, b: int)
    requires mild(env),
    ensures -constraints::REACH <= node_value(env, b) - node_value(env, a) <= constraints::REACH,
{
    let x = if a <= 0 { 0 } else { env((a - 1) as u64) };
    let y = if b <= 0 { 0 } else { env((b - 1) as u64) };
    assert(-constraints::REACH <= y - x <= constraints::REACH);
}

/// The differences of nodes of a broad valuation are numbers, or further than two constraints reach.
proof fn lemma_broad_nodes(env: Env, a: int, b: int)
    requires broad(env),
    ensures constraints::near_or_far(node_value(env, b) - node_value(env, a)),
{
    if b > 0 { assert(constraints::near_or_far(env((b - 1) as u64))); }
    if a > 0 { assert(constraints::near_or_far(-env((a - 1) as u64))); }
    if a > 0 && b > 0 { assert(constraints::near_or_far(env((b - 1) as u64) - env((a - 1) as u64))); }
}

/// A valuation meets every constraint.
pub open spec fn zholds(z: ZEdges, env: Env) -> bool {
    forall|a: int, b: int| #![trigger z.contains_key((a, b))] z.contains_key((a, b)) ==> node_value(env, b) - node_value(env, a) <= z[(a, b)]@
}

/// Both zones are met by the same valuations.
pub open spec fn zequiv(a: ZEdges, b: ZEdges) -> bool {
    forall|env: Env| #![trigger zholds(a, env)] #![trigger zholds(b, env)] broad(env) ==> zholds(a, env) == zholds(b, env)
}

/// What meets `a` meets `b`.
pub open spec fn zentails(a: ZEdges, b: ZEdges) -> bool {
    forall|env: Env| #![trigger zholds(a, env)] #![trigger zholds(b, env)] broad(env) && zholds(a, env) ==> zholds(b, env)
}

/// Some valuation meets the zone.
pub open spec fn zfeasible(z: ZEdges) -> bool {
    exists|env: Env| mild(env) && #[trigger] zholds(z, env)
}

/// Every constraint of `a` stands in `b`, no looser.
pub open spec fn ztight(b: ZEdges, a: ZEdges) -> bool {
    forall|s: int, d: int| #![trigger a.contains_key((s, d))] a.contains_key((s, d)) ==> b.contains_key((s, d)) && b[(s, d)]@ <= a[(s, d)]@
}

/// The zone with one more constraint, unless it has one that is as tight.
pub open spec fn ztightened(z: ZEdges, key: (int, int), w: Number) -> ZEdges {
    if z.contains_key(key) && z[key]@ <= w@ { z } else { z.insert(key, w) }
}

/// The zone without the constraints of a node.
pub open spec fn zwithout(z: ZEdges, n: int) -> ZEdges {
    Map::new(|k: (int, int)| z.contains_key(k) && k.0 != n && k.1 != n, |k: (int, int)| z[k])
}

/// The lower bound of a variable.
pub open spec fn lower(z: ZEdges, v: u64) -> Bound {
    if z.contains_key((node(v), 0)) { ExtendedNumber::fin(-z[(node(v), 0)]@) } else { ExtendedNumber::MinusInfinity }
}

/// The upper bound of a variable.
pub open spec fn upper(z: ZEdges, v: u64) -> Bound {
    if z.contains_key((0, node(v))) { ExtendedNumber::Finite(z[(0, node(v))]) } else { ExtendedNumber::PlusInfinity }
}

/// The interval of a variable.
pub open spec fn zinterval(z: ZEdges, v: u64) -> Interval {
    Interval::of_bounds(lower(z, v), upper(z, v))
}

/// The zone with the bounds of a variable replaced by an interval. A variable whose lower bound
/// alone counts takes no upper bound.
pub open spec fn zput(z: ZEdges, v: u64, iv: Interval, min_only: bool) -> ZEdges {
    let cleared = zwithout(z, node(v));
    let above = match iv.ub {
        ExtendedNumber::Finite(n) => if min_only { cleared } else { cleared.insert((0, node(v)), n) },
        _ => cleared,
    };
    match iv.lb {
        ExtendedNumber::Finite(n) => above.insert((node(v), 0), Number::nearest(-n@)),
        _ => above,
    }
}

/// The interval of the constant and the first `n` terms of an expression.
pub open spec fn eval_prefix(z: ZEdges, c: Number, s: Seq<(u64, Number)>, n: nat) -> Interval
    decreases n,
{
    if n == 0 {
        Interval::point(c)
    } else {
        eval_prefix(z, c, s, (n - 1) as nat).add_spec(Interval::point(s[n - 1].1).mul_spec(zinterval(z, s[n - 1].0)))
    }
}

/// The interval of an expression.
pub open spec fn zeval(z: ZEdges, e: &LinearExpression) -> Interval {
    eval_prefix(z, e.constant, e.terms.entries(), e.terms.entries().len())
}

/// A valuation with one value replaced.
pub open spec fn env_with(env: Env, v: u64, x: int) -> Env {
    |k: u64| if k == v { x } else { env(k) }
}

/// The new value of a variable leaves the values mild, and so does its difference to the old one.
pub open spec fn mild_change(env: Env, v: u64, x: int) -> bool {
    mild(env_with(env, v, x)) && -constraints::REACH <= x - env(v) <= constraints::REACH
}

// ---------------------------------------------------------------------------------------------
// Consequences of `expression <= 0`
// ---------------------------------------------------------------------------------------------

/// A number other than the outermost: a sum or product that rounds to such a number is exact.
pub open spec fn roomy(x: int) -> bool {
    -constraints::REACH <= x <= constraints::REACH
}

/// What a pass over the terms of `e <= 0` collects: what is left for the terms without a bound,
/// the terms without a bound (at most one of each sign), and the terms with one, each with the
/// size of its coefficient and the bound.
pub struct LeqScan {
    pub ok: bool,
    pub ub: int,
    pub lo: Option<(u64, int)>,
    pub hi: Option<(u64, int)>,
    pub pos: Seq<(u64, int, int)>,
    pub neg: Seq<(u64, int, int)>,
}

pub open spec fn leq_fail() -> LeqScan {
    LeqScan { ok: false, ub: 0, lo: None, hi: None, pos: seq![], neg: seq![] }
}

pub open spec fn leq_step(z: ZEdges, st: LeqScan, y: u64, c: int) -> LeqScan {
    if !st.ok || c == 0 {
        st
    } else if c > 0 {
        match lower(z, y) {
            ExtendedNumber::Finite(m) =>
                if roomy(m@) && roomy(m@ * c) && roomy(st.ub - m@ * c) {
                    LeqScan { ub: st.ub - m@ * c, pos: st.pos.push((y, c, m@)), ..st }
                } else {
                    leq_fail()
                },
            _ => if st.lo is Some { leq_fail() } else { LeqScan { lo: Some((y, c)), ..st } },
        }
    } else {
        match zinterval(z, y).ub {
            ExtendedNumber::Finite(m) =>
                if c > i128::MIN && roomy(m@) && roomy(m@ * c) && roomy(st.ub - m@ * c) {
                    LeqScan { ub: st.ub - m@ * c, neg: st.neg.push((y, -c, m@)), ..st }
                } else {
                    leq_fail()
                },
            _ => if st.hi is Some || c == i128::MIN { leq_fail() } else { LeqScan { hi: Some((y, -c)), ..st } },
        }
    }
}

/// The pass over the first `n` terms of `c + terms <= 0`.
pub open spec fn leq_scan(z: ZEdges, c: Number, s: Seq<(u64, Number)>, n: nat) -> LeqScan
    decreases n,
{
    if n == 0 {
        if roomy(c@) { LeqScan { ub: -c@, ok: true, ..leq_fail() } } else { leq_fail() }
    } else {
        leq_step(z, leq_scan(z, c, s, (n - 1) as nat), s[n - 1].0, s[n - 1].1@)
    }
}

/// The pass over all terms.
pub open spec fn leq_of(z: ZEdges, e: &LinearExpression) -> LeqScan {
    leq_scan(z, e.constant, e.terms.entries(), e.terms.entries().len())
}

/// The lower bounds that follow.
pub open spec fn lb_due(st: LeqScan, v: u64, b: int) -> bool {
    st.ok && st.lo is None && match st.hi {
        Some((y, c)) => v == y && b == number::trunc_div(-st.ub, c),
        None => exists|i: int| 0 <= i < st.neg.len() && (#[trigger] st.neg[i]).0 == v
            && b == number::saturate(number::trunc_div(-st.ub, st.neg[i].1) + st.neg[i].2),
    }
}

/// The upper bounds that follow.
pub open spec fn ub_due(st: LeqScan, v: u64, b: int) -> bool {
    st.ok && st.hi is None && match st.lo {
        Some((x, c)) => v == x && b == number::trunc_div(st.ub, c),
        None => exists|i: int| 0 <= i < st.pos.len() && (#[trigger] st.pos[i]).0 == v
            && b == number::saturate(number::trunc_div(st.ub, st.pos[i].1) + st.pos[i].2),
    }
}

/// The differences `x - y <= w` that follow.
pub open spec fn diff_due(st: LeqScan, x: u64, y: u64, w: int) -> bool {
    st.ok && match (st.lo, st.hi) {
        (Some((a, c)), Some((b, d))) => c == 1 && d == 1 && x == a && y == b && w == st.ub,
        (Some((a, c)), None) => c == 1 && x == a && exists|i: int| 0 <= i < st.neg.len() && (#[trigger] st.neg[i]).0 == y
            && w == number::saturate(st.ub - st.neg[i].2),
        (None, Some((b, d))) => d == 1 && y == b && exists|i: int| 0 <= i < st.pos.len() && (#[trigger] st.pos[i]).0 == x
            && w == number::saturate(st.ub + st.pos[i].2),
        (None, None) => exists|i: int, j: int| 0 <= i < st.pos.len() && 0 <= j < st.neg.len()
            && (#[trigger] st.pos[i]).0 == x && (#[trigger] st.neg[j]).0 == y && w == number::saturate(st.ub - st.neg[j].2 + st.pos[i].2),
    }
}

/// A valuation meets all that follows. Upper bounds are left out for variables whose lower bound
/// alone counts.
pub open spec fn dues_hold(st: LeqScan, min_only: spec_fn(u64) -> bool, env: Env) -> bool {
    &&& forall|v: u64, b: int| #[trigger] lb_due(st, v, b) ==> env(v) >= b
    &&& forall|v: u64, b: int| #[trigger] ub_due(st, v, b) && !min_only(v) ==> env(v) <= b
    &&& forall|x: u64, y: u64, w: int| #[trigger] diff_due(st, x, y, w) ==> env(x) - env(y) <= w
}

/// The slack of the terms with a positive coefficient.
spec fn pos_slack(s: Seq<(u64, int, int)>, env: Env) -> int
    decreases s.len(),
{
    if s.len() == 0 { 0 } else { pos_slack(s.drop_last(), env) + s.last().1 * (env(s.last().0) - s.last().2) }
}

spec fn neg_slack(s: Seq<(u64, int, int)>, env: Env) -> int
    decreases s.len(),
{
    if s.len() == 0 { 0 } else { neg_slack(s.drop_last(), env) + s.last().1 * (s.last().2 - env(s.last().0)) }
}

spec fn free_part(t: Option<(u64, int)>, env: Env) -> int {
    match t {
        Some((v, c)) => c * env(v),
        None => 0,
    }
}

/// The collected terms have positive sizes and respect their bounds.
spec fn scan_sane(st: LeqScan, env: Env) -> bool {
    &&& roomy(st.ub)
    &&& st.lo matches Some((v, c)) ==> c >= 1
    &&& st.hi matches Some((v, c)) ==> c >= 1
    &&& forall|i: int| 0 <= i < st.pos.len() ==> (#[trigger] st.pos[i]).1 >= 1 && st.pos[i].2 <= env(st.pos[i].0) && roomy(st.pos[i].2)
    &&& forall|i: int| 0 <= i < st.neg.len() ==> (#[trigger] st.neg[i]).1 >= 1 && env(st.neg[i].0) <= st.neg[i].2 && roomy(st.neg[i].2)
}

/// The numbers that a pass collects are in range.
pub proof fn leq_ranges(z: ZEdges, c: Number, s: Seq<(u64, Number)>, n: nat)
    requires n <= s.len(),
    ensures
        ({
            let st = leq_scan(z, c, s, n);
            &&& roomy(st.ub)
            &&& st.lo matches Some((v, c)) ==> 1 <= c <= i128::MAX
            &&& st.hi matches Some((v, c)) ==> 1 <= c <= i128::MAX
            &&& forall|i: int| 0 <= i < st.pos.len() ==> 1 <= (#[trigger] st.pos[i]).1 <= i128::MAX && roomy(st.pos[i].2)
            &&& forall|i: int| 0 <= i < st.neg.len() ==> 1 <= (#[trigger] st.neg[i]).1 <= i128::MAX && roomy(st.neg[i].2)
        }),
    decreases n,
{
    if n > 0 {
        leq_ranges(z, c, s, (n - 1) as nat);
    }
}

/// A pass collects terms of the expression only.
pub proof fn leq_mentions(z: ZEdges, c: Number, s: Seq<(u64, Number)>, n: nat)
    requires n <= s.len(),
    ensures
        ({
            let st = leq_scan(z, c, s, n);
            &&& st.lo matches Some((v, c)) ==> ord_map::has_key(s, v)
            &&& st.hi matches Some((v, c)) ==> ord_map::has_key(s, v)
            &&& forall|i: int| 0 <= i < st.pos.len() ==> ord_map::has_key(s, (#[trigger] st.pos[i]).0)
            &&& forall|i: int| 0 <= i < st.neg.len() ==> ord_map::has_key(s, (#[trigger] st.neg[i]).0)
        }),
    decreases n,
{
    if n > 0 {
        leq_mentions(z, c, s, (n - 1) as nat);
        assert(s[n - 1].0 == s[n - 1].0);
        assert(ord_map::has_key(s, s[n - 1].0));
    }
}

/// A pass that failed stays failed.
pub proof fn leq_failed(z: ZEdges, c: Number, s: Seq<(u64, Number)>, i: nat, n: nat)
    requires i <= n, !leq_scan(z, c, s, i).ok,
    ensures !leq_scan(z, c, s, n).ok,
    decreases n,
{
    if i < n {
        leq_failed(z, c, s, i, (n - 1) as nat);
    }
}

proof fn lemma_bounds(z: ZEdges, v: u64, env: Env)
    requires mild(env), zholds(z, env),
    ensures
        lower(z, v) matches ExtendedNumber::Finite(m) ==> m@ <= env(v),
        upper(z, v) matches ExtendedNumber::Finite(m) ==> env(v) <= m@,
        zinterval(z, v) == (Interval { lb: lower(z, v), ub: upper(z, v) }),
        zinterval(z, v).has(env(v)),
{
    assert(node_value(env, node(v)) == env(v));
    assert(node_value(env, 0) == 0);
    if z.contains_key((node(v), 0)) {
        assert(node_value(env, 0) - node_value(env, node(v)) <= z[(node(v), 0)]@);
        assert(-constraints::REACH <= env(v));
    }
    if z.contains_key((0, node(v))) {
        assert(node_value(env, node(v)) - node_value(env, 0) <= z[(0, node(v))]@);
    }
}

/// The interval of a variable holds its value.
pub proof fn interval_is_sound(z: ZEdges, v: u64, env: Env)
    requires mild(env), zholds(z, env),
    ensures zinterval(z, v).has(env(v)), !zinterval(z, v).is_empty_spec(),
{
    lemma_bounds(z, v, env);
}

proof fn lemma_scan(z: ZEdges, c: Number, s: Seq<(u64, Number)>, n: nat, env: Env)
    requires
        mild(env),
        zholds(z, env),
        n <= s.len(),
        leq_scan(z, c, s, n).ok,
    ensures
        scan_sane(leq_scan(z, c, s, n), env),
        ({
            let st = leq_scan(z, c, s, n);
            linear_expression::terms_value(s.take(n as int), env)
                == -c@ - st.ub + free_part(st.lo, env) - free_part(st.hi, env) + pos_slack(st.pos, env) + neg_slack(st.neg, env)
        }),
    decreases n,
{
    if n == 0 {
        assert(s.take(0).len() == 0);
    } else {
        let p = leq_scan(z, c, s, (n - 1) as nat);
        let st = leq_scan(z, c, s, n);
        let y = s[n - 1].0;
        let k = s[n - 1].1@;
        lemma_scan(z, c, s, (n - 1) as nat, env);
        lemma_bounds(z, y, env);
        let now = s.take(n as int);
        assert(now.drop_last() =~= s.take(n - 1));
        assert(now.last() == s[n - 1]);
        assert(linear_expression::terms_value(now, env) == linear_expression::terms_value(s.take(n - 1), env) + k * env(y));
        if k > 0 {
            match lower(z, y) {
                ExtendedNumber::Finite(m) => {
                    let mv = m@; let ev = env(y);
                    assert(st.pos.drop_last() =~= p.pos);
                    assert(st.pos.last() == (y, k, m@));
                    assert(k * (ev - mv) == k * ev - mv * k) by (nonlinear_arith);
                },
                _ => {},
            }
        } else if k < 0 {
            match zinterval(z, y).ub {
                ExtendedNumber::Finite(m) => {
                    let mv = m@; let ev = env(y); let q = -k;
                    assert(st.neg.drop_last() =~= p.neg);
                    assert(st.neg.last() == (y, -k, m@));
                    assert(q * (mv - ev) == k * ev - mv * k) by (nonlinear_arith) requires q == -k;
                },
                _ => {
                    let ev = env(y); let q = -k;
                    assert(q * ev == -(k * ev)) by (nonlinear_arith) requires q == -k;
                },
            }
        } else {
            assert(k * env(y) == 0) by (nonlinear_arith) requires k == 0;
        }
    }
}

proof fn lemma_pos_slack(s: Seq<(u64, int, int)>, env: Env)
    requires forall|i: int| 0 <= i < s.len() ==> (#[trigger] s[i]).1 >= 1 && s[i].2 <= env(s[i].0),
    ensures
        pos_slack(s, env) >= 0,
        forall|i: int| 0 <= i < s.len() ==> pos_slack(s, env) >= (#[trigger] s[i]).1 * (env(s[i].0) - s[i].2),
    decreases s.len(),
{
    if s.len() > 0 {
        lemma_pos_slack(s.drop_last(), env);
        let a = s.last().1; let b = env(s.last().0) - s.last().2;
        assert(s[s.len() - 1] == s.last());
        assert(a * b >= 0) by (nonlinear_arith) requires a >= 1, b >= 0;
        assert forall|i: int| 0 <= i < s.len() implies pos_slack(s, env) >= (#[trigger] s[i]).1 * (env(s[i].0) - s[i].2) by {
            if i < s.len() - 1 {
                assert(s.drop_last()[i] == s[i]);
            }
        }
    }
}

proof fn lemma_neg_slack(s: Seq<(u64, int, int)>, env: Env)
    requires forall|i: int| 0 <= i < s.len() ==> (#[trigger] s[i]).1 >= 1 && env(s[i].0) <= s[i].2,
    ensures
        neg_slack(s, env) >= 0,
        forall|i: int| 0 <= i < s.len() ==> neg_slack(s, env) >= (#[trigger] s[i]).1 * (s[i].2 - env(s[i].0)),
    decreases s.len(),
{
    if s.len() > 0 {
        lemma_neg_slack(s.drop_last(), env);
        let a = s.last().1; let b = s.last().2 - env(s.last().0);
        assert(s[s.len() - 1] == s.last());
        assert(a * b >= 0) by (nonlinear_arith) requires a >= 1, b >= 0;
        assert forall|i: int| 0 <= i < s.len() implies neg_slack(s, env) >= (#[trigger] s[i]).1 * (s[i].2 - env(s[i].0)) by {
            if i < s.len() - 1 {
                assert(s.drop_last()[i] == s[i]);
            }
        }
    }
}

/// Truncated division bounds a multiple from above.
proof fn lemma_trunc_above(c: int, x: int, u: int)
    requires c >= 1, c * x <= u,
    ensures x <= number::trunc_div(u, c),
{
    if u >= 0 {
        assert(x <= u / c) by (nonlinear_arith) requires c >= 1, c * x <= u;
    } else {
        assert(-((-u) / c) >= x) by (nonlinear_arith) requires c >= 1, c * x <= u, u < 0;
    }
}

/// Truncated division bounds a multiple from below.
proof fn lemma_trunc_below(c: int, x: int, u: int)
    requires c >= 1, c * x >= u,
    ensures x >= number::trunc_div(u, c),
{
    if u >= 0 {
        assert(x >= u / c) by (nonlinear_arith) requires c >= 1, c * x >= u, u >= 0;
    } else {
        assert(-((-u) / c) <= x) by (nonlinear_arith) requires c >= 1, c * x >= u, u < 0;
    }
}

/// What is drawn from `c + terms <= 0` follows from it: a valuation that meets the zone and the
/// constraint meets every bound and difference that is due.
pub proof fn leq_is_sound(z: ZEdges, c: Number, s: Seq<(u64, Number)>, min_only: spec_fn(u64) -> bool, env: Env)
    requires mild(env), zholds(z, env), c@ + linear_expression::terms_value(s, env) <= 0,
    ensures dues_hold(leq_scan(z, c, s, s.len()), min_only, env),
{
    let st = leq_scan(z, c, s, s.len());
    if st.ok {
        lemma_scan(z, c, s, s.len(), env);
        assert(s.take(s.len() as int) =~= s);
        lemma_pos_slack(st.pos, env);
        lemma_neg_slack(st.neg, env);
        let lo = free_part(st.lo, env);
        let hi = free_part(st.hi, env);
        let ps = pos_slack(st.pos, env);
        let ns = neg_slack(st.neg, env);
        assert(lo - hi + ps + ns <= st.ub);
        assert forall|x: u64, y: u64| #![trigger env(x), env(y)] -constraints::REACH <= env(x) - env(y) <= constraints::REACH by {}
        assert forall|v: u64, b: int| #[trigger] lb_due(st, v, b) implies env(v) >= b by {
            match st.hi {
                Some((y, c)) => {
                    lemma_trunc_below(c, env(v), -st.ub);
                },
                None => {
                    let i = choose|i: int| 0 <= i < st.neg.len() && (#[trigger] st.neg[i]).0 == v
                        && b == number::saturate(number::trunc_div(-st.ub, st.neg[i].1) + st.neg[i].2);
                    let c = st.neg[i].1; let k = st.neg[i].2; let x = env(v);
                    assert(c * (k - x) <= st.ub);
                    assert(c * (x - k) >= -st.ub) by (nonlinear_arith) requires c * (k - x) <= st.ub;
                    lemma_trunc_below(c, x - k, -st.ub);
                },
            }
        }
        assert forall|v: u64, b: int| #[trigger] ub_due(st, v, b) && !min_only(v) implies env(v) <= b by {
            match st.lo {
                Some((y, c)) => {
                    lemma_trunc_above(c, env(v), st.ub);
                },
                None => {
                    let i = choose|i: int| 0 <= i < st.pos.len() && (#[trigger] st.pos[i]).0 == v
                        && b == number::saturate(number::trunc_div(st.ub, st.pos[i].1) + st.pos[i].2);
                    lemma_trunc_above(st.pos[i].1, env(v) - st.pos[i].2, st.ub);
                },
            }
        }
        assert forall|x: u64, y: u64, w: int| #[trigger] diff_due(st, x, y, w) implies env(x) - env(y) <= w by {
            match (st.lo, st.hi) {
                (Some((a, c)), Some((b, d))) => {},
                (Some((a, c)), None) => {
                    let i = choose|i: int| 0 <= i < st.neg.len() && (#[trigger] st.neg[i]).0 == y && w == number::saturate(st.ub - st.neg[i].2);
                    let q = st.neg[i].1; let g = st.neg[i].2 - env(y);
                    assert(q * g >= g) by (nonlinear_arith) requires q >= 1, g >= 0;
                },
                (None, Some((b, d))) => {
                    let i = choose|i: int| 0 <= i < st.pos.len() && (#[trigger] st.pos[i]).0 == x && w == number::saturate(st.ub + st.pos[i].2);
                    let q = st.pos[i].1; let g = env(x) - st.pos[i].2;
                    assert(q * g >= g) by (nonlinear_arith) requires q >= 1, g >= 0;
                },
                (None, None) => {
                    let (i, j) = choose|i: int, j: int| 0 <= i < st.pos.len() && 0 <= j < st.neg.len()
                        && (#[trigger] st.pos[i]).0 == x && (#[trigger] st.neg[j]).0 == y && w == number::saturate(st.ub - st.neg[j].2 + st.pos[i].2);
                    let q = st.pos[i].1; let g = env(x) - st.pos[i].2;
                    assert(q * g >= g) by (nonlinear_arith) requires q >= 1, g >= 0;
                    let t = st.neg[j].1; let h = st.neg[j].2 - env(y);
                    assert(t * h >= h) by (nonlinear_arith) requires t >= 1, h >= 0;
                },
            }
        }
    }
}

// ---------------------------------------------------------------------------------------------
// Differences that an assignment establishes
// ---------------------------------------------------------------------------------------------

/// What a pass over the terms of an assigned expression collects: the sum of the bounds, the one
/// term without a bound, and the terms with one.
pub struct AssignScan {
    pub ok: bool,
    pub rest: int,
    pub free: Option<u64>,
    pub terms: Seq<(u64, int)>,
}

pub open spec fn assign_fail() -> AssignScan {
    AssignScan { ok: false, rest: 0, free: None, terms: seq![] }
}

/// The upper bound of a variable, none where the lower bound alone counts.
pub open spec fn counted_upper(z: ZEdges, v: u64, min_only: spec_fn(u64) -> bool) -> Bound {
    if min_only(v) { ExtendedNumber::PlusInfinity } else { upper(z, v) }
}

/// The bound of a variable that matters for one side of a sum.
pub open spec fn side_bound(z: ZEdges, v: u64, above: bool, min_only: spec_fn(u64) -> bool) -> Bound {
    if above { counted_upper(z, v, min_only) } else { lower(z, v) }
}

pub open spec fn assign_step(z: ZEdges, min_only: spec_fn(u64) -> bool, above: bool, st: AssignScan, y: u64, c: int) -> AssignScan {
    if !st.ok || c == 0 {
        st
    } else if c < 0 {
        match side_bound(z, y, !above, min_only) {
            ExtendedNumber::Finite(m) =>
                if roomy(m@) && roomy(m@ * c) && roomy(st.rest + m@ * c) {
                    AssignScan { rest: st.rest + m@ * c, ..st }
                } else {
                    assign_fail()
                },
            _ => assign_fail(),
        }
    } else {
        match side_bound(z, y, above, min_only) {
            ExtendedNumber::Finite(m) =>
                if roomy(m@) && roomy(m@ * c) && roomy(st.rest + m@ * c) {
                    AssignScan { rest: st.rest + m@ * c, terms: st.terms.push((y, m@)), ..st }
                } else {
                    assign_fail()
                },
            _ => if st.free is Some || c != 1 { assign_fail() } else { AssignScan { free: Some(y), ..st } },
        }
    }
}

pub open spec fn assign_scan(z: ZEdges, min_only: spec_fn(u64) -> bool, above: bool, c: Number, s: Seq<(u64, Number)>, n: nat) -> AssignScan
    decreases n,
{
    if n == 0 {
        if roomy(c@) { AssignScan { rest: c@, ok: true, ..assign_fail() } } else { assign_fail() }
    } else {
        assign_step(z, min_only, above, assign_scan(z, min_only, above, c, s, (n - 1) as nat), s[n - 1].0, s[n - 1].1@)
    }
}

/// The pass over all terms.
pub open spec fn assign_of(z: ZEdges, min_only: spec_fn(u64) -> bool, above: bool, e: &LinearExpression) -> AssignScan {
    assign_scan(z, min_only, above, e.constant, e.terms.entries(), e.terms.entries().len())
}

/// The differences between the expression and a variable: at most `w` above, at least `w` below.
pub open spec fn assign_due(st: AssignScan, v: u64, w: int) -> bool {
    st.ok && match st.free {
        Some(u) => v == u && w == st.rest,
        None => exists|i: int| 0 <= i < st.terms.len() && (#[trigger] st.terms[i]).0 == v && w == number::saturate(st.rest - st.terms[i].1),
    }
}

/// The numbers that a pass collects are in range.
pub proof fn assign_ranges(z: ZEdges, min_only: spec_fn(u64) -> bool, above: bool, c: Number, s: Seq<(u64, Number)>, n: nat)
    requires n <= s.len(),
    ensures
        ({
            let st = assign_scan(z, min_only, above, c, s, n);
            &&& roomy(st.rest)
            &&& forall|i: int| 0 <= i < st.terms.len() ==> roomy((#[trigger] st.terms[i]).1)
        }),
    decreases n,
{
    if n > 0 {
        assign_ranges(z, min_only, above, c, s, (n - 1) as nat);
    }
}

/// A pass that failed stays failed.
pub proof fn assign_failed(z: ZEdges, min_only: spec_fn(u64) -> bool, above: bool, c: Number, s: Seq<(u64, Number)>, i: nat, n: nat)
    requires i <= n, !assign_scan(z, min_only, above, c, s, i).ok,
    ensures !assign_scan(z, min_only, above, c, s, n).ok,
    decreases n,
{
    if i < n {
        assign_failed(z, min_only, above, c, s, i, (n - 1) as nat);
    }
}

spec fn free_value(free: Option<u64>, env: Env) -> int {
    match free {
        Some(v) => env(v),
        None => 0,
    }
}

spec fn on_side(above: bool, x: int, y: int) -> bool {
    if above { x <= y } else { x >= y }
}

proof fn lemma_assign_scan(z: ZEdges, min_only: spec_fn(u64) -> bool, above: bool, c: Number, s: Seq<(u64, Number)>, n: nat, env: Env)
    requires
        mild(env),
        zholds(z, env),
        n <= s.len(),
        assign_scan(z, min_only, above, c, s, n).ok,
    ensures
        ({
            let st = assign_scan(z, min_only, above, c, s, n);
            let v = c@ + linear_expression::terms_value(s.take(n as int), env);
            &&& on_side(above, v, st.rest + free_value(st.free, env))
            &&& forall|i: int| 0 <= i < st.terms.len() ==>
                    on_side(above, v, st.rest + free_value(st.free, env) + env((#[trigger] st.terms[i]).0) - st.terms[i].1)
        }),
    decreases n,
{
    if n == 0 {
        assert(s.take(0).len() == 0);
    } else {
        let p = assign_scan(z, min_only, above, c, s, (n - 1) as nat);
        let st = assign_scan(z, min_only, above, c, s, n);
        let y = s[n - 1].0;
        let k = s[n - 1].1@;
        lemma_assign_scan(z, min_only, above, c, s, (n - 1) as nat, env);
        lemma_bounds(z, y, env);
        let now = s.take(n as int);
        assert(now.drop_last() =~= s.take(n - 1));
        assert(now.last() == s[n - 1]);
        let was = c@ + linear_expression::terms_value(s.take(n - 1), env);
        assert(linear_expression::terms_value(now, env) == linear_expression::terms_value(s.take(n - 1), env) + k * env(y));
        let ev = env(y);
        if k < 0 {
            match side_bound(z, y, !above, min_only) {
                ExtendedNumber::Finite(m) => {
                    let mv = m@;
                    if above {
                        assert(k * ev <= mv * k) by (nonlinear_arith) requires k < 0, ev >= mv;
                    } else {
                        assert(k * ev >= mv * k) by (nonlinear_arith) requires k < 0, ev <= mv;
                    }
                },
                _ => {},
            }
        } else if k > 0 {
            match side_bound(z, y, above, min_only) {
                ExtendedNumber::Finite(m) => {
                    let mv = m@;
                    if above {
                        assert(k * ev <= mv * k && k * ev - mv * k <= ev - mv) by (nonlinear_arith) requires k >= 1, ev <= mv;
                    } else {
                        assert(k * ev >= mv * k && k * ev - mv * k >= ev - mv) by (nonlinear_arith) requires k >= 1, ev >= mv;
                    }
                    assert forall|i: int| 0 <= i < st.terms.len() implies
                        on_side(above, was + k * ev, st.rest + free_value(st.free, env) + env((#[trigger] st.terms[i]).0) - st.terms[i].1) by {
                        if i < p.terms.len() {
                            assert(st.terms[i] == p.terms[i]);
                        }
                    }
                },
                _ => {
                    assert(k * ev == ev) by (nonlinear_arith) requires k == 1;
                },
            }
        } else {
            assert(k * ev == 0) by (nonlinear_arith) requires k == 0;
        }
    }
}

/// What is drawn from an assignment holds between the old variables and the expression's value.
pub proof fn assignment_is_sound(z: ZEdges, min_only: spec_fn(u64) -> bool, above: bool, e: &LinearExpression, env: Env, v: u64, w: int)
    requires
        mild(env),
        zholds(z, env),
        assign_due(assign_of(z, min_only, above, e), v, w),
        -constraints::REACH <= e.eval(env) - env(v) <= constraints::REACH,
    ensures
        above ==> e.eval(env) - env(v) <= w,
        !above ==> e.eval(env) - env(v) >= w,
{
    let s = e.terms.entries();
    let st = assign_of(z, min_only, above, e);
    lemma_assign_scan(z, min_only, above, e.constant, s, s.len(), env);
    assert(s.take(s.len() as int) =~= s);
    match st.free {
        Some(u) => {},
        None => {
            let i = choose|i: int| 0 <= i < st.terms.len() && (#[trigger] st.terms[i]).0 == v && w == number::saturate(st.rest - st.terms[i].1);
            assert(st.terms[i].0 == v);
        },
    }
}

// ---------------------------------------------------------------------------------------------
// Laws of the model
// ---------------------------------------------------------------------------------------------

/// Tighter constraints say at least as much.
pub proof fn tighter_entails(a: ZEdges, b: ZEdges)
    requires ztight(a, b),
    ensures zentails(a, b),
{
    assert forall|env: Env| broad(env) && #[trigger] zholds(a, env) implies zholds(b, env) by {
        assert forall|s: int, d: int| #![trigger b.contains_key((s, d))] b.contains_key((s, d)) implies
            node_value(env, d) - node_value(env, s) <= b[(s, d)]@ by {
            assert(a.contains_key((s, d)));
        }
    }
}

/// One more constraint is met exactly where it is met beside the others.
pub proof fn tightening_adds(z: ZEdges, key: (int, int), w: Number, env: Env)
    ensures zholds(ztightened(z, key, w), env) == (zholds(z, env) && node_value(env, key.1) - node_value(env, key.0) <= w@),
{
    let t = ztightened(z, key, w);
    if zholds(t, env) {
        assert(t.contains_key((key.0, key.1)));
        assert forall|s: int, d: int| #![trigger z.contains_key((s, d))] z.contains_key((s, d)) implies
            node_value(env, d) - node_value(env, s) <= z[(s, d)]@ by {
            assert(t.contains_key((s, d)));
        }
    }
    if zholds(z, env) && node_value(env, key.1) - node_value(env, key.0) <= w@ {
        assert forall|s: int, d: int| #![trigger t.contains_key((s, d))] t.contains_key((s, d)) implies
            node_value(env, d) - node_value(env, s) <= t[(s, d)]@ by {
            if (s, d) != key {
                assert(z.contains_key((s, d)));
            }
        }
    }
}

/// The constraints are between nodes.
pub open spec fn proper(z: ZEdges) -> bool {
    forall|a: int, b: int| #![trigger z.contains_key((a, b))] z.contains_key((a, b)) ==> 0 <= a <= u64::MAX + 1 && 0 <= b <= u64::MAX + 1
}

/// Forgetting a variable and then setting its value loses nothing else.
pub proof fn forgetting_is_sound(z: ZEdges, v: u64, env: Env, x: int)
    requires zholds(z, env), proper(z),
    ensures zholds(zwithout(z, node(v)), env_with(env, v, x)), zholds(zwithout(z, node(v)), env),
{
    let t = zwithout(z, node(v));
    let next = env_with(env, v, x);
    assert forall|s: int, d: int| #![trigger t.contains_key((s, d))] t.contains_key((s, d)) implies
        node_value(next, d) - node_value(next, s) <= t[(s, d)]@ && node_value(env, d) - node_value(env, s) <= t[(s, d)]@ by {
        assert(z.contains_key((s, d)));
    }
}

/// How far a node is moved to hold the nodes of a set far above the others; zero stays.
spec fn lift(cut: Set<int>, n: int) -> int {
    if cut.contains(n) == cut.contains(0) { 0 } else if cut.contains(n) { 4 * i128::MAX } else { -4 * i128::MAX }
}

spec fn lifted(env: Env, cut: Set<int>) -> Env {
    |k: u64| env(k) + lift(cut, node(k))
}

proof fn lemma_lifted(env: Env, cut: Set<int>)
    requires mild(env),
    ensures broad(lifted(env, cut)),
{
    let e = lifted(env, cut);
    assert forall|j: u64, k: u64| #![trigger e(j), e(k)] constraints::near_or_far(e(j) - e(k)) by {
        assert(env(j) - env(k) <= constraints::REACH && env(k) - env(j) <= constraints::REACH);
    }
    assert forall|k: u64| #![trigger e(k)] constraints::near_or_far(e(k)) && constraints::near_or_far(-e(k)) by {
        assert(-constraints::REACH <= env(k) <= constraints::REACH);
    }
}

proof fn lemma_lifted_node(env: Env, cut: Set<int>, n: int)
    requires 0 <= n <= u64::MAX + 1,
    ensures node_value(lifted(env, cut), n) == node_value(env, n) + lift(cut, n),
{
    if n > 0 { assert(node((n - 1) as u64) == n); }
}

/// The zone holds of the lifted valuation where no constraint leads into the set.
proof fn lemma_lifted_holds(z: ZEdges, env: Env, cut: Set<int>)
    requires zholds(z, env), proper(z), closed_cut(z, cut),
    ensures zholds(z, lifted(env, cut)),
{
    let e = lifted(env, cut);
    assert forall|a: int, b: int| #![trigger z.contains_key((a, b))] z.contains_key((a, b)) implies node_value(e, b) - node_value(e, a) <= z[(a, b)]@ by {
        lemma_lifted_node(env, cut, a);
        lemma_lifted_node(env, cut, b);
        assert(node_value(env, b) - node_value(env, a) <= z[(a, b)]@);
    }
}

/// No constraint leads from outside a set of nodes into it.
pub open spec fn closed_cut(z: ZEdges, cut: Set<int>) -> bool {
    forall|a: int, b: int| #![trigger z.contains_key((a, b))] z.contains_key((a, b)) && cut.contains(b) ==> cut.contains(a)
}

/// A constraint follows only along constraints: what a zone entails does not lead into a set of
/// nodes that no constraint of the zone leads into.
pub proof fn constraints_follow_paths(z0: ZEdges, z1: ZEdges, cut: Set<int>)
    requires zentails(z0, z1), zfeasible(z0), proper(z0), proper(z1), closed_cut(z0, cut),
    ensures closed_cut(z1, cut),
{
    let env = choose|env: Env| mild(env) && #[trigger] zholds(z0, env);
    lemma_lifted(env, cut);
    lemma_lifted_holds(z0, env, cut);
    lemma_no_way_in(z1, env, cut);
}

proof fn lemma_no_way_in(z: ZEdges, env: Env, cut: Set<int>)
    requires mild(env), proper(z), zholds(z, lifted(env, cut)),
    ensures closed_cut(z, cut),
{
    let e = lifted(env, cut);
    assert forall|a: int, b: int| #![trigger z.contains_key((a, b))] z.contains_key((a, b)) && cut.contains(b) implies cut.contains(a) by {
        lemma_lifted_node(env, cut, a);
        lemma_lifted_node(env, cut, b);
        lemma_mild_nodes(env, a, b);
        assert(node_value(e, b) - node_value(e, a) <= z[(a, b)]@);
    }
}

// ---------------------------------------------------------------------------------------------
// What adding a constraint does
// ---------------------------------------------------------------------------------------------

/// A constraint of weight at most `w`.
pub open spec fn holds_edge(z: ZEdges, a: int, b: int, w: int) -> bool {
    z.contains_key((a, b)) && z[(a, b)]@ <= w
}

/// All that is due stands among the constraints, no looser.
pub open spec fn dues_stand(st: LeqScan, mo: spec_fn(u64) -> bool, z: ZEdges) -> bool {
    &&& forall|v: u64, b: int| #[trigger] lb_due(st, v, b) ==> holds_edge(z, node(v), 0, number::saturate(-b))
    &&& forall|v: u64, b: int| #[trigger] ub_due(st, v, b) && !mo(v) ==> holds_edge(z, 0, node(v), b)
    &&& forall|x: u64, y: u64, w: int| #[trigger] diff_due(st, x, y, w) ==> holds_edge(z, node(y), node(x), w)
}

/// A bound of weight `w` of a node is carried over the differences.
pub open spec fn upper_carried(z: ZEdges, m: int, w: int) -> bool {
    forall|d: int| #![trigger z.contains_key((m, d))] d != 0 && z.contains_key((m, d)) ==> holds_edge(z, 0, d, number::saturate(w + z[(m, d)]@))
}

pub open spec fn lower_carried(z: ZEdges, m: int, w: int) -> bool {
    forall|s: int| #![trigger z.contains_key((s, m))] s != 0 && z.contains_key((s, m)) ==> holds_edge(z, s, 0, number::saturate(w + z[(s, m)]@))
}

/// The bounds of `z0` are carried over the differences of `z1`.
pub open spec fn zcarried(z1: ZEdges, z0: ZEdges) -> bool {
    &&& forall|m: int| #![trigger z0.contains_key((0, m))] m != 0 && z0.contains_key((0, m)) ==> upper_carried(z1, m, z0[(0, m)]@)
    &&& forall|m: int| #![trigger z0.contains_key((m, 0))] m != 0 && z0.contains_key((m, 0)) ==> lower_carried(z1, m, z0[(m, 0)]@)
}

/// The paths of `z0` over a difference `a -> b` of weight `w`, with at most one difference before it
/// and one behind it, are differences of `z1`.
pub open spec fn zclosed_over(z1: ZEdges, z0: ZEdges, a: int, b: int, w: int) -> bool {
    &&& forall|s: int| #![trigger z0.contains_key((s, a))] s != 0 && s != b && z0.contains_key((s, a)) ==> holds_edge(z1, s, b, number::saturate(z0[(s, a)]@ + w))
    &&& forall|d: int| #![trigger z0.contains_key((b, d))] d != 0 && d != a && z0.contains_key((b, d)) ==> holds_edge(z1, a, d, number::saturate(z0[(b, d)]@ + w))
    &&& forall|s: int, d: int| #![trigger z0.contains_key((s, a)), z0.contains_key((b, d))]
            s != 0 && d != 0 && s != d && s != b && d != a && z0.contains_key((s, a)) && z0.contains_key((b, d)) ==>
            holds_edge(z1, s, d, number::saturate(number::saturate(z0[(s, a)]@ + w) + z0[(b, d)]@))
}

/// Closed paths stay where the result becomes tighter or the start looser.
pub proof fn lemma_closed_over(y1: ZEdges, y0: ZEdges, z1: ZEdges, z0: ZEdges, a: int, b: int, w: int)
    requires zclosed_over(y1, y0, a, b, w), ztight(z1, y1), ztight(y0, z0),
    ensures zclosed_over(z1, z0, a, b, w),
{
    assert forall|s: int, d: int, x: int| #[trigger] holds_edge(y1, s, d, x) implies holds_edge(z1, s, d, x) by { assert(y1.contains_key((s, d))); }
    assert forall|s: int| #![trigger z0.contains_key((s, a))] s != 0 && s != b && z0.contains_key((s, a)) implies holds_edge(z1, s, b, number::saturate(z0[(s, a)]@ + w)) by {
        assert(y0.contains_key((s, a)));
        assert(holds_edge(y1, s, b, number::saturate(y0[(s, a)]@ + w)));
    }
    assert forall|d: int| #![trigger z0.contains_key((b, d))] d != 0 && d != a && z0.contains_key((b, d)) implies holds_edge(z1, a, d, number::saturate(z0[(b, d)]@ + w)) by {
        assert(y0.contains_key((b, d)));
        assert(holds_edge(y1, a, d, number::saturate(y0[(b, d)]@ + w)));
    }
    assert forall|s: int, d: int| #![trigger z0.contains_key((s, a)), z0.contains_key((b, d))]
        s != 0 && d != 0 && s != d && s != b && d != a && z0.contains_key((s, a)) && z0.contains_key((b, d)) implies
        holds_edge(z1, s, d, number::saturate(number::saturate(z0[(s, a)]@ + w) + z0[(b, d)]@)) by {
        assert(y0.contains_key((s, a)) && y0.contains_key((b, d)));
        assert(holds_edge(y1, s, d, number::saturate(number::saturate(y0[(s, a)]@ + w) + y0[(b, d)]@)));
    }
}

/// The differences are closed over those that are due.
pub open spec fn dues_closed(st: LeqScan, z1: ZEdges, z0: ZEdges) -> bool {
    forall|x: u64, y: u64, w: int| #[trigger] diff_due(st, x, y, w) ==> zclosed_over(z1, z0, node(y), node(x), w)
}

/// The bounds that are due are carried over the differences.
pub open spec fn dues_carried(st: LeqScan, mo: spec_fn(u64) -> bool, z: ZEdges) -> bool {
    &&& forall|v: u64, b: int| #[trigger] lb_due(st, v, b) ==> lower_carried(z, node(v), number::saturate(-b))
    &&& forall|v: u64, b: int| #[trigger] ub_due(st, v, b) && !mo(v) ==> upper_carried(z, node(v), b)
}

/// `z1` says what `z0` says and all that is due from `c + terms <= 0`, and has a solution. Its
/// constraints are between nodes. What was
/// there and what is due stands in it, the differences are closed over those that are due, and the
/// bounds over the differences.
pub open spec fn leq_added(z0: ZEdges, c: Number, s: Seq<(u64, Number)>, mo: spec_fn(u64) -> bool, z1: ZEdges) -> bool {
    &&& forall|env: Env| broad(env) ==> #[trigger] zholds(z1, env)
        == (zholds(z0, env) && dues_hold(leq_scan(z0, c, s, s.len()), mo, env))
    &&& zfeasible(z1)
    &&& ztight(z1, z0)
    &&& dues_stand(leq_scan(z0, c, s, s.len()), mo, z1)
    &&& proper(z1)
    &&& zcarried(z1, z0)
    &&& dues_carried(leq_scan(z0, c, s, s.len()), mo, z1)
    &&& dues_closed(leq_scan(z0, c, s, s.len()), z1, z0)
}

/// Nothing that is due leads from outside a set of nodes into it.
pub open spec fn dues_cut(st: LeqScan, mo: spec_fn(u64) -> bool, cut: Set<int>) -> bool {
    &&& forall|v: u64, b: int| #[trigger] lb_due(st, v, b) && cut.contains(0) ==> cut.contains(node(v))
    &&& forall|v: u64, b: int| #[trigger] ub_due(st, v, b) && !mo(v) && cut.contains(node(v)) ==> cut.contains(0)
    &&& forall|x: u64, y: u64, w: int| #[trigger] diff_due(st, x, y, w) && cut.contains(node(x)) ==> cut.contains(node(y))
}

/// Adding a constraint bounds no variable out of nowhere: the result leads into no set of nodes that
/// neither the zone nor what is due leads into.
pub proof fn additions_follow_paths(z0: ZEdges, c: Number, s: Seq<(u64, Number)>, mo: spec_fn(u64) -> bool, z1: ZEdges, cut: Set<int>)
    requires
        leq_added(z0, c, s, mo, z1),
        proper(z0),
        proper(z1),
        closed_cut(z0, cut),
        dues_cut(leq_scan(z0, c, s, s.len()), mo, cut),
    ensures closed_cut(z1, cut),
{
    let st = leq_scan(z0, c, s, s.len());
    let env = choose|env: Env| mild(env) && #[trigger] zholds(z1, env);
    assert(zholds(z0, env) && dues_hold(st, mo, env));
    let e = lifted(env, cut);
    lemma_lifted(env, cut);
    lemma_lifted_holds(z0, env, cut);
    assert forall|x: u64, y: u64, w: int| #[trigger] diff_due(st, x, y, w) implies e(x) - e(y) <= w by {
        assert(env(x) - env(y) <= w);
    }
    assert(dues_hold(st, mo, e));
    lemma_no_way_in(z1, env, cut);
}

/// A tighter bound carries further.
pub proof fn lemma_carried(z1: ZEdges, zb: ZEdges, m: int, w: int)
    requires zcarried(z1, zb), m != 0,
    ensures
        holds_edge(zb, 0, m, w) ==> upper_carried(z1, m, w),
        holds_edge(zb, m, 0, w) ==> lower_carried(z1, m, w),
{
    if holds_edge(zb, 0, m, w) {
        assert(upper_carried(z1, m, zb[(0, m)]@));
        assert forall|d: int| #![trigger z1.contains_key((m, d))] d != 0 && z1.contains_key((m, d)) implies holds_edge(z1, 0, d, number::saturate(w + z1[(m, d)]@)) by {
            assert(holds_edge(z1, 0, d, number::saturate(zb[(0, m)]@ + z1[(m, d)]@)));
        }
    }
    if holds_edge(zb, m, 0, w) {
        assert(lower_carried(z1, m, zb[(m, 0)]@));
        assert forall|s: int| #![trigger z1.contains_key((s, m))] s != 0 && z1.contains_key((s, m)) implies holds_edge(z1, s, 0, number::saturate(w + z1[(s, m)]@)) by {
            assert(holds_edge(z1, s, 0, number::saturate(zb[(m, 0)]@ + z1[(s, m)]@)));
        }
    }
}

/// No valuation meets `z0` and all that is due from `c + terms <= 0`.
pub open spec fn leq_refuted(z0: ZEdges, c: Number, s: Seq<(u64, Number)>, mo: spec_fn(u64) -> bool) -> bool {
    forall|env: Env| mild(env) && #[trigger] zholds(z0, env) ==> !dues_hold(leq_scan(z0, c, s, s.len()), mo, env)
}

/// A bound that can be combined with others without leaving the range of numbers.
pub open spec fn handy(b: ExtendedNumber) -> bool {
    b matches ExtendedNumber::Finite(m) ==> -0x2000_0000_0000_0000_0000_0000_0000_0000 <= m@ <= 0x2000_0000_0000_0000_0000_0000_0000_0000
}

/// A variable with the coefficient one, or minus one.
pub open spec fn unit_term(v: u64, positive: bool) -> (u64, Number) {
    (v, if positive { Number::nearest(1) } else { Number::nearest(-1) })
}

proof fn lemma_over_one(x: int)
    ensures number::trunc_div(x, 1) == x, x * 1 == x, x * -1 == -x,
{
    assert(x / 1 == x && (-x) / 1 == -x);
}

pub proof fn lemma_unit_sum(s: Seq<(u64, Number)>, env: Env)
    requires
        s.len() > 0,
        s.last().1@ == 1 || s.last().1@ == -1,
    ensures
        linear_expression::terms_value(s, env) == linear_expression::terms_value(s.drop_last(), env) + (if s.last().1@ == 1 { env(s.last().0) } else { -env(s.last().0) }),
        linear_expression::terms_value(Seq::<(u64, Number)>::empty(), env) == 0,
{
    let k = s.last().1@;
    let x = env(s.last().0);
    assert(k == 1 ==> k * x == x) by (nonlinear_arith);
    assert(k == -1 ==> k * x == -x) by (nonlinear_arith);
}

/// A bound on one variable is taken over as it is: the result says what the zone says, and that
/// the variable is at most `-c`, or at least `c`.
pub proof fn bounds_are_exact(z0: ZEdges, c: Number, v: u64, positive: bool, mo: spec_fn(u64) -> bool, z1: ZEdges, env: Env)
    requires
        leq_added(z0, c, seq![unit_term(v, positive)], mo, z1),
        handy(ExtendedNumber::Finite(c)),
        handy(zinterval(z0, v).ub),
        handy(lower(z0, v)),
        positive ==> !mo(v),
        mild(env),
    ensures
        positive ==> zholds(z1, env) == (zholds(z0, env) && env(v) <= -c@),
        !positive ==> zholds(z1, env) == (zholds(z0, env) && env(v) >= c@),
{
    let s = seq![unit_term(v, positive)];
    let st = leq_scan(z0, c, s, 1);
    assert(s.len() == 1 && s[0] == unit_term(v, positive));
    let first = leq_scan(z0, c, s, 0);
    assert(first.ok && first.ub == -c@ && first.lo is None && first.hi is None && first.pos.len() == 0 && first.neg.len() == 0);
    assert(st == leq_step(z0, first, v, s[0].1@));
    lemma_over_one(st.ub);
    lemma_over_one(-st.ub);
    if positive {
        if let ExtendedNumber::Finite(m) = lower(z0, v) {
            lemma_over_one(m@);
            assert(st.pos[0] == (v, 1int, m@));
        }
        assert(ub_due(st, v, -c@));
    } else {
        if let ExtendedNumber::Finite(m) = zinterval(z0, v).ub {
            lemma_over_one(m@);
            assert(st.neg[0] == (v, 1int, m@));
        }
        assert(lb_due(st, v, c@));
    }
    lemma_unit_sum(s, env);
    assert(s.drop_last() =~= Seq::<(u64, Number)>::empty());
    if zholds(z0, env) && c@ + linear_expression::terms_value(s, env) <= 0 {
        leq_is_sound(z0, c, s, mo, env);
    }
}

/// A bound on the difference of two variables is taken over as it is: the result says what the
/// zone says, and that `x - y` is at most `-c`.
pub proof fn differences_are_exact(z0: ZEdges, c: Number, x: u64, y: u64, mo: spec_fn(u64) -> bool, z1: ZEdges, env: Env)
    requires
        x != y,
        leq_added(z0, c, if x < y { seq![unit_term(x, true), unit_term(y, false)] } else { seq![unit_term(y, false), unit_term(x, true)] }, mo, z1),
        handy(ExtendedNumber::Finite(c)),
        handy(lower(z0, x)),
        handy(zinterval(z0, y).ub),
        mild(env),
    ensures zholds(z1, env) == (zholds(z0, env) && env(x) - env(y) <= -c@),
{
    let s = if x < y { seq![unit_term(x, true), unit_term(y, false)] } else { seq![unit_term(y, false), unit_term(x, true)] };
    assert(s.len() == 2);
    let first = leq_scan(z0, c, s, 0);
    let second = leq_scan(z0, c, s, 1);
    let st = leq_scan(z0, c, s, 2);
    assert(first.ok && first.ub == -c@ && first.lo is None && first.hi is None && first.pos.len() == 0 && first.neg.len() == 0);
    assert(second == leq_step(z0, first, s[0].0, s[0].1@));
    assert(st == leq_step(z0, second, s[1].0, s[1].1@));
    if let ExtendedNumber::Finite(m) = lower(z0, x) {
        lemma_over_one(m@);
    }
    if let ExtendedNumber::Finite(m) = zinterval(z0, y).ub {
        lemma_over_one(m@);
    }
    if lower(z0, x) is Finite {
        assert(st.pos.len() == 1 && st.pos[0].0 == x && st.pos[0].1 == 1);
    } else {
        assert(st.lo == Some((x, 1int)));
    }
    if zinterval(z0, y).ub is Finite {
        assert(st.neg.len() == 1 && st.neg[0].0 == y && st.neg[0].1 == 1);
    } else {
        assert(st.hi == Some((y, 1int)));
    }
    assert(diff_due(st, x, y, -c@));
    lemma_unit_sum(s, env);
    lemma_unit_sum(s.drop_last(), env);
    assert(s.drop_last().drop_last() =~= Seq::<(u64, Number)>::empty());
    if zholds(z0, env) && c@ + linear_expression::terms_value(s, env) <= 0 {
        leq_is_sound(z0, c, s, mo, env);
    }
}

/// A bound that contradicts one that the zone has cannot be added.
pub proof fn contradictory_bounds_are_refused(z0: ZEdges, c: Number, v: u64, positive: bool, mo: spec_fn(u64) -> bool)
    requires
        handy(ExtendedNumber::Finite(c)),
        handy(zinterval(z0, v).ub),
        handy(lower(z0, v)),
        positive ==> !mo(v),
        positive ==> (lower(z0, v) matches ExtendedNumber::Finite(m) && m@ > -c@),
        !positive ==> (upper(z0, v) matches ExtendedNumber::Finite(m) && m@ < c@),
    ensures forall|z1: ZEdges| !leq_added(z0, c, seq![unit_term(v, positive)], mo, z1),
{
    assert forall|z1: ZEdges| !leq_added(z0, c, seq![unit_term(v, positive)], mo, z1) by {
        if leq_added(z0, c, seq![unit_term(v, positive)], mo, z1) {
            let env = choose|env: Env| mild(env) && #[trigger] zholds(z1, env);
            bounds_are_exact(z0, c, v, positive, mo, z1, env);
            interval_is_sound(z0, v, env);
            lemma_bounds(z0, v, env);
        }
    }
}

/// Whether a value lies at an end of a variable's interval that counts.
pub open spec fn at_end(z: ZEdges, v: u64, k: Number, min_only: bool) -> bool {
    zinterval(z, v).lb == ExtendedNumber::Finite(k) || (zinterval(z, v).ub == ExtendedNumber::Finite(k) && !min_only)
}

/// `z1` says what `z0` says and, where `k` is an end of the variable's interval, that the variable
/// is not `k`; it then has a solution. What was there stands in it, and the next value is the end,
/// carried over the differences of the variable.
pub open spec fn value_removed(z0: ZEdges, v: u64, k: Number, min_only: bool, z1: ZEdges) -> bool {
    &&& forall|env: Env| broad(env) ==> #[trigger] zholds(z1, env) == (zholds(z0, env) && (at_end(z0, v, k, min_only) ==> env(v) != k@))
    &&& at_end(z0, v, k, min_only) ==> zfeasible(z1)
    &&& proper(z1)
    &&& ztight(z1, z0)
    &&& zinterval(z0, v).lb == ExtendedNumber::Finite(k) && k@ < i128::MAX ==> lower_moved(z1, z0, node(v), -(k@ + 1))
    &&& zinterval(z0, v).lb != ExtendedNumber::Finite(k) && at_end(z0, v, k, min_only) && k@ > i128::MIN ==> upper_moved(z1, z0, node(v), k@ - 1)
}

/// A node has a lower bound of weight `w` in `z1`, carried over the differences of `z0`.
pub open spec fn lower_moved(z1: ZEdges, z0: ZEdges, n: int, w: int) -> bool {
    &&& holds_edge(z1, n, 0, w)
    &&& forall|s: int| #![trigger z0.contains_key((s, n))] s != 0 && s != n && z0.contains_key((s, n)) ==> holds_edge(z1, s, 0, number::saturate(z0[(s, n)]@ + w))
}

/// A node has an upper bound of weight `w` in `z1`, carried over the differences of `z0`.
pub open spec fn upper_moved(z1: ZEdges, z0: ZEdges, n: int, w: int) -> bool {
    &&& holds_edge(z1, 0, n, w)
    &&& forall|d: int| #![trigger z0.contains_key((n, d))] d != 0 && d != n && z0.contains_key((n, d)) ==> holds_edge(z1, 0, d, number::saturate(z0[(n, d)]@ + w))
}

/// No valuation of `z0` gives the variable another value than `k`.
pub open spec fn value_forced(z0: ZEdges, v: u64, k: Number) -> bool {
    forall|env: Env| mild(env) && #[trigger] zholds(z0, env) ==> env(v) == k@
}

/// Moved bounds stay where the result becomes tighter or the start looser.
pub proof fn lemma_moved(y1: ZEdges, y0: ZEdges, z1: ZEdges, z0: ZEdges, n: int, w: int)
    requires ztight(z1, y1), ztight(y0, z0),
    ensures
        lower_moved(y1, y0, n, w) ==> lower_moved(z1, z0, n, w),
        upper_moved(y1, y0, n, w) ==> upper_moved(z1, z0, n, w),
{
    assert forall|s: int, d: int, x: int| #[trigger] holds_edge(y1, s, d, x) implies holds_edge(z1, s, d, x) by { assert(y1.contains_key((s, d))); }
    if lower_moved(y1, y0, n, w) {
        assert forall|s: int| #![trigger z0.contains_key((s, n))] s != 0 && s != n && z0.contains_key((s, n)) implies holds_edge(z1, s, 0, number::saturate(z0[(s, n)]@ + w)) by {
            assert(y0.contains_key((s, n)));
            assert(holds_edge(y1, s, 0, number::saturate(y0[(s, n)]@ + w)));
        }
    }
    if upper_moved(y1, y0, n, w) {
        assert forall|d: int| #![trigger z0.contains_key((n, d))] d != 0 && d != n && z0.contains_key((n, d)) implies holds_edge(z1, 0, d, number::saturate(z0[(n, d)]@ + w)) by {
            assert(y0.contains_key((n, d)));
            assert(holds_edge(y1, 0, d, number::saturate(y0[(n, d)]@ + w)));
        }
    }
}

/// One step of a disequation, on the term at position `i`. `solution` gives the value of the
/// term's variable that the rest of the expression determines, if it does.
pub open spec fn disequation_step(z0: ZEdges, solution: spec_fn(ZEdges, int) -> Option<Number>, s: Seq<(u64, Number)>, mo: spec_fn(u64) -> bool, i: int, z1: ZEdges) -> bool {
    match solution(z0, i) {
        Some(k) => value_removed(z0, s[i].0, k, mo(s[i].0), z1),
        None => z1 == z0,
    }
}

/// The zones through which a disequation passes, term by term.
pub open spec fn disequation_path(zs: Seq<ZEdges>, solution: spec_fn(ZEdges, int) -> Option<Number>, s: Seq<(u64, Number)>, mo: spec_fn(u64) -> bool) -> bool {
    forall|i: int| 0 <= i < zs.len() - 1 ==> #[trigger] disequation_step(zs[i], solution, s, mo, i, zs[i + 1])
}

/// A zone after the disequation was applied to the first `n` terms in turn.
pub open spec fn disequated(z0: ZEdges, solution: spec_fn(ZEdges, int) -> Option<Number>, s: Seq<(u64, Number)>, mo: spec_fn(u64) -> bool, n: nat, z1: ZEdges) -> bool {
    exists|zs: Seq<ZEdges>| zs.len() == n + 1 && zs[0] == z0 && zs[n as int] == z1 && #[trigger] disequation_path(zs, solution, s, mo)
}

/// The disequation left some variable without a value.
pub open spec fn disequation_refuted(z0: ZEdges, solution: spec_fn(ZEdges, int) -> Option<Number>, s: Seq<(u64, Number)>, mo: spec_fn(u64) -> bool) -> bool {
    exists|n: nat, mid: ZEdges| n < s.len() && #[trigger] disequated(z0, solution, s, mo, n, mid)
        && solution(mid, n as int) is Some && value_forced(mid, s[n as int].0, solution(mid, n as int)->Some_0)
}

/// One step more.
pub proof fn disequated_further(z0: ZEdges, solution: spec_fn(ZEdges, int) -> Option<Number>, s: Seq<(u64, Number)>, mo: spec_fn(u64) -> bool, n: nat, mid: ZEdges, z1: ZEdges)
    requires
        disequated(z0, solution, s, mo, n, mid),
        disequation_step(mid, solution, s, mo, n as int, z1),
    ensures disequated(z0, solution, s, mo, n + 1, z1),
{
    let zs = choose|zs: Seq<ZEdges>| zs.len() == n + 1 && zs[0] == z0 && zs[n as int] == mid && #[trigger] disequation_path(zs, solution, s, mo);
    let more = zs.push(z1);
    assert forall|i: int| 0 <= i < more.len() - 1 implies #[trigger] disequation_step(more[i], solution, s, mo, i, more[i + 1]) by {
        if i < n {
            assert(disequation_step(zs[i], solution, s, mo, i, zs[i + 1]));
            assert(more[i] == zs[i] && more[i + 1] == zs[i + 1]);
        }
    }
    assert(disequation_path(more, solution, s, mo));
}

/// A disequation loses nothing: what meets the result met the zone.
pub proof fn disequation_only_adds(z0: ZEdges, solution: spec_fn(ZEdges, int) -> Option<Number>, s: Seq<(u64, Number)>, mo: spec_fn(u64) -> bool, n: nat, z1: ZEdges)
    requires disequated(z0, solution, s, mo, n, z1),
    ensures zentails(z1, z0),
{
    let zs = choose|zs: Seq<ZEdges>| zs.len() == n + 1 && zs[0] == z0 && zs[n as int] == z1 && #[trigger] disequation_path(zs, solution, s, mo);
    lemma_path_adds(zs, solution, s, mo, n as int);
}

proof fn lemma_path_adds(zs: Seq<ZEdges>, solution: spec_fn(ZEdges, int) -> Option<Number>, s: Seq<(u64, Number)>, mo: spec_fn(u64) -> bool, i: int)
    requires 0 <= i < zs.len(), disequation_path(zs, solution, s, mo),
    ensures zentails(zs[i], zs[0]),
    decreases i,
{
    if i > 0 {
        lemma_path_adds(zs, solution, s, mo, i - 1);
        assert(disequation_step(zs[i - 1], solution, s, mo, i - 1, zs[(i - 1) + 1]));
        assert forall|env: Env| broad(env) && #[trigger] zholds(zs[i], env) implies zholds(zs[0], env) by {
            assert(zholds(zs[i - 1], env));
        }
    }
}

// ---------------------------------------------------------------------------------------------
// What an assignment does
// ---------------------------------------------------------------------------------------------

/// No difference is due from an assignment.
pub open spec fn no_differences(z: ZEdges, e: &LinearExpression, mo: spec_fn(u64) -> bool) -> bool {
    forall|v: u64, w: int| #![trigger assign_due(assign_of(z, mo, true, e), v, w)] #![trigger assign_due(assign_of(z, mo, false, e), v, w)]
        !assign_due(assign_of(z, mo, true, e), v, w) && !assign_due(assign_of(z, mo, false, e), v, w)
}

/// Both zones give a node the same bounds.
pub open spec fn same_bounds(a: ZEdges, b: ZEdges, n: int) -> bool {
    &&& a.contains_key((n, 0)) == b.contains_key((n, 0))
    &&& a.contains_key((0, n)) == b.contains_key((0, n))
    &&& a.contains_key((n, 0)) ==> a[(n, 0)] == b[(n, 0)]
    &&& a.contains_key((0, n)) ==> a[(0, n)] == b[(0, n)]
}

/// A valuation and one with a new value of a variable are broad, also where both values stand side
/// by side.
pub open spec fn broad_change(env: Env, v: u64, x: int) -> bool {
    &&& broad(env)
    &&& broad(env_with(env, v, x))
    &&& constraints::near_or_far(x - env(v))
    &&& constraints::near_or_far(env(v) - x)
}

/// A value of the expression keeps the differences that are due.
pub open spec fn assign_dues_hold(z0: ZEdges, e: &LinearExpression, mo: spec_fn(u64) -> bool, env: Env, x: int) -> bool {
    &&& forall|v: u64, w: int| #[trigger] assign_due(assign_of(z0, mo, true, e), v, w) ==> x - env(v) <= w
    &&& forall|v: u64, w: int| #[trigger] assign_due(assign_of(z0, mo, false, e), v, w) ==> x - env(v) >= w
}

/// `z1` is `z0` after the assignment of an expression to a variable. The constraints among the
/// other variables stay; the variable gets the bounds of the expression's interval; its differences
/// to the other variables are bounded where the expression's are, and no others are.
pub open spec fn assigned(z0: ZEdges, lhs: u64, e: &LinearExpression, mo: spec_fn(u64) -> bool, z1: ZEdges) -> bool {
    let iv = zeval(z0, e);
    let put = zput(z0, lhs, iv, mo(lhs));
    if iv.lb == iv.ub || no_differences(z0, e, mo) {
        z1 == put
    } else {
        &&& proper(z1)
        &&& zwithout(z1, node(lhs)) == zwithout(z0, node(lhs))
        &&& same_bounds(z1, put, node(lhs))
        &&& forall|v: u64, w: int| #[trigger] assign_due(assign_of(z0, mo, true, e), v, w) && v != lhs ==>
                z1.contains_key((node(v), node(lhs))) && z1[(node(v), node(lhs))]@ <= w
        &&& forall|v: u64, w: int| #[trigger] assign_due(assign_of(z0, mo, false, e), v, w) && v != lhs ==>
                z1.contains_key((node(lhs), node(v))) && z1[(node(lhs), node(v))]@ <= -w
        &&& forall|env: Env, x: int| #![trigger zholds(z1, env_with(env, lhs, x))] zholds(z0, env) && iv.has(x) && broad_change(env, lhs, x)
                && assign_dues_hold(z0, e, mo, env, x) ==> zholds(z1, env_with(env, lhs, x))
        &&& forall|env: Env| #![trigger zholds(z0, env)] mild(env) && zholds(z0, env) && iv.has(e.eval(env)) && mild_change(env, lhs, e.eval(env))
                ==> zholds(z1, env_with(env, lhs, e.eval(env)))
    }
}

/// A new value stands beside the value of any node.
pub proof fn lemma_beside(env: Env, v: u64, x: int, n: int)
    requires broad_change(env, v, x),
    ensures
        constraints::near_or_far(x - node_value(env, n)),
        constraints::near_or_far(node_value(env, n) - x),
{
    let next = env_with(env, v, x);
    assert(next(v) == x);
    if n > 0 {
        let k = (n - 1) as u64;
        if k != v {
            assert(next(k) == env(k));
            assert(constraints::near_or_far(next(v) - next(k)) && constraints::near_or_far(next(k) - next(v)));
        }
    } else {
        assert(constraints::near_or_far(next(v)) && constraints::near_or_far(-next(v)));
    }
}

/// A new value differs from the value of any node by a number.
pub proof fn lemma_near(env: Env, v: u64, x: int, n: int)
    requires mild_change(env, v, x),
    ensures
        -constraints::REACH <= x - node_value(env, n) <= constraints::REACH,
        -constraints::REACH <= x <= constraints::REACH,
{
    let next = env_with(env, v, x);
    assert(next(v) == x);
    if n > 0 {
        let k = (n - 1) as u64;
        if k != v {
            assert(next(k) == env(k));
        }
    }
}

/// Replacing the bounds of a variable by an interval that holds its new value is sound.
pub proof fn putting_is_sound(z: ZEdges, v: u64, iv: Interval, min_only: bool, env: Env, x: int)
    requires proper(z), zholds(z, env), iv.has(x), mild(env_with(env, v, x)),
    ensures zholds(zput(z, v, iv, min_only), env_with(env, v, x)),
{
    let next = env_with(env, v, x);
    let t = zput(z, v, iv, min_only);
    let cleared = zwithout(z, node(v));
    forgetting_is_sound(z, v, env, x);
    assert(node_value(next, node(v)) == x);
    assert(-constraints::REACH <= next(v) <= constraints::REACH);
    assert forall|a: int, b: int| #![trigger t.contains_key((a, b))] t.contains_key((a, b)) implies
        node_value(next, b) - node_value(next, a) <= t[(a, b)]@ by {
        if (a, b) != (node(v), 0int) && (a, b) != (0int, node(v)) {
            assert(cleared.contains_key((a, b)));
        }
    }
}

/// An assignment is sound: from a valuation of the zone, and where the expression's interval
/// holds its value, it leads to a valuation of the result.
pub proof fn assigning_is_sound(z0: ZEdges, lhs: u64, e: &LinearExpression, mo: spec_fn(u64) -> bool, z1: ZEdges, env: Env)
    requires
        assigned(z0, lhs, e, mo, z1),
        proper(z0),
        mild(env),
        zholds(z0, env),
        zeval(z0, e).has(e.eval(env)),
        mild_change(env, lhs, e.eval(env)),
    ensures zholds(z1, env_with(env, lhs, e.eval(env))),
{
    putting_is_sound(z0, lhs, zeval(z0, e), mo(lhs), env, e.eval(env));
}

// ---------------------------------------------------------------------------------------------
// Lattice
// ---------------------------------------------------------------------------------------------

/// A constraint, direct or through zero, keeps `b - a` at or below `w`.
pub open spec fn zcovers(z: ZEdges, a: int, b: int, w: int) -> bool {
    ||| z.contains_key((a, b)) && z[(a, b)]@ <= w
    ||| z.contains_key((a, 0)) && z.contains_key((0, b)) && number::saturate(z[(a, 0)]@ + z[(0, b)]@) <= w
}

/// Every constraint of `r` is covered by `l`.
pub open spec fn zsubsumed(l: ZEdges, r: ZEdges) -> bool {
    forall|a: int, b: int| #![trigger r.contains_key((a, b))] r.contains_key((a, b)) ==> zcovers(l, a, b, r[(a, b)]@)
}

/// Whether some constraint speaks of a node.
pub open spec fn touches(z: ZEdges, n: int) -> bool {
    exists|m: int| z.contains_key((n, m)) || z.contains_key((m, n))
}

/// The zone without the constraints of some variables.
pub open spec fn zwithout_all(z: ZEdges, vars: Set<u64>) -> ZEdges {
    Map::new(|k: (int, int)| z.contains_key(k) && forall|v: u64| #[trigger] vars.contains(v) ==> k.0 != node(v) && k.1 != node(v), |k: (int, int)| z[k])
}

/// Forgetting one variable more.
pub proof fn lemma_without_more(z: ZEdges, vars: Set<u64>, v: u64)
    ensures zwithout(zwithout_all(z, vars), node(v)) == zwithout_all(z, vars.insert(v)),
{
    let a = zwithout(zwithout_all(z, vars), node(v));
    let b = zwithout_all(z, vars.insert(v));
    assert forall|k: (int, int)| #![trigger a.contains_key(k)] #![trigger b.contains_key(k)] a.contains_key(k) == b.contains_key(k) && (a.contains_key(k) ==> a[k] == b[k]) by {
        if b.contains_key(k) {
            assert(vars.insert(v).contains(v));
            assert forall|u: u64| #[trigger] vars.contains(u) implies k.0 != node(u) && k.1 != node(u) by {
                assert(vars.insert(v).contains(u));
            }
        }
    }
    assert(a =~= b);
}

/// A zone that keeps the variables `ha` lies in another one that keeps `hb`: the other one has no
/// constraints, or the first has some, keeps as many variables and every one that the other speaks
/// of, and covers every constraint of the other.
pub open spec fn zincluded(a: ZEdges, ha: Set<u64>, b: ZEdges, hb: Set<u64>) -> bool {
    b == ZEdges::empty() || {
        &&& a != ZEdges::empty()
        &&& ha.len() >= hb.len()
        &&& forall|k: u64| #[trigger] touches(b, node(k)) ==> ha.contains(k)
        &&& zsubsumed(a, b)
    }
}

/// A zone lies in what is left of it when variables are forgotten, and so in itself.
pub proof fn inclusion_is_reflexive(z: ZEdges, held: Set<u64>, vars: Set<u64>)
    requires held.finite(), forall|k: u64| #[trigger] touches(z, node(k)) ==> held.contains(k),
    ensures
        zincluded(z, held, zwithout_all(z, vars), held.difference(vars)),
        zincluded(z, held, z, held),
{
    let b = zwithout_all(z, vars);
    vstd::set_lib::lemma_len_subset(held.difference(vars), held);
    assert forall|k: u64| #[trigger] touches(b, node(k)) implies held.contains(k) by {
        let m = choose|m: int| b.contains_key((node(k), m)) || b.contains_key((m, node(k)));
        assert(z.contains_key((node(k), m)) || z.contains_key((m, node(k))));
        assert(touches(z, node(k)));
    }
    if b != ZEdges::empty() {
        if z == ZEdges::empty() { assert(b =~= z); }
    }
}

/// What covers a zone entails it.
pub proof fn covering_entails(l: ZEdges, r: ZEdges)
    requires zsubsumed(l, r),
    ensures zentails(l, r),
{
    assert forall|env: Env| broad(env) && #[trigger] zholds(l, env) implies zholds(r, env) by {
        assert forall|a: int, b: int| #![trigger r.contains_key((a, b))] r.contains_key((a, b)) implies
            node_value(env, b) - node_value(env, a) <= r[(a, b)]@ by {
            assert(zcovers(l, a, b, r[(a, b)]@));
            lemma_broad_nodes(env, a, b);
            if !(l.contains_key((a, b)) && l[(a, b)]@ <= r[(a, b)]@) {
                assert(node_value(env, 0) - node_value(env, a) <= l[(a, 0)]@);
                assert(node_value(env, b) - node_value(env, 0) <= l[(0, b)]@);
            }
        }
    }
}

/// The constraints that both zones have, each at its looser weight.
pub open spec fn zjoin(l: ZEdges, r: ZEdges) -> ZEdges {
    Map::new(|k: (int, int)| l.contains_key(k) && r.contains_key(k), |k: (int, int)| if l[k]@ >= r[k]@ { l[k] } else { r[k] })
}

/// The differences that the bounds of a zone imply where another zone has a difference.
pub open spec fn zdeferred(bounds: ZEdges, rels: ZEdges) -> ZEdges {
    Map::new(
        |k: (int, int)| k.0 != 0 && k.1 != 0 && rels.contains_key(k) && bounds.contains_key((k.0, 0)) && bounds.contains_key((0, k.1)),
        |k: (int, int)| Number::nearest(bounds[(k.0, 0)]@ + bounds[(0, k.1)]@),
    )
}

/// A zone with the differences that its bounds imply for another one.
pub open spec fn spelled_out(l: ZEdges, r: ZEdges) -> ZEdges {
    zmeet(l, zdeferred(l, r))
}

/// The lower bound of a variable and the upper bound of another one move apart between two zones.
pub open spec fn zapart(l: ZEdges, r: ZEdges, s: int, d: int) -> bool {
    &&& s != 0 && d != 0 && s != d
    &&& l.contains_key((s, 0)) && l.contains_key((0, d)) && r.contains_key((s, 0)) && r.contains_key((0, d))
    &&& (l[(s, 0)]@ < r[(s, 0)]@ && r[(0, d)]@ < l[(0, d)]@) || (r[(s, 0)]@ < l[(s, 0)]@ && l[(0, d)]@ < r[(0, d)]@)
}

/// The looser of the differences that the bounds of each zone give.
pub open spec fn zlooser(l: ZEdges, r: ZEdges, s: int, d: int) -> int {
    let a = number::saturate(l[(s, 0)]@ + l[(0, d)]@);
    let b = number::saturate(r[(s, 0)]@ + r[(0, d)]@);
    if a >= b { a } else { b }
}

/// `z` is a join of two zones: either entails it, and its bounds are the looser ones of the two. It
/// keeps what both say of a difference, be it by a constraint or, where the other one has a
/// constraint, by bounds, and what the bounds of both say of a difference where they move apart.
pub open spec fn zjoined(l: ZEdges, r: ZEdges, z: ZEdges) -> bool {
    &&& zentails(l, z)
    &&& zentails(r, z)
    &&& ztight(z, zjoin(l, r))
    &&& forall|n: int| #[trigger] same_bounds(z, zjoin(l, r), n)
    &&& ztight(z, zjoin(spelled_out(l, r), spelled_out(r, l)))
    &&& forall|s: int, d: int| #[trigger] zapart(l, r, s, d) ==> holds_edge(z, s, d, zlooser(l, r, s, d))
    &&& l == ZEdges::empty() || r == ZEdges::empty() ==> z == ZEdges::empty()
}

/// The interval of every variable in a join is the join of its intervals, and the join with a zone
/// that says nothing says nothing.
pub proof fn join_joins_intervals(l: ZEdges, r: ZEdges, z: ZEdges, v: u64)
    requires zjoined(l, r, z), !zinterval(l, v).is_empty_spec(), !zinterval(r, v).is_empty_spec(),
    ensures
        zinterval(z, v) == zinterval(l, v).join_spec(zinterval(r, v)),
        l == ZEdges::empty() || r == ZEdges::empty() ==> z == ZEdges::empty(),
{
    assert(same_bounds(z, zjoin(l, r), node(v)));
}

/// After an assignment the variable has the interval of the expression, without the upper end where
/// the lower bound alone counts, and every other variable has the interval that it had.
pub proof fn assignment_sets_the_interval(z0: ZEdges, lhs: u64, e: &LinearExpression, mo: spec_fn(u64) -> bool, z1: ZEdges, v: u64)
    requires
        assigned(z0, lhs, e, mo, z1),
        exists|x: int| #[trigger] zeval(z0, e).has(x),
        zeval(z0, e).lb != ExtendedNumber::Finite(Number { n: i128::MIN }),
    ensures
        lower(z1, lhs) == zeval(z0, e).lb,
        upper(z1, lhs) == (if mo(lhs) { ExtendedNumber::PlusInfinity } else { zeval(z0, e).ub }),
        !mo(lhs) ==> zinterval(z1, lhs) == zeval(z0, e),
        v != lhs ==> zinterval(z1, v) == zinterval(z0, v),
{
    let put = zput(z0, lhs, zeval(z0, e), mo(lhs));
    assert(same_bounds(z1, put, node(lhs)));
    if v != lhs {
        assert(zwithout(z1, node(lhs)) =~= zwithout(z0, node(lhs)));
        let a = zwithout(z1, node(lhs));
        let b = zwithout(z0, node(lhs));
        assert(a.contains_key((node(v), 0)) == b.contains_key((node(v), 0)));
        assert(a.contains_key((0, node(v))) == b.contains_key((0, node(v))));
        if z0.contains_key((node(v), 0)) { assert(a[(node(v), 0)] == b[(node(v), 0)]); }
        if z0.contains_key((0, node(v))) { assert(a[(0, node(v))] == b[(0, node(v))]); }
    }
}

/// The constraints of the left zone that the right one does not exceed.
pub open spec fn zwiden(l: ZEdges, r: ZEdges) -> ZEdges {
    Map::new(|k: (int, int)| l.contains_key(k) && r.contains_key(k) && r[k]@ <= l[k]@, |k: (int, int)| l[k])
}

/// `z` is a widening of two zones: either entails it, and it says what they say that does not move.
/// The constraints that do not move stand as they are, or their bounds are carried over its
/// differences.
pub open spec fn zwidened(l: ZEdges, r: ZEdges, z: ZEdges) -> bool {
    &&& zentails(l, z)
    &&& zentails(r, z)
    &&& zequiv(z, zwiden(l, r))
    &&& ztight(z, zwiden(l, r))
    &&& z == zwiden(l, r) || zcarried(z, zwiden(l, r))
}

/// The constraints of both zones, each at its tighter weight.
pub open spec fn zmeet(l: ZEdges, r: ZEdges) -> ZEdges {
    Map::new(
        |k: (int, int)| l.contains_key(k) || r.contains_key(k),
        |k: (int, int)| if !r.contains_key(k) || (l.contains_key(k) && l[k]@ <= r[k]@) { l[k] } else { r[k] },
    )
}

/// `z` says what both zones say, has a solution, and is as tight as either zone. Where one of them
/// says nothing it is the other one; else the bounds of both are carried over its differences.
pub open spec fn zmet(l: ZEdges, r: ZEdges, z: ZEdges) -> bool {
    &&& forall|env: Env| broad(env) ==> #[trigger] zholds(z, env) == (zholds(l, env) && zholds(r, env))
    &&& zfeasible(z)
    &&& ztight(z, zmeet(l, r))
    &&& if l == ZEdges::empty() || r == ZEdges::empty() { z == zmeet(l, r) } else { zcarried(z, zmeet(l, r)) }
}

/// No valuation meets both zones.
pub open spec fn zdisjoint(l: ZEdges, r: ZEdges) -> bool {
    forall|env: Env| mild(env) && #[trigger] zholds(l, env) ==> !zholds(r, env)
}

/// The node that stood where `n` stands after `from` was renamed to `to`; -1 for none.
pub open spec fn before_rename(from: u64, to: u64, n: int) -> int {
    if n == node(to) { node(from) } else if n == node(from) { -1 } else { n }
}

/// The zone with a variable renamed; what it said of the new name is dropped.
pub open spec fn zrenamed(z: ZEdges, from: u64, to: u64) -> ZEdges {
    if from == to {
        z
    } else {
        let c = zwithout(z, node(to));
        Map::new(
            |k: (int, int)| c.contains_key((before_rename(from, to, k.0), before_rename(from, to, k.1))) && k.0 != node(from) && k.1 != node(from),
            |k: (int, int)| c[(before_rename(from, to, k.0), before_rename(from, to, k.1))],
        )
    }
}

/// Renamings in turn.
pub open spec fn zrenamed_all(z: ZEdges, pairs: Seq<(Variable, Variable)>, n: nat) -> ZEdges
    decreases n,
{
    if n == 0 { z } else { zrenamed(zrenamed_all(z, pairs, (n - 1) as nat), pairs[n - 1].0.id, pairs[n - 1].1.id) }
}

/// The zone without some variables.
pub open spec fn zforget(z: ZEdges, vars: Seq<Variable>, n: nat) -> ZEdges
    decreases n,
{
    if n == 0 { z } else { zwithout(zforget(z, vars, (n - 1) as nat), node(vars[n - 1].id)) }
}

/// The zone after a renaming is met by the valuation that gives the new name the old one's value.
pub proof fn renaming_is_sound(z: ZEdges, from: u64, to: u64, env: Env)
    requires proper(z), zholds(z, env),
    ensures zholds(zrenamed(z, from, to), env_with(env, to, env(from))),
{
    let next = env_with(env, to, env(from));
    let t = zrenamed(z, from, to);
    if from == to {
        assert forall|a: int, b: int| #![trigger t.contains_key((a, b))] t.contains_key((a, b)) implies node_value(next, b) - node_value(next, a) <= t[(a, b)]@ by {
            assert(z.contains_key((a, b)));
            assert(node_value(env, b) - node_value(env, a) <= z[(a, b)]@);
        }
    } else {
        assert forall|a: int, b: int| #![trigger t.contains_key((a, b))] t.contains_key((a, b)) implies node_value(next, b) - node_value(next, a) <= t[(a, b)]@ by {
            let p = before_rename(from, to, a);
            let q = before_rename(from, to, b);
            assert(z.contains_key((p, q)));
            assert(node_value(env, q) - node_value(env, p) <= z[(p, q)]@);
        }
    }
}

}
