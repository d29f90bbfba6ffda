//! What the numeric operations do to the values of variables.
use vstd::prelude::*;
use vstd::arithmetic::power2::*;
use crate::arith::extended_number::ExtendedNumber;
use crate::arith::linear_constraint::LinearConstraint;
use crate::arith::linear_expression;
use crate::arith::linear_expression::{Env, LinearExpression};
use crate::arith::number;
use crate::arith::number::Number;
use crate::finite_domain;
use crate::branch_laws;
use crate::finite_domain::{FiniteBinOp, Operand};
use crate::interval::{Division, Interval};
use crate::interval_laws;
use crate::numeric_steps;
use crate::numeric_steps::{Lin, Num, Step};
use crate::ord_map;
use crate::register_laws;
use crate::var_registry::RegistryView;
use crate::zone_domain;
use crate::zone_domain::ArithBinOp;
use crate::zone_model;
use crate::zone_model::ZEdges;

verus! {

// ---------------------------------------------------------------------------------------------
// Constraints
// ---------------------------------------------------------------------------------------------

/// A constraint holds of a valuation.
pub open spec fn says(l: Lin, env: Env) -> bool {
    forall|c: LinearConstraint| #![trigger numeric_steps::lin_of(&c)] numeric_steps::lin_of(&c) == l && c.expression.orderly() ==> c.holds(env)
}

/// A constraint does not hold of a valuation.
pub open spec fn denies(l: Lin, env: Env) -> bool {
    forall|c: LinearConstraint| #![trigger numeric_steps::lin_of(&c)] numeric_steps::lin_of(&c) == l && c.expression.orderly() ==> !c.holds(env)
}

/// A constraint on one variable, or on two with opposite signs, with a constant that leaves room.
pub open spec fn simple(l: Lin) -> bool {
    &&& -0x1_0000_0000_0000_0000 <= l.constant <= 0x1_0000_0000_0000_0000
    &&& {
        ||| l.terms == Map::<u64, Number>::empty()
        ||| exists|v: u64, up: bool| l.terms == #[trigger] one_term(v, up)
        ||| exists|v: u64, w: u64| v != w && l.terms == #[trigger] two_terms(v, w)
    }
}

/// A variable with the coefficient one, or minus one.
pub open spec fn one_term(v: u64, up: bool) -> Map<u64, Number> {
    Map::<u64, Number>::empty().insert(v, if up { Number { n: 1 } } else { Number { n: -1i128 } })
}

/// A variable minus another one.
pub open spec fn two_terms(v: u64, w: u64) -> Map<u64, Number> {
    Map::<u64, Number>::empty().insert(v, Number { n: 1 }).insert(w, Number { n: -1i128 })
}

/// The entries of a map of one or two terms.
proof fn lemma_entries(s: Seq<(u64, Number)>, t: Seq<(u64, Number)>, m: Map<u64, Number>)
    requires
        ord_map::sorted_entries(s),
        ord_map::sorted_entries(t),
        ord_map::entries_map(s) == m,
        forall|k: u64| #[trigger] m.contains_key(k) <==> ord_map::has_key(t, k),
        forall|i: int| 0 <= i < t.len() ==> m[(#[trigger] t[i]).0] == t[i].1,
    ensures s == t,
{
    let n = ord_map::entries_map(t);
    assert forall|k: u64| #![trigger n.contains_key(k)] #![trigger m.contains_key(k)] n.contains_key(k) == m.contains_key(k) && (m.contains_key(k) ==> n[k] == m[k]) by {
        if m.contains_key(k) {
            let i = ord_map::lemma_key(t, k);
            ord_map::lemma_entry(t, i);
        }
    }
    assert(n =~= m);
    ord_map::lemma_entries_unique(s, t);
}

pub proof fn lemma_no_terms(e: &LinearExpression, env: Env)
    requires e.orderly(), e.terms@ == Map::<u64, Number>::empty(),
    ensures e.terms.entries().len() == 0, e.eval(env) == e.constant@,
{
    let s = e.terms.entries();
    if s.len() > 0 {
        ord_map::lemma_entry(s, 0);
        assert(e.terms@.contains_key(s[0].0));
    }
}

pub proof fn lemma_one_term(e: &LinearExpression, v: u64, up: bool, env: Env)
    requires e.orderly(), e.terms@ == one_term(v, up),
    ensures
        e.terms.entries() == seq![zone_model::unit_term(v, up)],
        e.eval(env) == e.constant@ + (if up { env(v) } else { -env(v) }),
{
    let t = seq![zone_model::unit_term(v, up)];
    assert(t[0].0 == v);
    assert forall|k: u64| #[trigger] e.terms@.contains_key(k) <==> ord_map::has_key(t, k) by {
        if k == v { assert(t[0].0 == k); }
    }
    lemma_entries(e.terms.entries(), t, e.terms@);
    zone_model::lemma_unit_sum(t, env);
    assert(t.drop_last() =~= Seq::<(u64, Number)>::empty());
}

/// The terms of a difference, in order.
pub open spec fn difference_entries(v: u64, w: u64) -> Seq<(u64, Number)> {
    if v < w { seq![zone_model::unit_term(v, true), zone_model::unit_term(w, false)] } else { seq![zone_model::unit_term(w, false), zone_model::unit_term(v, true)] }
}

pub proof fn lemma_two_terms(e: &LinearExpression, v: u64, w: u64, env: Env)
    requires e.orderly(), v != w, e.terms@ == two_terms(v, w),
    ensures
        e.terms.entries() == difference_entries(v, w),
        e.eval(env) == e.constant@ + env(v) - env(w),
{
    let t = difference_entries(v, w);
    assert(t.len() == 2);
    assert forall|k: u64| #[trigger] e.terms@.contains_key(k) <==> ord_map::has_key(t, k) by {
        if k == v || k == w {
            assert(t[0].0 == k || t[1].0 == k);
        }
    }
    lemma_entries(e.terms.entries(), t, e.terms@);
    zone_model::lemma_unit_sum(t, env);
    zone_model::lemma_unit_sum(t.drop_last(), env);
    assert(t.drop_last().drop_last() =~= Seq::<(u64, Number)>::empty());
}

pub proof fn lemma_both_terms(e: &LinearExpression, v: u64, w: u64, env: Env)
    requires e.orderly(), v != w, e.terms@ == Map::<u64, Number>::empty().insert(v, Number { n: 1 }).insert(w, Number { n: 1 }),
    ensures
        e.terms.entries() == (if v < w { seq![zone_model::unit_term(v, true), zone_model::unit_term(w, true)] } else { seq![zone_model::unit_term(w, true), zone_model::unit_term(v, true)] }),
        e.eval(env) == e.constant@ + env(v) + env(w),
{
    let t = if v < w { seq![zone_model::unit_term(v, true), zone_model::unit_term(w, true)] } else { seq![zone_model::unit_term(w, true), zone_model::unit_term(v, true)] };
    assert(t.len() == 2);
    assert forall|k: u64| #[trigger] e.terms@.contains_key(k) <==> ord_map::has_key(t, k) by {
        if k == v || k == w {
            assert(t[0].0 == k || t[1].0 == k);
        }
    }
    lemma_entries(e.terms.entries(), t, e.terms@);
    zone_model::lemma_unit_sum(t, env);
    zone_model::lemma_unit_sum(t.drop_last(), env);
    assert(t.drop_last().drop_last() =~= Seq::<(u64, Number)>::empty());
}

/// A bound on a variable.
pub proof fn lemma_bound(l: Lin, v: u64, n: int, up: bool, env: Env)
    requires
        -0x1_0000_0000_0000_0000 <= n <= 0x1_0000_0000_0000_0000,
        l.terms == (if up { numeric_steps::minus(numeric_steps::just_var(v), numeric_steps::just_num(n)) } else { numeric_steps::minus(numeric_steps::just_num(n), numeric_steps::just_var(v)) }).terms,
        l.constant == (if up { numeric_steps::minus(numeric_steps::just_var(v), numeric_steps::just_num(n)) } else { numeric_steps::minus(numeric_steps::just_num(n), numeric_steps::just_var(v)) }).constant,
    ensures
        l.terms == one_term(v, up),
        l.constant == (if up { -n } else { n }),
        simple(l),
        forall|c: LinearConstraint| #![trigger numeric_steps::lin_of(&c)] numeric_steps::lin_of(&c) == l && c.expression.orderly() ==>
            c.expression.eval(env) == (if up { env(v) - n } else { n - env(v) }),
{
    assert(l.terms =~= one_term(v, up));
    assert forall|c: LinearConstraint| #![trigger numeric_steps::lin_of(&c)] numeric_steps::lin_of(&c) == l && c.expression.orderly() implies
        c.expression.eval(env) == (if up { env(v) - n } else { n - env(v) }) by {
        lemma_one_term(&c.expression, v, up, env);
    }
}

/// A bound on a difference.
pub proof fn lemma_difference(l: Lin, v: u64, w: u64, env: Env)
    requires
        l.terms == numeric_steps::minus(numeric_steps::just_var(v), numeric_steps::just_var(w)).terms,
        l.constant == numeric_steps::minus(numeric_steps::just_var(v), numeric_steps::just_var(w)).constant,
    ensures
        v != w ==> l.terms == two_terms(v, w),
        v == w ==> l.terms == Map::<u64, Number>::empty(),
        l.constant == 0,
        simple(l),
        forall|c: LinearConstraint| #![trigger numeric_steps::lin_of(&c)] numeric_steps::lin_of(&c) == l && c.expression.orderly() ==>
            c.expression.eval(env) == env(v) - env(w),
{
    if v != w {
        assert(l.terms =~= two_terms(v, w));
    } else {
        assert(l.terms =~= Map::<u64, Number>::empty());
    }
    assert forall|c: LinearConstraint| #![trigger numeric_steps::lin_of(&c)] numeric_steps::lin_of(&c) == l && c.expression.orderly() implies
        c.expression.eval(env) == env(v) - env(w) by {
        if v != w { lemma_two_terms(&c.expression, v, w, env); } else { lemma_no_terms(&c.expression, env); }
    }
}

/// The terms of a simple constraint are units.
pub proof fn lemma_simple(c: &LinearConstraint)
    requires simple(numeric_steps::lin_of(c)), c.expression.orderly(),
    ensures
        zone_domain::exact_constraint(c),
        interval_laws::tame(&c.expression),
        c.expression.terms.entries().len() <= 2,
        forall|i: int| 0 <= i < c.expression.terms.entries().len() ==> (#[trigger] c.expression.terms.entries()[i]).1@ == 1 || c.expression.terms.entries()[i].1@ == -1,
{
    let e = &c.expression;
    let env: Env = |k: u64| 0;
    let s = e.terms.entries();
    if e.terms@ == Map::<u64, Number>::empty() {
        lemma_no_terms(e, env);
    } else if exists|v: u64, up: bool| e.terms@ == #[trigger] one_term(v, up) {
        let (v, up) = choose|v: u64, up: bool| e.terms@ == #[trigger] one_term(v, up);
        lemma_one_term(e, v, up, env);
    } else {
        let (v, w) = choose|v: u64, w: u64| v != w && e.terms@ == #[trigger] two_terms(v, w);
        lemma_two_terms(e, v, w, env);
    }
    assert forall|k: u64| i128::MIN < #[trigger] e.coeff(k) by {
        if e.terms@.contains_key(k) {
            let i = ord_map::lemma_key(s, k);
            assert(s[i].1@ == 1 || s[i].1@ == -1);
        }
    }
}

// ---------------------------------------------------------------------------------------------
// Disequations
// ---------------------------------------------------------------------------------------------

/// The opposite of the constant and the first terms but one variable's.
spec fn rest_value(c: int, s: Seq<(u64, Number)>, pivot: u64, n: nat, env: Env) -> int
    decreases n,
{
    if n == 0 { -c } else { rest_value(c, s, pivot, (n - 1) as nat, env) - (if s[n - 1].0 == pivot { 0 } else { s[n - 1].1@ * env(s[n - 1].0) }) }
}

proof fn lemma_residual(z: ZEdges, e: &LinearExpression, pivot: u64, n: nat, env: Env)
    requires
        interval_laws::tame(e),
        interval_laws::modest(env),
        zone_model::zholds(z, env),
        zone_model::mild(env),
        n <= e.terms.entries().len(),
        n <= 2,
    ensures
        zone_domain::residual_prefix(z, e.constant, e.terms.entries(), pivot, n).has(rest_value(e.constant@, e.terms.entries(), pivot, n, env)),
        -0x1_0000_0000_0000_0000_0000_0000 * (n + 1) <= rest_value(e.constant@, e.terms.entries(), pivot, n, env) <= 0x1_0000_0000_0000_0000_0000_0000 * (n + 1),
    decreases n,
{
    let s = e.terms.entries();
    if n > 0 {
        lemma_residual(z, e, pivot, (n - 1) as nat, env);
        let (v, k) = s[n - 1];
        let x = env(v);
        let c = k@;
        assert(-0x1_0000 <= c <= 0x1_0000);
        zone_model::interval_is_sound(z, v, env);
        assert(-interval_laws::MODEST <= x <= interval_laws::MODEST);
        assert(-0x1_0000_0000_0000_0000_0000_0000 <= c * x <= 0x1_0000_0000_0000_0000_0000_0000) by (nonlinear_arith)
            requires -0x1_0000 <= c <= 0x1_0000, -0x1_0000_0000_0000_0000_0000 <= x <= 0x1_0000_0000_0000_0000_0000;
        interval_laws::multiplication_is_sound(Interval::point(k), zone_model::zinterval(z, v), c, x);
        interval_laws::subtraction_is_sound(zone_domain::residual_prefix(z, e.constant, s, pivot, (n - 1) as nat),
            Interval::point(k).mul_spec(zone_model::zinterval(z, v)), rest_value(e.constant@, s, pivot, (n - 1) as nat, env), c * x);
    }
}

/// The value that a disequation with unit coefficients excludes is not the variable's.
proof fn lemma_excluded(z: ZEdges, e: &LinearExpression, i: int, k: Number, env: Env)
    requires
        interval_laws::tame(e),
        e.orderly(),
        e.terms.entries().len() <= 2,
        0 <= i < e.terms.entries().len(),
        e.terms.entries()[i].1@ == 1 || e.terms.entries()[i].1@ == -1,
        interval_laws::modest(env),
        zone_model::zholds(z, env),
        zone_domain::excluded_value(e)(z, i) == Some(k),
        e.eval(env) != 0,
    ensures env(e.terms.entries()[i].0) != k@,
{
    let s = e.terms.entries();
    let n = s.len();
    let pivot = s[i].0;
    let a = s[i].1@;
    lemma_modest(env);
    lemma_residual(z, e, pivot, n, env);
    let rest = rest_value(e.constant@, s, pivot, n, env);
    let iv = zone_domain::residual(z, e, pivot);
    // The rest of the expression is the opposite of the pivot's term, up to the value of the whole.
    assert(e.eval(env) == a * env(pivot) - rest) by {
        reveal_with_fuel(rest_value, 4);
        if n == 1 {
            assert(linear_expression::terms_value(s, env) == linear_expression::terms_value(s.drop_last(), env) + s[0].1@ * env(s[0].0));
            assert(s.drop_last().len() == 0);
        } else {
            let t = s.drop_last();
            assert(linear_expression::terms_value(s, env) == linear_expression::terms_value(t, env) + s[1].1@ * env(s[1].0));
            assert(linear_expression::terms_value(t, env) == linear_expression::terms_value(t.drop_last(), env) + t[0].1@ * env(t[0].0));
            assert(s[0].0 < s[1].0);
        }
    }
    let d = Interval::point(s[i].1);
    let q = iv.divide_spec(Division::General, d);
    assert(q.singleton_spec() == Some(k));
    assert(d.constant_divisor(Division::General) == Some(s[i].1));
    assert(q == iv.div_const_spec(Division::General, s[i].1));
    if a == 1 {
        assert(rest == k@);
        assert(a * env(pivot) == env(pivot)) by (nonlinear_arith) requires a == 1;
    } else {
        lemma_over_minus_one(iv, rest, k);
        assert(a * env(pivot) == -env(pivot)) by (nonlinear_arith) requires a == -1;
    }
}

proof fn lemma_over_minus_one(iv: Interval, rest: int, k: Number)
    requires
        iv.has(rest),
        -0x4_0000_0000_0000_0000_0000_0000 <= rest <= 0x4_0000_0000_0000_0000_0000_0000,
        iv.div_const_spec(Division::General, Number { n: -1i128 }).singleton_spec() == Some(k),
    ensures rest == -k@,
{
    use_opposites(iv);
}

/// Division by minus one turns the ends round.
proof fn use_opposites(iv: Interval)
    ensures
        iv.lb matches ExtendedNumber::Finite(n) ==> number::trunc_div(n@, -1) == -n@,
        iv.ub matches ExtendedNumber::Finite(n) ==> number::trunc_div(n@, -1) == -n@,
{
    if let ExtendedNumber::Finite(n) = iv.lb {
        assert(n@ / 1 == n@ && -n@ / 1 == -n@);
    }
    if let ExtendedNumber::Finite(n) = iv.ub {
        assert(n@ / 1 == n@ && -n@ / 1 == -n@);
    }
}

proof fn lemma_disequated(zs: Seq<ZEdges>, e: &LinearExpression, mo: spec_fn(u64) -> bool, n: int, env: Env)
    requires
        interval_laws::tame(e),
        e.orderly(),
        e.terms.entries().len() <= 2,
        forall|i: int| 0 <= i < e.terms.entries().len() ==> (#[trigger] e.terms.entries()[i]).1@ == 1 || e.terms.entries()[i].1@ == -1,
        zs.len() <= e.terms.entries().len() + 1,
        zone_model::disequation_path(zs, zone_domain::excluded_value(e), e.terms.entries(), mo),
        0 <= n < zs.len(),
        interval_laws::modest(env),
        zone_model::zholds(zs[0], env),
        zone_model::proper(zs[0]),
        e.eval(env) != 0,
    ensures zone_model::zholds(zs[n], env), zone_model::proper(zs[n]),
    decreases n,
{
    if n > 0 {
        lemma_disequated(zs, e, mo, n - 1, env);
        lemma_modest(env);
        let i = n - 1;
        let s = e.terms.entries();
        assert(zone_model::disequation_step(zs[i], zone_domain::excluded_value(e), s, mo, i, zs[i + 1]));
        assert(s[i].1@ == 1 || s[i].1@ == -1);
        if let Some(k) = zone_domain::excluded_value(e)(zs[i], i) {
            lemma_excluded(zs[i], e, i, k, env);
        }
    }
}

pub proof fn lemma_modest(env: Env)
    requires interval_laws::modest(env),
    ensures zone_model::mild(env),
{
    assert forall|j: u64, k: u64| #![trigger env(j), env(k)] env(j) - env(k) <= crate::splitdbm::constraints::REACH by {
        assert(-interval_laws::MODEST <= env(j) <= interval_laws::MODEST);
    }
}

/// A simple constraint that holds of a valuation keeps it.
pub proof fn simple_constraints_are_sound(x: ZEdges, c: &LinearConstraint, mo: spec_fn(u64) -> bool, y: ZEdges, env: Env)
    requires
        zone_domain::constraint_added(x, c, mo, y),
        simple(numeric_steps::lin_of(c)),
        c.expression.orderly(),
        c.holds(env),
        interval_laws::modest(env),
        zone_model::proper(x),
        zone_model::zholds(x, env),
    ensures zone_model::zholds(y, env), zone_model::proper(y),
{
    lemma_modest(env);
    lemma_simple(c);
    if !c.is_tautology_spec() {
        if c.kind is NotZero {
            let e = &c.expression;
            let s = e.terms.entries();
            let zs = choose|zs: Seq<ZEdges>| zs.len() == s.len() + 1 && zs[0] == x && zs[s.len() as int] == y
                && #[trigger] zone_model::disequation_path(zs, zone_domain::excluded_value(e), s, mo);
            lemma_disequated(zs, e, mo, s.len() as int, env);
        } else {
            zone_domain::constraints_are_sound(x, c, mo, y, env);
        }
    }
}

/// A simple constraint that is refused holds of no valuation.
pub proof fn simple_refusals_are_sound(x: ZEdges, c: &LinearConstraint, mo: spec_fn(u64) -> bool, env: Env)
    requires
        zone_domain::constraint_refuted(x, c, mo),
        simple(numeric_steps::lin_of(c)),
        c.expression.orderly(),
        interval_laws::modest(env),
        zone_model::proper(x),
        zone_model::zholds(x, env),
    ensures !c.holds(env),
{
    lemma_modest(env);
    lemma_simple(c);
    let e = &c.expression;
    let s = e.terms.entries();
    if c.kind is NotZero && !c.is_contradiction_spec() && c.holds(env) {
        let (n, mid) = choose|n: nat, mid: ZEdges| n < s.len() && #[trigger] zone_model::disequated(x, zone_domain::excluded_value(e), s, mo, n, mid)
            && zone_domain::excluded_value(e)(mid, n as int) is Some && zone_model::value_forced(mid, s[n as int].0, zone_domain::excluded_value(e)(mid, n as int)->Some_0);
        let zs = choose|zs: Seq<ZEdges>| zs.len() == n + 1 && zs[0] == x && zs[n as int] == mid
            && #[trigger] zone_model::disequation_path(zs, zone_domain::excluded_value(e), s, mo);
        lemma_disequated(zs, e, mo, n as int, env);
        assert(s[n as int].1@ == 1 || s[n as int].1@ == -1);
        lemma_excluded(mid, e, n as int, zone_domain::excluded_value(e)(mid, n as int)->Some_0, env);
    } else if c.is_contradiction_spec() {
        assert(s.len() == 0);
    } else if !(c.kind is NotZero) {
        zone_domain::refusals_are_sound(x, c, mo, env);
    }
}

// ---------------------------------------------------------------------------------------------
// Operations
// ---------------------------------------------------------------------------------------------

/// The sum of a value and an operand, or their difference.
pub open spec fn combined_value(op: ArithBinOp, x: int, y: int) -> int {
    if op is ADD { x + y } else { x - y }
}

/// What an operation makes of the values of the variables: which valuations may follow a valuation.
pub open spec fn moves(op: Step, e: Env, f: Env) -> bool {
    match op {
        Step::Forget(v) => f == zone_model::env_with(e, v, f(v)),
        Step::Copy(v, w) => f == zone_model::env_with(e, v, e(w)),
        Step::Assign(v, x) => f == zone_model::env_with(e, v, x.eval(e)) && interval_laws::tame(&x),
        Step::Put(v, iv) => f == zone_model::env_with(e, v, f(v)) && iv.has(f(v)),
        Step::Say(l) => f == e && simple(l) && says(l, e),
        Step::Plain(FiniteBinOp::Arith(a), v, w, o, _) => !(a is MUL) && f == zone_model::env_with(e, v, combined_value(a, e(w), register_laws::operand_value(o, e))),
        Step::Signed(FiniteBinOp::Arith(a), s, u, v, o, width) => !(a is MUL) && {
            let x = combined_value(a, e(v), register_laws::operand_value(o, e));
            if width == 0 { f == zone_model::env_with(e, s, x) } else { (width == 32 || width == 64) && s != u && f == register_laws::with_register(e, s, u, x, width) }
        },
        Step::Unsigned(FiniteBinOp::Arith(a), s, u, v, o, width) => !(a is MUL) && (width == 32 || width == 64) && s != u
            && f == register_laws::with_register(e, s, u, combined_value(a, e(v), register_laws::operand_value(o, e)), width),
        Step::Overflow(FiniteBinOp::Arith(a), s, u, o, width) => !(a is MUL) && (width == 32 || width == 64) && s != u && branch_laws::readings(e(s), e(u))
            && f == register_laws::with_register(e, s, u, combined_value(a, e(s), register_laws::operand_value(o, e)), width),
        Step::WrapOne(v, width, signed) => (width == 32 || width == 64) && f == zone_model::env_with(e, v, register_laws::wrapped(e(v), width, signed)),
        Step::Wrap(s, u, width) => (width == 32 || width == 64) && s != u && f == zone_model::env_with(zone_model::env_with(e, s, register_laws::wrapped(e(s), width, true)), u,
            register_laws::wrapped(e(u), width, false)),
        _ => false,
    }
}

proof fn lemma_change(e: Env, v: u64, x: int)
    requires interval_laws::modest(e), interval_laws::modest(zone_model::env_with(e, v, x)),
    ensures zone_model::mild_change(e, v, x), -interval_laws::MODEST <= x <= interval_laws::MODEST,
{
    lemma_modest(zone_model::env_with(e, v, x));
    let f = zone_model::env_with(e, v, x);
    assert(f(v) == x);
    assert(-interval_laws::MODEST <= f(v) <= interval_laws::MODEST);
    assert(-interval_laws::MODEST <= e(v) <= interval_laws::MODEST);
}

/// An assignment keeps a valuation with the new value.
proof fn lemma_assigned(x: ZEdges, v: u64, t: &LinearExpression, mo: spec_fn(u64) -> bool, y: ZEdges, e: Env)
    requires
        zone_model::assigned(x, v, t, mo, y),
        interval_laws::tame(t),
        zone_model::proper(x),
        zone_model::zholds(x, e),
        interval_laws::modest(e),
        interval_laws::modest(zone_model::env_with(e, v, t.eval(e))),
    ensures zone_model::zholds(y, zone_model::env_with(e, v, t.eval(e))), zone_model::proper(y),
{
    lemma_modest(e);
    lemma_change(e, v, t.eval(e));
    interval_laws::evaluation_is_sound(x, t, e);
    zone_model::assigning_is_sound(x, v, t, mo, y, e);
}

/// A sum or a difference.
proof fn lemma_applied(x: ZEdges, r: RegistryView, a: ArithBinOp, v: u64, w: u64, o: Operand, width: int, y: ZEdges, e: Env)
    requires
        finite_domain::applied(x, r, FiniteBinOp::Arith(a), v, w, o, width, y),
        !(a is MUL),
        o matches Operand::Num(n) ==> -0x1_0000_0000_0000_0000_0000 <= n@ <= 0x1_0000_0000_0000_0000_0000,
        zone_model::proper(x),
        zone_model::zholds(x, e),
        interval_laws::modest(e),
        interval_laws::modest(zone_model::env_with(e, v, combined_value(a, e(w), register_laws::operand_value(o, e)))),
    ensures
        zone_model::zholds(y, zone_model::env_with(e, v, combined_value(a, e(w), register_laws::operand_value(o, e)))),
        zone_model::proper(y),
{
    let sign: int = if a is ADD { 1 } else { -1 };
    let t = choose|t: LinearExpression| finite_domain::is_sum(&t, w, sign, o) && #[trigger] zone_model::assigned(x, v, &t, zone_domain::min_only_of(r), y);
    assert(t.eval(e) == combined_value(a, e(w), register_laws::operand_value(o, e))) by {
        match o {
            Operand::Var(k) => { assert(t.eval(e) == e(w) + sign * e(k)); },
            Operand::Num(n) => { assert(t.eval(e) == e(w) + sign * n@); },
        }
    }
    assert(interval_laws::tame(&t));
    lemma_assigned(x, v, &t, zone_domain::min_only_of(r), y, e);
}

/// Constraints stay between nodes.
proof fn lemma_mirrored_proper(x: ZEdges, r: RegistryView, from: u64, to: u64, s: u64, u: u64, width: int, y: ZEdges)
    requires finite_domain::mirrored(x, r, from, to, s, u, width, y), zone_model::proper(x),
    ensures zone_model::proper(y),
{
    let mo = zone_domain::min_only_of(r);
    let mid = choose|mid: ZEdges| #[trigger] zone_domain::variable_assigned(x, to, from, mo, mid) && y == finite_domain::zoverflow_pair(mid, r, s, u, width);
    let t = choose|t: LinearExpression| zone_domain::is_variable(&t, from) && #[trigger] zone_model::assigned(x, to, &t, mo, mid);
    assert(zone_model::proper(mid));
}

/// A sum or a difference of registers.
proof fn lemma_register_sum(x: ZEdges, r: RegistryView, is_signed: bool, a: ArithBinOp, s: u64, u: u64, v: u64, o: Operand, width: int, y: ZEdges, e: Env)
    requires
        if is_signed { finite_domain::signed_applied(x, r, FiniteBinOp::Arith(a), s, u, v, o, width, y) } else { finite_domain::unsigned_applied(x, r, FiniteBinOp::Arith(a), s, u, v, o, width, y) },
        !(a is MUL),
        width == 32 || width == 64,
        s != u,
        -interval_laws::MODEST <= register_laws::operand_value(o, e) <= interval_laws::MODEST,
        zone_model::proper(x),
        zone_model::zholds(x, e),
        interval_laws::modest(e),
    ensures
        zone_model::zholds(y, register_laws::with_register(e, s, u, combined_value(a, e(v), register_laws::operand_value(o, e)), width)),
        zone_model::proper(y),
{
    let op = FiniteBinOp::Arith(a);
    if is_signed {
        register_laws::register_sums_are_sound(x, r, a is ADD, s, u, v, o, width, y, e);
        let mid = choose|mid: ZEdges| #[trigger] finite_domain::applied(x, r, op, s, v, o, width, mid) && finite_domain::mirrored(mid, r, s, u, s, u, width, y);
        lemma_sum_proper(x, r, a, s, v, o, width, mid);
        lemma_mirrored_proper(mid, r, s, u, s, u, width, y);
    } else {
        register_laws::register_raw_sums_are_sound(x, r, a is ADD, s, u, v, o, width, y, e);
        let mid = choose|mid: ZEdges| #[trigger] finite_domain::applied(x, r, op, u, v, o, width, mid) && finite_domain::mirrored(mid, r, u, s, s, u, width, y);
        lemma_sum_proper(x, r, a, u, v, o, width, mid);
        lemma_mirrored_proper(mid, r, u, s, s, u, width, y);
    }
}

proof fn lemma_sum_proper(x: ZEdges, r: RegistryView, a: ArithBinOp, v: u64, w: u64, o: Operand, width: int, y: ZEdges)
    requires finite_domain::applied(x, r, FiniteBinOp::Arith(a), v, w, o, width, y), !(a is MUL), zone_model::proper(x),
    ensures zone_model::proper(y),
{
    let sign: int = if a is ADD { 1 } else { -1 };
    let t = choose|t: LinearExpression| finite_domain::is_sum(&t, w, sign, o) && #[trigger] zone_model::assigned(x, v, &t, zone_domain::min_only_of(r), y);
}

proof fn lemma_applied_proper(x: ZEdges, r: RegistryView, f: FiniteBinOp, v: u64, w: u64, o: Operand, width: int, y: ZEdges)
    requires finite_domain::applied(x, r, f, v, w, o, width, y), zone_model::proper(x),
    ensures zone_model::proper(y),
{
    if let FiniteBinOp::Arith(a) = f {
        if !(a is MUL) { lemma_sum_proper(x, r, a, v, w, o, width, y); }
    }
}

proof fn lemma_pair_proper(x: ZEdges, r: RegistryView, is_signed: bool, f: FiniteBinOp, s: u64, u: u64, v: u64, o: Operand, width: int, y: ZEdges)
    requires
        if is_signed { finite_domain::signed_applied(x, r, f, s, u, v, o, width, y) } else { finite_domain::unsigned_applied(x, r, f, s, u, v, o, width, y) },
        zone_model::proper(x),
    ensures zone_model::proper(y),
{
    let (from, to) = if is_signed { (s, u) } else { (u, s) };
    let mid = choose|mid: ZEdges| #[trigger] finite_domain::applied(x, r, f, from, v, o, width, mid)
        && if width == 0 { y == mid } else { finite_domain::mirrored(mid, r, from, to, s, u, width, y) };
    lemma_applied_proper(x, r, f, from, v, o, width, mid);
    if width != 0 { lemma_mirrored_proper(mid, r, from, to, s, u, width, y); }
}

/// Operations on a register leave constraints between nodes.
pub proof fn lemma_register_proper(a: Num, r: RegistryView, op: Step, b: Num)
    requires
        numeric_steps::step(a, r, op, b),
        a is Some,
        b is Some,
        zone_model::proper(a->Some_0),
        op is Signed || op is Unsigned || op is Mask || op is Shl || op is Lshr || op is Ashr || op is Extend,
    ensures zone_model::proper(b->Some_0),
{
    reveal(numeric_steps::step);
    let x = a->Some_0;
    let y = b->Some_0;
    match op {
        Step::Signed(f, s, u, w, o, width) => { lemma_pair_proper(x, r, true, f, s, u, w, o, width, y); },
        Step::Unsigned(f, s, u, w, o, width) => { lemma_pair_proper(x, r, false, f, s, u, w, o, width, y); },
        Step::Mask(s, u, n) => {
            if y != x { lemma_pair_proper(x, r, false, FiniteBinOp::Bitwise(finite_domain::BitwiseBinOp::AND), s, u, u, Operand::Num(n), 64, y); }
        },
        Step::Shl(s, u, imm, w) => {
            match finite_domain::shl_interval(zone_model::zinterval(x, u), imm, w) {
                None => { lemma_pair_proper(x, r, false, FiniteBinOp::Bitwise(finite_domain::BitwiseBinOp::SHL), s, u, u, Operand::Num(Number { n: imm as i128 }), 64, y); },
                Some(iv) => { lemma_mirrored_proper(zone_model::zput(x, u, iv, r.metas[u as int].is_min_only), r, u, s, s, u, w, y); },
            }
        },
        Step::Lshr(s, u, imm, w) => {
            let iv = finite_domain::lshr_interval(zone_model::zinterval(x, u), imm, w);
            lemma_mirrored_proper(zone_model::zput(x, u, iv, r.metas[u as int].is_min_only), r, u, s, s, u, w, y);
        },
        Step::Ashr(s, u, e, w) => {
            let sp = finite_domain::signed_split(x, w == 64, s, u, zone_model::zeval(x, &e));
            if let Some(n) = sp.right.singleton_spec() {
                let iv = finite_domain::ashr_interval(sp.left, number::wrap_signed(n@, 64) % w, w);
                lemma_mirrored_proper(zone_model::zput(x, s, iv, r.metas[s as int].is_min_only), r, s, u, s, u, w, y);
            }
        },
        Step::Extend(s, u, e, target, source) => {
            let iv = zone_model::zeval(x, &e).sign_extend_spec(source);
            lemma_mirrored_proper(zone_model::zput(x, s, iv, r.metas[s as int].is_min_only), r, s, u, s, u, target, y);
        },
        _ => {},
    }
}

/// The readings of a register differ by a multiple of two to the sixty-four, so sums wrap alike.
proof fn lemma_wrapped_alike(x: int, width: int)
    requires width == 32 || width == 64,
    ensures
        register_laws::wrapped(x + 0x1_0000_0000_0000_0000, width, true) == register_laws::wrapped(x, width, true),
        register_laws::wrapped(x + 0x1_0000_0000_0000_0000, width, false) == register_laws::wrapped(x, width, false),
{
    lemma2_to64();
    lemma2_to64_rest();
    let m = pow2(width as nat) as int;
    let k: int = if width == 64 { 1 } else { 0x1_0000_0000 };
    assert(0x1_0000_0000_0000_0000 == k * m);
    vstd::arithmetic::div_mod::lemma_mod_multiples_vanish(k, x, m);
    assert(m * k == k * m) by (nonlinear_arith);
}

/// Operands that are numbers leave room.
pub open spec fn operand_fits(op: Step) -> bool {
    let o = match op {
        Step::Plain(_, _, _, o, _) => o,
        Step::Signed(_, _, _, _, o, _) => o,
        Step::Unsigned(_, _, _, _, o, _) => o,
        Step::Overflow(_, _, _, o, _) => o,
        _ => Operand::Num(Number { n: 0 }),
    };
    o matches Operand::Num(n) ==> -interval_laws::MODEST <= n@ <= interval_laws::MODEST
}

/// An operation is sound: it keeps what a valuation becomes.
pub proof fn operation_is_sound(a: Num, r: RegistryView, op: Step, b: Num, e: Env, f: Env)
    requires
        numeric_steps::step(a, r, op, b),
        a is Some,
        zone_model::proper(a->Some_0),
        zone_model::zholds(a->Some_0, e),
        interval_laws::modest(e),
        interval_laws::modest(f),
        operand_fits(op),
        moves(op, e, f),
    ensures b is Some, zone_model::proper(b->Some_0), zone_model::zholds(b->Some_0, f),
{
    reveal(numeric_steps::step);
    let x = a->Some_0;
    let mo = zone_domain::min_only_of(r);
    lemma_modest(e);
    lemma_modest(f);
    match op {
        Step::Forget(v) => {
            zone_model::forgetting_is_sound(x, v, e, f(v));
        },
        Step::Copy(v, w) => {
            let t = choose|t: LinearExpression| zone_domain::is_variable(&t, w) && #[trigger] zone_model::assigned(x, v, &t, mo, b->Some_0);
            assert(t.eval(e) == e(w));
            lemma_assigned(x, v, &t, mo, b->Some_0, e);
        },
        Step::Assign(v, t) => {
            lemma_assigned(x, v, &t, mo, b->Some_0, e);
        },
        Step::Put(v, iv) => {
            zone_model::putting_is_sound(x, v, iv, r.metas[v as int].is_min_only, e, f(v));
        },
        Step::Say(l) => {
            if b is None {
                let c = choose|c: LinearConstraint| l == #[trigger] numeric_steps::lin_of(&c) && c.expression.orderly()
                    && zone_domain::constraint_refuted(x, &c, mo) && !c.is_tautology_spec();
                simple_refusals_are_sound(x, &c, mo, e);
            } else {
                let c = choose|c: LinearConstraint| l == #[trigger] numeric_steps::lin_of(&c) && c.expression.orderly()
                    && zone_domain::constraint_added(x, &c, mo, b->Some_0) && !c.is_contradiction_spec();
                simple_constraints_are_sound(x, &c, mo, b->Some_0, e);
            }
        },
        Step::Plain(FiniteBinOp::Arith(k), v, w, o, width) => {
            lemma_applied(x, r, k, v, w, o, width, b->Some_0, e);
        },
        Step::Signed(FiniteBinOp::Arith(k), s, u, v, o, width) => {
            lemma_operand(o, e);
            if width == 0 {
                let mid = choose|mid: ZEdges| #[trigger] finite_domain::applied(x, r, FiniteBinOp::Arith(k), s, v, o, width, mid) && b->Some_0 == mid;
                lemma_applied(x, r, k, s, v, o, width, b->Some_0, e);
            } else {
                lemma_register_sum(x, r, true, k, s, u, v, o, width, b->Some_0, e);
            }
        },
        Step::Unsigned(FiniteBinOp::Arith(k), s, u, v, o, width) => {
            lemma_operand(o, e);
            lemma_register_sum(x, r, false, k, s, u, v, o, width, b->Some_0, e);
        },
        Step::Overflow(FiniteBinOp::Arith(k), s, u, o, width) => {
            lemma_operand(o, e);
            let v = if zone_model::zinterval(x, s).is_top_spec() { u } else { s };
            lemma_register_sum(x, r, true, k, s, u, v, o, width, b->Some_0, e);
            lemma_wrapped_alike(combined_value(k, e(s), register_laws::operand_value(o, e)), width);
            assert(register_laws::with_register(e, s, u, combined_value(k, e(v), register_laws::operand_value(o, e)), width) =~= f);
        },
        Step::WrapOne(v, width, signed) => {
            lemma_change(e, v, register_laws::wrapped(e(v), width, signed));
            register_laws::wrapping_is_sound(x, v, width, signed, r.metas[v as int].is_min_only, e);
        },
        Step::Wrap(s, u, width) => {
            let g = zone_model::env_with(e, s, register_laws::wrapped(e(s), width, true));
            assert(interval_laws::modest(g)) by {
                assert forall|k: u64| -interval_laws::MODEST <= #[trigger] g(k) <= interval_laws::MODEST by {
                    assert(-interval_laws::MODEST <= f(k) <= interval_laws::MODEST && -interval_laws::MODEST <= e(k) <= interval_laws::MODEST);
                }
            }
            let half = finite_domain::zoverflow(x, s, width, true, r.metas[s as int].is_min_only);
            lemma_modest(g);
            lemma_change(e, s, register_laws::wrapped(e(s), width, true));
            register_laws::wrapping_is_sound(x, s, width, true, r.metas[s as int].is_min_only, e);
            assert(g(u) == e(u));
            lemma_change(g, u, register_laws::wrapped(e(u), width, false));
            assert(zone_model::proper(half));
            register_laws::wrapping_is_sound(half, u, width, false, r.metas[u as int].is_min_only, g);
        },
        _ => {},
    }
}

proof fn lemma_operand(o: Operand, e: Env)
    requires interval_laws::modest(e), o matches Operand::Num(n) ==> -interval_laws::MODEST <= n@ <= interval_laws::MODEST,
    ensures -interval_laws::MODEST <= register_laws::operand_value(o, e) <= interval_laws::MODEST,
{
    if let Operand::Var(k) = o { assert(-interval_laws::MODEST <= e(k) <= interval_laws::MODEST); }
}

/// The operations lead from one valuation to another.
pub open spec fn reaches(ops: Seq<Step>, e: Env, f: Env) -> bool {
    exists|path: Seq<Env>| path.len() == ops.len() + 1 && path[0] == e && path[ops.len() as int] == f && #[trigger] is_course(ops, path)
}

/// Each valuation follows from the one before.
pub open spec fn is_course(ops: Seq<Step>, path: Seq<Env>) -> bool {
    &&& forall|i: int| 0 <= i < path.len() ==> interval_laws::modest(#[trigger] path[i])
    &&& forall|i: int| 0 <= i < ops.len() ==> #[trigger] course_step(ops, path, i)
}

pub open spec fn course_step(ops: Seq<Step>, path: Seq<Env>, i: int) -> bool {
    operand_fits(ops[i]) && moves(ops[i], path[i], path[i + 1])
}

pub proof fn reaches_nothing(e: Env)
    requires interval_laws::modest(e),
    ensures reaches(seq![], e, e),
{
    assert(is_course(seq![], seq![e]));
}

pub proof fn reaches_next(ops: Seq<Step>, e: Env, f: Env, op: Step, g: Env)
    requires reaches(ops, e, f), moves(op, f, g), operand_fits(op), interval_laws::modest(g),
    ensures reaches(ops.push(op), e, g),
{
    let path = choose|path: Seq<Env>| path.len() == ops.len() + 1 && path[0] == e && path[ops.len() as int] == f && #[trigger] is_course(ops, path);
    let more = path.push(g);
    let all = ops.push(op);
    assert forall|i: int| 0 <= i < all.len() implies #[trigger] course_step(all, more, i) by {
        if i < ops.len() { assert(course_step(ops, path, i)); }
    }
    assert forall|i: int| 0 <= i < more.len() implies interval_laws::modest(#[trigger] more[i]) by {
        if i < path.len() { assert(interval_laws::modest(path[i])); }
    }
    assert(is_course(all, more));
}

pub proof fn reaches_both(first: Seq<Step>, second: Seq<Step>, e: Env, f: Env, g: Env)
    requires reaches(first, e, f), reaches(second, f, g),
    ensures reaches(first + second, e, g),
    decreases second.len(),
{
    if second.len() == 0 {
        assert(first + second =~= first);
    } else {
        let path = choose|path: Seq<Env>| path.len() == second.len() + 1 && path[0] == f && path[second.len() as int] == g && #[trigger] is_course(second, path);
        let n = second.len() - 1;
        let h = path[n];
        let part = path.take(n + 1);
        let head = second.drop_last();
        assert(is_course(head, part)) by {
            assert forall|i: int| 0 <= i < head.len() implies #[trigger] course_step(head, part, i) by {
                assert(course_step(second, path, i));
            }
            assert forall|i: int| 0 <= i < part.len() implies interval_laws::modest(#[trigger] part[i]) by { assert(interval_laws::modest(path[i])); }
        }
        assert(reaches(head, f, h));
        reaches_both(first, head, e, f, h);
        assert(course_step(second, path, n));
        assert(interval_laws::modest(path[n + 1]));
        reaches_next(first + head, e, h, second[n], g);
        assert((first + head).push(second[n]) =~= first + second);
    }
}

/// Operations are sound, one after the other.
pub proof fn operations_are_sound(a: Num, older: RegistryView, newer: RegistryView, ops: Seq<Step>, b: Num, e: Env, f: Env)
    requires
        numeric_steps::performs(a, older, newer, ops, b),
        a is Some,
        zone_model::proper(a->Some_0),
        zone_model::zholds(a->Some_0, e),
        reaches(ops, e, f),
    ensures b is Some, zone_model::proper(b->Some_0), zone_model::zholds(b->Some_0, f), interval_laws::modest(f),
{
    let states = choose|states: Seq<Num>| states.len() == ops.len() + 1 && states[0] == a && states[ops.len() as int] == b && #[trigger] numeric_steps::is_path(states, older, newer, ops);
    let path = choose|path: Seq<Env>| path.len() == ops.len() + 1 && path[0] == e && path[ops.len() as int] == f && #[trigger] is_course(ops, path);
    lemma_along(states, older, newer, ops, path, ops.len() as int);
    assert(interval_laws::modest(path[ops.len() as int]));
}

proof fn lemma_along(states: Seq<Num>, older: RegistryView, newer: RegistryView, ops: Seq<Step>, path: Seq<Env>, n: int)
    requires
        states.len() == ops.len() + 1,
        path.len() == ops.len() + 1,
        numeric_steps::is_path(states, older, newer, ops),
        is_course(ops, path),
        states[0] is Some,
        zone_model::proper(states[0]->Some_0),
        zone_model::zholds(states[0]->Some_0, path[0]),
        0 <= n <= ops.len(),
    ensures states[n] is Some, zone_model::proper(states[n]->Some_0), zone_model::zholds(states[n]->Some_0, path[n]),
    decreases n,
{
    if n > 0 {
        let i = n - 1;
        lemma_along(states, older, newer, ops, path, i);
        assert(numeric_steps::step_between(states[i], older, newer, ops[i], states[i + 1]));
        let r = choose|r: RegistryView| r.extends(older) && newer.extends(r) && #[trigger] numeric_steps::step(states[i], r, ops[i], states[i + 1]);
        assert(course_step(ops, path, i));
        assert(interval_laws::modest(path[i]) && interval_laws::modest(path[i + 1]));
        operation_is_sound(states[i], r, ops[i], states[i + 1], path[i], path[i + 1]);
    }
}

// ---------------------------------------------------------------------------------------------
// Intervals
// ---------------------------------------------------------------------------------------------

/// An operation may change a variable.
pub open spec fn targets(op: Step, v: u64) -> bool {
    match op {
        Step::Forget(x) | Step::Copy(x, _) | Step::Assign(x, _) | Step::Put(x, _) | Step::Plain(_, x, _, _, _) | Step::WrapOne(x, _, _) => v == x,
        Step::Signed(_, s, u, _, _, _) | Step::Unsigned(_, s, u, _, _, _) => v == s || v == u,
        Step::Overflow(_, s, u, _, _) | Step::Mask(s, u, _) | Step::Shl(s, u, _, _) | Step::Lshr(s, u, _, _) | Step::Ashr(s, u, _, _)
        | Step::Extend(s, u, _, _, _) | Step::Wrap(s, u, _) => v == s || v == u,
        _ => true,
    }
}

/// Two zones say the same of a variable's bounds.
spec fn like(x: ZEdges, y: ZEdges, v: u64) -> bool {
    zone_model::same_bounds(y, x, zone_model::node(v))
}

proof fn lemma_put_like(x: ZEdges, k: u64, iv: Interval, mo: bool, v: u64)
    requires k != v,
    ensures like(x, zone_model::zput(x, k, iv, mo), v), like(x, zone_model::zwithout(x, zone_model::node(k)), v),
{
}

proof fn lemma_assigned_like(x: ZEdges, k: u64, t: &LinearExpression, mo: spec_fn(u64) -> bool, y: ZEdges, v: u64)
    requires zone_model::assigned(x, k, t, mo, y), k != v,
    ensures like(x, y, v),
{
    lemma_put_like(x, k, zone_model::zeval(x, t), mo(k), v);
    let a = zone_model::zwithout(y, zone_model::node(k));
    let b = zone_model::zwithout(x, zone_model::node(k));
    let n = zone_model::node(v);
    if !(y == zone_model::zput(x, k, zone_model::zeval(x, t), mo(k))) {
        assert(a == b);
        assert(a.contains_key((n, 0)) == b.contains_key((n, 0)) && a.contains_key((0, n)) == b.contains_key((0, n)));
        if x.contains_key((n, 0)) { assert(a[(n, 0)] == b[(n, 0)]); }
        if x.contains_key((0, n)) { assert(a[(0, n)] == b[(0, n)]); }
    }
}

proof fn lemma_overflow_like(x: ZEdges, k: u64, width: int, signed: bool, mo: bool, v: u64)
    requires k != v,
    ensures like(x, finite_domain::zoverflow(x, k, width, signed, mo), v),
{
    let iv = zone_model::zinterval(x, k);
    if let Some(new) = finite_domain::wrapped_interval(iv, width, signed) { lemma_put_like(x, k, new, mo, v); }
    lemma_put_like(x, k, iv, mo, v);
}

proof fn lemma_mirrored_like(x: ZEdges, r: RegistryView, from: u64, to: u64, s: u64, u: u64, width: int, y: ZEdges, v: u64)
    requires finite_domain::mirrored(x, r, from, to, s, u, width, y), v != s, v != u, v != to,
    ensures like(x, y, v),
{
    let mo = zone_domain::min_only_of(r);
    let mid = choose|mid: ZEdges| #[trigger] zone_domain::variable_assigned(x, to, from, mo, mid) && y == finite_domain::zoverflow_pair(mid, r, s, u, width);
    let t = choose|t: LinearExpression| zone_domain::is_variable(&t, from) && #[trigger] zone_model::assigned(x, to, &t, mo, mid);
    lemma_assigned_like(x, to, &t, mo, mid, v);
    lemma_overflow_like(mid, s, width, true, r.metas[s as int].is_min_only, v);
    lemma_overflow_like(finite_domain::zoverflow(mid, s, width, true, r.metas[s as int].is_min_only), u, width, false, r.metas[u as int].is_min_only, v);
}

proof fn lemma_applied_like(x: ZEdges, r: RegistryView, op: FiniteBinOp, k: u64, w: u64, o: Operand, width: int, y: ZEdges, v: u64)
    requires finite_domain::applied(x, r, op, k, w, o, width, y), k != v,
    ensures like(x, y, v),
{
    match op {
        FiniteBinOp::Arith(ArithBinOp::ADD) => {
            let t = choose|t: LinearExpression| finite_domain::is_sum(&t, w, 1, o) && #[trigger] zone_model::assigned(x, k, &t, zone_domain::min_only_of(r), y);
            lemma_assigned_like(x, k, &t, zone_domain::min_only_of(r), y, v);
        },
        FiniteBinOp::Arith(ArithBinOp::SUB) => {
            let t = choose|t: LinearExpression| finite_domain::is_sum(&t, w, -1, o) && #[trigger] zone_model::assigned(x, k, &t, zone_domain::min_only_of(r), y);
            lemma_assigned_like(x, k, &t, zone_domain::min_only_of(r), y, v);
        },
        _ => {},
    }
}

proof fn lemma_pair_like(x: ZEdges, r: RegistryView, is_signed: bool, op: FiniteBinOp, s: u64, u: u64, w: u64, o: Operand, width: int, y: ZEdges, v: u64)
    requires
        if is_signed { finite_domain::signed_applied(x, r, op, s, u, w, o, width, y) } else { finite_domain::unsigned_applied(x, r, op, s, u, w, o, width, y) },
        v != s,
        v != u,
    ensures like(x, y, v),
{
    let (from, to) = if is_signed { (s, u) } else { (u, s) };
    let mid = choose|mid: ZEdges| #[trigger] finite_domain::applied(x, r, op, from, w, o, width, mid)
        && if width == 0 { y == mid } else { finite_domain::mirrored(mid, r, from, to, s, u, width, y) };
    lemma_applied_like(x, r, op, from, w, o, width, mid, v);
    if width != 0 { lemma_mirrored_like(mid, r, from, to, s, u, width, y, v); }
}

/// An operation leaves the intervals of the variables that it does not change.
#[verifier::rlimit(40)]
pub proof fn other_intervals_stay(a: Num, r: RegistryView, op: Step, b: Num, v: u64)
    requires numeric_steps::step(a, r, op, b), a is Some, b is Some, !targets(op, v),
    ensures zone_model::zinterval(b->Some_0, v) == zone_model::zinterval(a->Some_0, v), zone_model::same_bounds(b->Some_0, a->Some_0, zone_model::node(v)),
{
    reveal(numeric_steps::step);
    let x = a->Some_0;
    let y = b->Some_0;
    let mo = zone_domain::min_only_of(r);
    match op {
        Step::Forget(k) => { lemma_put_like(x, k, Interval::all(), false, v); },
        Step::Copy(k, w) => {
            let t = choose|t: LinearExpression| zone_domain::is_variable(&t, w) && #[trigger] zone_model::assigned(x, k, &t, mo, y);
            lemma_assigned_like(x, k, &t, mo, y, v);
        },
        Step::Assign(k, t) => { lemma_assigned_like(x, k, &t, mo, y, v); },
        Step::Put(k, iv) => { lemma_put_like(x, k, iv, r.metas[k as int].is_min_only, v); },
        Step::Plain(f, k, w, o, width) => { lemma_applied_like(x, r, f, k, w, o, width, y, v); },
        Step::WrapOne(k, width, signed) => { lemma_overflow_like(x, k, width, signed, r.metas[k as int].is_min_only, v); },
        Step::Signed(f, s, u, w, o, width) => { lemma_pair_like(x, r, true, f, s, u, w, o, width, y, v); },
        Step::Unsigned(f, s, u, w, o, width) => { lemma_pair_like(x, r, false, f, s, u, w, o, width, y, v); },
        Step::Overflow(f, s, u, o, width) => {
            lemma_pair_like(x, r, true, f, s, u, if zone_model::zinterval(x, s).is_top_spec() { u } else { s }, o, width, y, v);
        },
        Step::Mask(s, u, n) => {
            if y != x {
                lemma_pair_like(x, r, false, FiniteBinOp::Bitwise(finite_domain::BitwiseBinOp::AND), s, u, u, Operand::Num(n), 64, y, v);
            }
        },
        Step::Shl(s, u, imm, w) => {
            match finite_domain::shl_interval(zone_model::zinterval(x, u), imm, w) {
                None => { lemma_pair_like(x, r, false, FiniteBinOp::Bitwise(finite_domain::BitwiseBinOp::SHL), s, u, u, Operand::Num(Number { n: imm as i128 }), 64, y, v); },
                Some(iv) => {
                    lemma_put_like(x, u, iv, r.metas[u as int].is_min_only, v);
                    lemma_mirrored_like(zone_model::zput(x, u, iv, r.metas[u as int].is_min_only), r, u, s, s, u, w, y, v);
                },
            }
        },
        Step::Lshr(s, u, imm, w) => {
            let iv = finite_domain::lshr_interval(zone_model::zinterval(x, u), imm, w);
            lemma_put_like(x, u, iv, r.metas[u as int].is_min_only, v);
            lemma_mirrored_like(zone_model::zput(x, u, iv, r.metas[u as int].is_min_only), r, u, s, s, u, w, y, v);
        },
        Step::Ashr(s, u, e, w) => {
            let sp = finite_domain::signed_split(x, w == 64, s, u, zone_model::zeval(x, &e));
            match sp.right.singleton_spec() {
                Some(n) => {
                    let iv = finite_domain::ashr_interval(sp.left, number::wrap_signed(n@, 64) % w, w);
                    lemma_put_like(x, s, iv, r.metas[s as int].is_min_only, v);
                    lemma_mirrored_like(zone_model::zput(x, s, iv, r.metas[s as int].is_min_only), r, s, u, s, u, w, y, v);
                },
                None => {
                    lemma_put_like(x, s, Interval::all(), false, v);
                    lemma_put_like(zone_model::zwithout(x, zone_model::node(s)), u, Interval::all(), false, v);
                },
            }
        },
        Step::Extend(s, u, e, target, source) => {
            let iv = zone_model::zeval(x, &e).sign_extend_spec(source);
            lemma_put_like(x, s, iv, r.metas[s as int].is_min_only, v);
            lemma_mirrored_like(zone_model::zput(x, s, iv, r.metas[s as int].is_min_only), r, s, u, s, u, target, y, v);
        },
        Step::Wrap(s, u, w) => {
            lemma_overflow_like(x, s, w, true, r.metas[s as int].is_min_only, v);
            lemma_overflow_like(finite_domain::zoverflow(x, s, w, true, r.metas[s as int].is_min_only), u, w, false, r.metas[u as int].is_min_only, v);
        },
        _ => {},
    }
    assert(like(x, y, v));
}

/// A variable that is set to an interval has it.
pub proof fn put_intervals_hold(a: Num, r: RegistryView, v: u64, iv: Interval, b: Num)
    requires
        numeric_steps::step(a, r, Step::Put(v, iv), b),
        a is Some,
        b is Some,
        !r.metas[v as int].is_min_only,
        exists|x: int| iv.has(x),
        iv.lb != ExtendedNumber::Finite(Number { n: i128::MIN }),
    ensures zone_model::zinterval(b->Some_0, v) == iv,
{
    reveal(numeric_steps::step);
}

/// Operations leave the intervals of the variables that none of them changes.
pub proof fn other_intervals_stay_along(a: Num, older: RegistryView, newer: RegistryView, ops: Seq<Step>, b: Num, v: u64)
    requires
        numeric_steps::performs(a, older, newer, ops, b),
        a is Some,
        b is Some,
        forall|i: int| 0 <= i < ops.len() ==> !targets(#[trigger] ops[i], v),
    ensures zone_model::zinterval(b->Some_0, v) == zone_model::zinterval(a->Some_0, v),
{
    let states = choose|states: Seq<Num>| states.len() == ops.len() + 1 && states[0] == a && states[ops.len() as int] == b && #[trigger] numeric_steps::is_path(states, older, newer, ops);
    lemma_stay(states, older, newer, ops, v, ops.len() as int);
}

proof fn lemma_stay(states: Seq<Num>, older: RegistryView, newer: RegistryView, ops: Seq<Step>, v: u64, n: int)
    requires
        states.len() == ops.len() + 1,
        numeric_steps::is_path(states, older, newer, ops),
        states[0] is Some,
        forall|i: int| 0 <= i < ops.len() ==> !targets(#[trigger] ops[i], v),
        0 <= n <= ops.len(),
    ensures states[n] is Some ==> zone_model::zinterval(states[n]->Some_0, v) == zone_model::zinterval(states[0]->Some_0, v),
    decreases n,
{
    if n > 0 {
        let i = n - 1;
        lemma_stay(states, older, newer, ops, v, i);
        assert(numeric_steps::step_between(states[i], older, newer, ops[i], states[i + 1]));
        let r = choose|r: RegistryView| r.extends(older) && newer.extends(r) && #[trigger] numeric_steps::step(states[i], r, ops[i], states[i + 1]);
        if states[n] is Some {
            if states[i] is None { numeric_steps::step_from_nothing(r, ops[i], states[n]); }
            assert(!targets(ops[i], v));
            other_intervals_stay(states[i], r, ops[i], states[n], v);
        }
    }
}

}
