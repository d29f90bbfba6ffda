//! What a conditional jump says.
use vstd::prelude::*;
use crate::act_laws;
use crate::acts;
use crate::acts::{Act, Place};
use crate::arith::linear_constraint::LinearConstraint;
use crate::arith::linear_expression::{Env, LinearExpression};
use crate::arith::number::Number;
use crate::branching;
use crate::demands;
use crate::ebpf_memory;
use crate::ebpf_un;
use crate::interval_laws;
use crate::numeric_steps;
use crate::numeric_steps::{Num, Step};
use crate::rcp;
use crate::step_laws;
use crate::syntax::{Assume, ConditionOp, Imm, Reg, Value};
use crate::type_encoding::{DataKind, TypeEncoding};
use crate::var_registry::RegistryView;
use crate::zone_domain;
use crate::alu_laws;
use crate::branch_laws;
use crate::ebpf_bin;
use crate::finite_assume;
use crate::zone_model;
use crate::zone_model::ZEdges;

verus! {

/// Two offsets compare so. A test of bits says nothing of offsets.
pub open spec fn offsets_meet(op: ConditionOp, x: int, y: int) -> bool {
    match op {
        ConditionOp::EQ => x == y,
        ConditionOp::NE => x != y,
        ConditionOp::GE | ConditionOp::SGE => x >= y,
        ConditionOp::LE | ConditionOp::SLE => x <= y,
        ConditionOp::GT | ConditionOp::SGT => x > y,
        ConditionOp::LT | ConditionOp::SLT => x < y,
        ConditionOp::SET | ConditionOp::NSET => true,
    }
}

/// The constraint of a comparison of two offsets holds exactly where they compare so.
proof fn lemma_offsets(op: ConditionOp, x: u64, y: u64, env: Env)
    ensures
        step_laws::simple(ebpf_un::offsets_compare(op, x, y)),
        offsets_meet(op, env(x), env(y)) ==> step_laws::says(ebpf_un::offsets_compare(op, x, y), env),
{
    let l = ebpf_un::offsets_compare(op, x, y);
    match op {
        ConditionOp::EQ | ConditionOp::NE | ConditionOp::LE | ConditionOp::SLE | ConditionOp::LT | ConditionOp::SLT => {
            step_laws::lemma_difference(l, x, y, env);
        },
        ConditionOp::GE | ConditionOp::SGE | ConditionOp::GT | ConditionOp::SGT => {
            step_laws::lemma_difference(l, y, x, env);
        },
        ConditionOp::SET | ConditionOp::NSET => {
            assert(l.terms =~= Map::<u64, Number>::empty());
            assert(l.constant == 0);
            assert forall|c: LinearConstraint| #![trigger numeric_steps::lin_of(&c)] numeric_steps::lin_of(&c) == l && c.expression.orderly() implies c.holds(env) by {
                step_laws::lemma_no_terms(&c.expression, env);
            }
        },
    }
}

/// Going through the types of two pointers to one region is one comparison of their offsets.
proof fn lemma_pointers(be: bool, s: Assume, src: Reg, te: TypeEncoding, k: DataKind, a: Place, b: Place) -> (r: (Place, Place))
    requires
        ebpf_un::assume_effect(be, s, a, b),
        s.cond.right == Value::Reg(src),
        a.0.wf(),
        a.0.num() is Some,
        act_laws::has_type(a, s.cond.left, te),
        act_laws::has_type(a, src, te),
        rcp::offset_kind(te) == Some(k),
    ensures
        rcp::is_branch(&a.0.state, s.cond.left, a.1, seq![te], te, &r.0.0.state),
        acts::follows(be, r.0, seq![ebpf_memory::numbers(seq![Step::Say(ebpf_un::offsets_compare(s.cond.op, rcp::id_of(k, s.cond.left), rcp::id_of(k, src)))])], r.1),
        b.0.num() == r.1.0.num(),
{
    let left = s.cond.left;
    let st = a.0.state.types.s();
    assert(st.linked(rcp::type_id(left), rcp::type_id(src))) by {
        act_laws::lemma_known(st, rcp::type_id(left), te);
        act_laws::lemma_known(st, rcp::type_id(src), te);
        st.lone_types_are_merged(rcp::type_id(left), rcp::type_id(src));
    }
    if exists|is_num: bool, cs: Seq<LinearConstraint>| acts::follows(be, a, #[trigger] ebpf_un::mixed_acts(s, src, is_num, cs), b) {
        let (is_num, cs) = choose|is_num: bool, cs: Seq<LinearConstraint>| acts::follows(be, a, #[trigger] ebpf_un::mixed_acts(s, src, is_num, cs), b);
        let all = ebpf_un::mixed_acts(s, src, is_num, cs);
        let first = seq![Act::SameType(left, src, false)];
        assert(all =~= first + all.skip(1));
        let mid = act_laws::lemma_split(be, a, first, all.skip(1), b);
        act_laws::lemma_one(be, a, first[0], mid);
        reveal(acts::acted);
        assert(false);
    }
    let rel = ebpf_un::assume_branch(be, s, src);
    let test = seq![Act::SameType(left, src, true)];
    let (m, n) = choose|m: Place, n: Place| #[trigger] acts::follows(be, a, test, m) && branching::over_types(m, left, rel, n) && #[trigger] acts::follows(be, n, seq![], b);
    act_laws::lemma_one(be, a, test[0], m);
    assert(m == a) by { reveal(acts::acted); }
    act_laws::lemma_none(be, n, b);
    act_laws::lemma_single(a, left, rel, b, te)
}

/// A jump on two pointers to the same region is sound: a valuation that the state admits and in which
/// the offsets compare so is admitted after the jump, so the state stays possible.
pub proof fn pointer_jumps_are_sound(be: bool, s: Assume, src: Reg, te: TypeEncoding, k: DataKind, a: Place, b: Place, env: Env)
    requires
        ebpf_un::assume_effect(be, s, a, b),
        s.cond.right == Value::Reg(src),
        a.0.wf(),
        act_laws::has_type(a, s.cond.left, te),
        act_laws::has_type(a, src, te),
        rcp::offset_kind(te) == Some(k),
        demands::describes(&a.0, env),
        offsets_meet(s.cond.op, env(rcp::id_of(k, s.cond.left)), env(rcp::id_of(k, src))),
    ensures demands::describes(&b.0, env),
{
    act_laws::lemma_admits(a, env);
    let (inp, out) = lemma_pointers(be, s, src, te, k, a, b);
    act_laws::lemma_branch_admits(a, s.cond.left, te, inp, env);
    let l = ebpf_un::offsets_compare(s.cond.op, rcp::id_of(k, s.cond.left), rcp::id_of(k, src));
    lemma_offsets(s.cond.op, rcp::id_of(k, s.cond.left), rcp::id_of(k, src), env);
    step_laws::reaches_nothing(env);
    step_laws::reaches_next(seq![], env, env, Step::Say(l), env);
    assert(Seq::<Step>::empty().push(Step::Say(l)) =~= seq![Step::Say(l)]);
    let act = ebpf_memory::numbers(seq![Step::Say(l)]);
    act_laws::lemma_one(be, inp, act, out);
    act_laws::act_is_sound(be, inp, act, out, env, env);
}

/// The bounds of two variables leave room for their difference.
pub open spec fn leaves_room(d: &crate::ebpf_domain::EbpfDomain, x: u64, y: u64) -> bool {
    let z = d.state.values.z();
    &&& zone_model::handy(zone_model::lower(z, x)) && zone_model::handy(zone_model::zinterval(z, x).ub)
    &&& zone_model::handy(zone_model::lower(z, y)) && zone_model::handy(zone_model::zinterval(z, y).ub)
}

/// A difference of two variables that is said holds afterwards.
proof fn lemma_difference_said(x: ZEdges, c: &LinearConstraint, v: u64, w: u64, mo: spec_fn(u64) -> bool, y: ZEdges, env: Env)
    requires
        zone_domain::constraint_added(x, c, mo, y),
        c.expression.orderly(),
        c.expression.terms@ == step_laws::two_terms(v, w),
        c.expression.constant@ == 0,
        v != w,
        !(c.kind is NotZero),
        !(c.kind is EqualsZero),
        zone_model::handy(zone_model::lower(x, v)),
        zone_model::handy(zone_model::zinterval(x, w).ub),
        zone_model::mild(env),
        zone_model::zholds(y, env),
    ensures
        zone_model::zholds(x, env),
        env(v) - env(w) <= (if c.kind is LessThanZero { -1int } else { 0 }),
{
    step_laws::lemma_two_terms(&c.expression, v, w, env);
    let n = if c.kind is LessThanZero { Number::nearest(1) } else { c.expression.constant };
    zone_model::differences_are_exact(x, n, v, w, mo, y, env);
}

/// An equation of two variables that is said holds afterwards.
proof fn lemma_equation_said(x: ZEdges, c: &LinearConstraint, v: u64, w: u64, mo: spec_fn(u64) -> bool, y: ZEdges, env: Env)
    requires
        zone_domain::constraint_added(x, c, mo, y),
        c.expression.orderly(),
        c.expression.terms@ == step_laws::two_terms(v, w),
        c.expression.constant@ == 0,
        v != w,
        c.kind is EqualsZero,
        zone_model::handy(zone_model::lower(x, v)),
        zone_model::handy(zone_model::zinterval(x, w).ub),
        interval_laws::modest(env),
        zone_model::zholds(y, env),
    ensures
        zone_model::zholds(x, env),
        env(v) <= env(w),
        zone_model::lower(x, w) is Finite && zone_model::handy(zone_model::lower(x, w)) && zone_model::upper(x, v) is Finite
            && zone_model::handy(zone_model::zinterval(x, v).ub) ==> env(v) == env(w),
{
    step_laws::lemma_modest(env);
    step_laws::lemma_two_terms(&c.expression, v, w, env);
    let e = &c.expression;
    let (mid, n) = choose|mid: ZEdges, n: LinearExpression| #![trigger zone_model::leq_added(mid, n.constant, n.terms.entries(), mo, y)]
        zone_model::leq_added(x, e.constant, e.terms.entries(), mo, mid) && zone_domain::is_opposite(e, &n)
        && zone_model::leq_added(mid, n.constant, n.terms.entries(), mo, y);
    assert(zone_model::zholds(mid, env));
    zone_model::differences_are_exact(x, e.constant, v, w, mo, mid, env);
    if zone_model::lower(x, w) is Finite && zone_model::handy(zone_model::lower(x, w)) && zone_model::upper(x, v) is Finite && zone_model::handy(zone_model::zinterval(x, v).ub) {
        assert(n.terms@ =~= step_laws::two_terms(w, v));
        step_laws::lemma_two_terms(&n, w, v, env);
        zone_model::interval_is_sound(x, v, env);
        zone_model::interval_is_sound(mid, v, env);
        zone_model::interval_is_sound(mid, w, env);
        assert(-interval_laws::MODEST <= env(v) <= interval_laws::MODEST);
        assert(-interval_laws::MODEST <= env(w) <= interval_laws::MODEST);
        assert(mid.contains_key((zone_model::node(w), 0)) && mid.contains_key((0, zone_model::node(v))));
        assert(zone_model::node_value(env, 0) - zone_model::node_value(env, zone_model::node(w)) <= mid[(zone_model::node(w), 0)]@);
        assert(zone_model::node_value(env, zone_model::node(v)) - zone_model::node_value(env, 0) <= mid[(0, zone_model::node(v))]@);
        zone_model::differences_are_exact(mid, n.constant, w, v, mo, y, env);
    }
}

/// A jump on two pointers to the same region says what it compares: what is admitted afterwards was
/// admitted before, and the offsets compare so in it. Of an equality, that the left one is at most the
/// right one, and that they are equal where both were bounded.
pub proof fn pointer_jumps_are_exact(be: bool, s: Assume, src: Reg, te: TypeEncoding, k: DataKind, a: Place, b: Place, env: Env)
    requires
        ebpf_un::assume_effect(be, s, a, b),
        s.cond.right == Value::Reg(src),
        a.0.wf(),
        a.0.num() is Some,
        act_laws::has_type(a, s.cond.left, te),
        act_laws::has_type(a, src, te),
        rcp::offset_kind(te) == Some(k),
        leaves_room(&a.0, rcp::id_of(k, s.cond.left), rcp::id_of(k, src)),
        rcp::id_of(k, s.cond.left) != rcp::id_of(k, src),
        !(s.cond.op is NE) && !(s.cond.op is SET) && !(s.cond.op is NSET),
        demands::describes(&b.0, env),
    ensures
        demands::describes(&a.0, env),
        s.cond.op is EQ ==> env(rcp::id_of(k, s.cond.left)) <= env(rcp::id_of(k, src)),
        s.cond.op is EQ && zone_model::upper(a.0.state.values.z(), rcp::id_of(k, s.cond.left)) is Finite && zone_model::lower(a.0.state.values.z(), rcp::id_of(k, src)) is Finite
            ==> env(rcp::id_of(k, s.cond.left)) == env(rcp::id_of(k, src)),
        !(s.cond.op is EQ) ==> offsets_meet(s.cond.op, env(rcp::id_of(k, s.cond.left)), env(rcp::id_of(k, src))),
{
    let (inp, out) = lemma_pointers(be, s, src, te, k, a, b);
    let x = rcp::id_of(k, s.cond.left);
    let y = rcp::id_of(k, src);
    let l = ebpf_un::offsets_compare(s.cond.op, x, y);
    let act = ebpf_memory::numbers(seq![Step::Say(l)]);
    act_laws::lemma_one(be, inp, act, out);
    act_laws::lemma_branch_same(a, s.cond.left, te, inp);
    assert(zone_model::mild(env)) by { step_laws::lemma_modest(env); }
    reveal(acts::acted);
    let z = inp.0.num()->Some_0;
    let t = out.0.num()->Some_0;
    let ops = seq![Step::Say(l)];
    let states = choose|states: Seq<Num>| states.len() == 2 && states[0] == inp.0.num() && states[1] == out.0.num() && #[trigger] numeric_steps::is_path(states, inp.1, inp.1, ops);
    let i: int = 0;
    assert(numeric_steps::step_between(states[i], inp.1, inp.1, ops[i], states[i + 1]));
    let r = choose|r: RegistryView| r.extends(inp.1) && inp.1.extends(r) && #[trigger] numeric_steps::step(states[i], r, ops[i], states[i + 1]);
    reveal(numeric_steps::step);
    let mo = zone_domain::min_only_of(r);
    let c = choose|c: LinearConstraint| l == #[trigger] numeric_steps::lin_of(&c) && c.expression.orderly()
        && zone_domain::constraint_added(z, &c, mo, t) && !c.is_contradiction_spec();
    match s.cond.op {
        ConditionOp::EQ => {
            step_laws::lemma_difference(l, x, y, env);
            lemma_equation_said(z, &c, x, y, mo, t, env);
        },
        ConditionOp::LE | ConditionOp::SLE | ConditionOp::LT | ConditionOp::SLT => {
            step_laws::lemma_difference(l, x, y, env);
            lemma_difference_said(z, &c, x, y, mo, t, env);
        },
        _ => {
            step_laws::lemma_difference(l, y, x, env);
            lemma_difference_said(z, &c, y, x, mo, t, env);
        },
    }
}

// ---------------------------------------------------------------------------------------------
// Numbers
// ---------------------------------------------------------------------------------------------

/// The comparison that a jump makes holds of two words: all of them or their low halves, read with a sign
/// or without.
pub open spec fn words_meet(op: ConditionOp, is64: bool, x: int, y: int) -> bool {
    let u = alu_laws::low(x, is64);
    let v = alu_laws::low(y, is64);
    let s = alu_laws::signed(x, is64);
    let t = alu_laws::signed(y, is64);
    match op {
        ConditionOp::EQ => u == v,
        ConditionOp::NE => u != v,
        ConditionOp::GE => u >= v,
        ConditionOp::LE => u <= v,
        ConditionOp::GT => u > v,
        ConditionOp::LT => u < v,
        ConditionOp::SGE => s >= t,
        ConditionOp::SLE => s <= t,
        ConditionOp::SGT => s > t,
        ConditionOp::SLT => s < t,
        ConditionOp::SET => (u as u64) & (v as u64) != 0,
        ConditionOp::NSET => (u as u64) & (v as u64) == 0,
    }
}

proof fn lemma_words(op: ConditionOp, is64: bool, x: int, y: int)
    requires 0 <= x <= u64::MAX, 0 <= y <= u64::MAX, words_meet(op, is64, x, y),
    ensures
        branch_laws::compares(op, is64, alu_laws::signed(x, true), x, alu_laws::signed(y, true), y),
        branch_laws::readings(alu_laws::signed(x, true), x),
        branch_laws::readings(alu_laws::signed(y, true), y),
{
    alu_laws::lemma_reading(x, is64);
    alu_laws::lemma_reading(y, is64);
    alu_laws::lemma_low(x, is64);
    alu_laws::lemma_low(y, is64);
    alu_laws::lemma_low(alu_laws::signed(x, true), is64);
    alu_laws::lemma_low(alu_laws::signed(y, true), is64);
    if !is64 {
        let a = x as u64;
        let b = (y % 0x1_0000_0000) as u64;
        assert(a & b == (a % 0x1_0000_0000) & b) by (bit_vector) requires b < 0x1_0000_0000;
    }
}

/// The acts of a comparison, and what they say.
proof fn lemma_compared(be: bool, a: Place, test: Act, cs: Seq<LinearConstraint>, b: Place)
    requires
        acts::follows(be, a, seq![test, ebpf_memory::numbers(crate::ebpf_domain::said(cs))], b),
        test is AssumeImm || test is AssumeReg,
    ensures acts::acted(be, a, test, a), numeric_steps::performs(a.0.num(), a.1, a.1, crate::ebpf_domain::said(cs), b.0.num()),
{
    let act = ebpf_memory::numbers(crate::ebpf_domain::said(cs));
    assert(seq![test, act] =~= seq![test] + seq![act]);
    let m = act_laws::lemma_split(be, a, seq![test], seq![act], b);
    act_laws::lemma_one(be, a, test, m);
    act_laws::lemma_one(be, m, act, b);
    reveal(acts::acted);
}

/// A jump on a number and an immediate is sound: a valuation that is admitted and meets the condition is
/// admitted afterwards.
#[verifier::rlimit(40)]
pub proof fn immediate_jumps_keep_what_meets_them(be: bool, s: Assume, i: Imm, a: Place, b: Place, env: Env)
    requires
        ebpf_un::assume_effect(be, s, a, b),
        s.cond.right == Value::Imm(i),
        demands::describes(&a.0, env),
        alu_laws::holds_word(env, s.cond.left, env(rcp::id_of(DataKind::Uvalues, s.cond.left))),
        words_meet(s.cond.op, s.cond.is64, env(rcp::id_of(DataKind::Uvalues, s.cond.left)), alu_laws::low(i.v as int, true)),
    ensures demands::describes(&b.0, env),
{
    let c = s.cond;
    let sv = rcp::id_of(DataKind::Svalues, c.left);
    let uv = rcp::id_of(DataKind::Uvalues, c.left);
    let imm = ebpf_bin::immediate(i.v, true);
    let cs = choose|cs: Seq<LinearConstraint>| acts::follows(be, a, #[trigger] ebpf_un::compare_imm_acts(s, imm, cs), b);
    lemma_compared(be, a, Act::AssumeImm(c.op, c.is64, sv, uv, imm as i64, cs), cs, b);
    alu_laws::lemma_low(i.v as int, true);
    let n = imm as i64;
    assert(imm == alu_laws::signed(i.v as int, true));
    assert(n < 0 ==> (n as u64) as i128 == n + 0x1_0000_0000_0000_0000) by (bit_vector);
    assert(n >= 0 ==> (n as u64) as i128 == n) by (bit_vector);
    assert(n as u64 == i.v);
    reveal(acts::acted);
    let z = a.0.state.values.z();
    let (rs, ru) = choose|rs: LinearExpression, ru: LinearExpression| #![trigger finite_assume::is_constant(&rs, n as int), finite_assume::is_constant(&ru, n as u64 as int)]
        finite_assume::is_constant(&rs, n as int) && finite_assume::is_constant(&ru, n as u64 as int)
        && finite_assume::states(cs, finite_assume::immediate_claims(z, c.op, c.is64, sv, uv, n, &rs, &ru));
    lemma_words(c.op, c.is64, env(uv), i.v as int);
    step_laws::lemma_modest(env);
    branch_laws::immediate_claims_are_kept(z, c.op, c.is64, sv, uv, n, &rs, &ru, cs, a.1, a.1, b.0.num(), env);
}

/// A jump on two registers that are numbers is sound: a valuation that is admitted and meets the
/// condition is admitted afterwards.
pub proof fn number_jumps_keep_what_meets_them(be: bool, s: Assume, src: Reg, a: Place, b: Place, env: Env)
    requires
        ebpf_un::assume_effect(be, s, a, b),
        s.cond.right == Value::Reg(src),
        a.0.wf(),
        act_laws::has_type(a, s.cond.left, TypeEncoding::TNum),
        act_laws::has_type(a, src, TypeEncoding::TNum),
        demands::describes(&a.0, env),
        alu_laws::holds_word(env, s.cond.left, env(rcp::id_of(DataKind::Uvalues, s.cond.left))),
        alu_laws::holds_word(env, src, env(rcp::id_of(DataKind::Uvalues, src))),
        words_meet(s.cond.op, s.cond.is64, env(rcp::id_of(DataKind::Uvalues, s.cond.left)), env(rcp::id_of(DataKind::Uvalues, src))),
    ensures demands::describes(&b.0, env),
{
    let c = s.cond;
    act_laws::lemma_admits(a, env);
    let (inp, out, cs) = lemma_numbers(be, s, src, a, b);
    let sv = rcp::id_of(DataKind::Svalues, c.left);
    let uv = rcp::id_of(DataKind::Uvalues, c.left);
    let rsv = rcp::id_of(DataKind::Svalues, src);
    let ruv = rcp::id_of(DataKind::Uvalues, src);
    lemma_words(c.op, c.is64, env(uv), env(ruv));
    lemma_registers_compared(c.op, c.is64, sv, uv, rsv, ruv, &inp.0, inp.1, cs, out.0.num(), env);
}

/// A comparison of two registers that are numbers is one comparison of numbers.
#[verifier::rlimit(40)]
proof fn lemma_numbers(be: bool, s: Assume, src: Reg, a: Place, b: Place) -> (r: (Place, Place, Seq<LinearConstraint>))
    requires
        ebpf_un::assume_effect(be, s, a, b),
        s.cond.right == Value::Reg(src),
        a.0.wf(),
        a.0.num() is Some,
        act_laws::has_type(a, s.cond.left, TypeEncoding::TNum),
        act_laws::has_type(a, src, TypeEncoding::TNum),
    ensures
        r.0.0.num() == a.0.num(),
        b.0.num() == r.1.0.num(),
        acts::register_constraints(&r.0.0, s.cond.op, s.cond.is64, rcp::id_of(DataKind::Svalues, s.cond.left), rcp::id_of(DataKind::Uvalues, s.cond.left),
            rcp::id_of(DataKind::Svalues, src), rcp::id_of(DataKind::Uvalues, src), r.2),
        numeric_steps::performs(r.0.0.num(), r.0.1, r.0.1, crate::ebpf_domain::said(r.2), r.1.0.num()),
{
    let c = s.cond;
    alu_laws::lemma_both_numbers(a, c.left, src);
    let typed = seq![Act::SameType(c.left, src, true)];
    let rel = ebpf_un::assume_branch(be, s, src);
    if !ebpf_bin::runs_over_types(be, typed, c.left, rel, seq![], a, b) {
        let (is_num, cs) = choose|is_num: bool, cs: Seq<LinearConstraint>| acts::follows(be, a, #[trigger] ebpf_un::mixed_acts(s, src, is_num, cs), b);
        let all = ebpf_un::mixed_acts(s, src, is_num, cs);
        assert(all =~= seq![all[0]] + all.skip(1));
        alu_laws::lemma_asked(be, a, all[0], all.skip(1), b);
        assert(false) by { reveal(acts::acted); }
    }
    let (m, n) = choose|m: Place, n: Place| #[trigger] acts::follows(be, a, typed, m) && branching::over_types(m, c.left, rel, n) && #[trigger] acts::follows(be, n, seq![], b);
    act_laws::lemma_one(be, a, typed[0], m);
    assert(m == a) by { reveal(acts::acted); }
    act_laws::lemma_none(be, n, b);
    let (inp, out) = act_laws::lemma_single(a, c.left, rel, b, TypeEncoding::TNum);
    act_laws::lemma_branch_same(a, c.left, TypeEncoding::TNum, inp);
    let cs = choose|cs: Seq<LinearConstraint>| acts::follows(be, inp, #[trigger] ebpf_un::compare_acts(s, src, cs), out);
    let test = Act::AssumeReg(c.op, c.is64, rcp::id_of(DataKind::Svalues, c.left), rcp::id_of(DataKind::Uvalues, c.left), rcp::id_of(DataKind::Svalues, src), rcp::id_of(DataKind::Uvalues, src), cs);
    lemma_compared(be, inp, test, cs, out);
    assert(acts::register_constraints(&inp.0, c.op, c.is64, rcp::id_of(DataKind::Svalues, c.left), rcp::id_of(DataKind::Uvalues, c.left),
        rcp::id_of(DataKind::Svalues, src), rcp::id_of(DataKind::Uvalues, src), cs)) by { reveal(acts::acted); }
    (inp, out, cs)
}

#[verifier::rlimit(40)]
proof fn lemma_registers_compared(op: ConditionOp, is64: bool, sv: u64, uv: u64, rsv: u64, ruv: u64, d: &crate::ebpf_domain::EbpfDomain, r: RegistryView, cs: Seq<LinearConstraint>, b: Num, env: Env)
    requires
        acts::register_constraints(d, op, is64, sv, uv, rsv, ruv, cs),
        numeric_steps::performs(d.num(), r, r, crate::ebpf_domain::said(cs), b),
        d.num() is Some,
        zone_model::proper(d.num()->Some_0),
        zone_model::zholds(d.num()->Some_0, env),
        interval_laws::modest(env),
        branch_laws::readings(env(sv), env(uv)),
        branch_laws::readings(env(rsv), env(ruv)),
        branch_laws::compares(op, is64, env(sv), env(uv), env(rsv), env(ruv)),
    ensures b is Some, zone_model::zholds(b->Some_0, env),
{
    let z = d.num()->Some_0;
    let (rs, ru) = choose|rs: LinearExpression, ru: LinearExpression| #![trigger zone_domain::is_variable(&rs, rsv), zone_domain::is_variable(&ru, ruv)]
        zone_domain::is_variable(&rs, rsv) && zone_domain::is_variable(&ru, ruv)
        && finite_assume::states(cs, finite_assume::register_claims(z, op, is64, sv, uv, rsv, ruv, &rs, &ru));
    step_laws::lemma_modest(env);
    interval_laws::evaluation_is_sound(z, &rs, env);
    interval_laws::evaluation_is_sound(z, &ru, env);
    assert(rs.eval(env) == env(rsv) && ru.eval(env) == env(ruv));
    if op is NE && is64 {
        let claims = finite_assume::register_claims(z, op, is64, sv, uv, rsv, ruv, &rs, &ru);
        let l = claims[0].lin;
        let ops = crate::ebpf_domain::said(cs);
        assert(numeric_steps::lin_of(&cs[0]) == l);
        assert(ops =~= seq![Step::Say(l)]);
        assert(env(sv) != env(rsv));
        assert(l.terms =~= step_laws::two_terms(sv, rsv));
        assert(step_laws::simple(l));
        assert forall|k: LinearConstraint| #![trigger numeric_steps::lin_of(&k)] numeric_steps::lin_of(&k) == l && k.expression.orderly() implies k.holds(env) by {
            step_laws::lemma_two_terms(&k.expression, sv, rsv, env);
        }
        act_laws::lemma_reach(Step::Say(l), env, env);
        step_laws::operations_are_sound(d.num(), r, r, ops, b, env, env);
    } else {
        branch_laws::register_claims_are_kept(z, op, is64, sv, uv, rsv, ruv, &rs, &ru, cs, r, r, b, env);
    }
}

}
