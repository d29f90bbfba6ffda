//! Joining and widening states, and the limits that widening keeps to.
use vstd::prelude::*;
use crate::arith::linear_expression::Env;
use crate::arith::number::Number;
use crate::arith::variable::Variable;
use crate::config::DomainContext;
use crate::demands;
use crate::ebpf_domain;
use crate::ebpf_domain::EbpfDomain;
use crate::interval::Interval;
use crate::interval_laws;
use crate::numeric_ops;
use crate::numeric_steps;
use crate::numeric_steps::{Num, Step};
use crate::rcp;
use crate::rcp::TypeToNumDomain;
use crate::step_laws;
use crate::type_domain;
use crate::type_domain::{TypeDomain, Typing};
use crate::type_encoding::{DataKind, TypeEncoding};
use crate::var_registry;
use crate::var_registry::RegistryView;
use crate::zone_model;
use crate::zone_model::ZEdges;

verus! {

// ---------------------------------------------------------------------------------------------
// The range
// ---------------------------------------------------------------------------------------------

/// The value of a register's variable.
pub open spec fn of(env: Env, kind: DataKind, i: int) -> int {
    env(var_registry::reg_var(kind, i).id)
}

/// The values of a register are in the range of the machine: its readings are those of 32 bits, its
/// offsets lie within the stack, the shared region and the packet.
pub open spec fn register_in_range(total: int, env: Env, i: int) -> bool {
    &&& i32::MIN <= of(env, DataKind::Svalues, i) <= i32::MAX
    &&& 0 <= of(env, DataKind::Uvalues, i) <= u32::MAX
    &&& 0 <= of(env, DataKind::StackOffsets, i) <= total
    &&& 0 <= of(env, DataKind::SharedOffsets, i) <= of(env, DataKind::SharedRegionSizes, i)
    &&& 0 <= of(env, DataKind::PacketOffsets, i) <= env(183)
}

/// A loop has run a number of times that is in range and at most the value of a register.
pub open spec fn counter_in_range(env: Env, c: u64, i: int) -> bool {
    0 <= env(c) <= i32::MAX && env(c) <= of(env, DataKind::Svalues, i)
}

/// The values are in the range of the machine, those of the loop counters where loops are counted.
pub open spec fn in_range(ctx: &DomainContext, r: RegistryView, env: Env) -> bool {
    &&& forall|i: int| 0 <= i < 10 ==> #[trigger] register_in_range(ctx.runtime.stack_size(), env, i)
    &&& ctx.options.check_for_termination ==> forall|c: Variable, i: int| r.knows(c) && r.meta(c).is_loop_counter && 0 <= i < 10 ==> #[trigger] counter_in_range(env, c.id, i)
}

/// An operation says something that a valuation meets.
pub open spec fn met_by(op: Step, env: Env) -> bool {
    op matches Step::Say(l) && step_laws::simple(l) && step_laws::says(l, env)
}

/// An operation says something that a valuation does not meet.
pub open spec fn missed_by(op: Step, env: Env) -> bool {
    op matches Step::Say(l) && step_laws::simple(l) && step_laws::denies(l, env)
}

pub proof fn lemma_at_most(v: u64, n: int, env: Env)
    requires -0x1_0000_0000_0000_0000 <= n <= 0x1_0000_0000_0000_0000,
    ensures if env(v) <= n { met_by(numeric_ops::var_at_most(v, n), env) } else { missed_by(numeric_ops::var_at_most(v, n), env) },
{
    step_laws::lemma_bound(numeric_steps::at_most(numeric_steps::just_var(v), numeric_steps::just_num(n)), v, n, true, env);
}

pub proof fn lemma_at_least(v: u64, n: int, env: Env)
    requires -0x1_0000_0000_0000_0000 <= n <= 0x1_0000_0000_0000_0000,
    ensures if env(v) >= n { met_by(numeric_ops::var_at_least(v, n), env) } else { missed_by(numeric_ops::var_at_least(v, n), env) },
{
    step_laws::lemma_bound(numeric_steps::at_most(numeric_steps::just_num(n), numeric_steps::just_var(v)), v, n, false, env);
}

proof fn lemma_ordered(v: u64, w: u64, env: Env)
    ensures if env(v) <= env(w) { met_by(numeric_ops::var_at_most_var(v, w), env) } else { missed_by(numeric_ops::var_at_most_var(v, w), env) },
{
    step_laws::lemma_difference(numeric_steps::at_most(numeric_steps::just_var(v), numeric_steps::just_var(w)), v, w, env);
}

/// All operations say something that a valuation meets.
pub open spec fn all_met(ops: Seq<Step>, env: Env) -> bool {
    forall|i: int| 0 <= i < ops.len() ==> met_by(#[trigger] ops[i], env)
}

/// Some operation says something that a valuation does not meet.
pub open spec fn some_missed(ops: Seq<Step>, env: Env) -> bool {
    exists|i: int| 0 <= i < ops.len() && missed_by(#[trigger] ops[i], env)
}

proof fn lemma_both(first: Seq<Step>, second: Seq<Step>, env: Env)
    ensures
        all_met(first, env) && all_met(second, env) ==> all_met(first + second, env),
        some_missed(first, env) || some_missed(second, env) ==> some_missed(first + second, env),
{
    let ops = first + second;
    if all_met(first, env) && all_met(second, env) {
        assert forall|i: int| 0 <= i < ops.len() implies met_by(#[trigger] ops[i], env) by {
            if i < first.len() { assert(ops[i] == first[i]); } else { assert(ops[i] == second[i - first.len()]); }
        }
    }
    if some_missed(first, env) {
        let i = choose|i: int| 0 <= i < first.len() && missed_by(#[trigger] first[i], env);
        assert(ops[i] == first[i]);
    }
    if some_missed(second, env) {
        let i = choose|i: int| 0 <= i < second.len() && missed_by(#[trigger] second[i], env);
        assert(ops[first.len() + i] == second[i]);
    }
}

proof fn lemma_counters(i: int, counters: Seq<Variable>, n: nat, env: Env)
    requires n <= counters.len(),
    ensures
        (forall|j: int| 0 <= j < n ==> counter_in_range(env, (#[trigger] counters[j]).id, i)) ==> all_met(ebpf_domain::counter_limits(var_registry::reg_var(DataKind::Svalues, i).id, counters, n), env),
        !(forall|j: int| 0 <= j < n ==> counter_in_range(env, (#[trigger] counters[j]).id, i)) ==> some_missed(ebpf_domain::counter_limits(var_registry::reg_var(DataKind::Svalues, i).id, counters, n), env),
    decreases n,
{
    if n > 0 {
        let s = var_registry::reg_var(DataKind::Svalues, i).id;
        let m = (n - 1) as nat;
        let c = counters[m as int].id;
        lemma_counters(i, counters, m, env);
        let more = seq![numeric_ops::var_at_most(c, i32::MAX as int), numeric_ops::var_at_least(c, 0), numeric_ops::var_at_most_var(c, s)];
        lemma_at_most(c, i32::MAX as int, env);
        lemma_at_least(c, 0, env);
        lemma_ordered(c, s, env);
        if !counter_in_range(env, c, i) {
            assert(missed_by(more[0], env) || missed_by(more[1], env) || missed_by(more[2], env));
        }
        lemma_both(ebpf_domain::counter_limits(s, counters, m), more, env);
        if forall|j: int| 0 <= j < n ==> counter_in_range(env, (#[trigger] counters[j]).id, i) {
            assert(counter_in_range(env, counters[m as int].id, i));
        }
    }
}

/// All of a list of counters are in range.
spec fn counters_in_range(env: Env, counters: Seq<Variable>, i: int) -> bool {
    forall|j: int| 0 <= j < counters.len() ==> counter_in_range(env, (#[trigger] counters[j]).id, i)
}

#[verifier::rlimit(40)]
proof fn lemma_register(i: int, total: int, counters: Seq<Variable>, bounded: bool, env: Env)
    requires 0 <= total <= 0x1_0000_0000,
    ensures
        if register_in_range(total, env, i) && (bounded ==> counters_in_range(env, counters, i)) {
            all_met(ebpf_domain::limits_of(i, total, counters, bounded), env)
        } else {
            some_missed(ebpf_domain::limits_of(i, total, counters, bounded), env)
        },
{
    let s = var_registry::reg_var(DataKind::Svalues, i).id;
    let u = var_registry::reg_var(DataKind::Uvalues, i).id;
    let stack = var_registry::reg_var(DataKind::StackOffsets, i).id;
    let shared = var_registry::reg_var(DataKind::SharedOffsets, i).id;
    let region = var_registry::reg_var(DataKind::SharedRegionSizes, i).id;
    let packet = var_registry::reg_var(DataKind::PacketOffsets, i).id;
    let all = ebpf_domain::limits_of(i, total, counters, bounded);
    let rest = if bounded { ebpf_domain::counter_limits(s, counters, counters.len()) } else { seq![] };
    let first = all.take(10);
    assert(all =~= first + rest);
    lemma_at_most(s, i32::MAX as int, env);
    lemma_at_least(s, i32::MIN as int, env);
    lemma_at_most(u, u32::MAX as int, env);
    lemma_at_least(u, 0, env);
    lemma_at_most(stack, total, env);
    lemma_at_least(stack, 0, env);
    lemma_ordered(shared, region, env);
    lemma_at_least(shared, 0, env);
    lemma_ordered(packet, 183, env);
    lemma_at_least(packet, 0, env);
    lemma_counters(i, counters, counters.len(), env);
    if !register_in_range(total, env, i) {
        assert(missed_by(first[0], env) || missed_by(first[1], env) || missed_by(first[2], env) || missed_by(first[3], env) || missed_by(first[4], env)
            || missed_by(first[5], env) || missed_by(first[6], env) || missed_by(first[7], env) || missed_by(first[8], env) || missed_by(first[9], env));
        assert(some_missed(first, env));
    } else {
        assert(all_met(first, env));
    }
    lemma_both(first, rest, env);
}

proof fn lemma_registers(n: nat, total: int, counters: Seq<Variable>, bounded: bool, env: Env)
    requires 0 <= total <= 0x1_0000_0000,
    ensures
        if forall|i: int| 0 <= i < n ==> #[trigger] register_in_range(total, env, i) && (bounded ==> counters_in_range(env, counters, i)) {
            all_met(ebpf_domain::limit_steps(n, total, counters, bounded), env)
        } else {
            some_missed(ebpf_domain::limit_steps(n, total, counters, bounded), env)
        },
    decreases n,
{
    if n > 0 {
        let m = (n - 1) as nat;
        lemma_registers(m, total, counters, bounded, env);
        lemma_register(n - 1, total, counters, bounded, env);
        lemma_both(ebpf_domain::limit_steps(m, total, counters, bounded), ebpf_domain::limits_of(n - 1, total, counters, bounded), env);
        assert(register_in_range(total, env, m as int) == register_in_range(total, env, n - 1));
    }
}

/// The limits of widening are the range of the machine: a valuation in the range meets all of them, and
/// one outside of it fails to meet some.
pub proof fn limits_are_the_range(ctx: &DomainContext, r: RegistryView, counters: Seq<Variable>, env: Env)
    requires ctx.runtime.valid(), ebpf_domain::lists_counters(r, counters),
    ensures
        in_range(ctx, r, env) ==> all_met(ebpf_domain::limit_steps(10, ctx.runtime.stack_size(), counters, ctx.options.check_for_termination), env),
        !in_range(ctx, r, env) ==> some_missed(ebpf_domain::limit_steps(10, ctx.runtime.stack_size(), counters, ctx.options.check_for_termination), env),
{
    let total = ctx.runtime.stack_size();
    let bounded = ctx.options.check_for_termination;
    lemma_total(ctx);
    lemma_registers(10, total, counters, bounded, env);
    if in_range(ctx, r, env) {
        assert forall|i: int| 0 <= i < 10 implies #[trigger] register_in_range(total, env, i) && (bounded ==> counters_in_range(env, counters, i)) by {
            if bounded {
                assert forall|j: int| 0 <= j < counters.len() implies counter_in_range(env, (#[trigger] counters[j]).id, i) by {
                    assert(r.knows(counters[j]));
                }
            }
        }
    } else if forall|i: int| 0 <= i < 10 ==> #[trigger] register_in_range(total, env, i) && (bounded ==> counters_in_range(env, counters, i)) {
        assert forall|c: Variable, i: int| bounded && r.knows(c) && r.meta(c).is_loop_counter && 0 <= i < 10 implies #[trigger] counter_in_range(env, c.id, i) by {
            assert(register_in_range(total, env, i));
            assert(counters.contains(c));
            let j = choose|j: int| 0 <= j < counters.len() && counters[j] == c;
            assert(counter_in_range(env, counters[j].id, i));
        }
    }
}

proof fn lemma_total(ctx: &DomainContext)
    requires ctx.runtime.valid(),
    ensures 0 <= ctx.runtime.stack_size() <= 0x1_0000_0000,
{
    let a = ctx.runtime.subprogram_stack_size as int;
    let b = ctx.runtime.max_call_stack_frames as int;
    assert(0 <= a * b <= 0x1_0000_0000) by (nonlinear_arith) requires 1 <= a <= 65536, 1 <= b <= 64;
}

/// An operation leaves a valuation possible.
pub open spec fn kept_by(op: Step, env: Env) -> bool {
    step_laws::moves(op, env, env) && step_laws::operand_fits(op)
}

/// What leaves a valuation possible reaches it again.
pub proof fn lemma_kept(ops: Seq<Step>, env: Env)
    requires forall|i: int| 0 <= i < ops.len() ==> kept_by(#[trigger] ops[i], env), interval_laws::modest(env),
    ensures step_laws::reaches(ops, env, env),
    decreases ops.len(),
{
    step_laws::reaches_nothing(env);
    if ops.len() == 0 {
        assert(ops =~= Seq::<Step>::empty());
    } else {
        let first = ops.drop_last();
        assert forall|i: int| 0 <= i < first.len() implies kept_by(#[trigger] first[i], env) by { assert(first[i] == ops[i]); }
        lemma_kept(first, env);
        assert(kept_by(ops[ops.len() - 1], env));
        step_laws::reaches_next(first, env, env, ops.last(), env);
        assert(first.push(ops.last()) =~= ops);
    }
}

/// What is met reaches the same valuation.
proof fn lemma_met(ops: Seq<Step>, env: Env)
    requires all_met(ops, env), interval_laws::modest(env),
    ensures step_laws::reaches(ops, env, env),
{
    assert forall|i: int| 0 <= i < ops.len() implies kept_by(#[trigger] ops[i], env) by { assert(met_by(ops[i], env)); }
    lemma_kept(ops, env);
}

/// The state of the limits describes every valuation in the range, with any types.
pub proof fn limits_describe_the_range(ctx: &DomainContext, r: RegistryView, d: &EbpfDomain, env: Env, typing: Typing)
    requires ctx.runtime.valid(), ebpf_domain::is_limits(ctx, r, d), in_range(ctx, r, env), interval_laws::modest(env),
    ensures demands::describes(d, env), d.state.types.state is Some, type_domain::admits(d.state.types.s(), typing),
{
    let counters = choose|counters: Seq<Variable>| #[trigger] ebpf_domain::lists_counters(r, counters)
        && numeric_steps::performs(Some(ZEdges::empty()), r, r, ebpf_domain::limit_steps(10, ctx.runtime.stack_size(), counters, ctx.options.check_for_termination), d.num());
    let ops = ebpf_domain::limit_steps(10, ctx.runtime.stack_size(), counters, ctx.options.check_for_termination);
    limits_are_the_range(ctx, r, counters, env);
    lemma_met(ops, env);
    step_laws::operations_are_sound(Some(ZEdges::empty()), r, r, ops, d.num(), env, env);
    type_domain::unknown_is_free(d.state.types.s(), typing);
}

// ---------------------------------------------------------------------------------------------
// Joining and widening
// ---------------------------------------------------------------------------------------------

/// A state admits the values and the types.
pub open spec fn holds_of(d: &EbpfDomain, env: Env, typing: Typing) -> bool {
    demands::describes(d, env) && d.state.types.state is Some && type_domain::admits(d.state.types.s(), typing)
}

/// The variables that mean something on one side only have values there in the other side's interval:
/// on the left side of two states, or on the right.
pub open spec fn fits_other(l: &TypeToNumDomain, r: &TypeToNumDomain, before: RegistryView, after: RegistryView, env: Env, left: bool) -> bool {
    let names = rcp::sided_names(&l.types, &r.types, before, before.type_variables().len());
    forall|i: int, x: Variable| #![trigger names[i], rcp::is_named(after, x, names[i].0)] 0 <= i < names.len() && names[i].1 != left && rcp::is_named(after, x, names[i].0) ==>
        (if left { r.values } else { l.values }).interval(x.id).has(env(x.id))
}

/// Setting a variable to an interval that holds its value keeps the valuation.
proof fn lemma_put_keeps(z: ZEdges, v: u64, iv: Interval, mo: bool, env: Env)
    requires zone_model::zholds(z, env), iv.has(env(v)), zone_model::mild(env),
    ensures zone_model::zholds(zone_model::zput(z, v, iv, mo), env),
{
    let t = zone_model::zput(z, v, iv, mo);
    let cleared = zone_model::zwithout(z, zone_model::node(v));
    assert(zone_model::node_value(env, zone_model::node(v)) == env(v));
    assert(-crate::splitdbm::constraints::REACH <= env(v) <= crate::splitdbm::constraints::REACH);
    assert forall|a: int, b: int| #![trigger t.contains_key((a, b))] t.contains_key((a, b)) implies
        zone_model::node_value(env, b) - zone_model::node_value(env, a) <= t[(a, b)]@ by {
        if (a, b) != (zone_model::node(v), 0int) && (a, b) != (0int, zone_model::node(v)) {
            assert(cleared.contains_key((a, b)));
            assert(z.contains_key((a, b)));
        }
    }
}

/// The values of a list of variables are in the intervals listed with them.
spec fn listed(extra: Seq<(Variable, Interval)>, env: Env) -> bool {
    forall|i: int| 0 <= i < extra.len() ==> (#[trigger] extra[i]).1.has(env(extra[i].0.id))
}

proof fn lemma_puts_keep(states: Seq<Num>, r: RegistryView, extra: Seq<(Variable, Interval)>, env: Env, n: int)
    requires
        states.len() == extra.len() + 1,
        numeric_steps::is_path(states, r, r, rcp::put_steps(extra)),
        states[0] is Some,
        zone_model::zholds(states[0]->Some_0, env),
        interval_laws::modest(env),
        listed(extra, env),
        0 <= n <= extra.len(),
    ensures states[n] is Some, zone_model::zholds(states[n]->Some_0, env),
    decreases n,
{
    if n > 0 {
        let ops = rcp::put_steps(extra);
        let i = n - 1;
        lemma_puts_keep(states, r, extra, env, i);
        assert(numeric_steps::step_between(states[i], r, r, ops[i], states[i + 1]));
        let g = choose|g: RegistryView| g.extends(r) && r.extends(g) && #[trigger] numeric_steps::step(states[i], g, ops[i], states[i + 1]);
        let p = extra[i];
        assert(ops[i] == Step::Put(p.0.id, p.1));
        assert(p.1.has(env(p.0.id)));
        reveal(numeric_steps::step);
        step_laws::lemma_modest(env);
        lemma_put_keeps(states[i]->Some_0, p.0.id, p.1, g.metas[p.0.id as int].is_min_only, env);
    }
}

proof fn lemma_listed(l: &TypeToNumDomain, r: &TypeToNumDomain, before: RegistryView, after: RegistryView, xs: Seq<Variable>, env: Env, left: bool, n: nat)
    requires
        (if left { l.num() } else { r.num() }) is Some,
        zone_model::zholds((if left { l.values } else { r.values }).z(), env),
        zone_model::mild(env),
        fits_other(l, r, before, after, env, left),
        rcp::named_all(after, xs, rcp::bare_names(rcp::sided_names(&l.types, &r.types, before, before.type_variables().len()))),
        n <= xs.len(),
    ensures listed(rcp::sided_intervals(&l.values, &r.values, xs, rcp::sided_names(&l.types, &r.types, before, before.type_variables().len()), n), env),
    decreases n,
{
    if n > 0 {
        let names = rcp::sided_names(&l.types, &r.types, before, before.type_variables().len());
        let m = (n - 1) as nat;
        lemma_listed(l, r, before, after, xs, env, left, m);
        let x = xs[m as int];
        let bare = rcp::bare_names(names);
        assert(bare[m as int] == names[m as int].0);
        assert(rcp::is_named(after, xs[m as int], bare[m as int]));
        assert(rcp::is_named(after, x, names[m as int].0));
        zone_model::interval_is_sound((if left { l.values } else { r.values }).z(), x.id, env);
    }
}

proof fn lemma_extra(l: &TypeToNumDomain, r: &TypeToNumDomain, before: RegistryView, after: RegistryView, extra: Seq<(Variable, Interval)>, mid: ZEdges, n: Num, env: Env, left: bool)
    requires
        rcp::type_dependent(l, r, before, after, extra),
        numeric_steps::performs(Some(mid), after, after, rcp::put_steps(extra), n),
        (if left { l.num() } else { r.num() }) is Some,
        zone_model::zholds((if left { l.values } else { r.values }).z(), env),
        interval_laws::modest(env),
        fits_other(l, r, before, after, env, left),
        zone_model::zholds(mid, env),
    ensures n is Some, zone_model::zholds(n->Some_0, env),
{
    let names = rcp::sided_names(&l.types, &r.types, before, before.type_variables().len());
    let xs = choose|xs: Seq<Variable>| #[trigger] rcp::named_all(after, xs, rcp::bare_names(names))
        && extra == rcp::sided_intervals(&l.values, &r.values, xs, names, names.len());
    step_laws::lemma_modest(env);
    lemma_listed(l, r, before, after, xs, env, left, names.len());
    let ops = rcp::put_steps(extra);
    let states = choose|states: Seq<Num>| states.len() == ops.len() + 1 && states[0] == Some(mid) && states[ops.len() as int] == n && #[trigger] numeric_steps::is_path(states, after, after, ops);
    lemma_puts_keep(states, after, extra, env, extra.len() as int);
}

/// The types of a state that joins two admit what either admits.
proof fn lemma_types(l: &TypeDomain, r: &TypeDomain, t: &TypeDomain, typing: Typing)
    requires
        l.wf(), r.wf(), t.wf(),
        rcp::widened_types(l, r, t),
        l.state is Some && type_domain::admits(l.s(), typing) || r.state is Some && type_domain::admits(r.s(), typing),
    ensures t.state is Some, type_domain::admits(t.s(), typing),
{
    if l.state is Some && r.state is Some {
        type_domain::joining_is_sound(l.s(), r.s(), t.s(), typing);
    } else if l.state is Some {
        type_domain::lemma_same_admits(l.s(), t.s(), typing);
    } else {
        type_domain::lemma_same_admits(r.s(), t.s(), typing);
    }
}

/// A widened state holds of everything that either state holds of, where the variables that mean
/// something on one side only fit. Its bytes are numbers where those of both are.
pub proof fn widening_excludes_nothing(a: &EbpfDomain, b: &EbpfDomain, older: RegistryView, newer: RegistryView, w: &EbpfDomain, env: Env, typing: Typing, left: bool)
    requires
        a.wf(), b.wf(), w.wf(),
        ebpf_domain::widened(a, b, older, newer, w),
        holds_of(if left { a } else { b }, env, typing),
        fits_other(&a.state, &b.state, older, newer, env, left),
    ensures
        holds_of(w, env, typing),
        forall|k: int| 0 <= k < a.stack.bits().len() ==> (#[trigger] w.stack.bits()[k]) == (a.stack.bits()[k] || b.stack.bits()[k]),
{
    let (extra, mid) = choose|extra: Seq<(Variable, Interval)>, mid: Num| rcp::type_dependent(&a.state, &b.state, older, newer, extra)
        && rcp::widened_numbers(a.num(), b.num(), mid)
        && #[trigger] numeric_steps::performs(mid, newer, newer, rcp::put_steps(extra), w.num());
    step_laws::lemma_modest(env);
    assert(zone_model::broad(env));
    assert(mid is Some && zone_model::zholds(mid->Some_0, env));
    lemma_extra(&a.state, &b.state, older, newer, extra, mid->Some_0, w.num(), env, left);
    lemma_types(&a.state.types, &b.state.types, &w.state.types, typing);
}

/// A joined state holds of everything that either state holds of, where the variables that mean
/// something on one side only fit. Its bytes are numbers where those of both are.
pub proof fn joining_excludes_nothing(a: &EbpfDomain, b: &EbpfDomain, older: RegistryView, newer: RegistryView, j: &EbpfDomain, env: Env, typing: Typing, left: bool)
    requires
        a.wf(), b.wf(), j.wf(),
        ebpf_domain::state_joined(&a.state, &b.state, older, newer, &j.state),
        ebpf_domain::stack_joined(&a.stack, &b.stack, &j.stack),
        a.num() is Some,
        b.num() is Some,
        holds_of(if left { a } else { b }, env, typing),
        fits_other(&a.state, &b.state, older, newer, env, left),
    ensures
        holds_of(j, env, typing),
        forall|k: int| 0 <= k < a.stack.bits().len() ==> (#[trigger] j.stack.bits()[k]) == (a.stack.bits()[k] || b.stack.bits()[k]),
{
    let (extra, mid) = choose|extra: Seq<(Variable, Interval)>, mid: ZEdges| rcp::type_dependent(&a.state, &b.state, older, newer, extra)
        && zone_model::zjoined(a.state.values.z(), b.state.values.z(), mid)
        && #[trigger] numeric_steps::performs(Some(mid), newer, newer, rcp::put_steps(extra), j.num());
    step_laws::lemma_modest(env);
    assert(zone_model::broad(env));
    lemma_extra(&a.state, &b.state, older, newer, extra, mid, j.num(), env, left);
    if a.state.types.state is Some && b.state.types.state is None {
        type_domain::lemma_same_admits(a.state.types.s(), j.state.types.s(), typing);
    } else {
        lemma_types(&a.state.types, &b.state.types, &j.state.types, typing);
    }
}

/// A meet holds of what both states hold of, and of nothing else.
pub proof fn meets_are_exact(a: &EbpfDomain, b: &EbpfDomain, m: &EbpfDomain, env: Env, typing: Typing)
    requires ebpf_domain::is_meet(a, b, m),
    ensures holds_of(m, env, typing) == (holds_of(a, env, typing) && holds_of(b, env, typing)),
{
    if interval_laws::modest(env) {
        step_laws::lemma_modest(env);
    }
    if m.num() is Some {
        assert(type_domain::admits(m.state.types.s(), typing) <==> type_domain::admits(a.state.types.s(), typing) && type_domain::admits(b.state.types.s(), typing));
    }
}

/// Widening within the constant limits excludes no state of either operand that respects the range of
/// the machine: what either holds of, with values in the range, the result holds of too, and so it is not
/// bottom. Its bytes are numbers where those of both are.
pub proof fn limited_widening_excludes_nothing_in_range(a: &EbpfDomain, b: &EbpfDomain, ctx: &DomainContext, older: RegistryView, mid: RegistryView, newer: RegistryView,
    w: &EbpfDomain, l: &EbpfDomain, r: &EbpfDomain, env: Env, typing: Typing, left: bool)
    requires
        a.wf(), b.wf(), w.wf(), l.wf(),
        ctx.runtime.valid(),
        a.stack.map().total() == ctx.runtime.stack_size(),
        ebpf_domain::widened(a, b, older, mid, w),
        ebpf_domain::is_limits(ctx, newer, l),
        ebpf_domain::is_meet(w, l, r),
        holds_of(if left { a } else { b }, env, typing),
        fits_other(&a.state, &b.state, older, mid, env, left),
        in_range(ctx, newer, env),
    ensures
        holds_of(r, env, typing),
        r.num() is Some,
        forall|k: int| 0 <= k < ctx.runtime.stack_size() ==> (#[trigger] r.stack.bits()[k]) == (a.stack.bits()[k] || b.stack.bits()[k]),
{
    widening_excludes_nothing(a, b, older, mid, w, env, typing, left);
    limits_describe_the_range(ctx, newer, l, env, typing);
    meets_are_exact(w, l, r, env, typing);
    lemma_total(ctx);
    a.stack.parts_are_wf();
    assert forall|k: int| 0 <= k < ctx.runtime.stack_size() implies (#[trigger] r.stack.bits()[k]) == (a.stack.bits()[k] || b.stack.bits()[k]) by {
        assert(w.stack.bits()[k] == (a.stack.bits()[k] || b.stack.bits()[k]));
    }
}

/// Nothing means something on one side only where both states may have the same types.
pub proof fn same_types_fit(l: &TypeToNumDomain, r: &TypeToNumDomain, before: RegistryView, after: RegistryView, env: Env, left: bool)
    requires forall|v: u64, te: TypeEncoding| #[trigger] l.types.may_have(v, te) == r.types.may_have(v, te),
    ensures fits_other(l, r, before, after, env, left),
{
    lemma_no_names(&l.types, &r.types, before, before.type_variables().len());
}

proof fn lemma_no_names(l: &TypeDomain, r: &TypeDomain, reg: RegistryView, n: nat)
    requires forall|v: u64, te: TypeEncoding| #[trigger] l.may_have(v, te) == r.may_have(v, te),
    ensures rcp::sided_names(l, r, reg, n).len() == 0,
    decreases n,
{
    if n > 0 {
        let v = reg.type_variables()[n - 1];
        lemma_no_names(l, r, reg, (n - 1) as nat);
        lemma_no_names_of(l, r, v.id, reg.name(v), 6);
    }
}

proof fn lemma_no_names_of(l: &TypeDomain, r: &TypeDomain, v: u64, name: Seq<char>, p: nat)
    requires forall|v: u64, te: TypeEncoding| #[trigger] l.may_have(v, te) == r.may_have(v, te),
    ensures rcp::sided_names_of(l, r, v, name, p).len() == 0,
    decreases p,
{
    if p > 0 {
        lemma_no_names_of(l, r, v, name, (p - 1) as nat);
        assert(l.may_have(v, rcp::kinded(p - 1)) == r.may_have(v, rcp::kinded(p - 1)));
    }
}

// ---------------------------------------------------------------------------------------------
// The start of a program
// ---------------------------------------------------------------------------------------------

/// What a program finds at its start: the stack pointer at the end of the stack and above it in memory,
/// the first argument at the start of the context where it is given, a packet of less than 64 kilobytes,
/// and metadata of at most 4098 bytes before it where there is any.
pub open spec fn is_start(total: int, meta: int, init_r1: bool, env: Env) -> bool {
    &&& total <= of(env, DataKind::Svalues, 10) <= 0x7fff_0000
    &&& of(env, DataKind::StackOffsets, 10) == total
    &&& init_r1 ==> 1 <= of(env, DataKind::Svalues, 1) <= 0x7fff_0000 && of(env, DataKind::CtxOffsets, 1) == 0
    &&& is_packet(meta, env)
}

/// A packet that a program may be given, with its metadata.
pub open spec fn is_packet(meta: int, env: Env) -> bool {
    0 <= env(183) < 0xffff && if meta >= 0 { -4098 <= env(182) <= 0 } else { env(182) == 0 }
}

proof fn lemma_set(v: u64, n: int, env: Env)
    requires env(v) == n, -0x1_0000_0000_0000_0000 <= n <= 0x1_0000_0000_0000_0000,
    ensures kept_by(numeric_ops::set_number(v, n), env),
{
    assert(env =~= zone_model::env_with(env, v, env(v)));
}

proof fn lemma_packet_kept(meta: int, env: Env)
    requires is_packet(meta, env), interval_laws::modest(env),
    ensures step_laws::reaches(ebpf_domain::packet_steps(meta), env, env),
{
    let ops = ebpf_domain::packet_steps(meta);
    assert(env =~= zone_model::env_with(env, 183, env(183)));
    assert(env =~= zone_model::env_with(env, 182, env(182)));
    lemma_at_least(183, 0, env);
    lemma_at_least(182, -4098, env);
    lemma_at_most(182, 0, env);
    if meta < 0 { lemma_set(182, 0, env); }
    step_laws::lemma_bound(numeric_steps::below(numeric_steps::just_var(183), numeric_steps::just_num(0xffff)), 183, 0xffff, true, env);
    assert forall|i: int| 0 <= i < ops.len() implies kept_by(#[trigger] ops[i], env) by {}
    lemma_kept(ops, env);
}

/// The state at the start of a program describes everything that the program may find there.
#[verifier::rlimit(40)]
pub proof fn starts_are_described(ctx: &DomainContext, init_r1: bool, r: RegistryView, d: &EbpfDomain, env: Env)
    requires
        ctx.runtime.valid(),
        numeric_steps::performs(Some(ZEdges::empty()), r, r, ebpf_domain::entry_steps(init_r1, ctx.runtime.stack_size(), ctx.layout().meta as int), d.num()),
        is_start(ctx.runtime.stack_size(), ctx.layout().meta as int, init_r1, env),
        interval_laws::modest(env),
    ensures demands::describes(d, env),
{
    let total = ctx.runtime.stack_size();
    let meta = ctx.layout().meta as int;
    lemma_total(ctx);
    let ops = ebpf_domain::entry_steps(init_r1, total, meta);
    let last = ebpf_domain::packet_steps(meta);
    let n = ops.len() - last.len();
    let first = ops.take(n);
    assert(ops =~= first + last);
    let s10 = var_registry::reg_var(DataKind::Svalues, 10).id;
    lemma_at_least(s10, total, env);
    lemma_at_most(s10, 0x7fff_0000, env);
    lemma_set(var_registry::reg_var(DataKind::StackOffsets, 10).id, total, env);
    if init_r1 {
        let s1 = var_registry::reg_var(DataKind::Svalues, 1).id;
        lemma_at_least(s1, 1, env);
        lemma_at_most(s1, 0x7fff_0000, env);
        lemma_set(var_registry::reg_var(DataKind::CtxOffsets, 1).id, 0, env);
    }
    assert forall|i: int| 0 <= i < first.len() implies kept_by(#[trigger] first[i], env) by {
        assert(first[i] == ops[i]);
    }
    lemma_kept(first, env);
    lemma_packet_kept(meta, env);
    step_laws::reaches_both(first, last, env, env, env);
    step_laws::operations_are_sound(Some(ZEdges::empty()), r, r, ops, d.num(), env, env);
}

/// A new packet may be any packet, and nothing else changes: what was described with one packet is
/// described with every other.
pub proof fn new_packets_are_described(ctx: &DomainContext, r: RegistryView, a: &EbpfDomain, b: &EbpfDomain, env: Env, next: Env)
    requires
        a.wf(),
        numeric_steps::performs(a.num(), r, r, ebpf_domain::packet_steps(ctx.layout().meta as int), b.num()),
        demands::describes(a, env),
        forall|v: u64| v != 182 && v != 183 ==> #[trigger] next(v) == env(v),
        is_packet(ctx.layout().meta as int, next),
    ensures demands::describes(b, next),
{
    let meta = ctx.layout().meta as int;
    let ops = ebpf_domain::packet_steps(meta);
    let mid = zone_model::env_with(env, 183, next(183));
    let other = zone_model::env_with(mid, 182, next(182));
    assert(other =~= next);
    assert(interval_laws::modest(mid)) by {
        assert forall|k: u64| -interval_laws::MODEST <= #[trigger] mid(k) <= interval_laws::MODEST by { assert(-interval_laws::MODEST <= env(k) <= interval_laws::MODEST); }
    }
    assert(interval_laws::modest(next)) by {
        assert forall|k: u64| -interval_laws::MODEST <= #[trigger] next(k) <= interval_laws::MODEST by { assert(-interval_laws::MODEST <= env(k) <= interval_laws::MODEST); }
    }
    let first = seq![Step::Forget(183), Step::Forget(182)];
    step_laws::reaches_nothing(env);
    step_laws::reaches_next(seq![], env, env, Step::Forget(183), mid);
    step_laws::reaches_next(Seq::<Step>::empty().push(Step::Forget(183)), env, mid, Step::Forget(182), next);
    assert(Seq::<Step>::empty().push(Step::Forget(183)).push(Step::Forget(182)) =~= first);
    let rest = ops.skip(2);
    assert(ops =~= first + rest);
    lemma_at_least(183, 0, next);
    lemma_at_least(182, -4098, next);
    lemma_at_most(182, 0, next);
    if meta < 0 { lemma_set(182, 0, next); }
    step_laws::lemma_bound(numeric_steps::below(numeric_steps::just_var(183), numeric_steps::just_num(0xffff)), 183, 0xffff, true, next);
    assert forall|i: int| 0 <= i < rest.len() implies kept_by(#[trigger] rest[i], next) by {
        assert(rest[i] == ops[i + 2]);
    }
    lemma_kept(rest, next);
    step_laws::reaches_both(first, rest, env, next, next);
    a.state.values.dom->Some_0.dom.constraints_are_proper();
    step_laws::operations_are_sound(a.num(), r, r, ops, b.num(), env, next);
}

/// A zone holds a variable at a number.
pub open spec fn pins(z: ZEdges, v: u64, n: int) -> bool {
    &&& z.contains_key((0int, zone_model::node(v))) && z[(0int, zone_model::node(v))]@ <= n
    &&& z.contains_key((zone_model::node(v), 0int)) && z[(zone_model::node(v), 0int)]@ <= -n
}

/// Setting and forgetting other variables, and bounds, keep a variable at its number.
spec fn spares(op: Step, v: u64) -> bool {
    match op {
        Step::Forget(w) => w != v,
        Step::Put(w, _) => w != v,
        Step::Say(l) => l.kind is LessThanOrEqualsZero || l.kind is LessThanZero,
        _ => false,
    }
}

proof fn lemma_pinned(states: Seq<Num>, older: RegistryView, newer: RegistryView, ops: Seq<Step>, v: u64, n: int, from: int, to: int)
    requires
        states.len() == ops.len() + 1,
        numeric_steps::is_path(states, older, newer, ops),
        0 <= from <= to <= ops.len(),
        states[from] matches Some(z) && pins(z, v, n),
        forall|i: int| from <= i < ops.len() ==> spares(#[trigger] ops[i], v),
    ensures states[to] matches Some(z) ==> pins(z, v, n),
    decreases to - from,
{
    if from < to {
        let i = to - 1;
        lemma_pinned(states, older, newer, ops, v, n, from, i);
        assert(numeric_steps::step_between(states[i], older, newer, ops[i], states[i + 1]));
        let r = choose|r: RegistryView| r.extends(older) && newer.extends(r) && #[trigger] numeric_steps::step(states[i], r, ops[i], states[i + 1]);
        assert(spares(ops[i], v));
        reveal(numeric_steps::step);
        if states[i] is None { numeric_steps::step_from_nothing(r, ops[i], states[to]); }
    }
}

proof fn lemma_pin(ops: Seq<Step>, at: int, v: u64, n: int, r: RegistryView, b: Num)
    requires
        numeric_steps::performs(Some(ZEdges::empty()), r, r, ops, b),
        0 <= at < ops.len(),
        ops[at] == numeric_ops::set_number(v, n),
        forall|i: int| at < i < ops.len() ==> spares(#[trigger] ops[i], v),
        v < r.metas.len(),
        !r.metas[v as int].is_min_only,
        -0x1_0000_0000_0000_0000 <= n <= 0x1_0000_0000_0000_0000,
        b is Some,
    ensures pins(b->Some_0, v, n),
{
    let states = choose|states: Seq<Num>| states.len() == ops.len() + 1 && states[0] == Some(ZEdges::empty()) && states[ops.len() as int] == b && #[trigger] numeric_steps::is_path(states, r, r, ops);
    assert(numeric_steps::step_between(states[at], r, r, ops[at], states[at + 1]));
    let g = choose|g: RegistryView| g.extends(r) && r.extends(g) && #[trigger] numeric_steps::step(states[at], g, ops[at], states[at + 1]);
    lemma_something(states, r, ops, at);
    reveal(numeric_steps::step);
    assert(Interval::point(Number { n: n as i128 }).has(n));
    lemma_pinned(states, r, r, ops, v, n, at + 1, ops.len() as int);
}

/// What leads to something leads there through something.
proof fn lemma_something(states: Seq<Num>, r: RegistryView, ops: Seq<Step>, at: int)
    requires states.len() == ops.len() + 1, numeric_steps::is_path(states, r, r, ops), states[ops.len() as int] is Some, 0 <= at <= ops.len(),
    ensures states[at] is Some,
    decreases ops.len() - at,
{
    if at < ops.len() {
        lemma_something(states, r, ops, at + 1);
        assert(numeric_steps::step_between(states[at], r, r, ops[at], states[at + 1]));
        let g = choose|g: RegistryView| g.extends(r) && r.extends(g) && #[trigger] numeric_steps::step(states[at], g, ops[at], states[at + 1]);
        if states[at] is None { numeric_steps::step_from_nothing(g, ops[at], states[at + 1]); }
    }
}

/// At the start of a program the stack pointer points to the end of the stack, and the first argument to
/// the start of the context.
pub proof fn starts_are_fixed(ctx: &DomainContext, init_r1: bool, r: RegistryView, d: &EbpfDomain, env: Env)
    requires
        ctx.runtime.valid(),
        r.ready(),
        numeric_steps::performs(Some(ZEdges::empty()), r, r, ebpf_domain::entry_steps(init_r1, ctx.runtime.stack_size(), ctx.layout().meta as int), d.num()),
        demands::describes(d, env),
    ensures
        of(env, DataKind::StackOffsets, 10) == ctx.runtime.stack_size(),
        init_r1 ==> of(env, DataKind::CtxOffsets, 1) == 0,
{
    let total = ctx.runtime.stack_size();
    let meta = ctx.layout().meta as int;
    lemma_total(ctx);
    let ops = ebpf_domain::entry_steps(init_r1, total, meta);
    r.register_variable(DataKind::StackOffsets, 10);
    r.register_variable(DataKind::CtxOffsets, 1);
    let off = var_registry::reg_var(DataKind::StackOffsets, 10).id;
    let ctxoff = var_registry::reg_var(DataKind::CtxOffsets, 1).id;
    lemma_pin(ops, 2, off, total, r, d.num());
    let z = d.state.values.z();
    assert(zone_model::node_value(env, zone_model::node(off)) - zone_model::node_value(env, 0) <= z[(0int, zone_model::node(off))]@);
    assert(zone_model::node_value(env, 0) - zone_model::node_value(env, zone_model::node(off)) <= z[(zone_model::node(off), 0int)]@);
    if init_r1 {
        lemma_pin(ops, 5, ctxoff, 0, r, d.num());
        assert(zone_model::node_value(env, zone_model::node(ctxoff)) - zone_model::node_value(env, 0) <= z[(0int, zone_model::node(ctxoff))]@);
        assert(zone_model::node_value(env, 0) - zone_model::node_value(env, zone_model::node(ctxoff)) <= z[(zone_model::node(ctxoff), 0int)]@);
    }
}

}
