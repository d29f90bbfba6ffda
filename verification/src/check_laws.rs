//! What an accepted assertion promises of every valuation that the state admits.
use vstd::prelude::*;
use crate::arith::extended_number::ExtendedNumber;
use crate::acts;
use crate::arith::linear_constraint::LinearConstraint;
use crate::arith::linear_expression::{Env, LinearExpression};
use crate::arith::number::Number;
use crate::arith::number;
use crate::arith::variable::Variable;
use crate::array_domain;
use crate::branch_laws;
use crate::config::DomainContext;
use crate::demands::Demand;
use crate::demands;
use crate::ebpf_assertions;
use crate::ebpf_bin;
use crate::ebpf_check;
use crate::ebpf_check::MapSeen;
use crate::ebpf_checker::AccessSeen;
use crate::ebpf_checker;
use crate::ebpf_domain;
use crate::ebpf_domain::EbpfDomain;
use crate::ebpf_store;
use crate::interval::Interval;
use crate::interval_laws;
use crate::numeric_steps;
use crate::numeric_steps::Lin;
use crate::rcp;
use crate::register_laws;
use crate::step_laws;
use crate::syntax::{Addable, Assertion, BoundedLoopCount, Comparable, Imm, Reg, TypeConstraint, ValidAccess, ValidArgZero, ValidCallbackTarget, ValidDivisor, ValidMapKeyValue, ValidMapType, ValidSize, ValidStore, Value, ZeroCtxOffset};
use crate::type_domain::Typing;
use crate::type_domain;
use crate::type_encoding::{DataKind, TypeEncoding, TypeGroup, TypeSet};
use crate::type_encoding;
use crate::var_registry::RegistryView;
use crate::var_registry;
use crate::zone_domain;
use crate::zone_model;

verus! {

/// The number of bytes of an access.
pub open spec fn width_value(w: Value, env: Env) -> int {
    match w {
        Value::Imm(i) => if i.v < 0x8000_0000_0000_0000 { i.v as int } else { i.v - 0x1_0000_0000_0000_0000 },
        Value::Reg(q) => env(rcp::id_of(DataKind::Svalues, q)),
    }
}

proof fn lemma_immediate(i: Imm)
    ensures ebpf_bin::immediate(i.v, true) == (if i.v < 0x8000_0000_0000_0000 { i.v as int } else { i.v - 0x1_0000_0000_0000_0000 }),
{
    vstd::arithmetic::power2::lemma2_to64();
    vstd::arithmetic::power2::lemma2_to64_rest();
    number::lemma_wrap_identity(i.v as int, 64);
}

proof fn lemma_halfword(x: int)
    ensures i32::MIN <= x <= i32::MAX ==> number::wrap_signed(x, 32) == x,
{
    vstd::arithmetic::power2::lemma2_to64();
    number::lemma_wrap_identity(x, 32);
}

pub proof fn lemma_width(w: Value, env: Env)
    ensures ebpf_checker::width_of(w).value(env) == width_value(w, env),
{
    match w {
        Value::Imm(i) => {
            lemma_immediate(i);
            ebpf_checker::lemma_no_var(env, ebpf_bin::immediate(i.v, true));
        },
        Value::Reg(q) => { ebpf_checker::lemma_one_var(env, ebpf_checker::sv(q), 0); },
    }
}

/// The value and the shape of an expression of one or two different variables and a number.
proof fn lemma_side(e: &LinearExpression, a: demands::Affine, env: Env)
    requires
        e.orderly(),
        numeric_steps::sum_of(e) == a.sum(),
        -0x1_0000_0000_0000_0000_0000 <= a.constant <= 0x1_0000_0000_0000_0000_0000,
        a.vars.len() == 1 || a.vars.len() == 2 && a.vars[0] != a.vars[1],
    ensures interval_laws::tame(e), e.eval(env) == a.value(env),
{
    let v = a.vars[0];
    assert(demands::prefix_sum(a, 0) == numeric_steps::just_num(a.constant));
    assert(demands::prefix_sum(a, 1) == numeric_steps::plus(numeric_steps::just_num(a.constant), numeric_steps::just_var(v)));
    assert(demands::prefix_value(a, 0, env) == a.constant);
    assert(demands::prefix_value(a, 1, env) == a.constant + env(v));
    assert(demands::prefix_sum(a, 1).terms =~= step_laws::one_term(v, true));
    assert(demands::prefix_sum(a, 1).constant == a.constant);
    if a.vars.len() == 1 {
        step_laws::lemma_one_term(e, v, true, env);
    } else {
        let w = a.vars[1];
        assert(demands::prefix_sum(a, 2) == numeric_steps::plus(demands::prefix_sum(a, 1), numeric_steps::just_var(w)));
        assert(demands::prefix_value(a, 2, env) == a.constant + env(v) + env(w));
        assert(e.terms@ =~= Map::<u64, Number>::empty().insert(v, Number { n: 1 }).insert(w, Number { n: 1 }));
        step_laws::lemma_both_terms(e, v, w, env);
    }
}

/// The bytes that an access may touch are numbers wherever all bytes between the intervals of its ends are.
#[verifier::rlimit(40)]
proof fn lemma_numbers(d: &EbpfDomain, s: ValidAccess, env: Env, k: int)
    requires
        d.wf(),
        ebpf_checker::numeric_answer(d, s, true),
        s.reg.ok(),
        s.width.ok(),
        demands::describes(d, env),
        0 <= k < d.stack.bits().len(),
        env(rcp::id_of(DataKind::StackOffsets, s.reg)) + s.offset <= k < env(rcp::id_of(DataKind::StackOffsets, s.reg)) + s.offset + width_value(s.width, env),
    ensures !d.stack.bits()[k],
{
    let (l, u) = choose|l: LinearExpression, u: LinearExpression| #![trigger numeric_steps::sum_of(&l), numeric_steps::sum_of(&u)]
        numeric_steps::sum_of(&l) == ebpf_checker::lower_end(s, DataKind::StackOffsets).sum()
        && numeric_steps::sum_of(&u) == ebpf_checker::upper_end(s, DataKind::StackOffsets).sum()
        && l.orderly() && u.orderly()
        && array_domain::all_numbers(d.stack.bits(), d.state.values.value_of(&l).join_spec(d.state.values.value_of(&u)));
    let x = ebpf_checker::lower_end(s, DataKind::StackOffsets);
    let y = ebpf_checker::upper_end(s, DataKind::StackOffsets);
    if let Value::Imm(i) = s.width { lemma_immediate(i); }
    lemma_side(&l, x, env);
    lemma_side(&u, y, env);
    ebpf_checker::lemma_values(env, s, DataKind::StackOffsets);
    lemma_width(s.width, env);
    let z = d.state.values.z();
    interval_laws::evaluation_is_sound(z, &l, env);
    interval_laws::evaluation_is_sound(z, &u, env);
    let a = d.state.values.value_of(&l);
    let b = d.state.values.value_of(&u);
    let iv = a.join_spec(b);
    d.stack.parts_are_wf();
    let lo = l.eval(env);
    let hi = u.eval(env);
    assert(iv.has(lo) && iv.has(hi));
    let total = d.stack.bits().len() as int;
    assert(array_domain::first_byte(iv) <= k) by {
        if let ExtendedNumber::Finite(n) = iv.lb {
            assert(n@ <= lo);
            lemma_halfword(if n@ > 0 { n@ } else { 0 });
        }
    }
    assert(k < array_domain::last_byte(iv, total)) by {
        if let ExtendedNumber::Finite(n) = iv.ub {
            assert(hi <= n@);
            lemma_halfword(if n@ < total { n@ } else { total });
        }
    }
}

/// The bytes of an access that lie on the stack are numbers.
pub open spec fn reads_numbers(d: &EbpfDomain, s: ValidAccess, env: Env) -> bool {
    forall|k: int| 0 <= k < d.stack.bits().len()
        && env(rcp::id_of(DataKind::StackOffsets, s.reg)) + s.offset <= k < env(rcp::id_of(DataKind::StackOffsets, s.reg)) + s.offset + width_value(s.width, env)
        ==> !(#[trigger] d.stack.bits()[k])
}

/// An accepted read through a register that may point to the stack reads numbers only: the bytes that it
/// touches are numbers under every valuation that the state admits, or it lies, under every one of them,
/// within the numeric bytes that are known to follow the pointer.
pub proof fn stack_reads_are_numeric(ctx: &DomainContext, d: &EbpfDomain, older: RegistryView, newer: RegistryView, s: ValidAccess)
    requires
        d.wf(),
        s.reg.ok(),
        s.width.ok(),
        ebpf_check::plain_verdict(ctx, d, older, newer, &Assertion::ValidAccess(s), Ok(())),
        s.access_type is Read,
        ebpf_checker::types_for(d, s.reg).contains(TypeEncoding::TStack),
    ensures
        (forall|env: Env| #[trigger] demands::describes(d, env) ==> reads_numbers(d, s, env))
        || (forall|env: Env| #[trigger] demands::describes(d, env) ==> s.offset >= 0
            && width_value(s.width, env) <= env(rcp::id_of(DataKind::StackNumericSizes, s.reg)) - s.offset),
{
    let (w, g) = lemma_access(ctx, d, older, newer, s);
    let tes = ebpf_checker::types_for(d, s.reg);
    let i = choose|i: int| 0 <= i < tes.len() && tes[i] == TypeEncoding::TStack;
    if w.numeric {
        assert forall|env: Env| #[trigger] demands::describes(d, env) implies reads_numbers(d, s, env) by {
            assert forall|k: int| 0 <= k < d.stack.bits().len()
                && env(rcp::id_of(DataKind::StackOffsets, s.reg)) + s.offset <= k < env(rcp::id_of(DataKind::StackOffsets, s.reg)) + s.offset + width_value(s.width, env)
                implies !(#[trigger] d.stack.bits()[k]) by {
                lemma_numbers(d, s, env, k);
            }
        }
    } else {
        let all = ebpf_checker::access_demands_at(ctx, s, TypeEncoding::TStack, w);
        assert(all.contains(all[2]));
        ebpf_checker::lemma_access_shown(ctx, d, g, newer, s, w, i, all[2]);
        assert forall|env: Env| #[trigger] demands::describes(d, env) implies s.offset >= 0
            && width_value(s.width, env) <= env(rcp::id_of(DataKind::StackNumericSizes, s.reg)) - s.offset by {
            lemma_width(s.width, env);
            ebpf_checker::lemma_one_var(env, rcp::id_of(DataKind::StackNumericSizes, s.reg), -s.offset);
        }
    }
}

/// The demands of an accepted access.
proof fn lemma_access(ctx: &DomainContext, d: &EbpfDomain, older: RegistryView, newer: RegistryView, s: ValidAccess) -> (r: (AccessSeen, RegistryView))
    requires ebpf_check::plain_verdict(ctx, d, older, newer, &Assertion::ValidAccess(s), Ok(())),
    ensures
        demands::judged(d, r.1, newer, ebpf_checker::access_demands(ctx, d, s, r.0), Ok(())),
        ebpf_checker::numeric_answer(d, s, r.0.numeric),
        ctx.layout().data < ctx.layout().end ==> ebpf_checker::access_seen(ctx, d, newer, s, r.0),
{
    let (ds, g) = lemma_accepted(ctx, d, older, newer, &Assertion::ValidAccess(s));
    let w = choose|w: AccessSeen| ds == #[trigger] ebpf_checker::access_demands(ctx, d, s, w) && ebpf_checker::numeric_answer(d, s, w.numeric)
        && (ctx.layout().data < ctx.layout().end ==> ebpf_checker::access_seen(ctx, d, newer, s, w));
    (w, g)
}

/// Where the bytes of an access lie in memory of a kind.
pub open spec fn starts_at(s: ValidAccess, kind: DataKind, env: Env) -> int {
    env(rcp::id_of(kind, s.reg)) + s.offset
}

pub open spec fn ends_at(s: ValidAccess, kind: DataKind, env: Env) -> int {
    env(rcp::id_of(kind, s.reg)) + s.offset + width_value(s.width, env)
}

/// An accepted access to memory stays inside the memory that its register may point to, under every
/// valuation that the state admits: between the metadata and the end of the packet, within the frame and
/// the stack, the context, or the shared region. A pointer to a shared region is not null unless it may
/// be; a number is zero, and nothing is accessed through it. There are no other cases.
pub proof fn accepted_accesses_stay_inside(ctx: &DomainContext, d: &EbpfDomain, older: RegistryView, newer: RegistryView, s: ValidAccess, te: TypeEncoding, env: Env)
    requires
        ebpf_check::plain_verdict(ctx, d, older, newer, &Assertion::ValidAccess(s), Ok(())),
        ebpf_checker::types_for(d, s.reg).contains(te),
        !ebpf_checker::is_comparison(s),
        demands::describes(d, env),
    ensures
        match te {
            TypeEncoding::TPacket => env(182) <= starts_at(s, DataKind::PacketOffsets, env) && ends_at(s, DataKind::PacketOffsets, env) <= env(183),
            TypeEncoding::TStack => env(rcp::id_of(DataKind::StackOffsets, Reg { v: 10 })) - ctx.runtime.subprogram_stack_size <= starts_at(s, DataKind::StackOffsets, env)
                && ends_at(s, DataKind::StackOffsets, env) <= ctx.runtime.stack_size(),
            TypeEncoding::TCtx => 0 <= starts_at(s, DataKind::CtxOffsets, env) && ends_at(s, DataKind::CtxOffsets, env) <= ctx.layout().size,
            TypeEncoding::TShared => 0 <= starts_at(s, DataKind::SharedOffsets, env)
                && ends_at(s, DataKind::SharedOffsets, env) <= env(rcp::id_of(DataKind::SharedRegionSizes, s.reg))
                && (s.or_null || env(rcp::id_of(DataKind::Uvalues, s.reg)) > 0),
            TypeEncoding::TNum => s.or_null && env(rcp::id_of(DataKind::Svalues, s.reg)) == 0 && s.width is Reg && width_value(s.width, env) == 0,
            _ => false,
        },
{
    let (w, g) = lemma_access(ctx, d, older, newer, s);
    let tes = ebpf_checker::types_for(d, s.reg);
    let i = choose|i: int| 0 <= i < tes.len() && tes[i] == te;
    lemma_width(s.width, env);
    match te {
        TypeEncoding::TPacket => { ebpf_checker::packet_access_is_safe(ctx, d, g, newer, s, w, i, env); },
        TypeEncoding::TStack => { ebpf_checker::stack_access_is_safe(ctx, d, g, newer, s, w, i, env); },
        TypeEncoding::TCtx => { ebpf_checker::context_access_is_safe(ctx, d, g, newer, s, w, i, env); },
        TypeEncoding::TShared => { ebpf_checker::shared_access_is_safe(ctx, d, g, newer, s, w, i, env); },
        _ => {
            ebpf_checker::only_pointers_are_dereferenced(ctx, d, g, newer, s, w, i, env);
            let all = ebpf_checker::access_demands_at(ctx, s, te, w);
            assert(all.contains(all[1]));
            ebpf_checker::lemma_access_shown(ctx, d, g, newer, s, w, i, all[1]);
            if let Value::Reg(q) = s.width {
                ebpf_checker::lemma_one_var(env, rcp::id_of(DataKind::Svalues, q), 0);
                ebpf_checker::lemma_no_var(env, 0);
            }
        },
    }
}

/// An accepted write of a fixed number of bytes to the context touches none of the pointers that it holds,
/// under any valuation that the state admits: it ends before the pointer starts, or starts where the
/// pointer has ended.
pub proof fn accepted_writes_spare_the_pointers(ctx: &DomainContext, d: &EbpfDomain, older: RegistryView, newer: RegistryView, s: ValidAccess, n: Imm, slot: int, env: Env)
    requires
        d.wf(),
        ebpf_check::plain_verdict(ctx, d, older, newer, &Assertion::ValidAccess(s), Ok(())),
        ebpf_checker::types_for(d, s.reg).contains(TypeEncoding::TCtx),
        s.access_type is Write,
        s.width == Value::Imm(n),
        demands::describes(d, env),
        ctx.layout().end >= 0,
        slot == ctx.layout().data || slot == ctx.layout().end || slot == ctx.layout().meta,
        slot >= 0,
    ensures
        ctx.layout().data < ctx.layout().end,
        ends_at(s, DataKind::CtxOffsets, env) <= slot || slot + (ctx.layout().end - ctx.layout().data) <= starts_at(s, DataKind::CtxOffsets, env),
{
    let (w, g) = lemma_access(ctx, d, older, newer, s);
    let tes = ebpf_checker::types_for(d, s.reg);
    let i = choose|i: int| 0 <= i < tes.len() && tes[i] == TypeEncoding::TCtx;
    let all = ebpf_checker::access_demands_at(ctx, s, TypeEncoding::TCtx, w);
    let c = ctx.layout();
    if c.end <= c.data || w.touches {
        let first = ebpf_checker::pointer_slot_demands(c, w.touches);
        assert(all[0] == first[0]);
        assert(all.contains(all[0]));
        ebpf_checker::lemma_access_shown(ctx, d, g, newer, s, w, i, all[0]);
    }
    let width = c.end - c.data;
    assert(ebpf_checker::slot_answer(d, newer, s, slot, width, false));
    let off = rcp::id_of(DataKind::CtxOffsets, s.reg);
    let hi = ebpf_checker::upper_end(s, DataKind::CtxOffsets);
    let lo = ebpf_checker::lower_end(s, DataKind::CtxOffsets);
    lemma_immediate(n);
    lemma_width(s.width, env);
    d.state.values.dom->Some_0.dom.constraints_are_proper();
    if acts::meet_answer(d, newer, ebpf_checker::behind_start(s, slot), false) {
        lemma_refuted(d, newer, ebpf_checker::behind_start(s, slot), off, hi.constant, slot, false, env);
    } else {
        lemma_refuted(d, newer, ebpf_checker::before_end(s, slot + width), off, lo.constant, slot + width, true, env);
    }
}

/// A comparison of a moved variable with a number that is impossible does not hold.
proof fn lemma_refuted(d: &EbpfDomain, r: RegistryView, l: Lin, v: u64, c: int, n: int, up: bool, env: Env)
    requires
        d.wf(),
        demands::describes(d, env),
        acts::meet_answer(d, r, l, false),
        -0x1_0000_0000_0000_0000 < c - n < 0x1_0000_0000_0000_0000,
        -0x1_0000_0000_0000_0000 < n < 0x1_0000_0000_0000_0000,
        l == (if up { numeric_steps::below(demands::var_plus(v, c).sum(), demands::num(n).sum()) } else { numeric_steps::below(demands::num(n).sum(), demands::var_plus(v, c).sum()) }),
    ensures if up { env(v) + c >= n } else { env(v) + c <= n },
{
    let z = d.state.values.z();
    let mo = zone_domain::min_only_of(r);
    let k = choose|k: LinearConstraint| l == #[trigger] numeric_steps::lin_of(&k) && k.expression.orderly() && zone_domain::constraint_refuted(z, &k, mo);
    let a = demands::var_plus(v, c);
    assert(demands::prefix_sum(a, 0) == numeric_steps::just_num(c));
    assert(demands::prefix_sum(a, 1) == numeric_steps::plus(numeric_steps::just_num(c), numeric_steps::just_var(v)));
    assert(demands::prefix_sum(demands::num(n), 0) == numeric_steps::just_num(n));
    assert(l.terms =~= step_laws::one_term(v, up));
    assert(l.constant == (if up { c - n } else { n - c }));
    assert(step_laws::simple(l));
    step_laws::lemma_one_term(&k.expression, v, up, env);
    d.state.values.dom->Some_0.dom.constraints_are_proper();
    step_laws::simple_refusals_are_sound(z, &k, mo, env);
}

// ---------------------------------------------------------------------------------------------
// Values
// ---------------------------------------------------------------------------------------------

/// The demands of an accepted assertion.
proof fn lemma_accepted(ctx: &DomainContext, d: &EbpfDomain, older: RegistryView, newer: RegistryView, a: &Assertion) -> (r: (Seq<Demand>, RegistryView))
    requires ebpf_check::plain_verdict(ctx, d, older, newer, a, Ok(())),
    ensures ebpf_check::is_demanded(ctx, d, older, newer, a, r.0, true), demands::judged(d, r.1, newer, r.0, Ok(())),
{
    let (ds, g) = choose|ds: Seq<Demand>, g: RegistryView| ebpf_check::is_demanded(ctx, d, older, newer, a, ds, true)
        && g.extends(older) && newer.extends(g) && #[trigger] demands::judged(d, g, newer, ds, Ok(()));
    (ds, g)
}

/// A size that is accepted is positive, or not negative where it may be zero.
pub proof fn accepted_sizes_are_positive(ctx: &DomainContext, d: &EbpfDomain, older: RegistryView, newer: RegistryView, s: ValidSize, env: Env)
    requires ebpf_check::plain_verdict(ctx, d, older, newer, &Assertion::ValidSize(s), Ok(())), demands::describes(d, env),
    ensures env(rcp::id_of(DataKind::Svalues, s.reg)) > 0 || s.can_be_zero && env(rcp::id_of(DataKind::Svalues, s.reg)) == 0,
{
    let (ds, g) = lemma_accepted(ctx, d, older, newer, &Assertion::ValidSize(s));
    assert(demands::shown(d, g, newer, ds[0]));
    ebpf_checker::lemma_one_var(env, rcp::id_of(DataKind::Svalues, s.reg), 0);
    ebpf_checker::lemma_no_var(env, if s.can_be_zero { 0 } else { 1 });
}

/// An argument that must be zero and is accepted is zero.
pub proof fn accepted_zeros_are_zero(ctx: &DomainContext, d: &EbpfDomain, older: RegistryView, newer: RegistryView, s: ValidArgZero, env: Env)
    requires ebpf_check::plain_verdict(ctx, d, older, newer, &Assertion::ValidArgZero(s), Ok(())), demands::describes(d, env),
    ensures env(rcp::id_of(DataKind::Svalues, s.reg)) == 0,
{
    let (ds, g) = lemma_accepted(ctx, d, older, newer, &Assertion::ValidArgZero(s));
    assert(demands::shown(d, g, newer, ds[0]));
    ebpf_checker::lemma_one_var(env, rcp::id_of(DataKind::Svalues, s.reg), 0);
    ebpf_checker::lemma_no_var(env, 0);
}

/// A loop that is accepted has run a hundred thousand times at most.
pub proof fn accepted_loops_are_bounded(ctx: &DomainContext, d: &EbpfDomain, older: RegistryView, newer: RegistryView, s: BoundedLoopCount, x: Variable, env: Env)
    requires
        ebpf_check::plain_verdict(ctx, d, older, newer, &Assertion::BoundedLoopCount(s), Ok(())),
        demands::describes(d, env),
        newer.wf(),
        rcp::is_named(newer, x, var_registry::counter_name(s.name@)),
    ensures env(x.id) <= 100_000,
{
    let (ds, g) = lemma_accepted(ctx, d, older, newer, &Assertion::BoundedLoopCount(s));
    let y = choose|y: Variable| #[trigger] rcp::is_named(newer, y, var_registry::counter_name(s.name@)) && ds == ebpf_assertions::loop_demands(y.id);
    newer.var_is_unique(var_registry::counter_name(s.name@), y.id as int);
    newer.var_is_unique(var_registry::counter_name(s.name@), x.id as int);
    assert(demands::shown(d, g, newer, ds[0]));
    ebpf_checker::lemma_one_var(env, y.id, 0);
    ebpf_checker::lemma_no_var(env, 100000);
}

/// A context pointer that is accepted is not moved, or it may be null and is.
pub proof fn accepted_contexts_are_not_moved(ctx: &DomainContext, d: &EbpfDomain, older: RegistryView, newer: RegistryView, s: ZeroCtxOffset, env: Env)
    requires ebpf_check::plain_verdict(ctx, d, older, newer, &Assertion::ZeroCtxOffset(s), Ok(())), demands::describes(d, env),
    ensures
        env(rcp::id_of(DataKind::CtxOffsets, s.reg)) == 0
        || s.or_null && env(rcp::id_of(DataKind::Uvalues, s.reg)) == 0 && ebpf_assertions::types_of(d, s.reg).is_just(TypeEncoding::TNum),
{
    let (ds, g) = lemma_accepted(ctx, d, older, newer, &Assertion::ZeroCtxOffset(s));
    let y = choose|y: bool| ds == #[trigger] ebpf_assertions::context_offset_demands(s, y) && ebpf_assertions::null_answer(d, newer, s, y);
    let u = rcp::id_of(DataKind::Uvalues, s.reg);
    if s.or_null && y {
        let l = demands::comparison(demands::Rel::Equal, demands::var(u), demands::num(0));
        let mo = zone_domain::min_only_of(newer);
        let c = choose|c: LinearConstraint| l == #[trigger] numeric_steps::lin_of(&c) && c.expression.orderly() && zone_domain::entailed(d.state.values.z(), &c, mo);
        let a = demands::var(u);
        assert(demands::prefix_sum(a, 0) == numeric_steps::just_num(0));
        assert(demands::prefix_sum(a, 1) == numeric_steps::plus(numeric_steps::just_num(0), numeric_steps::just_var(u)));
        assert(demands::prefix_sum(demands::num(0), 0) == numeric_steps::just_num(0));
        assert(l.terms =~= step_laws::one_term(u, true));
        assert(l.constant == 0);
        step_laws::lemma_one_term(&c.expression, u, true, env);
        step_laws::lemma_simple(&c);
        interval_laws::implied_constraints_hold(d.state.values.z(), &c, mo, env);
    } else {
        assert(demands::shown(d, g, newer, ds[0]));
        ebpf_checker::lemma_one_var(env, rcp::id_of(DataKind::CtxOffsets, s.reg), 0);
        ebpf_checker::lemma_no_var(env, 0);
    }
}

/// A divisor that is accepted is not zero where a division by zero is not allowed: as it is read with a
/// sign or without, or in its low half.
pub proof fn accepted_divisors_are_not_zero(ctx: &DomainContext, d: &EbpfDomain, older: RegistryView, newer: RegistryView, s: ValidDivisor, env: Env)
    requires
        ebpf_check::plain_verdict(ctx, d, older, newer, &Assertion::ValidDivisor(s), Ok(())),
        demands::describes(d, env),
        newer.ready(),
        s.reg.ok(),
        !ctx.runtime.allow_division_by_zero,
    ensures
        s.is64 && s.is_signed ==> env(rcp::id_of(DataKind::Svalues, s.reg)) != 0,
        s.is64 && !s.is_signed ==> env(rcp::id_of(DataKind::Uvalues, s.reg)) != 0,
        !s.is64 && branch_laws::readings(env(rcp::id_of(DataKind::Svalues, s.reg)), env(rcp::id_of(DataKind::Uvalues, s.reg)))
            ==> env(rcp::id_of(DataKind::Uvalues, s.reg)) % 0x1_0000_0000 != 0,
{
    let (ds, g) = lemma_accepted(ctx, d, older, newer, &Assertion::ValidDivisor(s));
    let sv = rcp::id_of(DataKind::Svalues, s.reg);
    let uv = rcp::id_of(DataKind::Uvalues, s.reg);
    let z = d.state.values.z();
    if ebpf_assertions::may_be_zero(d, newer, s) { assert(demands::shown(d, g, newer, ds[0])); }
    assert(zone_model::mild(env)) by { step_laws::lemma_modest(env); }
    zone_model::interval_is_sound(z, sv, env);
    zone_model::interval_is_sound(z, uv, env);
    newer.register_variable(DataKind::Svalues, s.reg.v as int);
    newer.register_variable(DataKind::Uvalues, s.reg.v as int);
    register_laws::lemma_read_at(z, newer, sv, 32, env);
    register_laws::lemma_read_at(z, newer, uv, 32, env);
    vstd::arithmetic::power2::lemma2_to64();
    if branch_laws::readings(env(sv), env(uv)) && env(uv) % 0x1_0000_0000 == 0 {
        assert(env(sv) % 0x1_0000_0000 == 0);
        assert(number::wrap_unsigned(env(sv), 32) == 0 && number::wrap_unsigned(env(uv), 32) == 0);
    }
}

/// A callback that is accepted is a known label, of a function from which an exit can be reached.
pub proof fn accepted_callbacks_are_known(ctx: &DomainContext, d: &EbpfDomain, older: RegistryView, newer: RegistryView, s: ValidCallbackTarget, env: Env)
    requires ebpf_check::plain_verdict(ctx, d, older, newer, &Assertion::ValidCallbackTarget(s), Ok(())), demands::describes(d, env),
    ensures
        ({
            let n = env(rcp::id_of(DataKind::Uvalues, s.reg));
            i32::MIN <= n <= i32::MAX && ctx.program_info.callback_targets@.contains(n as i32) && ctx.program_info.callback_targets_with_exit@.contains(n as i32)
        }),
{
    let (ds, g) = lemma_accepted(ctx, d, older, newer, &Assertion::ValidCallbackTarget(s));
    let u = rcp::id_of(DataKind::Uvalues, s.reg);
    if ds.len() > 0 { assert(demands::shown(d, g, newer, ds[0])); }
    assert(zone_model::mild(env)) by { step_laws::lemma_modest(env); }
    zone_model::interval_is_sound(d.state.values.z(), u, env);
}

// ---------------------------------------------------------------------------------------------
// Maps
// ---------------------------------------------------------------------------------------------

proof fn lemma_param_part(ctx: &DomainContext, d: &EbpfDomain, s: ValidMapKeyValue, tes: Seq<TypeEncoding>, width: int, w: MapSeen, i: int, n: nat, dm: Demand)
    requires 0 <= i < n <= tes.len(), ebpf_check::param_demands_at(ctx, d, s, tes[i], width, w).contains(dm),
    ensures ebpf_check::param_demands_below(ctx, d, s, tes, width, w, n).contains(dm),
    decreases n,
{
    let first = ebpf_check::param_demands_below(ctx, d, s, tes, width, w, (n - 1) as nat);
    let last = ebpf_check::param_demands_at(ctx, d, s, tes[n - 1], width, w);
    let all = first + last;
    if i < n - 1 {
        lemma_param_part(ctx, d, s, tes, width, w, i, (n - 1) as nat, dm);
        let k = choose|k: int| 0 <= k < first.len() && first[k] == dm;
        assert(all[k] == dm);
    } else {
        let k = choose|k: int| 0 <= k < last.len() && last[k] == dm;
        assert(all[first.len() + k] == dm);
    }
}

/// The bytes of a range on the stack are numbers.
pub open spec fn are_numbers(d: &EbpfDomain, from: int, to: int) -> bool {
    forall|k: int| 0 <= k < d.stack.bits().len() && from <= k < to ==> !(#[trigger] d.stack.bits()[k])
}

/// The bytes that a pointer of an interval may reach are numbers.
proof fn lemma_reached(d: &EbpfDomain, iv: Interval, width: int, x: int)
    requires
        d.wf(),
        array_domain::all_numbers(d.stack.bits(), array_domain::touched(iv, ebpf_store::wide(width))),
        iv.has(x),
        0 <= width < 0x1_0000_0000,
        -interval_laws::MODEST <= x <= interval_laws::MODEST,
    ensures are_numbers(d, x, x + width),
{
    d.stack.parts_are_wf();
    let wide = ebpf_store::wide(width);
    let end = iv.add_spec(wide);
    interval_laws::addition_is_sound(iv, wide, x, width);
    let t = array_domain::touched(iv, wide);
    let total = d.stack.bits().len() as int;
    assert forall|k: int| 0 <= k < d.stack.bits().len() && x <= k < x + width implies !(#[trigger] d.stack.bits()[k]) by {
        assert(array_domain::first_byte(t) <= k) by {
            if let ExtendedNumber::Finite(n) = t.lb {
                assert(n@ <= x);
                lemma_halfword(if n@ > 0 { n@ } else { 0 });
            }
        }
        assert(k < array_domain::last_byte(t, total)) by {
            if let ExtendedNumber::Finite(n) = t.ub {
                assert(x + width <= n@);
                lemma_halfword(if n@ < total { n@ } else { total });
            }
        }
    }
}

/// A key or a value of some bytes lies inside the memory that its pointer points to.
pub open spec fn parameter_inside(d: &EbpfDomain, r: Reg, te: TypeEncoding, n: int, env: Env) -> bool {
    match te {
        TypeEncoding::TStack => are_numbers(d, env(rcp::id_of(DataKind::StackOffsets, r)), env(rcp::id_of(DataKind::StackOffsets, r)) + n),
        TypeEncoding::TPacket => env(182) <= env(rcp::id_of(DataKind::PacketOffsets, r)) && env(rcp::id_of(DataKind::PacketOffsets, r)) + n <= env(183),
        TypeEncoding::TShared => 0 <= env(rcp::id_of(DataKind::SharedOffsets, r))
            && env(rcp::id_of(DataKind::SharedOffsets, r)) + n <= env(rcp::id_of(DataKind::SharedRegionSizes, r))
            && env(rcp::id_of(DataKind::Uvalues, r)) > 0,
        _ => false,
    }
}

/// What is shown of a key or a value where its pointer has one type.
proof fn lemma_parameter(ctx: &DomainContext, d: &EbpfDomain, older: RegistryView, newer: RegistryView, s: ValidMapKeyValue, te: TypeEncoding) -> (r: (MapSeen, RegistryView, Number))
    requires
        ebpf_check::plain_verdict(ctx, d, older, newer, &Assertion::ValidMapKeyValue(s), Ok(())),
        ebpf_checker::types_for(d, s.access_reg).contains(te),
    ensures
        ebpf_check::map_seen(ctx, d, older, s, r.0),
        ebpf_check::sizes_of(ctx, d, s).singleton_spec() == Some(r.2),
        0 <= r.2@ < 0x1_0000_0000,
        forall|j: int| 0 <= j < ebpf_check::param_demands_at(ctx, d, s, te, r.2@, r.0).len() ==>
            demands::shown(d, r.1, newer, #[trigger] ebpf_check::param_demands_at(ctx, d, s, te, r.2@, r.0)[j]),
{
    let (ds, g) = lemma_accepted(ctx, d, older, newer, &Assertion::ValidMapKeyValue(s));
    let w = choose|w: MapSeen| ds == #[trigger] ebpf_check::map_param_demands(ctx, d, s, w) && ebpf_check::map_seen(ctx, d, older, s, w)
        && ebpf_check::key_registered(ctx, d, older, newer, s, w, true);
    let iv = ebpf_check::sizes_of(ctx, d, s);
    if ebpf_check::access_width(iv) is None { assert(demands::shown(d, g, newer, ds[0])); }
    let n = iv.singleton_spec()->Some_0;
    let tes = ebpf_checker::types_for(d, s.access_reg);
    let i = choose|i: int| 0 <= i < tes.len() && tes[i] == te;
    let part = ebpf_check::param_demands_at(ctx, d, s, te, n@, w);
    assert forall|j: int| 0 <= j < part.len() implies demands::shown(d, g, newer, #[trigger] part[j]) by {
        assert(part.contains(part[j]));
        lemma_param_part(ctx, d, s, tes, n@, w, i, tes.len(), part[j]);
        let k = choose|k: int| 0 <= k < ds.len() && ds[k] == part[j];
        assert(demands::shown(d, g, newer, ds[k]));
    }
    (w, g, n)
}

/// A key or a value of a map that is accepted has the one size that the map's keys or values have, lies
/// inside the memory that its pointer may point to, and on the stack is made of numbers.
#[verifier::rlimit(40)]
pub proof fn accepted_map_parameters_are_inside(ctx: &DomainContext, d: &EbpfDomain, older: RegistryView, newer: RegistryView, s: ValidMapKeyValue, te: TypeEncoding, env: Env) -> (n: Number)
    requires
        d.wf(),
        ebpf_check::plain_verdict(ctx, d, older, newer, &Assertion::ValidMapKeyValue(s), Ok(())),
        ebpf_checker::types_for(d, s.access_reg).contains(te),
        demands::describes(d, env),
    ensures
        ebpf_check::sizes_of(ctx, d, s).singleton_spec() == Some(n),
        0 <= n@ < 0x1_0000_0000,
        parameter_inside(d, s.access_reg, te, n@, env),
{
    let (w, g, n) = lemma_parameter(ctx, d, older, newer, s, te);
    let part = ebpf_check::param_demands_at(ctx, d, s, te, n@, w);
    assert(zone_model::mild(env)) by { step_laws::lemma_modest(env); }
    ebpf_checker::lemma_no_var(env, 0);
    let r = s.access_reg;
    match te {
        TypeEncoding::TStack => {
            let off = rcp::id_of(DataKind::StackOffsets, r);
            zone_model::interval_is_sound(d.state.values.z(), off, env);
            if part.len() > 0 { assert(demands::shown(d, g, newer, part[0])); }
            assert(-interval_laws::MODEST <= env(off) <= interval_laws::MODEST);
            lemma_reached(d, ebpf_check::stack_interval(d, r), n@, env(off));
        },
        TypeEncoding::TPacket => {
            assert(demands::shown(d, g, newer, part[0]) && demands::shown(d, g, newer, part[1]));
            ebpf_checker::lemma_one_var(env, rcp::id_of(DataKind::PacketOffsets, r), 0);
            ebpf_checker::lemma_one_var(env, rcp::id_of(DataKind::PacketOffsets, r), n@);
            ebpf_checker::lemma_one_var(env, 182, 0);
            ebpf_checker::lemma_one_var(env, 183, 0);
        },
        TypeEncoding::TShared => {
            assert(demands::shown(d, g, newer, part[0]) && demands::shown(d, g, newer, part[1]) && demands::shown(d, g, newer, part[2]));
            ebpf_checker::lemma_one_var(env, rcp::id_of(DataKind::SharedOffsets, r), 0);
            ebpf_checker::lemma_one_var(env, rcp::id_of(DataKind::SharedOffsets, r), n@);
            ebpf_checker::lemma_one_var(env, rcp::id_of(DataKind::SharedRegionSizes, r), 0);
            ebpf_checker::lemma_one_var(env, rcp::id_of(DataKind::Uvalues, r), 0);
        },
        _ => { assert(demands::shown(d, g, newer, part[0])); },
    }
    n
}

/// A key on the stack that is accepted for an array is an index into every array that the register may
/// describe, where indexes are looked at.
pub proof fn accepted_indexes_are_in_range(ctx: &DomainContext, d: &EbpfDomain, older: RegistryView, newer: RegistryView, s: ValidMapKeyValue, t: u32, env: Env) -> (least: int)
    requires
        ebpf_check::plain_verdict(ctx, d, older, newer, &Assertion::ValidMapKeyValue(s), Ok(())),
        ebpf_checker::types_for(d, s.access_reg).contains(TypeEncoding::TStack),
        s.key,
        ctx.runtime.strict,
        ebpf_domain::type_in(&ctx.platform, d.fds(s.map_fd_reg), t),
        ctx.platform.type_from(t, 0).is_array,
        demands::describes(d, env),
    ensures
        ebpf_check::least_entries(ctx, d, s) == Some(least),
        0 <= env(older.var(ebpf_check::key_name(d, s)).id) < least,
{
    let (w, g, n) = lemma_parameter(ctx, d, older, newer, s, TypeEncoding::TStack);
    let part = ebpf_check::param_demands_at(ctx, d, s, TypeEncoding::TStack, n@, w);
    assert(w.map_type == Some(t));
    assert(ebpf_check::checks_index(ctx, w));
    assert(demands::shown(d, g, newer, part[0]));
    let m = ebpf_check::least_entries(ctx, d, s)->Some_0;
    assert(demands::shown(d, g, newer, part[1]));
    ebpf_checker::lemma_one_var(env, w.key.id, 0);
    ebpf_checker::lemma_no_var(env, m);
    ebpf_checker::lemma_no_var(env, 0);
    m
}

/// A map that is accepted for a helper function has one of the types that the function takes.
pub proof fn accepted_maps_have_allowed_types(ctx: &DomainContext, d: &EbpfDomain, older: RegistryView, newer: RegistryView, s: ValidMapType, t: u32)
    requires
        ebpf_check::plain_verdict(ctx, d, older, newer, &Assertion::ValidMapType(s), Ok(())),
        ebpf_domain::type_in(&ctx.platform, d.fds(s.map_fd_reg), t),
    ensures t == 0 || t < 64 && s.allowed_map_types & (1u64 << (t as u64)) != 0,
{
    let (ds, g) = lemma_accepted(ctx, d, older, newer, &Assertion::ValidMapType(s));
    let a = choose|a: Option<u32>| ds == #[trigger] ebpf_assertions::map_type_demands(s, a) && ebpf_assertions::map_type_answer(ctx, d, s.map_fd_reg, a);
    assert(a == Some(t));
    if ds.len() > 0 { assert(demands::shown(d, g, newer, ds[0])); }
}

// ---------------------------------------------------------------------------------------------
// Types
// ---------------------------------------------------------------------------------------------

/// The types of a typing that a state admits.
pub open spec fn typed(d: &EbpfDomain, typing: Typing) -> bool {
    d.state.types.state is Some && type_domain::admits(d.state.types.s(), typing)
}

/// Pointers to memory.
pub open spec fn is_pointer(t: TypeEncoding) -> bool {
    t is TCtx || t is TPacket || t is TStack || t is TShared
}

proof fn lemma_implied(d: &EbpfDomain, r: Reg, left: TypeSet, q: Reg, typing: Typing)
    requires
        ebpf_assertions::implies_types(d, r, left, q, TypeSet::just(TypeEncoding::TNum)),
        typed(d, typing),
        left.has(typing(rcp::type_id(r))),
    ensures typing(rcp::type_id(q)) is TNum,
{
    let t = typing(rcp::type_id(r));
    assert(left.inhabited());
    assert(ebpf_assertions::types_of(d, q).has(typing(rcp::type_id(q))));
    left.algebra(left, TypeEncoding::TNum, t);
    left.algebra(left, TypeEncoding::TNum, typing(rcp::type_id(q)));
}

/// A sum that is accepted adds a number to every pointer.
pub proof fn accepted_sums_add_numbers(ctx: &DomainContext, d: &EbpfDomain, older: RegistryView, newer: RegistryView, s: Addable, typing: Typing)
    requires
        ebpf_check::plain_verdict(ctx, d, older, newer, &Assertion::Addable(s), Ok(())),
        typed(d, typing),
        is_pointer(typing(rcp::type_id(s.ptr))),
    ensures typing(rcp::type_id(s.num)) is TNum,
{
    let (ds, g) = lemma_accepted(ctx, d, older, newer, &Assertion::Addable(s));
    let all = ebpf_assertions::types_of(d, s.ptr);
    let group = ebpf_assertions::group_set(TypeGroup::Pointer);
    ebpf_assertions::groups_have_sets(TypeGroup::Pointer);
    all.algebra(group, TypeEncoding::TNum, typing(rcp::type_id(s.ptr)));
    assert(all.has(typing(rcp::type_id(s.ptr))));
    if ds.len() > 0 { assert(demands::shown(d, g, newer, ds[0])); }
    lemma_implied(d, s.ptr, all.common(group), s.num, typing);
}

/// A store that is accepted puts numbers only into memory other than the stack.
pub proof fn accepted_stores_keep_pointers_in(ctx: &DomainContext, d: &EbpfDomain, older: RegistryView, newer: RegistryView, s: ValidStore, typing: Typing)
    requires
        ebpf_check::plain_verdict(ctx, d, older, newer, &Assertion::ValidStore(s), Ok(())),
        typed(d, typing),
        !(typing(rcp::type_id(s.mem)) is TStack),
    ensures typing(rcp::type_id(s.val)) is TNum,
{
    let (ds, g) = lemma_accepted(ctx, d, older, newer, &Assertion::ValidStore(s));
    let all = ebpf_assertions::types_of(d, s.mem);
    all.algebra(all, TypeEncoding::TStack, typing(rcp::type_id(s.mem)));
    assert(all.has(typing(rcp::type_id(s.mem))));
    if ds.len() > 0 { assert(demands::shown(d, g, newer, ds[0])); }
    lemma_implied(d, s.mem, all.less(TypeEncoding::TStack), s.val, typing);
}

/// A register whose type is accepted has a type of the group.
pub proof fn accepted_types_are_in_the_group(ctx: &DomainContext, d: &EbpfDomain, older: RegistryView, newer: RegistryView, s: TypeConstraint, typing: Typing)
    requires
        ebpf_check::plain_verdict(ctx, d, older, newer, &Assertion::TypeConstraint(s), Ok(())),
        typed(d, typing),
    ensures type_encoding::in_group(s.types, typing(rcp::type_id(s.reg))),
{
    let (ds, g) = lemma_accepted(ctx, d, older, newer, &Assertion::TypeConstraint(s));
    ebpf_assertions::groups_have_sets(s.types);
    if ds.len() > 0 { assert(demands::shown(d, g, newer, ds[0])); }
    assert(ebpf_assertions::types_of(d, s.reg).has(typing(rcp::type_id(s.reg))));
}

/// A divisor that is accepted is no pointer.
pub proof fn accepted_divisors_are_no_pointers(ctx: &DomainContext, d: &EbpfDomain, older: RegistryView, newer: RegistryView, s: ValidDivisor, typing: Typing)
    requires
        ebpf_check::plain_verdict(ctx, d, older, newer, &Assertion::ValidDivisor(s), Ok(())),
        typed(d, typing),
    ensures !is_pointer(typing(rcp::type_id(s.reg))),
{
    let (ds, g) = lemma_accepted(ctx, d, older, newer, &Assertion::ValidDivisor(s));
    let all = ebpf_assertions::types_of(d, s.reg);
    let group = ebpf_assertions::group_set(TypeGroup::Pointer);
    ebpf_assertions::groups_have_sets(TypeGroup::Pointer);
    all.algebra(group, TypeEncoding::TNum, typing(rcp::type_id(s.reg)));
    assert(all.has(typing(rcp::type_id(s.reg))));
    if ds.len() > 0 { assert(demands::shown(d, g, newer, ds[0])); }
    if is_pointer(typing(rcp::type_id(s.reg))) {
        lemma_implied(d, s.reg, all.common(group), s.reg, typing);
    }
}

/// Registers that are accepted for a subtraction have the same type under every typing, or the second is
/// a number; pointers among them are none to shared regions.
pub proof fn accepted_differences_are_comparable(ctx: &DomainContext, d: &EbpfDomain, older: RegistryView, newer: RegistryView, s: Comparable, typing: Typing)
    requires
        ebpf_check::plain_verdict(ctx, d, older, newer, &Assertion::Comparable(s), Ok(())),
        typed(d, typing),
        d.wf(),
    ensures
        typing(rcp::type_id(s.r2)) is TNum || typing(rcp::type_id(s.r1)) == typing(rcp::type_id(s.r2)),
        !(typing(rcp::type_id(s.r2)) is TShared),
{
    let (ds, g) = lemma_accepted(ctx, d, older, newer, &Assertion::Comparable(s));
    let t = typing(rcp::type_id(s.r2));
    let all = ebpf_assertions::types_of(d, s.r2);
    assert(all.has(t));
    ebpf_assertions::groups_have_sets(TypeGroup::SingletonPtr);
    all.algebra(all, TypeEncoding::TNum, t);
    if ds.len() > 0 { assert(demands::shown(d, g, newer, ds[0])); }
    if d.state.types.s().linked(rcp::type_id(s.r1), rcp::type_id(s.r2)) {
        if t is TShared { assert(ebpf_assertions::shared_types(d, s).has(t) && ebpf_assertions::shared_types(d, s).inhabited()); }
    }
}

}
