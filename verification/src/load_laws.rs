//! What loads from memory do.
use vstd::prelude::*;
use vstd::arithmetic::power2::*;
use crate::act_laws;
use crate::acts::{Act, Place, TypeChange};
use crate::acts;
use crate::alu_laws;
use crate::arith::linear_expression::{Env, LinearExpression};
use crate::arith::variable::Variable;
use crate::config::{DomainContext, EbpfContextDescriptor};
use crate::demands;
use crate::ebpf_access;
use crate::ebpf_arith;
use crate::ebpf_calls;
use crate::ebpf_domain::EbpfDomain;
use crate::ebpf_memory;
use crate::interval::Interval;
use crate::interval_laws;
use crate::limit_laws;
use crate::numeric_ops;
use crate::numeric_steps::{Num, Step};
use crate::numeric_steps;
use crate::rcp;
use crate::step_laws;
use crate::syntax::{AccessSize, LoadMapAddress, LoadMapFd, Mem, Reg};
use crate::type_encoding::{DataKind, TypeEncoding};
use crate::var_registry::RegistryView;
use crate::var_registry;
use crate::zone_model;

verus! {

/// The number of bytes of an access.
pub open spec fn bytes(s: AccessSize) -> int {
    match s {
        AccessSize::Byte => 1,
        AccessSize::Half => 2,
        AccessSize::Word => 4,
        AccessSize::DWord => 8,
    }
}

/// The numbers that some bytes can hold, read without a sign or with one.
pub open spec fn byte_range(n: int, is_signed: bool, x: int) -> bool {
    if n == 1 {
        if is_signed { -0x80 <= x < 0x80 } else { 0 <= x < 0x100 }
    } else if n == 2 {
        if is_signed { -0x8000 <= x < 0x8000 } else { 0 <= x < 0x1_0000 }
    } else if n == 4 {
        if is_signed { -0x8000_0000 <= x < 0x8000_0000 } else { 0 <= x < 0x1_0000_0000 }
    } else {
        if is_signed { -0x8000_0000_0000_0000 <= x < 0x8000_0000_0000_0000 } else { 0 <= x < 0x1_0000_0000_0000_0000 }
    }
}

/// A valuation with the two values of a register replaced.
pub open spec fn with_values(e: Env, reg: Reg, s: int, u: int) -> Env {
    zone_model::env_with(zone_model::env_with(e, rcp::id_of(DataKind::Svalues, reg), s), rcp::id_of(DataKind::Uvalues, reg), u)
}

proof fn lemma_with_values(e: Env, reg: Reg, s: int, u: int)
    requires
        interval_laws::modest(e),
        reg.v <= 11,
        -0x1_0000_0000_0000_0000 <= s <= 0x1_0000_0000_0000_0000,
        -0x1_0000_0000_0000_0000 <= u <= 0x1_0000_0000_0000_0000,
    ensures
        interval_laws::modest(with_values(e, reg, s, u)),
        interval_laws::modest(zone_model::env_with(e, rcp::id_of(DataKind::Svalues, reg), s)),
        rcp::id_of(DataKind::Svalues, reg) != rcp::id_of(DataKind::Uvalues, reg),
        with_values(e, reg, s, u)(rcp::id_of(DataKind::Svalues, reg)) == s,
        with_values(e, reg, s, u)(rcp::id_of(DataKind::Uvalues, reg)) == u,
{
    let f = with_values(e, reg, s, u);
    let g = zone_model::env_with(e, rcp::id_of(DataKind::Svalues, reg), s);
    assert forall|k: u64| -interval_laws::MODEST <= #[trigger] f(k) <= interval_laws::MODEST by {
        assert(-interval_laws::MODEST <= e(k) <= interval_laws::MODEST);
    }
    assert forall|k: u64| -interval_laws::MODEST <= #[trigger] g(k) <= interval_laws::MODEST by {
        assert(-interval_laws::MODEST <= e(k) <= interval_laws::MODEST);
    }
}

proof fn lemma_ranges(n: int, x: int)
    requires n == 1 || n == 2 || n == 4,
    ensures
        Interval::unsigned_int_spec(n * 8).has(x) <==> byte_range(n, false, x),
        Interval::signed_int_spec(n * 8).has(x) <==> byte_range(n, true, x),
        !Interval::unsigned_int_spec(n * 8).is_empty_spec(),
        !Interval::signed_int_spec(n * 8).is_empty_spec(),
        byte_range(n, false, x) ==> -0x1_0000_0000 <= x <= 0x1_0000_0000,
        byte_range(n, true, x) ==> -0x1_0000_0000 <= x <= 0x1_0000_0000,
{
    lemma2_to64();
    lemma2_to64_rest();
}

/// A load through a pointer to a packet or a shared region is one sequence of acts.
proof fn lemma_load(be: bool, ctx: &DomainContext, m: Mem, te: TypeEncoding, a: Place, b: Place) -> (r: (Place, Place))
    requires
        ebpf_access::load_effect(be, ctx, m, m.value->Reg_0, a, b),
        m.access.basereg.v != 10,
        a.0.num() is Some,
        act_laws::has_type(a, m.access.basereg, te),
        te is TPacket || te is TShared,
    ensures
        r.0.0.num() == a.0.num(),
        r.0.1 == a.1,
        acts::follows(be, r.0, ebpf_memory::number_load_acts(m.value->Reg_0, bytes(m.access.width), m.is_signed), r.1),
        b.0.num() == r.1.0.num(),
        b.0.state.same(&r.1.0.state),
{
    let rel = ebpf_access::load_branch(be, ctx, m, m.value->Reg_0);
    let (inp, out) = act_laws::lemma_single(a, m.access.basereg, rel, b, te);
    act_laws::lemma_branch_same(a, m.access.basereg, te, inp);
    (inp, out)
}

/// The values that a load of a number leaves.
proof fn lemma_loaded(be: bool, target: Reg, n: int, is_signed: bool, p: Place, q: Place, e: Env, s: int, u: int)
    requires
        acts::follows(be, p, ebpf_memory::number_load_acts(target, n, is_signed), q),
        act_laws::admits(p, e),
        target.v <= 11,
        n == 1 || n == 2 || n == 4 || n == 8,
        -0x1_0000_0000_0000_0000 <= s <= 0x1_0000_0000_0000_0000,
        -0x1_0000_0000_0000_0000 <= u <= 0x1_0000_0000_0000_0000,
        is_signed && n != 8 ==> byte_range(n, true, s) && byte_range(n, false, u),
        !is_signed && n <= 2 ==> byte_range(n, false, s) && byte_range(n, false, u),
    ensures act_laws::admits(q, with_values(e, target, s, u)),
{
    let f = with_values(e, target, s, u);
    let sv = rcp::id_of(DataKind::Svalues, target);
    let uv = rcp::id_of(DataKind::Uvalues, target);
    lemma_with_values(e, target, s, u);
    let test = seq![Act::IsNothing(false)];
    let drop = seq![ebpf_memory::forgets(target)];
    let give = seq![ebpf_memory::gives(target, TypeEncoding::TNum)];
    let ops = ebpf_memory::loaded_range_steps(target, n, is_signed);
    let range = seq![ebpf_memory::numbers(ops)];
    assert(ebpf_memory::number_load_acts(target, n, is_signed) =~= test + (drop + (give + range)));
    let m1 = act_laws::lemma_split(be, p, test, drop + (give + range), q);
    let m2 = act_laws::lemma_split(be, m1, drop, give + range, q);
    let m3 = act_laws::lemma_split(be, m2, give, range, q);
    act_laws::lemma_still(be, p, test[0], m1, e);
    let ids = rcp::value_ids(target);
    assert(ids[8] == sv && ids[9] == uv);
    assert forall|k: u64| !ids.contains(k) implies #[trigger] f(k) == e(k) by {
        assert(ids.contains(ids[8]) && ids.contains(ids[9]));
    }
    act_laws::lemma_forgets(be, m1, TypeChange::Forgot(rcp::type_id(target)), ids, m2, e, f);
    step_laws::reaches_nothing(f);
    act_laws::lemma_still(be, m2, give[0], m3, f);
    if ops.len() == 0 {
        assert(ops =~= seq![]);
        act_laws::lemma_still(be, m3, range[0], q, f);
    } else {
        lemma_ranges(n, s);
        lemma_ranges(n, u);
        let first = if is_signed { Interval::signed_int_spec(n * 8) } else { Interval::unsigned_int_spec(n * 8) };
        let second = Interval::unsigned_int_spec(n * 8);
        assert(ops =~= seq![Step::Put(sv, first), Step::Put(uv, second)]);
        assert(f =~= zone_model::env_with(f, sv, f(sv)));
        assert(f =~= zone_model::env_with(f, uv, f(uv)));
        step_laws::reaches_next(seq![], f, f, Step::Put(sv, first), f);
        step_laws::reaches_next(seq![Step::Put(sv, first)], f, f, Step::Put(uv, second), f);
        assert(Seq::<Step>::empty().push(Step::Put(sv, first)) =~= seq![Step::Put(sv, first)]);
        assert(seq![Step::Put(sv, first)].push(Step::Put(uv, second)) =~= ops);
        act_laws::lemma_one(be, m3, range[0], q);
        act_laws::act_is_sound(be, m3, range[0], q, f, f);
    }
}

/// A load from a packet or a shared region admits every value that the bytes can have: an unsigned
/// load as the signed and as the unsigned value, a signed load as the signed one. Nothing else changes.
pub proof fn loads_admit_all_bytes(be: bool, ctx: &DomainContext, m: Mem, te: TypeEncoding, a: Place, b: Place, e: Env, x: int)
    requires
        ebpf_access::load_effect(be, ctx, m, m.value->Reg_0, a, b),
        m.access.basereg.v != 10,
        m.value->Reg_0.v <= 11,
        a.0.wf(),
        act_laws::has_type(a, m.access.basereg, te),
        te is TPacket || te is TShared,
        demands::describes(&a.0, e),
        byte_range(bytes(m.access.width), m.is_signed, x),
    ensures
        !m.is_signed ==> demands::describes(&b.0, with_values(e, m.value->Reg_0, x, x)),
        m.is_signed ==> forall|u: int| byte_range(bytes(m.access.width), false, u) ==> demands::describes(&b.0, #[trigger] with_values(e, m.value->Reg_0, x, u)),
{
    act_laws::lemma_admits(a, e);
    let (p, q) = lemma_load(be, ctx, m, te, a, b);
    let n = bytes(m.access.width);
    if m.is_signed {
        assert forall|u: int| byte_range(n, false, u) implies demands::describes(&b.0, #[trigger] with_values(e, m.value->Reg_0, x, u)) by {
            lemma_loaded(be, m.value->Reg_0, n, true, p, q, e, x, u);
        }
    } else {
        lemma_loaded(be, m.value->Reg_0, n, false, p, q, e, x, x);
    }
}

/// An unsigned load from a packet or a shared region, as an instruction.
pub proof fn unsigned_loads_admit_all_bytes(be: bool, ctx: &DomainContext, m: Mem, te: TypeEncoding, a: Place, b: Place, e: Env, x: int)
    requires
        ebpf_access::mem_effect(be, ctx, m, a, b),
        m.is_load,
        m.value is Reg,
        !m.is_signed,
        m.access.basereg.v != 10,
        m.value->Reg_0.v <= 11,
        a.0.wf(),
        act_laws::has_type(a, m.access.basereg, te),
        te is TPacket || te is TShared,
        demands::describes(&a.0, e),
        byte_range(bytes(m.access.width), false, x),
    ensures demands::describes(&b.0, with_values(e, m.value->Reg_0, x, x)),
{
    loads_admit_all_bytes(be, ctx, m, te, a, b, e, x);
}

/// After a load of one or two bytes, or a signed load of four, from a packet or a shared region the
/// values are such as the bytes can have, and no others.
#[verifier::rlimit(40)]
pub proof fn loads_admit_only_bytes(be: bool, ctx: &DomainContext, m: Mem, te: TypeEncoding, a: Place, b: Place, env: Env)
    requires
        ebpf_access::load_effect(be, ctx, m, m.value->Reg_0, a, b),
        m.access.basereg.v != 10,
        m.value->Reg_0.v <= 11,
        a.0.num() is Some,
        a.1.ready(),
        act_laws::has_type(a, m.access.basereg, te),
        te is TPacket || te is TShared,
        bytes(m.access.width) <= 2 || m.is_signed && bytes(m.access.width) == 4,
        demands::describes(&b.0, env),
    ensures
        byte_range(bytes(m.access.width), m.is_signed, env(rcp::id_of(DataKind::Svalues, m.value->Reg_0))),
        byte_range(bytes(m.access.width), false, env(rcp::id_of(DataKind::Uvalues, m.value->Reg_0))),
{
    let (p, q) = lemma_load(be, ctx, m, te, a, b);
    let target = m.value->Reg_0;
    let n = bytes(m.access.width);
    let sv = rcp::id_of(DataKind::Svalues, target);
    let uv = rcp::id_of(DataKind::Uvalues, target);
    let all = ebpf_memory::number_load_acts(target, n, m.is_signed);
    let ops = ebpf_memory::loaded_range_steps(target, n, m.is_signed);
    let range = seq![ebpf_memory::numbers(ops)];
    let first = all.take(3);
    assert(all =~= first + range);
    let k = act_laws::lemma_split(be, p, first, range, q);
    act_laws::lemma_one(be, k, range[0], q);
    acts::following_extends(be, p, first, k);
    assert(numeric_steps::performs(k.0.num(), k.1, k.1, ops, q.0.num())) by { reveal(acts::acted); }
    let one = if m.is_signed { Interval::signed_int_spec(n * 8) } else { Interval::unsigned_int_spec(n * 8) };
    let two = Interval::unsigned_int_spec(n * 8);
    assert(ops =~= seq![Step::Put(sv, one), Step::Put(uv, two)]);
    let states = choose|states: Seq<Num>| states.len() == ops.len() + 1 && states[0] == k.0.num() && states[ops.len() as int] == q.0.num() && #[trigger] numeric_steps::is_path(states, k.1, k.1, ops);
    let i: int = 0;
    let j: int = 1;
    assert(numeric_steps::step_between(states[i], k.1, k.1, ops[i], states[i + 1]));
    assert(numeric_steps::step_between(states[j], k.1, k.1, ops[j], states[j + 1]));
    let g = choose|g: RegistryView| g.extends(k.1) && k.1.extends(g) && #[trigger] numeric_steps::step(states[0], g, ops[0], states[1]);
    let h = choose|h: RegistryView| h.extends(k.1) && k.1.extends(h) && #[trigger] numeric_steps::step(states[1], h, ops[1], states[2]);
    if states[1] is None { numeric_steps::step_from_nothing(h, ops[1], states[2]); }
    if states[0] is None { numeric_steps::step_from_nothing(g, ops[0], states[1]); }
    a.1.register_variable(DataKind::Svalues, target.v as int);
    a.1.register_variable(DataKind::Uvalues, target.v as int);
    assert(k.1.metas[sv as int] == a.1.metas[sv as int] && k.1.metas[uv as int] == a.1.metas[uv as int]);
    lemma_ranges(n, 0);
    lemma_ranges(n, i128::MIN as int);
    assert(one.has(0) && two.has(0));
    assert(!one.has(i128::MIN as int) && !two.has(i128::MIN as int));
    step_laws::put_intervals_hold(states[0], g, sv, one, states[1]);
    step_laws::put_intervals_hold(states[1], h, uv, two, states[2]);
    lemma_with_values(|x: u64| 0, target, 0, 0);
    step_laws::other_intervals_stay(states[1], h, ops[1], states[2], sv);
    step_laws::lemma_modest(env);
    let z = q.0.num()->Some_0;
    zone_model::interval_is_sound(z, sv, env);
    zone_model::interval_is_sound(z, uv, env);
    lemma_ranges(n, env(sv));
    lemma_ranges(n, env(uv));
}

/// The address of an access is known.
pub open spec fn address_known(d: &EbpfDomain, kind: DataKind, m: Mem) -> bool {
    forall|addr: LinearExpression| #![trigger numeric_steps::sum_of(&addr)] numeric_steps::sum_of(&addr) == ebpf_access::address(kind, m) && addr.orderly() ==>
        d.state.values.value_of(&addr).singleton_spec() is Some
}

/// What the context holds in a slot: the start of the packet, its end, or its metadata.
pub open spec fn slot_value(d: EbpfContextDescriptor, at: int, env: Env) -> int {
    if at == d.data { 0 } else if at == d.end { env(183) } else { env(182) }
}

/// A load of a packet pointer from the context gives a pointer to what the slot is for: to the start of
/// the packet, to its end, or to its metadata. The pointer's value is one that pointers have. Nothing
/// but the target changes.
#[verifier::rlimit(40)]
pub proof fn context_loads_give_packet_pointers(be: bool, ctx: &DomainContext, m: Mem, a: Place, b: Place, e: Env, at: int, s: int, u: int)
    requires
        ebpf_access::load_effect(be, ctx, m, m.value->Reg_0, a, b),
        m.access.basereg.v != 10,
        m.value->Reg_0.v <= 11,
        a.0.wf(),
        act_laws::has_type(a, m.access.basereg, TypeEncoding::TCtx),
        demands::describes(&a.0, e),
        ctx.layout().end >= 0,
        at == e(rcp::id_of(DataKind::CtxOffsets, m.access.basereg)) + m.access.offset,
        at == ctx.layout().data || at == ctx.layout().end || at == ctx.layout().meta,
        bytes(m.access.width) == ctx.layout().end - ctx.layout().data,
        address_known(&a.0, DataKind::CtxOffsets, m),
        e(183) < ctx.runtime.max_packet_size,
        4098 <= u <= ctx.runtime.pointer_limit(),
        i64::MIN <= s <= i64::MAX,
        -0x7fff_ffff <= m.access.offset <= 0x7fff_ffff,
    ensures
        demands::describes(&b.0, with_values(zone_model::env_with(e, rcp::id_of(DataKind::PacketOffsets, m.value->Reg_0), slot_value(ctx.layout(), at, e)), m.value->Reg_0, s, u)),
        act_laws::has_type(b, m.value->Reg_0, TypeEncoding::TPacket),
{
    let target = m.value->Reg_0;
    act_laws::lemma_admits(a, e);
    let rel = ebpf_access::load_branch(be, ctx, m, target);
    let (p, q) = act_laws::lemma_single(a, m.access.basereg, rel, b, TypeEncoding::TCtx);
    act_laws::lemma_branch_same(a, m.access.basereg, TypeEncoding::TCtx, p);
    act_laws::lemma_branch_admits(a, m.access.basereg, TypeEncoding::TCtx, p, e);
    let (addr, iv) = choose|addr: LinearExpression, iv: Interval| numeric_steps::sum_of(&addr) == ebpf_access::address(DataKind::CtxOffsets, m) && addr.orderly()
        && acts::follows(be, p, #[trigger] ebpf_memory::context_load_acts(target, addr, iv, m.access.width.count(), ctx), q);
    let off = rcp::id_of(DataKind::CtxOffsets, m.access.basereg);
    assert(addr.terms@ =~= step_laws::one_term(off, true));
    step_laws::lemma_one_term(&addr, off, true, e);
    interval_laws::evaluation_is_sound(p.0.num()->Some_0, &addr, e);
    lemma_context_pointer(be, ctx, target, addr, iv, bytes(m.access.width), p, q, e, at, s, u);
}

#[verifier::rlimit(40)]
proof fn lemma_context_pointer(be: bool, ctx: &DomainContext, target: Reg, addr: LinearExpression, iv: Interval, width: int, p: Place, q: Place, e: Env, at: int, s: int, u: int)
    requires
        acts::follows(be, p, ebpf_memory::context_load_acts(target, addr, iv, width, ctx), q),
        act_laws::admits(p, e),
        p.0.state.types.state is Some,
        target.v <= 11,
        ctx.layout().end >= 0,
        p.0.state.values.value_of(&addr).has(at),
        p.0.state.values.value_of(&addr).singleton_spec() is Some,
        at == ctx.layout().data || at == ctx.layout().end || at == ctx.layout().meta,
        width == ctx.layout().end - ctx.layout().data,
        e(183) < ctx.runtime.max_packet_size,
        4098 <= u <= ctx.runtime.pointer_limit(),
        i64::MIN <= s <= i64::MAX,
    ensures
        act_laws::admits(q, with_values(zone_model::env_with(e, rcp::id_of(DataKind::PacketOffsets, target), slot_value(ctx.layout(), at, e)), target, s, u)),
        act_laws::has_type(q, target, TypeEncoding::TPacket),
{
    let d = ctx.layout();
    let off = rcp::id_of(DataKind::PacketOffsets, target);
    let sv = rcp::id_of(DataKind::Svalues, target);
    let uv = rcp::id_of(DataKind::Uvalues, target);
    let all = ebpf_memory::context_load_acts(target, addr, iv, width, ctx);
    let test = seq![Act::IsNothing(false)];
    let ask = seq![Act::Value(addr, iv)];
    let drop = seq![ebpf_memory::forgets(target)];
    let rest = all.skip(3);
    assert(all =~= test + (ask + (drop + rest)));
    let m1 = act_laws::lemma_split(be, p, test, ask + (drop + rest), q);
    let m2 = act_laws::lemma_split(be, m1, ask, drop + rest, q);
    let m3 = act_laws::lemma_split(be, m2, drop, rest, q);
    act_laws::lemma_one(be, p, test[0], m1);
    act_laws::lemma_one(be, m1, ask[0], m2);
    act_laws::lemma_one(be, m2, drop[0], m3);
    assert(m2 == p && iv == p.0.state.values.value_of(&addr) && m3.0.state.types.state is Some) by { reveal(acts::acted); }
    let n = iv.singleton_spec()->Some_0;
    assert(n@ == at);
    let ops = ebpf_memory::context_pointer_steps(target, at, d, ctx.runtime.max_packet_size as int)->Some_0;
    let says = seq![numeric_ops::var_at_least(uv, 4098), numeric_ops::var_at_most(uv, ctx.runtime.pointer_limit())];
    let first = seq![ebpf_memory::numbers(ops)];
    let give = seq![ebpf_memory::gives(target, TypeEncoding::TPacket)];
    let last = seq![ebpf_memory::numbers(says)];
    assert(rest =~= first + (give + last));
    let m4 = act_laws::lemma_split(be, m3, first, give + last, q);
    let m5 = act_laws::lemma_split(be, m4, give, last, q);
    let x = slot_value(d, at, e);
    assert(-interval_laws::MODEST <= e(183) <= interval_laws::MODEST && -interval_laws::MODEST <= e(182) <= interval_laws::MODEST);
    let e1 = zone_model::env_with(e, off, x);
    crate::pointer_laws::lemma_calm_with(e, off, x);
    lemma_with_values(e1, target, s, u);
    let f = with_values(e1, target, s, u);
    crate::pointer_laws::lemma_kinds(DataKind::PacketOffsets, DataKind::Svalues, target, target);
    crate::pointer_laws::lemma_kinds(DataKind::PacketOffsets, DataKind::Uvalues, target, target);
    let ids = rcp::value_ids(target);
    assert(ids[3] == off && ids[8] == sv && ids[9] == uv);
    assert forall|k: u64| !ids.contains(k) implies #[trigger] f(k) == e(k) by {
        assert(ids.contains(ids[3]) && ids.contains(ids[8]) && ids.contains(ids[9]));
    }
    act_laws::lemma_forgets(be, m2, TypeChange::Forgot(rcp::type_id(target)), ids, m3, e, f);
    assert(off < 182 && sv < 182 && uv < 182);
    assert(f(183) == e(183) && f(182) == e(182) && f(off) == x && f(uv) == u);
    assert(f =~= zone_model::env_with(f, off, f(off)));
    assert forall|i: int| 0 <= i < ops.len() implies limit_laws::kept_by(#[trigger] ops[i], f) by {
        if at == d.end && at != d.data && i == 1 {
            step_laws::lemma_bound(numeric_steps::below(numeric_steps::just_var(off), numeric_steps::just_num(ctx.runtime.max_packet_size as int)), off, ctx.runtime.max_packet_size as int, true, f);
        }
    }
    limit_laws::lemma_kept(ops, f);
    act_laws::lemma_one(be, m3, first[0], m4);
    act_laws::act_is_sound(be, m3, first[0], m4, f, f);
    step_laws::reaches_nothing(f);
    act_laws::lemma_still(be, m4, give[0], m5, f);
    act_laws::lemma_one(be, m4, give[0], m5);
    limit_laws::lemma_at_least(uv, 4098, f);
    limit_laws::lemma_at_most(uv, ctx.runtime.pointer_limit(), f);
    assert forall|i: int| 0 <= i < says.len() implies limit_laws::kept_by(#[trigger] says[i], f) by {}
    limit_laws::lemma_kept(says, f);
    act_laws::lemma_one(be, m5, last[0], q);
    act_laws::act_is_sound(be, m5, last[0], q, f, f);
    assert(m4.0.state.types == m3.0.state.types && q.0.state.types == m5.0.state.types
        && acts::types_changed(m4.0.state.types, TypeChange::Given(rcp::type_id(target), TypeEncoding::TPacket), m5.0.state.types)) by { reveal(acts::acted); }
    alu_laws::lemma_given(m4, target, TypeEncoding::TPacket, m5);
}

// ---------------------------------------------------------------------------------------------
// Maps
// ---------------------------------------------------------------------------------------------

/// A register becomes a pointer with a value in range.
proof fn lemma_valid_pointer(be: bool, dst: Reg, maybe_null: bool, limit: int, a: Place, b: Place, e: Env, u: int)
    requires
        acts::follows(be, a, seq![ebpf_memory::numbers(ebpf_memory::valid_ptr_steps(dst, maybe_null, limit))], b),
        act_laws::admits(a, e),
        if maybe_null { 0 <= u <= limit } else { 0 < u <= limit },
        -0x1_0000_0000 <= limit <= 0x1_0000_0000,
    ensures
        act_laws::admits(b, zone_model::env_with(e, rcp::id_of(DataKind::Uvalues, dst), u)),
        b.1 == a.1,
        b.0.state.types == a.0.state.types,
        b.0.stack == a.0.stack,
{
    let uv = rcp::id_of(DataKind::Uvalues, dst);
    let f = zone_model::env_with(e, uv, u);
    crate::pointer_laws::lemma_calm_with(e, uv, u);
    let ops = ebpf_memory::valid_ptr_steps(dst, maybe_null, limit);
    let act = ebpf_memory::numbers(ops);
    act_laws::lemma_reach(ops[0], e, f);
    let rest = ops.skip(1);
    limit_laws::lemma_at_least(uv, 0, f);
    limit_laws::lemma_at_most(uv, limit, f);
    step_laws::lemma_bound(numeric_steps::below(numeric_steps::just_num(0), numeric_steps::just_var(uv)), uv, 0, false, f);
    assert forall|i: int| 0 <= i < rest.len() implies limit_laws::kept_by(#[trigger] rest[i], f) by {
        assert(rest[i] == ops[i + 1]);
    }
    limit_laws::lemma_kept(rest, f);
    step_laws::reaches_both(seq![ops[0]], rest, e, f, f);
    assert(seq![ops[0]] + rest =~= ops);
    act_laws::lemma_one(be, a, act, b);
    act_laws::act_is_sound(be, a, act, b, e, f);
    reveal(acts::acted);
}

/// A load of a map's descriptor gives a pointer to the map: one to programs where its values are, and to a
/// map otherwise. It holds the descriptor's number, and a value that pointers have and that is not null.
pub proof fn map_loads_give_descriptors(be: bool, ctx: &DomainContext, ins: LoadMapFd, a: Place, b: Place, e: Env, u: int)
    requires
        ebpf_calls::load_map_fd_effect(be, ctx, ins, a, b),
        ins.dst.v <= 11,
        a.0.wf(),
        a.0.state.types.state is Some,
        demands::describes(&a.0, e),
        0 < u <= ctx.runtime.pointer_limit(),
    ensures
        ({
            let programs = ctx.platform.type_from(ctx.platform.map_from(ins.mapfd as int, 0)->Some_0.map_type, 0).value_type is Program;
            let kind = if programs { DataKind::MapFdPrograms } else { DataKind::MapFds };
            &&& act_laws::has_type(b, ins.dst, if programs { TypeEncoding::TMapPrograms } else { TypeEncoding::TMap })
            &&& demands::describes(&b.0, zone_model::env_with(zone_model::env_with(e, rcp::id_of(kind, ins.dst), ins.mapfd as int), rcp::id_of(DataKind::Uvalues, ins.dst), u))
        }),
{
    act_laws::lemma_admits(a, e);
    let dst = ins.dst;
    let fd = ins.mapfd as int;
    let programs = ebpf_calls::holds_programs(&ctx.platform, fd);
    let te = if programs { TypeEncoding::TMapPrograms } else { TypeEncoding::TMap };
    let v = rcp::id_of(if programs { DataKind::MapFdPrograms } else { DataKind::MapFds }, dst);
    let limit = ctx.runtime.pointer_limit();
    let give = seq![ebpf_memory::gives(dst, te)];
    let op = numeric_ops::set_number(v, fd);
    let set = seq![ebpf_memory::numbers(seq![op])];
    let last = seq![ebpf_memory::numbers(ebpf_memory::valid_ptr_steps(dst, false, limit))];
    assert(ebpf_calls::map_fd_acts(&ctx.platform, dst, fd, false, limit) =~= give + (set + last));
    let m1 = act_laws::lemma_split(be, a, give, set + last, b);
    let m2 = act_laws::lemma_split(be, m1, set, last, b);
    step_laws::reaches_nothing(e);
    act_laws::lemma_still(be, a, give[0], m1, e);
    let f = zone_model::env_with(e, v, fd);
    crate::pointer_laws::lemma_calm_with(e, v, fd);
    act_laws::lemma_step(be, m1, op, m2, e, f);
    lemma_valid_pointer(be, dst, false, limit, m2, b, f, u);
    act_laws::lemma_one(be, a, give[0], m1);
    act_laws::lemma_one(be, m1, set[0], m2);
    assert(m2.0.state.types == m1.0.state.types && acts::types_changed(a.0.state.types, TypeChange::Given(rcp::type_id(dst), te), m1.0.state.types)) by { reveal(acts::acted); }
    alu_laws::lemma_given(a, dst, te, m1);
}

/// A load of the address of a map's values gives a pointer to a shared region of the size of a value, at
/// the given offset and not null.
pub proof fn address_loads_give_regions(be: bool, ctx: &DomainContext, ins: LoadMapAddress, a: Place, b: Place, e: Env, u: int)
    requires
        ebpf_calls::load_map_address_effect(be, ctx, ins, a, b),
        ins.dst.v <= 11,
        a.0.wf(),
        a.0.state.types.state is Some,
        demands::describes(&a.0, e),
        0 < u <= ctx.runtime.pointer_limit(),
    ensures
        act_laws::has_type(b, ins.dst, TypeEncoding::TShared),
        demands::describes(&b.0, zone_model::env_with(zone_model::env_with(zone_model::env_with(e,
            rcp::id_of(DataKind::SharedOffsets, ins.dst), ins.offset as int),
            rcp::id_of(DataKind::SharedRegionSizes, ins.dst), ctx.platform.map_from(ins.mapfd as int, 0)->Some_0.value_size as int),
            rcp::id_of(DataKind::Uvalues, ins.dst), u)),
{
    act_laws::lemma_admits(a, e);
    let dst = ins.dst;
    let fd = ins.mapfd as int;
    let te = TypeEncoding::TShared;
    let v = rcp::id_of(DataKind::SharedOffsets, dst);
    let w = rcp::id_of(DataKind::SharedRegionSizes, dst);
    let n = ctx.platform.map_from(fd, 0)->Some_0.value_size as int;
    let limit = ctx.runtime.pointer_limit();
    let give = seq![ebpf_memory::gives(dst, te)];
    let one = numeric_ops::set_number(v, ins.offset as int);
    let two = numeric_ops::set_number(w, n);
    let ops = seq![one, two];
    let set = seq![ebpf_memory::numbers(ops)];
    let last = seq![ebpf_memory::numbers(ebpf_memory::valid_ptr_steps(dst, false, limit))];
    assert(ebpf_calls::map_address_acts(&ctx.platform, dst, fd, ins.offset as int, limit) =~= give + (set + last));
    let m1 = act_laws::lemma_split(be, a, give, set + last, b);
    let m2 = act_laws::lemma_split(be, m1, set, last, b);
    step_laws::reaches_nothing(e);
    act_laws::lemma_still(be, a, give[0], m1, e);
    let f1 = zone_model::env_with(e, v, ins.offset as int);
    let f = zone_model::env_with(f1, w, n);
    crate::pointer_laws::lemma_calm_with(e, v, ins.offset as int);
    crate::pointer_laws::lemma_calm_with(f1, w, n);
    act_laws::lemma_reach(one, e, f1);
    act_laws::lemma_reach(two, f1, f);
    step_laws::reaches_both(seq![one], seq![two], e, f1, f);
    assert(seq![one] + seq![two] =~= ops);
    act_laws::lemma_one(be, m1, set[0], m2);
    act_laws::act_is_sound(be, m1, set[0], m2, e, f);
    lemma_valid_pointer(be, dst, false, limit, m2, b, f, u);
    act_laws::lemma_one(be, a, give[0], m1);
    assert(m2.0.state.types == m1.0.state.types && acts::types_changed(a.0.state.types, TypeChange::Given(rcp::type_id(dst), te), m1.0.state.types)) by { reveal(acts::acted); }
    alu_laws::lemma_given(a, dst, te, m1);
}

/// Counting a loop adds one to its counter, and changes nothing else.
pub proof fn loops_are_counted(be: bool, name: Seq<char>, x: Variable, a: Place, b: Place, e: Env)
    requires
        acts::follows(be, a, crate::ebpf_transformer::count_acts(name, x), b),
        a.0.wf(),
        demands::describes(&a.0, e),
        -0x1_0000_0000_0000_0000 <= e(x.id) <= 0x1_0000_0000_0000_0000,
    ensures
        demands::describes(&b.0, zone_model::env_with(e, x.id, e(x.id) + 1)),
        rcp::is_named(b.1, x, var_registry::counter_name(name)),
{
    act_laws::lemma_admits(a, e);
    let op = Step::Signed(ebpf_arith::add_op(), x.id, x.id, x.id, ebpf_arith::lit(1), 0);
    let first = seq![Act::Named(var_registry::counter_name(name), x)];
    let count = seq![ebpf_memory::numbers(seq![op])];
    assert(crate::ebpf_transformer::count_acts(name, x) =~= first + count);
    let m = act_laws::lemma_split(be, a, first, count, b);
    act_laws::lemma_still(be, a, first[0], m, e);
    let f = zone_model::env_with(e, x.id, e(x.id) + 1);
    crate::pointer_laws::lemma_calm_with(e, x.id, e(x.id) + 1);
    act_laws::lemma_step(be, m, op, b, e, f);
    act_laws::lemma_one(be, a, first[0], m);
    act_laws::lemma_one(be, m, count[0], b);
    reveal(acts::acted);
}

}
