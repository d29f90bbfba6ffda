//! What arithmetic on pointers does.
use vstd::prelude::*;
use crate::act_laws;
use crate::acts;
use crate::acts::{Act, Place};
use crate::arith::linear_expression::Env;
use crate::arith::number;
use crate::branching;
use crate::demands;
use crate::ebpf_addsub;
use crate::ebpf_arith;
use crate::ebpf_bin;
use crate::ebpf_bin::BinSeen;
use crate::ebpf_memory;
use crate::finite_domain::Operand;
use crate::interval_laws;
use crate::numeric_steps::Step;
use crate::rcp;
use crate::register_laws;
use crate::step_laws;
use crate::syntax::{Bin, Imm, Reg, Value};
use crate::type_encoding::{DataKind, TypeEncoding};
use crate::var_registry;
use crate::var_registry::RegistryView;
use crate::array_domain;
use crate::ebpf_domain::EbpfDomain;
use crate::arith::linear_constraint::LinearConstraint;
use crate::zone_domain;
use crate::numeric_steps;
use crate::alu_laws;
use crate::branch_laws;
use crate::ebpf_arith::Seen;
use crate::arith::variable::Variable;
use crate::zone_model;

verus! {

/// Values that leave room for a few sums.
pub open spec fn calm(env: Env) -> bool {
    forall|k: u64| -0x1000_0000_0000_0000_0000 <= #[trigger] env(k) <= 0x1000_0000_0000_0000_0000
}

proof fn lemma_calm(env: Env)
    requires calm(env),
    ensures interval_laws::modest(env),
{
    assert forall|k: u64| -interval_laws::MODEST <= #[trigger] env(k) <= interval_laws::MODEST by {
        assert(-0x1000_0000_0000_0000_0000 <= env(k) <= 0x1000_0000_0000_0000_0000);
    }
}

pub proof fn lemma_calm_with(e: Env, v: u64, x: int)
    requires interval_laws::modest(e), -interval_laws::MODEST <= x <= interval_laws::MODEST,
    ensures interval_laws::modest(zone_model::env_with(e, v, x)),
{
    let f = zone_model::env_with(e, v, x);
    assert forall|k: u64| -interval_laws::MODEST <= #[trigger] f(k) <= interval_laws::MODEST by {
        assert(-interval_laws::MODEST <= e(k) <= interval_laws::MODEST);
    }
}

pub proof fn lemma_modest_register(e: Env, s: u64, u: u64, x: int, width: int)
    requires interval_laws::modest(e), width == 32 || width == 64,
    ensures
        interval_laws::modest(register_laws::with_register(e, s, u, x, width)),
        width == 64 ==> register_laws::wrapped(x, width, true) == number::wrap_signed(x, 64),
        register_laws::wrapped(x, width, false) == number::wrap_unsigned(x, width),
{
    register_laws::lemma_wrapped(x, width);
    let f = register_laws::with_register(e, s, u, x, width);
    assert forall|k: u64| -interval_laws::MODEST <= #[trigger] f(k) <= interval_laws::MODEST by {
        assert(-interval_laws::MODEST <= e(k) <= interval_laws::MODEST);
    }
}

/// The variables of one register are apart.
pub proof fn lemma_kinds(k: DataKind, l: DataKind, p: Reg, q: Reg)
    requires p.v <= 11, q.v <= 11, k != l || p.v != q.v,
    ensures rcp::id_of(k, p) != rcp::id_of(l, q),
{
    let a = var_registry::default_place(k);
    let b = var_registry::default_place(l);
    assert(0 <= a < 15 && 0 <= b < 15);
    assert(k != l ==> a != b);
    if p.v != q.v {
        assert(15 * p.v + a != 15 * q.v + b);
    }
}

/// The tests before an operation on two initialized registers answer as they must.
pub proof fn lemma_tests(be: bool, bin: Bin, src: Reg, k: BinSeen, a: Place, b: Place)
    requires
        ebpf_bin::bin_runs(be, bin, k, a, b),
        bin.v == Value::Reg(src),
        !ebpf_bin::is_move(bin.op),
        rcp::initialized(&a.0.state, bin.dst),
        rcp::initialized(&a.0.state, src),
    ensures k.dst_init, k.src_init, ebpf_bin::reg_runs(be, bin, src, k, a, b),
{
    reveal(acts::acted);
    if !k.dst_init {
        let first = ebpf_bin::first_test(bin, k);
        let rest = seq![ebpf_memory::forgets(bin.dst)];
        let mid = act_laws::lemma_split(be, a, first, rest, b);
        assert(first =~= seq![Act::Initialized(bin.dst, false)]);
        act_laws::lemma_one(be, a, Act::Initialized(bin.dst, false), mid);
    } else if !k.src_init {
        let tests = ebpf_bin::both_tests(bin, src, k);
        let one = seq![Act::Initialized(bin.dst, true)];
        let two = seq![Act::Initialized(src, false)];
        let rest = seq![ebpf_memory::forgets(bin.dst)];
        assert(tests + rest =~= one + (two + rest));
        let m = act_laws::lemma_split(be, a, one, two + rest, b);
        let n = act_laws::lemma_split(be, m, two, rest, b);
        act_laws::lemma_one(be, a, one[0], m);
        act_laws::lemma_one(be, m, two[0], n);
    }
}

/// The test of two registers of different types.
pub proof fn lemma_typed(be: bool, bin: Bin, src: Reg, k: BinSeen, a: Place, rest: Seq<Act>, b: Place)
    requires
        acts::follows(be, a, ebpf_bin::both_tests(bin, src, k).push(Act::SameType(bin.dst, src, k.same)) + rest, b),
        a.0.wf(),
        a.0.state.types.state is Some,
    ensures
        acts::follows(be, a, rest, b),
        k.same == a.0.state.types.s().linked(rcp::type_id(bin.dst), rcp::type_id(src)),
{
    reveal(acts::acted);
    let one = seq![Act::Initialized(bin.dst, k.dst_init)];
    let two = seq![Act::Initialized(src, k.src_init)];
    let three = seq![Act::SameType(bin.dst, src, k.same)];
    assert(ebpf_bin::both_tests(bin, src, k).push(Act::SameType(bin.dst, src, k.same)) + rest =~= one + (two + (three + rest)));
    let m = act_laws::lemma_split(be, a, one, two + (three + rest), b);
    let n = act_laws::lemma_split(be, m, two, three + rest, b);
    let o = act_laws::lemma_split(be, n, three, rest, b);
    act_laws::lemma_one(be, a, one[0], m);
    act_laws::lemma_one(be, m, two[0], n);
    act_laws::lemma_one(be, n, three[0], o);
}

/// Registers of different types are not linked.
pub proof fn lemma_unlinked(a: Place, p: Reg, q: Reg, te: TypeEncoding, tf: TypeEncoding)
    requires a.0.wf(), act_laws::has_type(a, p, te), act_laws::has_type(a, q, tf), te != tf,
    ensures
        !a.0.state.types.s().linked(rcp::type_id(p), rcp::type_id(q)),
        rcp::type_id(p) != rcp::type_id(q),
{
    let s = a.0.state.types.s();
    s.classes(rcp::type_id(p), rcp::type_id(q), rcp::type_id(q));
    assert(s.types_of(rcp::type_id(p)).has(te));
    assert(!s.types_of(rcp::type_id(q)).has(te));
}

/// The sum of two registers with one type each is one sequence of acts.
proof fn lemma_sum(be: bool, bin: Bin, src: Reg, te: TypeEncoding, tf: TypeEncoding, a: Place, b: Place) -> (r: (Place, Place, bool))
    requires
        ebpf_bin::bin_effect(be, bin, a, b),
        bin.op is ADD,
        bin.is64,
        bin.v == Value::Reg(src),
        a.0.wf(),
        a.0.num() is Some,
        act_laws::has_type(a, bin.dst, te),
        act_laws::has_type(a, src, tf),
        te != tf,
        !(te is TUninit) && !(tf is TUninit),
    ensures
        r.0.0.num() == a.0.num(),
        r.0.1 == a.1,
        acts::follows(be, r.0, ebpf_addsub::sum_acts(bin.dst, src, te, tf, 64, r.2), r.1),
        b.0.num() == r.1.0.num(),
        b.1.extends(r.1.1),
        r.0.0.stack == a.0.stack,
        b.0.stack == r.1.0.stack,
{
    let k = choose|k: BinSeen| #[trigger] ebpf_bin::bin_runs(be, bin, k, a, b);
    act_laws::lemma_one_type(a, bin.dst, te);
    act_laws::lemma_one_type(a, src, tf);
    lemma_tests(be, bin, src, k, a, b);
    lemma_unlinked(a, bin.dst, src, te, tf);
    let typed = ebpf_bin::both_tests(bin, src, k).push(Act::SameType(bin.dst, src, k.same));
    assert(ebpf_bin::tail_acts(bin, k.after) =~= seq![]);
    if k.same {
        let rest = seq![ebpf_memory::numbers(seq![Step::Overflow(ebpf_arith::add_op(), ebpf_arith::sv(bin.dst), ebpf_arith::uv(bin.dst), ebpf_addsub::by_value(src), 64)])];
        assert(typed + rest + ebpf_bin::tail_acts(bin, k.after) =~= typed + rest);
        lemma_typed(be, bin, src, k, a, rest, b);
    }
    let split = ebpf_addsub::sum_split(be, bin.dst, src, 64);
    let (m, n) = choose|m: Place, n: Place| #[trigger] acts::follows(be, a, typed, m) && branching::over_types(m, bin.dst, split, n)
        && #[trigger] acts::follows(be, n, ebpf_bin::tail_acts(bin, k.after), b);
    assert(typed + seq![] =~= typed);
    lemma_typed(be, bin, src, k, a, seq![], m);
    act_laws::lemma_none(be, a, m);
    act_laws::lemma_none(be, n, b);
    let (inp, out) = act_laws::lemma_single(a, bin.dst, split, b, te);
    act_laws::lemma_branch_same(a, bin.dst, te, inp);
    let branch = ebpf_addsub::sum_branch(be, bin.dst, src, te, 64);
    assert(branching::over_types(inp, src, branch, out));
    lemma_other_type(a, bin.dst, te, inp, src, tf);
    let (inp2, out2) = act_laws::lemma_single(inp, src, branch, out, tf);
    act_laws::lemma_branch_same(inp, src, tf, inp2);
    let back = choose|back: bool| acts::follows(be, inp2, #[trigger] ebpf_addsub::sum_acts(bin.dst, src, te, tf, 64, back), out2);
    b.1.extending_is_transitive(out.1, out2.1);
    (inp2, out2, back)
}

/// A branch leaves the types of registers that are not linked to its own.
proof fn lemma_other_type(a: Place, reg: Reg, te: TypeEncoding, inp: Place, q: Reg, tf: TypeEncoding)
    requires
        a.0.wf(),
        rcp::is_branch(&a.0.state, reg, a.1, seq![te], te, &inp.0.state),
        act_laws::has_type(a, reg, te),
        act_laws::has_type(a, q, tf),
        te != tf,
    ensures act_laws::has_type(inp, q, tf),
{
    lemma_unlinked(a, reg, q, te, tf);
    let ts = a.0.state.types.s().types_of(rcp::type_id(reg));
    let just = crate::type_encoding::TypeSet::just(te);
    assert(ts.common(just).has(te)) by { ts.algebra(just, te, te); assert(ts.has(te)); }
    assert(ts.common(just).inhabited());
    assert(inp.0.state.types.s().types_of(rcp::type_id(q)) == a.0.state.types.s().types_of(rcp::type_id(q)));
}

/// What a pointer becomes when its offset moves: the offset and the value of the register change, and
/// what is known of the bytes behind a stack pointer; nothing else.
pub open spec fn pointer_moved(e: Env, f: Env, reg: Reg, k: DataKind, offset: int, value: int) -> bool {
    &&& f(rcp::id_of(k, reg)) == offset
    &&& f(rcp::id_of(DataKind::Svalues, reg)) == number::wrap_signed(value, 64)
    &&& f(rcp::id_of(DataKind::Uvalues, reg)) == number::wrap_unsigned(value, 64)
    &&& forall|v: u64| v != rcp::id_of(k, reg) && v != rcp::id_of(DataKind::Svalues, reg) && v != rcp::id_of(DataKind::Uvalues, reg)
            && !(k is StackOffsets && v == rcp::id_of(DataKind::StackNumericSizes, reg)) ==> #[trigger] f(v) == e(v)
}

/// The bytes that are counted behind a stack pointer are numbers.
pub open spec fn counts_numbers(d: &EbpfDomain, reg: Reg, env: Env) -> bool {
    array_domain::numeric_from(d.stack.bits(), env(rcp::id_of(DataKind::StackOffsets, reg)), env(rcp::id_of(DataKind::StackNumericSizes, reg)))
}

/// Adding a number in a register to a pointer is sound: of every valuation that the state admits, the
/// one in which the pointer's offset is greater by the number's signed value is admitted afterwards. The
/// bytes that are counted behind a stack pointer stay numbers.
#[verifier::rlimit(40)]
pub proof fn pointer_sums_are_sound(be: bool, bin: Bin, src: Reg, te: TypeEncoding, k: DataKind, a: Place, b: Place, e: Env) -> (f: Env)
    requires
        ebpf_bin::bin_effect(be, bin, a, b),
        bin.op is ADD,
        bin.is64,
        bin.v == Value::Reg(src),
        bin.dst.v <= 11,
        src.v <= 11,
        a.0.wf(),
        a.1.ready(),
        b.1.wf(),
        act_laws::has_type(a, bin.dst, te),
        act_laws::has_type(a, src, TypeEncoding::TNum),
        rcp::offset_kind(te) == Some(k),
        demands::describes(&a.0, e),
        calm(e),
    ensures
        demands::describes(&b.0, f),
        pointer_moved(e, f, bin.dst, k, e(rcp::id_of(k, bin.dst)) + e(rcp::id_of(DataKind::Svalues, src)),
            e(rcp::id_of(DataKind::Uvalues, bin.dst)) + e(rcp::id_of(DataKind::Uvalues, src))),
        b.0.stack == a.0.stack,
        te is TStack && counts_numbers(&a.0, bin.dst, e) ==> counts_numbers(&b.0, bin.dst, f),
{
    let dst = bin.dst;
    act_laws::lemma_admits(a, e);
    lemma_calm(e);
    lemma_unlinked(a, dst, src, te, TypeEncoding::TNum);
    let (p, q, back) = lemma_sum(be, bin, src, te, TypeEncoding::TNum, a, b);
    let off = rcp::id_of(k, dst);
    let size = ebpf_arith::size_id(dst);
    let sd = ebpf_arith::sv(dst);
    let ud = ebpf_arith::uv(dst);
    let ss = ebpf_arith::sv(src);
    let us = ebpf_arith::uv(src);
    lemma_kinds(k, DataKind::Svalues, dst, src);
    lemma_kinds(k, DataKind::Uvalues, dst, src);
    lemma_kinds(k, DataKind::Uvalues, dst, dst);
    lemma_kinds(k, DataKind::Svalues, dst, dst);
    lemma_kinds(DataKind::StackNumericSizes, DataKind::Svalues, dst, src);
    lemma_kinds(DataKind::StackNumericSizes, DataKind::Uvalues, dst, src);
    lemma_kinds(DataKind::StackNumericSizes, DataKind::Uvalues, dst, dst);
    lemma_kinds(DataKind::StackNumericSizes, DataKind::Svalues, dst, dst);
    lemma_kinds(k, DataKind::StackNumericSizes, dst, dst);
    lemma_kinds(DataKind::Svalues, DataKind::Uvalues, dst, dst);
    assert(-0x1000_0000_0000_0000_0000 <= e(off) <= 0x1000_0000_0000_0000_0000);
    assert(-0x1000_0000_0000_0000_0000 <= e(ss) <= 0x1000_0000_0000_0000_0000);
    assert(-0x1000_0000_0000_0000_0000 <= e(size) <= 0x1000_0000_0000_0000_0000);
    let gives = seq![ebpf_memory::gives(dst, te)];
    let plain = Step::Plain(ebpf_arith::add_op(), off, off, ebpf_addsub::by_value(src), 0);
    let moving = seq![ebpf_memory::numbers(seq![plain])];
    let sizing = if te is TStack { ebpf_addsub::sum_size_acts(dst, src, back) } else { seq![] };
    let raw = seq![ebpf_memory::numbers(seq![ebpf_addsub::raw_sum(dst, src, 64)])];
    assert(ebpf_addsub::sum_acts(dst, src, te, TypeEncoding::TNum, 64, back) =~= gives + (moving + (sizing + raw)));
    let m1 = act_laws::lemma_split(be, p, gives, moving + (sizing + raw), q);
    let m2 = act_laws::lemma_split(be, m1, moving, sizing + raw, q);
    let m3 = act_laws::lemma_split(be, m2, sizing, raw, q);
    assert(act_laws::admits(p, e));
    step_laws::reaches_nothing(e);
    act_laws::lemma_still(be, p, gives[0], m1, e);
    let f1 = zone_model::env_with(e, off, e(off) + e(ss));
    lemma_calm_with(e, off, e(off) + e(ss));
    act_laws::lemma_step(be, m1, plain, m2, e, f1);
    act_laws::lemma_one(be, p, gives[0], m1);
    act_laws::lemma_one(be, m1, moving[0], m2);
    assert(m2.1 == a.1 && m2.0.stack == a.0.stack) by { reveal(acts::acted); }
    act_laws::lemma_one(be, m3, raw[0], q);
    assert(q.0.stack == m3.0.stack) by { reveal(acts::acted); }
    let f2 = if te is TStack { lemma_sizes(be, dst, src, back, m2, m3, raw, q, b.1, f1) } else { act_laws::lemma_none(be, m2, m3); f1 };
    lemma_modest_register(f2, sd, ud, f2(ud) + f2(us), 64);
    let f3 = register_laws::with_register(f2, sd, ud, f2(ud) + f2(us), 64);
    act_laws::lemma_step(be, m3, ebpf_addsub::raw_sum(dst, src, 64), q, f2, f3);
    assert(f2(ud) == e(ud) && f2(us) == e(us) && f2(off) == e(off) + e(ss));
    f3
}

/// The number of numeric bytes behind a stack pointer that moves.
proof fn lemma_sizes(be: bool, dst: Reg, src: Reg, back: bool, m2: Place, m3: Place, raw: Seq<Act>, q: Place, last: RegistryView, e: Env) -> (f: Env)
    requires
        acts::follows(be, m2, ebpf_addsub::sum_size_acts(dst, src, back), m3),
        acts::follows(be, m3, raw, q),
        act_laws::admits(m2, e),
        dst.v <= 11,
        src.v <= 11,
        m2.1.ready(),
        last.wf(),
        last.extends(q.1),
        -0x2000_0000_0000_0000_0000 <= e(ebpf_arith::size_id(dst)) <= 0x2000_0000_0000_0000_0000,
        -0x2000_0000_0000_0000_0000 <= e(ebpf_arith::sv(src)) <= 0x2000_0000_0000_0000_0000,
    ensures
        act_laws::admits(m3, f),
        m3.0.stack == m2.0.stack,
        forall|k: u64| k != ebpf_arith::size_id(dst) ==> #[trigger] f(k) == e(k),
        array_domain::numeric_from(m2.0.stack.bits(), e(rcp::id_of(DataKind::StackOffsets, dst)), f(ebpf_arith::size_id(dst)))
            || e(ebpf_arith::sv(src)) >= 0 && f(ebpf_arith::size_id(dst)) == e(ebpf_arith::size_id(dst)) - e(ebpf_arith::sv(src)),
{
    let size = ebpf_arith::size_id(dst);
    lemma_kinds(DataKind::StackOffsets, DataKind::StackNumericSizes, dst, dst);
    let test = seq![Act::Meets(ebpf_addsub::is_negative(src), back)];
    if back {
        let forget = seq![ebpf_memory::numbers(seq![Step::Forget(size)])];
        let find = seq![Act::NumericSize(var_registry::reg_var(DataKind::Types, dst.v as int))];
        assert(ebpf_addsub::sum_size_acts(dst, src, back) =~= test + (forget + find));
        let n1 = act_laws::lemma_split(be, m2, test, forget + find, m3);
        let n2 = act_laws::lemma_split(be, n1, forget, find, m3);
        act_laws::lemma_still(be, m2, test[0], n1, e);
        let e0 = zone_model::env_with(e, size, 0);
        lemma_calm_with(e, size, 0);
        act_laws::lemma_step(be, n1, Step::Forget(size), n2, e, e0);
        act_laws::lemma_one(be, n2, find[0], m3);
        acts::following_extends(be, m3, raw, q);
        last.extending_is_transitive(q.1, m3.1);
        act_laws::lemma_one(be, m2, test[0], n1);
        act_laws::lemma_one(be, n1, forget[0], n2);
        assert(n2.1 == m2.1 && n2.0.stack == m2.0.stack) by { reveal(acts::acted); }
        act_laws::sizes_are_sound(be, n2, dst, m3, last, e0)
    } else {
        let op = Step::Signed(ebpf_arith::sub_op(), size, size, size, ebpf_addsub::by_value(src), 0);
        let shrink = seq![ebpf_memory::numbers(seq![op])];
        assert(ebpf_addsub::sum_size_acts(dst, src, back) =~= test + shrink);
        let n1 = act_laws::lemma_split(be, m2, test, shrink, m3);
        act_laws::lemma_still(be, m2, test[0], n1, e);
        let f = zone_model::env_with(e, size, e(size) - e(ebpf_arith::sv(src)));
        lemma_calm_with(e, size, e(size) - e(ebpf_arith::sv(src)));
        act_laws::lemma_step(be, n1, op, m3, e, f);
        act_laws::lemma_one(be, m2, test[0], n1);
        act_laws::lemma_one(be, n1, shrink[0], m3);
        assert(n1 == m2 && m3.0.stack == m2.0.stack && acts::meet_answer(&m2.0, m2.1, ebpf_addsub::is_negative(src), false)) by { reveal(acts::acted); }
        lemma_not_negative(m2, src, e);
        f
    }
}

/// A register that cannot be negative is not.
proof fn lemma_not_negative(p: Place, src: Reg, e: Env)
    requires act_laws::admits(p, e), acts::meet_answer(&p.0, p.1, ebpf_addsub::is_negative(src), false),
    ensures e(ebpf_arith::sv(src)) >= 0,
{
    let l = ebpf_addsub::is_negative(src);
    let z = p.0.num()->Some_0;
    let mo = zone_domain::min_only_of(p.1);
    let c = choose|c: LinearConstraint| l == #[trigger] numeric_steps::lin_of(&c) && c.expression.orderly() && zone_domain::constraint_refuted(z, &c, mo);
    step_laws::lemma_bound(l, ebpf_arith::sv(src), 0, true, e);
    step_laws::simple_refusals_are_sound(z, &c, mo, e);
}

/// Adding a pointer to a number gives a pointer: of every valuation that the state admits, the one in
/// which the register's offset is that of the pointer, greater by the number's signed value, is admitted
/// afterwards. The region stays the same.
#[verifier::rlimit(40)]
pub proof fn pointer_shifts_are_sound(be: bool, bin: Bin, src: Reg, te: TypeEncoding, k: DataKind, a: Place, b: Place, e: Env) -> (f: Env)
    requires
        ebpf_bin::bin_effect(be, bin, a, b),
        bin.op is ADD,
        bin.is64,
        bin.v == Value::Reg(src),
        bin.dst.v <= 11,
        src.v <= 11,
        a.0.wf(),
        a.1.ready(),
        act_laws::has_type(a, bin.dst, TypeEncoding::TNum),
        act_laws::has_type(a, src, te),
        rcp::offset_kind(te) == Some(k),
        demands::describes(&a.0, e),
        calm(e),
    ensures
        demands::describes(&b.0, f),
        f(rcp::id_of(k, bin.dst)) == e(rcp::id_of(k, src)) + e(rcp::id_of(DataKind::Svalues, bin.dst)),
        f(rcp::id_of(DataKind::Svalues, bin.dst)) == number::wrap_signed(e(rcp::id_of(DataKind::Uvalues, bin.dst)) + e(rcp::id_of(DataKind::Uvalues, src)), 64),
        f(rcp::id_of(DataKind::Uvalues, bin.dst)) == number::wrap_unsigned(e(rcp::id_of(DataKind::Uvalues, bin.dst)) + e(rcp::id_of(DataKind::Uvalues, src)), 64),
        te is TShared ==> f(rcp::id_of(DataKind::SharedRegionSizes, bin.dst)) == e(rcp::id_of(DataKind::SharedRegionSizes, src)),
        forall|v: u64| v != rcp::id_of(k, bin.dst) && v != rcp::id_of(DataKind::Svalues, bin.dst) && v != rcp::id_of(DataKind::Uvalues, bin.dst)
            && !(te is TShared && v == rcp::id_of(DataKind::SharedRegionSizes, bin.dst)) ==> #[trigger] f(v) == e(v),
        b.0.stack == a.0.stack,
{
    let dst = bin.dst;
    act_laws::lemma_admits(a, e);
    lemma_calm(e);
    lemma_unlinked(a, dst, src, TypeEncoding::TNum, te);
    let (p, q, back) = lemma_sum(be, bin, src, TypeEncoding::TNum, te, a, b);
    let off = rcp::id_of(k, dst);
    let from = rcp::id_of(k, src);
    let sd = ebpf_arith::sv(dst);
    let ud = ebpf_arith::uv(dst);
    let us = ebpf_arith::uv(src);
    let region = rcp::id_of(DataKind::SharedRegionSizes, dst);
    let other = rcp::id_of(DataKind::SharedRegionSizes, src);
    lemma_kinds(k, DataKind::Svalues, dst, dst);
    lemma_kinds(k, DataKind::Uvalues, dst, dst);
    lemma_kinds(k, DataKind::Uvalues, dst, src);
    lemma_kinds(DataKind::SharedRegionSizes, k, src, dst);
    lemma_kinds(DataKind::SharedRegionSizes, k, dst, dst);
    lemma_kinds(DataKind::SharedRegionSizes, DataKind::Svalues, src, dst);
    lemma_kinds(DataKind::SharedRegionSizes, DataKind::Uvalues, src, dst);
    lemma_kinds(DataKind::SharedRegionSizes, DataKind::Svalues, dst, dst);
    lemma_kinds(DataKind::SharedRegionSizes, DataKind::Uvalues, dst, dst);
    lemma_kinds(DataKind::Svalues, DataKind::Uvalues, dst, dst);
    assert(-0x1000_0000_0000_0000_0000 <= e(from) <= 0x1000_0000_0000_0000_0000);
    assert(-0x1000_0000_0000_0000_0000 <= e(sd) <= 0x1000_0000_0000_0000_0000);
    let gives = seq![ebpf_memory::gives(dst, te)];
    let one = Step::Plain(ebpf_arith::add_op(), off, sd, Operand::Var(from), 0);
    let two = ebpf_addsub::raw_sum(dst, src, 64);
    let three = if te is TShared { seq![Step::Copy(region, other)] } else { seq![] };
    let ops = seq![one] + seq![two] + three;
    let act = ebpf_memory::numbers(ops);
    assert(ebpf_addsub::sum_acts(dst, src, TypeEncoding::TNum, te, 64, back) =~= gives + seq![act]);
    let m = act_laws::lemma_split(be, p, gives, seq![act], q);
    step_laws::reaches_nothing(e);
    act_laws::lemma_still(be, p, gives[0], m, e);
    act_laws::lemma_one(be, p, gives[0], m);
    act_laws::lemma_one(be, m, act, q);
    assert(q.0.stack == a.0.stack) by { reveal(acts::acted); }
    let f1 = zone_model::env_with(e, off, e(sd) + e(from));
    lemma_calm_with(e, off, e(sd) + e(from));
    act_laws::lemma_reach(one, e, f1);
    lemma_modest_register(f1, sd, ud, f1(ud) + f1(us), 64);
    let f2 = register_laws::with_register(f1, sd, ud, f1(ud) + f1(us), 64);
    act_laws::lemma_reach(two, f1, f2);
    step_laws::reaches_both(seq![one], seq![two], e, f1, f2);
    let f = if te is TShared { zone_model::env_with(f2, region, f2(other)) } else { f2 };
    if te is TShared {
        assert(-interval_laws::MODEST <= f2(other) <= interval_laws::MODEST);
        lemma_calm_with(f2, region, f2(other));
        act_laws::lemma_reach(three[0], f2, f);
        assert(three =~= seq![three[0]]);
        step_laws::reaches_both(seq![one] + seq![two], three, e, f2, f);
    } else {
        assert(ops =~= seq![one] + seq![two]);
    }
    act_laws::act_is_sound(be, m, act, q, e, f);
    f
}

/// The difference of two pointers to the same region is the number by which their offsets differ: of
/// every valuation that the state admits, the one in which the register holds that number is admitted
/// afterwards.
#[verifier::rlimit(40)]
pub proof fn pointer_differences_are_sound(be: bool, bin: Bin, src: Reg, te: TypeEncoding, k: DataKind, a: Place, b: Place, e: Env)
    requires
        ebpf_bin::bin_effect(be, bin, a, b),
        bin.op is SUB,
        bin.is64,
        bin.v == Value::Reg(src),
        bin.dst.v <= 11,
        src.v <= 11,
        a.0.wf(),
        a.1.ready(),
        act_laws::has_type(a, bin.dst, te),
        act_laws::has_type(a, src, te),
        rcp::offset_kind(te) == Some(k),
        demands::describes(&a.0, e),
    ensures
        demands::describes(&b.0, alu_laws::with_word(e, bin.dst, alu_laws::low(e(rcp::id_of(k, bin.dst)) - e(rcp::id_of(k, src)), true))),
        act_laws::has_type(b, bin.dst, TypeEncoding::TNum),
{
    let dst = bin.dst;
    act_laws::lemma_admits(a, e);
    act_laws::lemma_one_type(a, dst, te);
    act_laws::lemma_one_type(a, src, te);
    let t = a.0.state.types.s();
    act_laws::lemma_known(t, rcp::type_id(dst), te);
    act_laws::lemma_known(t, rcp::type_id(src), te);
    assert(crate::type_domain::same_lone_type(t.types_of(rcp::type_id(dst)), t.types_of(rcp::type_id(src))));
    t.lone_types_are_merged(rcp::type_id(dst), rcp::type_id(src));
    let j = choose|j: BinSeen| #[trigger] ebpf_bin::bin_runs(be, bin, j, a, b);
    lemma_tests(be, bin, src, j, a, b);
    let typed = ebpf_bin::both_tests(bin, src, j).push(Act::SameType(dst, src, j.same));
    let tail = ebpf_bin::tail_acts(bin, j.after);
    assert(tail =~= seq![]);
    if !j.same {
        let body = ebpf_addsub::minus_acts(dst, src, 64, j.w, j.may_point);
        assert(typed + body + tail =~= typed + body);
        lemma_typed(be, bin, src, j, a, body, b);
    }
    let rel = ebpf_addsub::difference_branch(be, dst, src, 64);
    let (m, n) = choose|m: Place, n: Place| #[trigger] acts::follows(be, a, typed, m) && branching::over_types(m, dst, rel, n) && #[trigger] acts::follows(be, n, tail, b);
    assert(typed + seq![] =~= typed);
    lemma_typed(be, bin, src, j, a, seq![], m);
    act_laws::lemma_none(be, a, m);
    act_laws::lemma_none(be, n, b);
    let (inp, out) = act_laws::lemma_single(a, dst, rel, b, te);
    act_laws::lemma_branch_admits(a, dst, te, inp, e);
    lemma_difference_acts(be, dst, src, te, k, inp, out, e);
}

proof fn lemma_difference_acts(be: bool, dst: Reg, src: Reg, te: TypeEncoding, k: DataKind, inp: Place, out: Place, e: Env)
    requires
        acts::follows(be, inp, ebpf_addsub::difference_acts(dst, src, te, 64), out),
        rcp::offset_kind(te) == Some(k),
        dst.v <= 11,
        src.v <= 11,
        act_laws::admits(inp, e),
        inp.0.state.types.state is Some,
    ensures
        act_laws::admits(out, alu_laws::with_word(e, dst, alu_laws::low(e(rcp::id_of(k, dst)) - e(rcp::id_of(k, src)), true))),
        act_laws::has_type(out, dst, TypeEncoding::TNum),
{
    let off = rcp::id_of(k, dst);
    let from = rcp::id_of(k, src);
    let sd = ebpf_arith::sv(dst);
    let ud = ebpf_arith::uv(dst);
    lemma_kinds(k, DataKind::Svalues, dst, dst);
    lemma_kinds(k, DataKind::Uvalues, dst, dst);
    lemma_kinds(DataKind::Svalues, DataKind::Uvalues, dst, dst);
    let x = e(off) - e(from);
    let one = Step::Signed(ebpf_arith::sub_op(), sd, ud, off, Operand::Var(from), 64);
    let two = Step::Forget(off);
    let ops = seq![one, two];
    let act = ebpf_memory::numbers(ops);
    let forgets = seq![ebpf_memory::forgets_offsets(dst)];
    let gives = seq![ebpf_memory::gives(dst, TypeEncoding::TNum)];
    assert(ebpf_addsub::difference_acts(dst, src, te, 64) =~= seq![act] + (forgets + gives));
    let m1 = act_laws::lemma_split(be, inp, seq![act], forgets + gives, out);
    let m2 = act_laws::lemma_split(be, m1, forgets, gives, out);
    lemma_modest_register(e, sd, ud, x, 64);
    let f = register_laws::with_register(e, sd, ud, x, 64);
    alu_laws::lemma_took(e, dst, x, true);
    act_laws::lemma_reach(one, e, f);
    assert(f =~= zone_model::env_with(f, off, f(off)));
    act_laws::lemma_reach(two, f, f);
    step_laws::reaches_both(seq![one], seq![two], e, f, f);
    assert(seq![one] + seq![two] =~= ops);
    act_laws::lemma_one(be, inp, act, m1);
    act_laws::act_is_sound(be, inp, act, m1, e, f);
    act_laws::lemma_forgets(be, m1, acts::TypeChange::Same, rcp::offset_ids(dst), m2, f, f);
    step_laws::reaches_nothing(f);
    act_laws::lemma_still(be, m2, gives[0], out, f);
    act_laws::lemma_one(be, m1, forgets[0], m2);
    act_laws::lemma_one(be, m2, gives[0], out);
    assert(m2.0.state.types == inp.0.state.types && acts::types_changed(m2.0.state.types, acts::TypeChange::Given(rcp::type_id(dst), TypeEncoding::TNum), out.0.state.types)) by { reveal(acts::acted); }
    alu_laws::lemma_given(m2, dst, TypeEncoding::TNum, out);
}

/// The offset and the value of a pointer move by an operand.
#[verifier::rlimit(40)]
proof fn lemma_moved(be: bool, dst: Reg, te: TypeEncoding, k: DataKind, is_sum: bool, o: Operand, ou: Operand, may: bool, v: Option<Variable>, rest: Seq<Act>, a: Place, b: Place, e: Env) -> (r: (Place, Env))
    requires
        acts::follows(be, a, seq![Act::MayHave(dst, TypeEncoding::TNum, may)] + (seq![Act::OffsetOf(dst, v)] + (seq![
            match v {
                Some(x) => ebpf_memory::numbers(seq![Step::Signed(if is_sum { ebpf_arith::add_op() } else { ebpf_arith::sub_op() }, x.id, x.id, x.id, o, 0)]),
                None => ebpf_memory::forgets_offsets(dst),
            }] + (seq![ebpf_memory::numbers(seq![Step::Unsigned(if is_sum { ebpf_arith::add_op() } else { ebpf_arith::sub_op() }, ebpf_arith::sv(dst), ebpf_arith::uv(dst), ebpf_arith::uv(dst), ou, 64)])]
            + rest))), b),
        dst.v <= 11,
        act_laws::has_type(a, dst, te),
        rcp::offset_kind(te) == Some(k),
        act_laws::admits(a, e),
        -0x1000_0000_0000_0000_0000 <= e(rcp::id_of(k, dst)) <= 0x1000_0000_0000_0000_0000,
        -0x1000_0000_0000_0000_0000 <= register_laws::operand_value(o, e) <= 0x1000_0000_0000_0000_0000,
        ou matches Operand::Num(n) ==> -0x1000_0000_0000_0000_0000 <= n@ <= 0x1000_0000_0000_0000_0000,
        ou matches Operand::Var(q) ==> q != rcp::id_of(k, dst),
    ensures
        !may,
        acts::follows(be, r.0, rest, b),
        act_laws::admits(r.0, r.1),
        r.0.1 == a.1,
        r.0.0.stack == a.0.stack,
        r.0.0.state.types == a.0.state.types,
        ({
            let x = register_laws::operand_value(o, e);
            let y = register_laws::operand_value(ou, e);
            let u = e(rcp::id_of(DataKind::Uvalues, dst));
            &&& r.1(rcp::id_of(k, dst)) == (if is_sum { e(rcp::id_of(k, dst)) + x } else { e(rcp::id_of(k, dst)) - x })
            &&& r.1(rcp::id_of(DataKind::Svalues, dst)) == number::wrap_signed(if is_sum { u + y } else { u - y }, 64)
            &&& r.1(rcp::id_of(DataKind::Uvalues, dst)) == number::wrap_unsigned(if is_sum { u + y } else { u - y }, 64)
            &&& forall|w: u64| w != rcp::id_of(k, dst) && w != rcp::id_of(DataKind::Svalues, dst) && w != rcp::id_of(DataKind::Uvalues, dst) ==> #[trigger] r.1(w) == e(w)
        }),
{
    let off = rcp::id_of(k, dst);
    let sd = ebpf_arith::sv(dst);
    let ud = ebpf_arith::uv(dst);
    lemma_kinds(k, DataKind::Svalues, dst, dst);
    lemma_kinds(k, DataKind::Uvalues, dst, dst);
    lemma_kinds(DataKind::Svalues, DataKind::Uvalues, dst, dst);
    let f = if is_sum { ebpf_arith::add_op() } else { ebpf_arith::sub_op() };
    let moving = match v {
        Some(x) => ebpf_memory::numbers(seq![Step::Signed(f, x.id, x.id, x.id, o, 0)]),
        None => ebpf_memory::forgets_offsets(dst),
    };
    let raw = Step::Unsigned(f, sd, ud, ud, ou, 64);
    let last = seq![ebpf_memory::numbers(seq![raw])];
    alu_laws::lemma_asked(be, a, Act::MayHave(dst, TypeEncoding::TNum, may), seq![Act::OffsetOf(dst, v)] + (seq![moving] + (last + rest)), b);
    let ts = a.0.state.types.s().types_of(rcp::type_id(dst));
    assert(!ts.has(TypeEncoding::TNum) && ts.has(te));
    assert(!may) by { reveal(acts::acted); }
    let m0 = act_laws::lemma_split(be, a, seq![Act::OffsetOf(dst, v)], seq![moving] + (last + rest), b);
    act_laws::lemma_one(be, a, Act::OffsetOf(dst, v), m0);
    assert(m0 == a && acts::offset_answer(&a.0, dst, v)) by { reveal(acts::acted); }
    assert(v == Some(var_registry::reg_var(k, dst.v as int))) by {
        assert forall|t: TypeEncoding| #[trigger] ts.is_just(t) implies t == te by { assert(ts.has(te)); }
        assert(ts.is_just(te));
    }
    let m1 = act_laws::lemma_split(be, a, seq![moving], last + rest, b);
    let m2 = act_laws::lemma_split(be, m1, last, rest, b);
    let op = Step::Signed(f, off, off, off, o, 0);
    let x = register_laws::operand_value(o, e);
    let y = register_laws::operand_value(ou, e);
    let there = if is_sum { e(off) + x } else { e(off) - x };
    let f1 = zone_model::env_with(e, off, there);
    lemma_calm_with(e, off, there);
    act_laws::lemma_step(be, a, op, m1, e, f1);
    let value = if is_sum { f1(ud) + y } else { f1(ud) - y };
    lemma_modest_register(f1, sd, ud, value, 64);
    let f2 = register_laws::with_register(f1, sd, ud, value, 64);
    assert(register_laws::operand_value(ou, f1) == y);
    act_laws::lemma_step(be, m1, raw, m2, f1, f2);
    act_laws::lemma_one(be, a, moving, m1);
    act_laws::lemma_one(be, m1, last[0], m2);
    assert(m2.1 == a.1 && m2.0.stack == a.0.stack && m2.0.state.types == a.0.state.types) by { reveal(acts::acted); }
    (m2, f2)
}

/// Adding a number to a pointer, or taking it away, is sound: the offset moves by the number. The bytes
/// that are counted behind a stack pointer stay numbers.
pub proof fn pointer_steps_are_sound(be: bool, bin: Bin, i: Imm, te: TypeEncoding, k: DataKind, a: Place, b: Place, e: Env) -> (f: Env)
    requires
        ebpf_bin::bin_effect(be, bin, a, b),
        bin.op is ADD || bin.op is SUB,
        bin.is64,
        bin.v == Value::Imm(i),
        i32::MIN <= ebpf_bin::immediate(i.v, true) <= i32::MAX,
        bin.dst.v <= 11,
        a.0.wf(),
        a.1.ready(),
        b.1.wf(),
        act_laws::has_type(a, bin.dst, te),
        rcp::offset_kind(te) == Some(k),
        demands::describes(&a.0, e),
        calm(e),
        branch_laws::readings(e(rcp::id_of(DataKind::Svalues, bin.dst)), e(rcp::id_of(DataKind::Uvalues, bin.dst))),
    ensures
        demands::describes(&b.0, f),
        ({
            let n = ebpf_bin::immediate(i.v, true);
            let d = if bin.op is ADD { n } else { -n };
            pointer_moved(e, f, bin.dst, k, e(rcp::id_of(k, bin.dst)) + d, e(rcp::id_of(DataKind::Uvalues, bin.dst)) + d)
        }),
        b.0.stack == a.0.stack,
        te is TStack && counts_numbers(&a.0, bin.dst, e) ==> counts_numbers(&b.0, bin.dst, f),
{
    let dst = bin.dst;
    let imm = ebpf_bin::immediate(i.v, true);
    act_laws::lemma_admits(a, e);
    lemma_calm(e);
    act_laws::lemma_one_type(a, dst, te);
    let j = choose|j: BinSeen| #[trigger] ebpf_bin::bin_runs(be, bin, j, a, b);
    alu_laws::lemma_initialized(be, bin, j, a, b);
    let test = ebpf_bin::first_test(bin, j);
    let body = ebpf_bin::bin_imm_acts(bin, imm, j.w);
    assert(test + ebpf_bin::head_acts(bin, j.before) + body + (if ebpf_bin::is_idle_sum(bin, imm) { seq![] } else { ebpf_bin::tail_acts(bin, j.after) }) =~= seq![test[0]] + body);
    alu_laws::lemma_asked(be, a, test[0], body, b);
    if imm == 0 {
        assert(body =~= seq![]);
        act_laws::lemma_none(be, a, b);
        vstd::arithmetic::power2::lemma2_to64();
        vstd::arithmetic::power2::lemma2_to64_rest();
        number::lemma_wrap_identity(e(ebpf_arith::uv(dst)), 64);
        e
    } else {
        vstd::arithmetic::power2::lemma2_to64();
        number::lemma_wrap_identity(imm, 32);
        let d = if bin.op is ADD { imm } else { -imm };
        assert(body == ebpf_arith::add_acts(dst, d, 64, j.w));
        lemma_pointer_step(be, dst, te, k, d, j.w, a, b, e)
    }
}

#[verifier::rlimit(40)]
proof fn lemma_pointer_step(be: bool, dst: Reg, te: TypeEncoding, k: DataKind, d: int, w: Seen, a: Place, b: Place, e: Env) -> (f: Env)
    requires
        acts::follows(be, a, ebpf_arith::add_acts(dst, d, 64, w), b),
        d != 0,
        -0x1_0000_0000 <= d <= 0x1_0000_0000,
        dst.v <= 11,
        a.1.ready(),
        b.1.wf(),
        act_laws::has_type(a, dst, te),
        rcp::offset_kind(te) == Some(k),
        act_laws::admits(a, e),
        calm(e),
    ensures
        act_laws::admits(b, f),
        pointer_moved(e, f, dst, k, e(rcp::id_of(k, dst)) + d, e(rcp::id_of(DataKind::Uvalues, dst)) + d),
        b.0.stack == a.0.stack,
        te is TStack && counts_numbers(&a.0, dst, e) ==> counts_numbers(&b.0, dst, f),
{
    let off = rcp::id_of(k, dst);
    let size = ebpf_arith::size_id(dst);
    let sizes = ebpf_arith::add_size_acts(dst, d, w.third);
    let all = ebpf_arith::add_acts(dst, d, 64, w);
    let may = seq![Act::MayHave(dst, TypeEncoding::TNum, w.first)];
    let ts = a.0.state.types.s().types_of(rcp::type_id(dst));
    assert(ts.has(te) && !ts.has(TypeEncoding::TNum));
    assert(all =~= may + all.skip(1));
    alu_laws::lemma_asked(be, a, may[0], all.skip(1), b);
    assert(!w.first) by { reveal(acts::acted); }
    assert(all =~= may + (seq![Act::OffsetOf(dst, w.offset)] + (seq![
        match w.offset {
            Some(x) => ebpf_memory::numbers(seq![Step::Signed(ebpf_arith::add_op(), x.id, x.id, x.id, ebpf_arith::lit(d), 0)]),
            None => ebpf_memory::forgets_offsets(dst),
        }] + (seq![ebpf_memory::numbers(seq![Step::Unsigned(ebpf_arith::add_op(), ebpf_arith::sv(dst), ebpf_arith::uv(dst), ebpf_arith::uv(dst), ebpf_arith::lit(d), 64)])]
        + sizes))));
    assert(-0x1000_0000_0000_0000_0000 <= e(off) <= 0x1000_0000_0000_0000_0000);
    assert(-0x1000_0000_0000_0000_0000 <= e(size) <= 0x1000_0000_0000_0000_0000);
    let (m, e1) = lemma_moved(be, dst, te, k, true, ebpf_arith::lit(d), ebpf_arith::lit(d), w.first, w.offset, sizes, a, b, e);
    lemma_kinds(DataKind::StackNumericSizes, k, dst, dst);
    lemma_kinds(DataKind::StackNumericSizes, DataKind::Svalues, dst, dst);
    lemma_kinds(DataKind::StackNumericSizes, DataKind::Uvalues, dst, dst);
    assert(e1(size) == e(size));
    let point = Act::MayHave(dst, TypeEncoding::TStack, w.third);
    assert(sizes =~= seq![point] + sizes.skip(1));
    alu_laws::lemma_asked(be, m, point, sizes.skip(1), b);
    assert(w.third == (te is TStack)) by {
        reveal(acts::acted);
        if ts.has(TypeEncoding::TStack) { assert(te is TStack); }
    }
    if !(te is TStack) {
        assert(sizes.skip(1) =~= seq![]);
        act_laws::lemma_none(be, m, b);
        e1
    } else {
        let find = seq![Act::NumericSize(var_registry::reg_var(DataKind::Types, dst.v as int))];
        let op = if d > 0 { Step::Signed(ebpf_arith::sub_op(), size, size, size, ebpf_arith::lit(d), 0) } else { Step::Forget(size) };
        let first = seq![ebpf_memory::numbers(seq![op])];
        assert(sizes.skip(1) =~= first + find);
        let n = act_laws::lemma_split(be, m, first, find, b);
        let x = if d > 0 { e(size) - d } else { 0 };
        let e2 = zone_model::env_with(e1, size, x);
        lemma_calm_with(e1, size, x);
        act_laws::lemma_step(be, m, op, n, e1, e2);
        act_laws::lemma_one(be, m, first[0], n);
        act_laws::lemma_one(be, n, find[0], b);
        assert(n.1 == a.1 && n.0.stack == a.0.stack) by { reveal(acts::acted); }
        numeric_steps::extends_itself(b.1);
        let f = act_laws::sizes_are_sound(be, n, dst, b, b.1, e2);
        f
    }
}

/// Taking a number in a register away from a pointer is sound: the offset moves back by the number's
/// signed value. The bytes that are counted behind a stack pointer stay numbers.
#[verifier::rlimit(40)]
pub proof fn pointer_retreats_are_sound(be: bool, bin: Bin, src: Reg, te: TypeEncoding, k: DataKind, a: Place, b: Place, e: Env) -> (f: Env)
    requires
        ebpf_bin::bin_effect(be, bin, a, b),
        bin.op is SUB,
        bin.is64,
        bin.v == Value::Reg(src),
        bin.dst.v <= 11,
        src.v <= 11,
        a.0.wf(),
        a.1.ready(),
        b.1.wf(),
        act_laws::has_type(a, bin.dst, te),
        act_laws::has_type(a, src, TypeEncoding::TNum),
        rcp::offset_kind(te) == Some(k),
        demands::describes(&a.0, e),
        calm(e),
    ensures
        demands::describes(&b.0, f),
        pointer_moved(e, f, bin.dst, k, e(rcp::id_of(k, bin.dst)) - e(rcp::id_of(DataKind::Svalues, src)),
            e(rcp::id_of(DataKind::Uvalues, bin.dst)) - e(rcp::id_of(DataKind::Uvalues, src))),
        b.0.stack == a.0.stack,
        te is TStack && counts_numbers(&a.0, bin.dst, e) ==> counts_numbers(&b.0, bin.dst, f),
{
    let dst = bin.dst;
    act_laws::lemma_admits(a, e);
    lemma_calm(e);
    act_laws::lemma_one_type(a, dst, te);
    act_laws::lemma_one_type(a, src, TypeEncoding::TNum);
    lemma_unlinked(a, dst, src, te, TypeEncoding::TNum);
    let j = choose|j: BinSeen| #[trigger] ebpf_bin::bin_runs(be, bin, j, a, b);
    lemma_tests(be, bin, src, j, a, b);
    let typed = ebpf_bin::both_tests(bin, src, j).push(Act::SameType(dst, src, j.same));
    let tail = ebpf_bin::tail_acts(bin, j.after);
    assert(tail =~= seq![]);
    if j.same {
        let rel = ebpf_addsub::difference_branch(be, dst, src, 64);
        let (m, n) = choose|m: Place, n: Place| #[trigger] acts::follows(be, a, typed, m) && branching::over_types(m, dst, rel, n) && #[trigger] acts::follows(be, n, tail, b);
        assert(typed + seq![] =~= typed);
        lemma_typed(be, bin, src, j, a, seq![], m);
    }
    let body = ebpf_addsub::minus_acts(dst, src, 64, j.w, j.may_point);
    assert(typed + body + tail =~= typed + body);
    lemma_typed(be, bin, src, j, a, body, b);
    let group = Act::InGroup(src, ebpf_arith::nums(), j.w.first);
    assert(body =~= seq![group] + body.skip(1));
    alu_laws::lemma_asked(be, a, group, body.skip(1), b);
    assert(j.w.first) by {
        reveal(acts::acted);
        let ts = a.0.state.types.s().types_of(rcp::type_id(src));
        assert forall|t: TypeEncoding| #[trigger] ts.has(t) implies ebpf_arith::nums().has(t) by { ts.algebra(ts, TypeEncoding::TNum, t); }
    }
    assert(body.skip(1) =~= ebpf_addsub::minus_value_acts(dst, src, 64, j.w) + ebpf_addsub::minus_size_acts(dst, src, j.may_point, j.w.fourth));
    lemma_retreat(be, dst, src, te, k, j.w, j.may_point, a, b, e)
}

#[verifier::rlimit(40)]
proof fn lemma_retreat(be: bool, dst: Reg, src: Reg, te: TypeEncoding, k: DataKind, w: Seen, may_point: bool, a: Place, b: Place, e: Env) -> (f: Env)
    requires
        acts::follows(be, a, ebpf_addsub::minus_value_acts(dst, src, 64, w) + ebpf_addsub::minus_size_acts(dst, src, may_point, w.fourth), b),
        dst.v <= 11,
        src.v <= 11,
        dst.v != src.v,
        a.1.ready(),
        b.1.wf(),
        act_laws::has_type(a, dst, te),
        rcp::offset_kind(te) == Some(k),
        act_laws::admits(a, e),
        calm(e),
    ensures
        act_laws::admits(b, f),
        pointer_moved(e, f, dst, k, e(rcp::id_of(k, dst)) - e(rcp::id_of(DataKind::Svalues, src)),
            e(rcp::id_of(DataKind::Uvalues, dst)) - e(rcp::id_of(DataKind::Uvalues, src))),
        b.0.stack == a.0.stack,
        te is TStack && counts_numbers(&a.0, dst, e) ==> counts_numbers(&b.0, dst, f),
{
    let off = rcp::id_of(k, dst);
    let size = ebpf_arith::size_id(dst);
    let ss = ebpf_arith::sv(src);
    let us = ebpf_arith::uv(src);
    let sizes = ebpf_addsub::minus_size_acts(dst, src, may_point, w.fourth);
    let all = ebpf_addsub::minus_value_acts(dst, src, 64, w) + sizes;
    let may = seq![Act::MayHave(dst, TypeEncoding::TNum, w.second)];
    let ts = a.0.state.types.s().types_of(rcp::type_id(dst));
    assert(ts.has(te) && !ts.has(TypeEncoding::TNum));
    assert(all =~= may + all.skip(1));
    alu_laws::lemma_asked(be, a, may[0], all.skip(1), b);
    assert(!w.second) by { reveal(acts::acted); }
    assert(all =~= may + (seq![Act::OffsetOf(dst, w.offset)] + (seq![
        match w.offset {
            Some(x) => ebpf_memory::numbers(seq![Step::Signed(ebpf_arith::sub_op(), x.id, x.id, x.id, ebpf_addsub::by_value(src), 0)]),
            None => ebpf_memory::forgets_offsets(dst),
        }] + (seq![ebpf_memory::numbers(seq![Step::Unsigned(ebpf_arith::sub_op(), ebpf_arith::sv(dst), ebpf_arith::uv(dst), ebpf_arith::uv(dst), Operand::Var(us), 64)])]
        + sizes))));
    assert(-0x1000_0000_0000_0000_0000 <= e(off) <= 0x1000_0000_0000_0000_0000);
    assert(-0x1000_0000_0000_0000_0000 <= e(ss) <= 0x1000_0000_0000_0000_0000);
    assert(-0x1000_0000_0000_0000_0000 <= e(size) <= 0x1000_0000_0000_0000_0000);
    lemma_kinds(DataKind::Uvalues, k, src, dst);
    let (m, e1) = lemma_moved(be, dst, te, k, false, ebpf_addsub::by_value(src), Operand::Var(us), w.second, w.offset, sizes, a, b, e);
    lemma_kinds(DataKind::StackNumericSizes, k, dst, dst);
    lemma_kinds(DataKind::StackNumericSizes, DataKind::Svalues, dst, dst);
    lemma_kinds(DataKind::StackNumericSizes, DataKind::Uvalues, dst, dst);
    lemma_kinds(DataKind::Svalues, k, src, dst);
    lemma_kinds(DataKind::Svalues, DataKind::Svalues, src, dst);
    lemma_kinds(DataKind::Svalues, DataKind::Uvalues, src, dst);
    assert(e1(size) == e(size) && e1(ss) == e(ss));
    let point = Act::MayHave(dst, TypeEncoding::TStack, may_point);
    assert(sizes =~= seq![point] + sizes.skip(1));
    alu_laws::lemma_asked(be, m, point, sizes.skip(1), b);
    assert(may_point == (te is TStack)) by {
        reveal(acts::acted);
        if ts.has(TypeEncoding::TStack) { assert(te is TStack); }
    }
    if !(te is TStack) {
        assert(sizes.skip(1) =~= seq![]);
        act_laws::lemma_none(be, m, b);
        e1
    } else {
        let test = seq![Act::Meets(ebpf_addsub::is_positive(src), w.fourth)];
        let op = if w.fourth { Step::Forget(size) } else { Step::Plain(ebpf_arith::add_op(), size, size, ebpf_addsub::by_value(src), 0) };
        let first = seq![ebpf_memory::numbers(seq![op])];
        let find = if w.fourth { seq![Act::NumericSize(var_registry::reg_var(DataKind::Types, dst.v as int))] } else { seq![] };
        assert(sizes.skip(1) =~= test + (first + find));
        let n0 = act_laws::lemma_split(be, m, test, first + find, b);
        let n = act_laws::lemma_split(be, n0, first, find, b);
        act_laws::lemma_one(be, m, test[0], n0);
        assert(n0 == m && acts::meet_answer(&m.0, m.1, ebpf_addsub::is_positive(src), w.fourth)) by { reveal(acts::acted); }
        let x = if w.fourth { 0 } else { e(size) + e(ss) };
        let e2 = zone_model::env_with(e1, size, x);
        lemma_calm_with(e1, size, x);
        act_laws::lemma_step(be, m, op, n, e1, e2);
        act_laws::lemma_one(be, m, first[0], n);
        assert(n.1 == a.1 && n.0.stack == a.0.stack) by { reveal(acts::acted); }
        if w.fourth {
            act_laws::lemma_one(be, n, find[0], b);
            numeric_steps::extends_itself(b.1);
            act_laws::sizes_are_sound(be, n, dst, b, b.1, e2)
        } else {
            act_laws::lemma_none(be, n, b);
            lemma_not_positive(m, src, e1);
            e2
        }
    }
}

/// A register that cannot be positive is not.
proof fn lemma_not_positive(p: Place, src: Reg, e: Env)
    requires act_laws::admits(p, e), acts::meet_answer(&p.0, p.1, ebpf_addsub::is_positive(src), false),
    ensures e(ebpf_arith::sv(src)) <= 0,
{
    let l = ebpf_addsub::is_positive(src);
    let z = p.0.num()->Some_0;
    let mo = zone_domain::min_only_of(p.1);
    let c = choose|c: LinearConstraint| l == #[trigger] numeric_steps::lin_of(&c) && c.expression.orderly() && zone_domain::constraint_refuted(z, &c, mo);
    step_laws::lemma_bound(l, ebpf_arith::sv(src), 0, false, e);
    step_laws::simple_refusals_are_sound(z, &c, mo, e);
}

}
