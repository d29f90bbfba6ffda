//! What arithmetic and logic on numbers computes.
use vstd::prelude::*;
use vstd::arithmetic::power2::{lemma2_to64, lemma2_to64_rest, pow2};
use crate::act_laws;
use crate::acts::{Act, Place};
use crate::acts;
use crate::arith::extended_number::ExtendedNumber;
use crate::arith::linear_expression::Env;
use crate::arith::linear_expression;
use crate::arith::number::Number;
use crate::arith::number;
use crate::branching;
use crate::demands;
use crate::ebpf_addsub;
use crate::ebpf_arith::Seen;
use crate::ebpf_arith;
use crate::ebpf_bin::BinSeen;
use crate::ebpf_bin;
use crate::ebpf_memory;
use crate::ebpf_un;
use crate::finite_domain::{BitwiseBinOp, FiniteBinOp, Operand, SignedArithBinOp};
use crate::finite_domain;
use crate::interval::Interval;
use crate::interval_laws;
use crate::numeric_ops;
use crate::numeric_steps::{Num, Step};
use crate::numeric_steps;
use crate::pointer_laws;
use crate::rcp;
use crate::register_laws;
use crate::step_laws;
use crate::syntax::{Bin, BinOp, Imm, Reg, Un, Value};
use crate::type_domain;
use crate::type_encoding::{DataKind, TypeEncoding, TypeSet};
use crate::var_registry::RegistryView;
use crate::var_registry;
use crate::word_laws;
use crate::zone_domain::ArithBinOp;
use crate::zone_domain;
use crate::zone_model::ZEdges;
use crate::zone_model;

verus! {

/// The low bits of a word without a sign.
pub open spec fn low(x: int, is64: bool) -> int {
    if is64 { x % 0x1_0000_0000_0000_0000 } else { x % 0x1_0000_0000 }
}

/// The low bits of a word with a sign.
pub open spec fn signed(x: int, is64: bool) -> int {
    let u = low(x, is64);
    if is64 {
        if u < 0x8000_0000_0000_0000 { u } else { u - 0x1_0000_0000_0000_0000 }
    } else {
        if u < 0x8000_0000 { u } else { u - 0x1_0000_0000 }
    }
}

/// What an operation computes of two words, up to the bits beyond its width. A division by zero gives
/// zero, and the remainder of one what was there.
pub open spec fn computed(op: BinOp, is64: bool, x: int, y: int) -> int {
    match op {
        BinOp::MUL => signed(x, is64) * signed(y, is64),
        BinOp::UDIV => if low(y, is64) == 0 { 0 } else { low(x, is64) / low(y, is64) },
        BinOp::UMOD => if low(y, is64) == 0 { low(x, is64) } else { low(x, is64) % low(y, is64) },
        BinOp::SDIV => if signed(y, is64) == 0 { 0 } else { number::trunc_div(signed(x, is64), signed(y, is64)) },
        BinOp::SMOD => if signed(y, is64) == 0 { signed(x, is64) } else { number::trunc_rem(signed(x, is64), signed(y, is64)) },
        BinOp::OR => ((x as u64) | (y as u64)) as int,
        BinOp::XOR => ((x as u64) ^ (y as u64)) as int,
        BinOp::AND => ((x as u64) & (y as u64)) as int,
        BinOp::ADD => x + y,
        BinOp::SUB => x - y,
        _ => y,
    }
}

/// A register holds a word: its two readings are those of the word.
pub open spec fn holds_word(env: Env, r: Reg, x: int) -> bool {
    word_laws::is_word(x) && env(rcp::id_of(DataKind::Uvalues, r)) == x && env(rcp::id_of(DataKind::Svalues, r)) == signed(x, true)
}

/// A valuation after a register took a word; nothing else changes.
pub open spec fn with_word(env: Env, r: Reg, x: int) -> Env {
    |k: u64| if k == rcp::id_of(DataKind::Uvalues, r) { x } else if k == rcp::id_of(DataKind::Svalues, r) { signed(x, true) } else { env(k) }
}

/// The readings at a width are those of wrapping.
pub proof fn lemma_low(x: int, is64: bool)
    ensures
        number::wrap_unsigned(x, if is64 { 64 } else { 32 }) == low(x, is64),
        number::wrap_signed(x, if is64 { 64 } else { 32 }) == signed(x, is64),
{
    lemma2_to64();
    lemma2_to64_rest();
}

/// The low bits do not depend on the reading.
pub proof fn lemma_reading(x: int, is64: bool)
    requires word_laws::is_word(x),
    ensures low(signed(x, true), is64) == low(x, is64), signed(signed(x, true), is64) == signed(x, is64),
{
    if x >= 0x8000_0000_0000_0000 {
        assert((x - 0x1_0000_0000_0000_0000) % 0x1_0000_0000_0000_0000 == x % 0x1_0000_0000_0000_0000);
        assert((x - 0x1_0000_0000_0000_0000) % 0x1_0000_0000 == x % 0x1_0000_0000);
    }
}

/// A register that took a value holds the word of its low bits.
pub proof fn lemma_took(env: Env, r: Reg, x: int, is64: bool)
    ensures register_laws::with_register(env, ebpf_arith::sv(r), ebpf_arith::uv(r), x, if is64 { 64 } else { 32 }) == with_word(env, r, low(x, is64)),
{
    let w: int = if is64 { 64 } else { 32 };
    lemma_low(x, is64);
    lemma_low(low(x, is64), true);
    assert(register_laws::with_register(env, ebpf_arith::sv(r), ebpf_arith::uv(r), x, w) =~= with_word(env, r, low(x, is64)));
}

/// The word of an operand.
pub open spec fn operand_word(bin: Bin, env: Env) -> int {
    match bin.v {
        Value::Imm(i) => low(ebpf_bin::immediate(i.v, bin.is64), true),
        Value::Reg(q) => env(rcp::id_of(DataKind::Uvalues, q)),
    }
}

/// The operands of the two readings.
spec fn operands(bin: Bin) -> (Operand, Operand) {
    match bin.v {
        Value::Imm(i) => (ebpf_arith::lit(ebpf_bin::immediate(i.v, bin.is64)), ebpf_arith::lit(ebpf_bin::immediate(i.v, bin.is64))),
        Value::Reg(q) => (Operand::Var(ebpf_arith::sv(q)), Operand::Var(ebpf_arith::uv(q))),
    }
}

/// The operations that treat their operands as numbers, where the domain follows them: an unsigned
/// division of 64 bits by a number that is not negative; a conjunction with a register that is known or
/// is not all ones; a signed division of what may be positive, or by a number.
pub open spec fn followed(bin: Bin, z: ZEdges, r: RegistryView) -> bool {
    match bin.op {
        BinOp::MUL | BinOp::OR | BinOp::XOR | BinOp::SMOD => true,
        BinOp::UDIV | BinOp::UMOD => bin.v matches Value::Imm(i) ==> bin.is64 ==> 0 <= ebpf_bin::immediate(i.v, true) <= i32::MAX,
        BinOp::SDIV => if let Value::Reg(q) = bin.v {
            crate::arith::extended_number::ExtendedNumber::fin(0).le_spec(finite_domain::interval_at_width(z, r, ebpf_arith::sv(bin.dst), if bin.is64 { 64 } else { 32 }).ub)
        } else {
            true
        },
        BinOp::AND => bin.v matches Value::Reg(q) && (zone_model::zinterval(z, ebpf_arith::uv(q)).has(u64::MAX as int) ==> zone_model::zinterval(z, ebpf_arith::uv(q)).singleton_spec() is Some),
        _ => false,
    }
}

/// The variables of registers are what they are in every later registry.
proof fn lemma_metas(older: RegistryView, r: RegistryView, kind: DataKind, q: Reg)
    requires older.ready(), r.extends(older), q.v <= 11,
    ensures r.metas[rcp::id_of(kind, q) as int] == var_registry::kind_meta(kind, false),
{
    older.register_variable(kind, q.v as int);
}

/// One operation on numbers is sound.
#[verifier::rlimit(40)]
proof fn lemma_value(bin: Bin, older: RegistryView, r: RegistryView, x: ZEdges, y: ZEdges, op: Step, e: Env)
    requires
        older.ready(),
        r.extends(older),
        bin.dst.v <= 11,
        bin.v matches Value::Reg(q) ==> q.v <= 11,
        Some(op) == ebpf_arith::value_step(bin.op, bin.dst, operands(bin).0, operands(bin).1, ebpf_bin::bits_of(bin), if bin.v is Imm { 64 } else { ebpf_bin::bits_of(bin) }),
        followed(bin, x, r),
        numeric_steps::step(Some(x), r, op, Some(y)),
        zone_model::proper(x),
        zone_model::zholds(x, e),
        interval_laws::modest(e),
        holds_word(e, bin.dst, e(ebpf_arith::uv(bin.dst))),
        bin.v matches Value::Reg(q) ==> holds_word(e, q, e(ebpf_arith::uv(q))),
    ensures
        zone_model::zholds(y, with_word(e, bin.dst, low(computed(bin.op, bin.is64, e(ebpf_arith::uv(bin.dst)), operand_word(bin, e)),
            bin.is64 || bin.v is Imm && (bin.op is OR || bin.op is XOR)))),
{
    reveal(numeric_steps::step);
    lemma2_to64();
    lemma2_to64_rest();
    let dst = bin.dst;
    let s = ebpf_arith::sv(dst);
    let u = ebpf_arith::uv(dst);
    let w = ebpf_bin::bits_of(bin);
    let a = e(u);
    let b = operand_word(bin, e);
    let (os, ou) = operands(bin);
    lemma_metas(older, r, DataKind::Svalues, dst);
    lemma_metas(older, r, DataKind::Uvalues, dst);
    lemma_low(e(s), bin.is64);
    lemma_low(e(u), bin.is64);
    lemma_reading(a, bin.is64);
    match bin.v {
        Value::Imm(i) => {
            let imm = ebpf_bin::immediate(i.v, bin.is64);
            number::lemma_wrap_range(i.v as int, w);
            lemma_low(imm, bin.is64);
            lemma_low(imm, true);
            number::lemma_wrap_identity(imm, w);
            lemma_half(imm);
            assert(signed(b, bin.is64) == imm);
            assert(low(b, bin.is64) == low(imm, bin.is64));
        },
        Value::Reg(q) => {
            lemma_metas(older, r, DataKind::Svalues, q);
            lemma_metas(older, r, DataKind::Uvalues, q);
            lemma_low(e(ebpf_arith::sv(q)), bin.is64);
            lemma_low(e(ebpf_arith::uv(q)), bin.is64);
            lemma_reading(b, bin.is64);
        },
    }
    let res = computed(bin.op, bin.is64, a, b);
    lemma_took(e, dst, res, bin.is64);
    lemma_took(e, dst, res, true);
    match bin.op {
        BinOp::MUL => {
            let p = signed(a, bin.is64);
            let q = signed(b, bin.is64);
            assert(-0x4000_0000_0000_0000_0000_0000_0000_0000 <= p * q <= 0x4000_0000_0000_0000_0000_0000_0000_0000) by (nonlinear_arith)
                requires -0x8000_0000_0000_0000 <= p < 0x8000_0000_0000_0000, -0x8000_0000_0000_0000 <= q < 0x8000_0000_0000_0000;
            register_laws::register_products_are_sound(x, r, s, u, s, os, w, y, e);
        },
        BinOp::UDIV => { register_laws::register_divisions_are_sound(x, r, SignedArithBinOp::UDIV, s, u, u, ou, w, y, e); },
        BinOp::UMOD => { register_laws::register_divisions_are_sound(x, r, SignedArithBinOp::UREM, s, u, u, ou, w, y, e); },
        BinOp::SDIV => { register_laws::register_quotients_are_sound(x, r, s, u, s, os, w, y, e); },
        BinOp::SMOD => { register_laws::register_remainders_are_sound(x, r, s, u, s, os, w, y, e); },
        BinOp::OR => { register_laws::register_bits_are_sound(x, r, BitwiseBinOp::OR, s, u, u, ou, if bin.v is Imm { 64 } else { w }, y, e, b as u64); },
        BinOp::XOR => { register_laws::register_bits_are_sound(x, r, BitwiseBinOp::XOR, s, u, u, ou, if bin.v is Imm { 64 } else { w }, y, e, b as u64); },
        BinOp::AND => { register_laws::register_bits_are_sound(x, r, BitwiseBinOp::AND, s, u, u, ou, w, y, e, b as u64); },
        _ => {},
    }
}

/// An immediate of 32 bits is the same as a word.
#[verifier::rlimit(60)]
proof fn lemma_half(imm: int)
    requires -0x8000_0000_0000_0000 <= imm < 0x8000_0000_0000_0000,
    ensures
        signed(low(imm, true), true) == imm,
        -0x8000_0000 <= imm < 0x8000_0000 ==> signed(low(imm, true), false) == imm,
        low(low(imm, true), false) == low(imm, false),
        low(low(imm, true), true) == low(imm, true),
{
    let wide: int = 0x1_0000_0000_0000_0000;
    let half: int = 0x1_0000_0000;
    let r = if imm < 0 { imm + wide } else { imm };
    vstd::arithmetic::div_mod::lemma_fundamental_div_mod_converse(imm, wide, if imm < 0 { -1int } else { 0 }, r);
    vstd::arithmetic::div_mod::lemma_small_mod(r as nat, wide as nat);
    vstd::arithmetic::div_mod::lemma_mod_multiples_vanish(half, imm, half);
    assert(half * half + imm == imm + wide);
    assert(r % half == imm % half);
    if -0x8000_0000 <= imm < 0x8000_0000 {
        vstd::arithmetic::div_mod::lemma_fundamental_div_mod_converse(imm, half, if imm < 0 { -1int } else { 0 }, if imm < 0 { imm + half } else { imm });
    }
}

// ---------------------------------------------------------------------------------------------
// Instructions
// ---------------------------------------------------------------------------------------------

/// A valuation with a word in a register is modest.
proof fn lemma_word_modest(e: Env, r: Reg, x: int)
    requires interval_laws::modest(e), word_laws::is_word(x),
    ensures interval_laws::modest(with_word(e, r, x)),
{
    let f = with_word(e, r, x);
    assert forall|k: u64| -interval_laws::MODEST <= #[trigger] f(k) <= interval_laws::MODEST by {
        assert(-interval_laws::MODEST <= e(k) <= interval_laws::MODEST);
    }
}

/// One operation on the values is one step.
pub proof fn lemma_update(be: bool, a: Place, op: Step, b: Place) -> (r: RegistryView)
    requires acts::follows(be, a, seq![ebpf_memory::numbers(seq![op])], b),
    ensures r.extends(a.1), a.1.extends(r), numeric_steps::step(a.0.num(), r, op, b.0.num()), b.1 == a.1, b.0.state.types == a.0.state.types, b.0.stack == a.0.stack,
{
    act_laws::lemma_one(be, a, ebpf_memory::numbers(seq![op]), b);
    reveal(acts::acted);
    let ops = seq![op];
    let states = choose|states: Seq<Num>| states.len() == 2 && states[0] == a.0.num() && states[1] == b.0.num() && #[trigger] numeric_steps::is_path(states, a.1, a.1, ops);
    let i: int = 0;
    assert(numeric_steps::step_between(states[i], a.1, a.1, ops[i], states[i + 1]));
    choose|r: RegistryView| r.extends(a.1) && a.1.extends(r) && #[trigger] numeric_steps::step(a.0.num(), r, op, b.0.num())
}

/// Keeping the low half of a number keeps the low half of its word.
#[verifier::rlimit(40)]
proof fn lemma_narrowed(be: bool, reg: Reg, is_num: bool, a: Place, b: Place, e: Env)
    requires
        acts::follows(be, a, ebpf_arith::narrow_acts(reg, is_num), b),
        act_laws::has_type(a, reg, TypeEncoding::TNum),
        act_laws::admits(a, e),
        reg.v <= 11,
        holds_word(e, reg, e(ebpf_arith::uv(reg))),
    ensures
        act_laws::admits(b, with_word(e, reg, low(e(ebpf_arith::uv(reg)), false))),
        b.1 == a.1,
        b.0.state.types == a.0.state.types,
        b.0.stack == a.0.stack,
{
    let s = ebpf_arith::sv(reg);
    let u = ebpf_arith::uv(reg);
    let x = e(u);
    pointer_laws::lemma_kinds(DataKind::Svalues, DataKind::Uvalues, reg, reg);
    let test = seq![Act::InGroup(reg, ebpf_arith::nums(), is_num)];
    let act = if is_num { ebpf_memory::numbers(ebpf_arith::low_half(reg)) } else { ebpf_memory::forgets(reg) };
    assert(ebpf_arith::narrow_acts(reg, is_num) =~= test + seq![act]);
    let m = act_laws::lemma_split(be, a, test, seq![act], b);
    act_laws::lemma_one(be, a, test[0], m);
    assert(m == a && is_num) by {
        reveal(acts::acted);
        let ts = a.0.state.types.s().types_of(rcp::type_id(reg));
        assert forall|t: TypeEncoding| #[trigger] ts.has(t) implies ebpf_arith::nums().has(t) by { ts.algebra(ts, TypeEncoding::TNum, t); }
    }
    let mask = Number { n: 0xffff_ffff };
    let op = Step::Mask(s, u, mask);
    let r = lemma_update(be, a, op, b);
    assert(b.0.num() is Some && finite_domain::masked(a.0.num()->Some_0, r, s, u, mask, b.0.num()->Some_0)) by { reveal(numeric_steps::step); }
    lemma_masked(a.0.num()->Some_0, r, reg, b.0.num()->Some_0, e);
    lemma_word_modest(e, reg, low(x, false));
    step_laws::lemma_register_proper(a.0.num(), r, op, b.0.num());
}

/// A mask of the low half keeps the low half of a word.
#[verifier::rlimit(40)]
proof fn lemma_masked(z: ZEdges, r: RegistryView, reg: Reg, y: ZEdges, e: Env)
    requires
        finite_domain::masked(z, r, ebpf_arith::sv(reg), ebpf_arith::uv(reg), Number { n: 0xffff_ffff }, y),
        zone_model::proper(z),
        zone_model::zholds(z, e),
        interval_laws::modest(e),
        reg.v <= 11,
        holds_word(e, reg, e(ebpf_arith::uv(reg))),
    ensures zone_model::zholds(y, with_word(e, reg, low(e(ebpf_arith::uv(reg)), false))),
{
    let s = ebpf_arith::sv(reg);
    let u = ebpf_arith::uv(reg);
    let x = e(u);
    let mask = Number { n: 0xffff_ffff };
    pointer_laws::lemma_kinds(DataKind::Svalues, DataKind::Uvalues, reg, reg);
    step_laws::lemma_modest(e);
    if finite_domain::within_mask(z, s, u, mask) && y == z {
        zone_model::interval_is_sound(z, u, e);
        assert(0 <= x <= 0xffff_ffff);
        assert(with_word(e, reg, low(x, false)) =~= e);
    } else {
        lemma_cut(z, r, reg, y, e);
    }
}

/// A conjunction with a mask of the low half keeps the low half of a word.
proof fn lemma_cut(z: ZEdges, r: RegistryView, reg: Reg, y: ZEdges, e: Env)
    requires
        finite_domain::unsigned_applied(z, r, FiniteBinOp::Bitwise(BitwiseBinOp::AND), ebpf_arith::sv(reg), ebpf_arith::uv(reg), ebpf_arith::uv(reg), Operand::Num(Number { n: 0xffff_ffff }), 64, y),
        zone_model::proper(z),
        zone_model::zholds(z, e),
        interval_laws::modest(e),
        reg.v <= 11,
        holds_word(e, reg, e(ebpf_arith::uv(reg))),
    ensures zone_model::zholds(y, with_word(e, reg, low(e(ebpf_arith::uv(reg)), false))),
{
    let u = ebpf_arith::uv(reg);
    let x = e(u);
    let mask = Number { n: 0xffff_ffff };
    pointer_laws::lemma_kinds(DataKind::Svalues, DataKind::Uvalues, reg, reg);
    word_laws::lemma_mask(x as u64, 0xffff_ffff);
    lemma_low(0xffff_ffff, true);
    let ob = finite_domain::bit_operand(z, BitwiseBinOp::AND, Operand::Num(mask), 64);
    assert(ob == crate::interval::Interval::point(Number::nearest(0xffff_ffff)));
    assert(!ob.has(u64::MAX as int));
    register_laws::register_bits_are_sound(z, r, BitwiseBinOp::AND, ebpf_arith::sv(reg), u, u, Operand::Num(mask), 64, y, e, 0xffff_ffff);
    lemma_took(e, reg, low(x, false), true);
}

/// Arithmetic and logic on numbers is sound: of every valuation that the state admits, the one in which
/// the register holds the word that the machine computes is admitted afterwards.
pub proof fn number_operations_are_sound(be: bool, bin: Bin, a: Place, b: Place, e: Env)
    requires
        ebpf_bin::bin_effect(be, bin, a, b),
        bin.op is MUL || bin.op is UDIV || bin.op is UMOD || bin.op is SDIV || bin.op is SMOD || bin.op is OR || bin.op is XOR || (bin.op is AND && bin.v is Reg),
        followed(bin, a.0.state.values.z(), a.1),
        bin.dst.v <= 11,
        a.0.wf(),
        a.1.ready(),
        act_laws::has_type(a, bin.dst, TypeEncoding::TNum),
        bin.v matches Value::Reg(q) ==> q.v <= 11 && act_laws::has_type(a, q, TypeEncoding::TNum) && holds_word(e, q, e(rcp::id_of(DataKind::Uvalues, q))),
        demands::describes(&a.0, e),
        holds_word(e, bin.dst, e(rcp::id_of(DataKind::Uvalues, bin.dst))),
    ensures
        demands::describes(&b.0, with_word(e, bin.dst, low(computed(bin.op, bin.is64, e(rcp::id_of(DataKind::Uvalues, bin.dst)), operand_word(bin, e)), bin.is64))),
{
    let dst = bin.dst;
    let u = ebpf_arith::uv(dst);
    act_laws::lemma_admits(a, e);
    act_laws::lemma_one_type(a, dst, TypeEncoding::TNum);
    let k = choose|k: BinSeen| #[trigger] ebpf_bin::bin_runs(be, bin, k, a, b);
    let tail = ebpf_bin::tail_acts(bin, k.after);
    match bin.v {
        Value::Imm(i) => {
            let imm = ebpf_bin::immediate(i.v, bin.is64);
            let test = ebpf_bin::first_test(bin, k);
            lemma_initialized(be, bin, k, a, b);
            let head = ebpf_bin::head_acts(bin, k.before);
            let op = ebpf_arith::value_step(bin.op, dst, ebpf_arith::lit(imm), ebpf_arith::lit(imm), ebpf_bin::bits_of(bin), 64)->Some_0;
            let body = ebpf_arith::value_acts(dst, op);
            assert(ebpf_bin::bin_imm_acts(bin, imm, k.w) =~= body);
            assert(test + head + body + tail =~= test + (head + (body + tail)));
            let m1 = act_laws::lemma_split(be, a, test, head + (body + tail), b);
            let m2 = act_laws::lemma_split(be, m1, head, body + tail, b);
            act_laws::lemma_one(be, a, test[0], m1);
            assert(m1 == a) by { reveal(acts::acted); }
            let e2 = if bin.is64 {
                act_laws::lemma_none(be, m1, m2);
                e
            } else {
                lemma_narrowed(be, dst, k.before, m1, m2, e);
                with_word(e, dst, low(e(u), false))
            };
            pointer_laws::lemma_kinds(DataKind::Svalues, DataKind::Uvalues, dst, dst);
            let x = e(u);
            let y = operand_word(bin, e);
            lemma_once(bin.op, bin.is64, x, y);
            assert(operand_word(bin, e2) == y);
            assert(holds_word(e2, dst, e2(u)));
            lemma_value_acts(be, bin, op, tail, k.after, m2, b, e2);
            assert(with_word(e2, dst, low(computed(bin.op, bin.is64, e2(u), y), bin.is64)) =~= with_word(e, dst, low(computed(bin.op, bin.is64, x, y), bin.is64)));
        },
        Value::Reg(q) => {
            act_laws::lemma_one_type(a, q, TypeEncoding::TNum);
            pointer_laws::lemma_tests(be, bin, q, k, a, b);
            let op = ebpf_arith::value_step(bin.op, dst, Operand::Var(ebpf_arith::sv(q)), Operand::Var(ebpf_arith::uv(q)), ebpf_bin::bits_of(bin), ebpf_bin::bits_of(bin))->Some_0;
            let body = ebpf_arith::value_acts(dst, op);
            let tests = ebpf_bin::both_tests(bin, q, k);
            let one = seq![tests[0]];
            let two = seq![tests[1]];
            assert(tests + body + tail =~= one + (two + (body + tail)));
            let m1 = act_laws::lemma_split(be, a, one, two + (body + tail), b);
            let m2 = act_laws::lemma_split(be, m1, two, body + tail, b);
            act_laws::lemma_one(be, a, one[0], m1);
            act_laws::lemma_one(be, m1, two[0], m2);
            assert(m2 == a) by { reveal(acts::acted); }
            lemma_value_acts(be, bin, op, tail, k.after, a, b, e);
        },
    }
}

/// The test before an operation with an immediate answers as it must.
pub proof fn lemma_initialized(be: bool, bin: Bin, k: BinSeen, a: Place, b: Place)
    requires
        ebpf_bin::bin_runs(be, bin, k, a, b),
        rcp::initialized(&a.0.state, bin.dst),
    ensures k.dst_init || ebpf_bin::is_move(bin.op),
{
    if !k.dst_init && !ebpf_bin::is_move(bin.op) {
        let first = ebpf_bin::first_test(bin, k);
        let mid = act_laws::lemma_split(be, a, first, seq![ebpf_memory::forgets(bin.dst)], b);
        act_laws::lemma_one(be, a, first[0], mid);
        reveal(acts::acted);
    }
}

/// Only the low half of a word matters to an operation of 32 bits.
proof fn lemma_once(op: BinOp, is64: bool, x: int, y: int)
    requires word_laws::is_word(x), word_laws::is_word(y),
        op is MUL || op is UDIV || op is UMOD || op is SDIV || op is SMOD || op is OR || op is XOR,
    ensures !is64 ==> low(computed(op, false, low(x, false), y), false) == low(computed(op, false, x, y), false),
{
    assert(low(low(x, false), false) == low(x, false));
    let a = x as u64;
    let b = y as u64;
    let c = (x % 0x1_0000_0000) as u64;
    assert(c == a % 0x1_0000_0000);
    assert(((a % 0x1_0000_0000) | b) % 0x1_0000_0000 == (a | b) % 0x1_0000_0000) by (bit_vector);
    assert(((a % 0x1_0000_0000) ^ b) % 0x1_0000_0000 == (a ^ b) % 0x1_0000_0000) by (bit_vector);
}

/// An operation on numbers, and the low half of its result where it is one of 32 bits.
proof fn lemma_value_acts(be: bool, bin: Bin, op: Step, tail: Seq<Act>, after: bool, a: Place, b: Place, e: Env)
    requires
        acts::follows(be, a, ebpf_arith::value_acts(bin.dst, op) + tail, b),
        tail == ebpf_bin::tail_acts(bin, after),
        bin.op is MUL || bin.op is UDIV || bin.op is UMOD || bin.op is SDIV || bin.op is SMOD || bin.op is OR || bin.op is XOR || (bin.op is AND && bin.v is Reg),
        Some(op) == ebpf_arith::value_step(bin.op, bin.dst, operands(bin).0, operands(bin).1, ebpf_bin::bits_of(bin), if bin.v is Imm { 64 } else { ebpf_bin::bits_of(bin) }),
        followed(bin, a.0.state.values.z(), a.1),
        bin.dst.v <= 11,
        bin.v matches Value::Reg(q) ==> q.v <= 11,
        a.1.ready(),
        act_laws::has_type(a, bin.dst, TypeEncoding::TNum),
        act_laws::admits(a, e),
        holds_word(e, bin.dst, e(ebpf_arith::uv(bin.dst))),
        bin.v matches Value::Reg(q) ==> holds_word(e, q, e(ebpf_arith::uv(q))),
    ensures
        act_laws::admits(b, with_word(e, bin.dst, low(computed(bin.op, bin.is64, e(ebpf_arith::uv(bin.dst)), operand_word(bin, e)), bin.is64))),
{
    let dst = bin.dst;
    let one = seq![ebpf_memory::numbers(seq![op])];
    let two = seq![ebpf_memory::forgets_offsets(dst)];
    assert(ebpf_arith::value_acts(dst, op) + tail =~= one + (two + tail));
    let m = act_laws::lemma_split(be, a, one, two + tail, b);
    let n = act_laws::lemma_split(be, m, two, tail, b);
    let r = lemma_update(be, a, op, m);
    assert(r.metas =~= a.1.metas && r.names =~= a.1.names);
    let wide = bin.is64 || bin.v is Imm && (bin.op is OR || bin.op is XOR);
    let res = computed(bin.op, bin.is64, e(ebpf_arith::uv(dst)), operand_word(bin, e));
    assert(m.0.num() is Some) by { reveal(numeric_steps::step); }
    lemma_value(bin, a.1, r, a.0.num()->Some_0, m.0.num()->Some_0, op, e);
    step_laws::lemma_register_proper(a.0.num(), r, op, m.0.num());
    let f = with_word(e, dst, low(res, wide));
    lemma_word_modest(e, dst, low(res, wide));
    act_laws::lemma_forgets(be, m, acts::TypeChange::Same, rcp::offset_ids(dst), n, f, f);
    act_laws::lemma_one(be, m, two[0], n);
    pointer_laws::lemma_kinds(DataKind::Svalues, DataKind::Uvalues, dst, dst);
    if bin.is64 {
        act_laws::lemma_none(be, n, b);
    } else {
        assert(act_laws::has_type(n, dst, TypeEncoding::TNum)) by { reveal(acts::acted); }
        assert(holds_word(f, dst, f(ebpf_arith::uv(dst))));
        lemma_narrowed(be, dst, after, n, b, f);
        assert(low(low(res, wide), false) == low(res, false)) by { if wide { assert(res % 0x1_0000_0000_0000_0000 % 0x1_0000_0000 == res % 0x1_0000_0000); } }
        assert(with_word(f, dst, low(low(res, wide), false)) =~= with_word(e, dst, low(res, false)));
    }
}

// ---------------------------------------------------------------------------------------------
// Sums and differences
// ---------------------------------------------------------------------------------------------

/// A test that asks for something leaves everything as it is.
pub proof fn lemma_asked(be: bool, a: Place, test: Act, rest: Seq<Act>, b: Place)
    requires
        acts::follows(be, a, seq![test] + rest, b),
        test is Initialized || test is SameType || test is InGroup || test is MayHave,
    ensures acts::follows(be, a, rest, b), acts::acted(be, a, test, a),
{
    let m = act_laws::lemma_split(be, a, seq![test], rest, b);
    act_laws::lemma_one(be, a, test, m);
    reveal(acts::acted);
}

/// The low bits of a sum depend on the low bits only.
proof fn lemma_sum_low(x: int, y: int, p: int, q: int, is64: bool)
    requires low(x, is64) == low(p, is64), low(y, is64) == low(q, is64),
    ensures low(x + y, is64) == low(p + q, is64), low(x - y, is64) == low(p - q, is64),
{
    let m: int = if is64 { 0x1_0000_0000_0000_0000 } else { 0x1_0000_0000 };
    vstd::arithmetic::div_mod::lemma_add_mod_noop(x, y, m);
    vstd::arithmetic::div_mod::lemma_add_mod_noop(p, q, m);
    vstd::arithmetic::div_mod::lemma_sub_mod_noop(x, y, m);
    vstd::arithmetic::div_mod::lemma_sub_mod_noop(p, q, m);
}

/// The end of an operation on a number: of 32 bits, the low half stays.
proof fn lemma_tail(be: bool, bin: Bin, after: bool, a: Place, b: Place, e: Env)
    requires
        acts::follows(be, a, ebpf_bin::tail_acts(bin, after), b),
        act_laws::has_type(a, bin.dst, TypeEncoding::TNum),
        act_laws::admits(a, e),
        bin.dst.v <= 11,
        holds_word(e, bin.dst, e(ebpf_arith::uv(bin.dst))),
    ensures act_laws::admits(b, with_word(e, bin.dst, low(e(ebpf_arith::uv(bin.dst)), bin.is64))),
{
    if bin.is64 {
        act_laws::lemma_none(be, a, b);
        assert(with_word(e, bin.dst, low(e(ebpf_arith::uv(bin.dst)), true)) =~= e);
    } else {
        lemma_narrowed(be, bin.dst, after, a, b, e);
    }
}

/// One sum or difference of a register and an operand.
proof fn lemma_add(be: bool, bin: Bin, op: Step, o: Operand, is_sum: bool, y: int, a: Place, m: Place, e: Env)
    requires
        acts::follows(be, a, seq![ebpf_memory::numbers(seq![op])], m),
        op == Step::Overflow(if is_sum { ebpf_arith::add_op() } else { ebpf_arith::sub_op() }, ebpf_arith::sv(bin.dst), ebpf_arith::uv(bin.dst), o, ebpf_bin::bits_of(bin))
            || op == Step::Signed(if is_sum { ebpf_arith::add_op() } else { ebpf_arith::sub_op() }, ebpf_arith::sv(bin.dst), ebpf_arith::uv(bin.dst), ebpf_arith::sv(bin.dst), o, ebpf_bin::bits_of(bin)),
        low(register_laws::operand_value(o, e), bin.is64) == low(y, bin.is64),
        o matches Operand::Num(n) ==> -interval_laws::MODEST <= n@ <= interval_laws::MODEST,
        act_laws::admits(a, e),
        bin.dst.v <= 11,
        holds_word(e, bin.dst, e(ebpf_arith::uv(bin.dst))),
    ensures
        act_laws::admits(m, with_word(e, bin.dst, low(if is_sum { e(ebpf_arith::uv(bin.dst)) + y } else { e(ebpf_arith::uv(bin.dst)) - y }, bin.is64))),
        m.1 == a.1,
        m.0.state.types == a.0.state.types,
        m.0.stack == a.0.stack,
{
    let dst = bin.dst;
    let s = ebpf_arith::sv(dst);
    let u = ebpf_arith::uv(dst);
    let v = register_laws::operand_value(o, e);
    pointer_laws::lemma_kinds(DataKind::Svalues, DataKind::Uvalues, dst, dst);
    let res = if is_sum { e(s) + v } else { e(s) - v };
    let want = if is_sum { e(u) + y } else { e(u) - y };
    lemma_reading(e(u), bin.is64);
    lemma_sum_low(e(s), v, e(u), y, bin.is64);
    lemma_took(e, dst, res, bin.is64);
    lemma_word_modest(e, dst, low(want, bin.is64));
    let f = with_word(e, dst, low(want, bin.is64));
    assert(-interval_laws::MODEST <= e(s) <= interval_laws::MODEST);
    act_laws::lemma_step(be, a, op, m, e, f);
    let r = lemma_update(be, a, op, m);
}

/// Two registers that are numbers are known to have the same type.
pub proof fn lemma_both_numbers(a: Place, p: Reg, q: Reg)
    requires a.0.wf(), act_laws::has_type(a, p, TypeEncoding::TNum), act_laws::has_type(a, q, TypeEncoding::TNum),
    ensures a.0.state.types.s().linked(rcp::type_id(p), rcp::type_id(q)),
{
    let t = a.0.state.types.s();
    act_laws::lemma_known(t, rcp::type_id(p), TypeEncoding::TNum);
    act_laws::lemma_known(t, rcp::type_id(q), TypeEncoding::TNum);
    assert(type_domain::same_lone_type(t.types_of(rcp::type_id(p)), t.types_of(rcp::type_id(q))));
    t.lone_types_are_merged(rcp::type_id(p), rcp::type_id(q));
}

/// Sums and differences of two registers that are numbers are sound: of every valuation that the state
/// admits, the one in which the register holds the word that the machine computes is admitted afterwards.
#[verifier::rlimit(40)]
pub proof fn number_sums_are_sound(be: bool, bin: Bin, src: Reg, a: Place, b: Place, e: Env)
    requires
        ebpf_bin::bin_effect(be, bin, a, b),
        bin.op is ADD || bin.op is SUB,
        bin.v == Value::Reg(src),
        bin.dst.v <= 11,
        src.v <= 11,
        a.0.wf(),
        a.1.ready(),
        act_laws::has_type(a, bin.dst, TypeEncoding::TNum),
        act_laws::has_type(a, src, TypeEncoding::TNum),
        demands::describes(&a.0, e),
        holds_word(e, bin.dst, e(rcp::id_of(DataKind::Uvalues, bin.dst))),
        holds_word(e, src, e(rcp::id_of(DataKind::Uvalues, src))),
    ensures
        demands::describes(&b.0, with_word(e, bin.dst, low(computed(bin.op, bin.is64, e(rcp::id_of(DataKind::Uvalues, bin.dst)), e(rcp::id_of(DataKind::Uvalues, src))), bin.is64))),
{
    let dst = bin.dst;
    let u = ebpf_arith::uv(dst);
    let y = e(ebpf_arith::uv(src));
    let res = computed(bin.op, bin.is64, e(u), y);
    act_laws::lemma_admits(a, e);
    act_laws::lemma_one_type(a, dst, TypeEncoding::TNum);
    act_laws::lemma_one_type(a, src, TypeEncoding::TNum);
    let k = choose|k: BinSeen| #[trigger] ebpf_bin::bin_runs(be, bin, k, a, b);
    pointer_laws::lemma_tests(be, bin, src, k, a, b);
    lemma_both_numbers(a, dst, src);
    lemma_reading(y, bin.is64);
    pointer_laws::lemma_kinds(DataKind::Svalues, DataKind::Uvalues, dst, dst);
    let typed = ebpf_bin::both_tests(bin, src, k).push(Act::SameType(dst, src, k.same));
    let tail = ebpf_bin::tail_acts(bin, k.after);
    let f = with_word(e, dst, low(res, bin.is64));
    assert(low(low(res, bin.is64), bin.is64) == low(res, bin.is64));
    assert(with_word(f, dst, low(res, bin.is64)) =~= f);
    let width = ebpf_bin::bits_of(bin);
    if bin.op is ADD && k.same {
        let op = Step::Overflow(ebpf_arith::add_op(), ebpf_arith::sv(dst), u, ebpf_addsub::by_value(src), width);
        let body = seq![ebpf_memory::numbers(seq![op])];
        assert(typed + body + tail =~= typed + (body + tail));
        pointer_laws::lemma_typed(be, bin, src, k, a, body + tail, b);
        let m = act_laws::lemma_split(be, a, body, tail, b);
        lemma_add(be, bin, op, ebpf_addsub::by_value(src), true, y, a, m, e);
        lemma_tail(be, bin, k.after, m, b, f);
    } else if bin.op is SUB && k.same {
        let rel = ebpf_addsub::difference_branch(be, dst, src, width);
        let (m, n) = choose|m: Place, n: Place| #[trigger] acts::follows(be, a, typed, m) && branching::over_types(m, dst, rel, n) && #[trigger] acts::follows(be, n, tail, b);
        assert(typed + seq![] =~= typed);
        pointer_laws::lemma_typed(be, bin, src, k, a, seq![], m);
        act_laws::lemma_none(be, a, m);
        let (inp, out) = act_laws::lemma_single(a, dst, rel, n, TypeEncoding::TNum);
        act_laws::lemma_branch_admits(a, dst, TypeEncoding::TNum, inp, e);
        let op = Step::Signed(ebpf_arith::sub_op(), ebpf_arith::sv(dst), u, ebpf_arith::sv(dst), ebpf_addsub::by_value(src), width);
        let body = seq![ebpf_memory::numbers(seq![op])];
        let gives = seq![ebpf_memory::gives(dst, TypeEncoding::TNum)];
        let forgets = seq![ebpf_memory::forgets_offsets(dst)];
        assert(ebpf_addsub::difference_acts(dst, src, TypeEncoding::TNum, width) =~= body + (gives + forgets));
        let m1 = act_laws::lemma_split(be, inp, body, gives + forgets, out);
        let m2 = act_laws::lemma_split(be, m1, gives, forgets, out);
        lemma_add(be, bin, op, ebpf_addsub::by_value(src), false, y, inp, m1, e);
        step_laws::reaches_nothing(f);
        act_laws::lemma_still(be, m1, gives[0], m2, f);
        act_laws::lemma_forgets(be, m2, acts::TypeChange::Same, rcp::offset_ids(dst), out, f, f);
        act_laws::lemma_one(be, m1, gives[0], m2);
        act_laws::lemma_one(be, m2, forgets[0], out);
        assert(act_laws::has_type(out, dst, TypeEncoding::TNum)) by {
            reveal(acts::acted);
            lemma_given(m1, dst, TypeEncoding::TNum, m2);
        }
        assert(act_laws::admits(n, f));
        assert(act_laws::has_type(n, dst, TypeEncoding::TNum));
        lemma_tail(be, bin, k.after, n, b, f);
    } else if bin.op is ADD {
        let rel = ebpf_addsub::sum_split(be, dst, src, width);
        let (m, n) = choose|m: Place, n: Place| #[trigger] acts::follows(be, a, typed, m) && branching::over_types(m, dst, rel, n) && #[trigger] acts::follows(be, n, tail, b);
        assert(typed + seq![] =~= typed);
        pointer_laws::lemma_typed(be, bin, src, k, a, seq![], m);
    } else {
        let body = ebpf_addsub::minus_acts(dst, src, width, k.w, k.may_point);
        assert(typed + body + tail =~= typed + (body + tail));
        pointer_laws::lemma_typed(be, bin, src, k, a, body + tail, b);
    }
}

/// A register that is given a type has it.
pub proof fn lemma_given(a: Place, reg: Reg, te: TypeEncoding, b: Place)
    requires
        a.0.state.types.state is Some,
        acts::types_changed(a.0.state.types, acts::TypeChange::Given(rcp::type_id(reg), te), b.0.state.types),
    ensures act_laws::has_type(b, reg, te),
{
    let ts = TypeSet::just(te);
    assert forall|t: TypeEncoding| #[trigger] ts.has(t) <==> t == te by { ts.algebra(ts, te, t); }
}

/// Adding a number to a number, or taking it away, is sound.
#[verifier::rlimit(40)]
pub proof fn number_steps_are_sound(be: bool, bin: Bin, i: Imm, a: Place, b: Place, e: Env)
    requires
        ebpf_bin::bin_effect(be, bin, a, b),
        bin.op is ADD || bin.op is SUB,
        bin.v == Value::Imm(i),
        i32::MIN <= ebpf_bin::immediate(i.v, bin.is64) <= i32::MAX,
        bin.dst.v <= 11,
        a.0.wf(),
        a.1.ready(),
        act_laws::has_type(a, bin.dst, TypeEncoding::TNum),
        demands::describes(&a.0, e),
        holds_word(e, bin.dst, e(rcp::id_of(DataKind::Uvalues, bin.dst))),
    ensures
        demands::describes(&b.0, with_word(e, bin.dst, low(computed(bin.op, bin.is64, e(rcp::id_of(DataKind::Uvalues, bin.dst)), ebpf_bin::immediate(i.v, bin.is64)), bin.is64))),
{
    let dst = bin.dst;
    let u = ebpf_arith::uv(dst);
    let imm = ebpf_bin::immediate(i.v, bin.is64);
    let x = e(u);
    let res = computed(bin.op, bin.is64, x, imm);
    act_laws::lemma_admits(a, e);
    act_laws::lemma_one_type(a, dst, TypeEncoding::TNum);
    pointer_laws::lemma_kinds(DataKind::Svalues, DataKind::Uvalues, dst, dst);
    let k = choose|k: BinSeen| #[trigger] ebpf_bin::bin_runs(be, bin, k, a, b);
    lemma_initialized(be, bin, k, a, b);
    let w = k.w;
    let test = ebpf_bin::first_test(bin, k);
    let head = ebpf_bin::head_acts(bin, k.before);
    let body = ebpf_bin::bin_imm_acts(bin, imm, w);
    let tail = if ebpf_bin::is_idle_sum(bin, imm) { seq![] } else { ebpf_bin::tail_acts(bin, k.after) };
    assert(test + head + body + tail =~= seq![test[0]] + (head + (body + tail)));
    lemma_asked(be, a, test[0], head + (body + tail), b);
    let m = act_laws::lemma_split(be, a, head, body + tail, b);
    let e2 = with_word(e, dst, low(x, bin.is64));
    lemma_tail(be, bin, k.before, a, m, e);
    lemma_sum_low(low(x, bin.is64), imm, x, imm, bin.is64);
    let f = with_word(e, dst, low(res, bin.is64));
    assert(act_laws::has_type(m, dst, TypeEncoding::TNum)) by {
        if bin.is64 { act_laws::lemma_none(be, a, m); } else { lemma_narrowed(be, dst, k.before, a, m, e); }
    }
    if imm == 0 {
        assert(body + tail =~= seq![]);
        act_laws::lemma_none(be, m, b);
        assert(e2 =~= f);
    } else {
        lemma2_to64();
        number::lemma_wrap_identity(imm, 32);
        let n = if bin.op is ADD { imm } else { -imm };
        assert(body == ebpf_arith::add_acts(dst, n, ebpf_bin::bits_of(bin), w));
        lemma_add_acts(be, bin, n, w, k.after, m, b, e2);
        assert(low(low(x, bin.is64) + n, bin.is64) == low(res, bin.is64));
        assert(with_word(e2, dst, low(low(x, bin.is64) + n, bin.is64)) =~= f);
    }
}

/// A number is added to a register that is a number.
#[verifier::rlimit(40)]
proof fn lemma_add_acts(be: bool, bin: Bin, n: int, w: Seen, after: bool, m: Place, b: Place, e: Env)
    requires
        acts::follows(be, m, ebpf_arith::add_acts(bin.dst, n, ebpf_bin::bits_of(bin), w) + ebpf_bin::tail_acts(bin, after), b),
        act_laws::has_type(m, bin.dst, TypeEncoding::TNum),
        act_laws::admits(m, e),
        bin.dst.v <= 11,
        -0x1_0000_0000 <= n <= 0x1_0000_0000,
        holds_word(e, bin.dst, e(ebpf_arith::uv(bin.dst))),
    ensures act_laws::admits(b, with_word(e, bin.dst, low(e(ebpf_arith::uv(bin.dst)) + n, bin.is64))),
{
    let dst = bin.dst;
    let u = ebpf_arith::uv(dst);
    let tail = ebpf_bin::tail_acts(bin, after);
    let body = ebpf_arith::add_acts(dst, n, ebpf_bin::bits_of(bin), w);
    let op = Step::Overflow(ebpf_arith::add_op(), ebpf_arith::sv(dst), u, ebpf_arith::lit(n), ebpf_bin::bits_of(bin));
    let may = Act::MayHave(dst, TypeEncoding::TNum, w.first);
    let ts = m.0.state.types.s().types_of(rcp::type_id(dst));
    assert(ts.has(TypeEncoding::TNum) && !ts.has(TypeEncoding::TStack));
    assert(body + tail =~= seq![may] + (body + tail).skip(1));
    lemma_asked(be, m, may, (body + tail).skip(1), b);
    assert(w.first) by { reveal(acts::acted); }
    let one = seq![ebpf_memory::numbers(seq![op])];
    let group = Act::InGroup(dst, ebpf_arith::nums(), w.second);
    let offs = if w.second { seq![] } else { seq![ebpf_memory::forgets_offsets(dst)] };
    let sizes = ebpf_arith::add_size_acts(dst, n, w.third);
    assert((body + tail).skip(1) =~= one + (seq![group] + (offs + (sizes + tail))));
    let m1 = act_laws::lemma_split(be, m, one, seq![group] + (offs + (sizes + tail)), b);
    lemma_add(be, bin, op, ebpf_arith::lit(n), true, n, m, m1, e);
    lemma_asked(be, m1, group, offs + (sizes + tail), b);
    assert(w.second) by {
        reveal(acts::acted);
        assert forall|t: TypeEncoding| #[trigger] ts.has(t) implies ebpf_arith::nums().has(t) by { ts.algebra(ts, TypeEncoding::TNum, t); }
    }
    let point = Act::MayHave(dst, TypeEncoding::TStack, w.third);
    assert(offs + (sizes + tail) =~= seq![point] + (sizes + tail).skip(1));
    lemma_asked(be, m1, point, (sizes + tail).skip(1), b);
    assert(!w.third) by { reveal(acts::acted); }
    assert((sizes + tail).skip(1) =~= tail);
    pointer_laws::lemma_kinds(DataKind::Svalues, DataKind::Uvalues, dst, dst);
    let x = low(e(u) + n, bin.is64);
    let f = with_word(e, dst, x);
    lemma_tail(be, bin, after, m1, b, f);
    assert(low(x, bin.is64) == x);
    assert(with_word(f, dst, x) =~= f);
}

// ---------------------------------------------------------------------------------------------
// Moves
// ---------------------------------------------------------------------------------------------

/// A register took over what another one holds: its values, and what its type has besides. Nothing else
/// changes.
pub open spec fn took_over(e: Env, f: Env, dst: Reg, src: Reg, te: TypeEncoding) -> bool {
    &&& f(rcp::id_of(DataKind::Svalues, dst)) == e(rcp::id_of(DataKind::Svalues, src))
    &&& f(rcp::id_of(DataKind::Uvalues, dst)) == e(rcp::id_of(DataKind::Uvalues, src))
    &&& te is TCtx ==> f(rcp::id_of(DataKind::CtxOffsets, dst)) == e(rcp::id_of(DataKind::CtxOffsets, src))
    &&& te is TMap ==> f(rcp::id_of(DataKind::MapFds, dst)) == e(rcp::id_of(DataKind::MapFds, src))
    &&& te is TMapPrograms ==> f(rcp::id_of(DataKind::MapFdPrograms, dst)) == e(rcp::id_of(DataKind::MapFdPrograms, src))
    &&& te is TPacket ==> f(rcp::id_of(DataKind::PacketOffsets, dst)) == e(rcp::id_of(DataKind::PacketOffsets, src))
    &&& te is TShared ==> f(rcp::id_of(DataKind::SharedOffsets, dst)) == e(rcp::id_of(DataKind::SharedOffsets, src))
            && f(rcp::id_of(DataKind::SharedRegionSizes, dst)) == e(rcp::id_of(DataKind::SharedRegionSizes, src))
    &&& te is TStack ==> f(rcp::id_of(DataKind::StackOffsets, dst)) == e(rcp::id_of(DataKind::StackOffsets, src))
            && f(rcp::id_of(DataKind::StackNumericSizes, dst)) == e(rcp::id_of(DataKind::StackNumericSizes, src))
    &&& forall|v: u64| !rcp::value_ids(dst).contains(v) ==> #[trigger] f(v) == e(v)
}

/// A valuation in which a variable took over the value of another one.
spec fn copied(e: Env, v: u64, w: u64) -> Env {
    zone_model::env_with(e, v, e(w))
}

proof fn lemma_copy(ops: Seq<Step>, e: Env, f: Env, v: u64, w: u64)
    requires step_laws::reaches(ops, e, f), interval_laws::modest(f),
    ensures step_laws::reaches(ops.push(Step::Copy(v, w)), e, copied(f, v, w)), interval_laws::modest(copied(f, v, w)),
{
    assert(-interval_laws::MODEST <= f(w) <= interval_laws::MODEST);
    pointer_laws::lemma_calm_with(f, v, f(w));
    step_laws::reaches_next(ops, e, f, Step::Copy(v, w), copied(f, v, w));
}

/// The operations of a register copy.
#[verifier::rlimit(40)]
proof fn lemma_copied(dst: Reg, src: Reg, te: TypeEncoding, e: Env) -> (f: Env)
    requires interval_laws::modest(e), dst.v <= 11, src.v <= 11, dst.v != src.v,
    ensures
        step_laws::reaches(rcp::register_copy_steps(dst, src, seq![te], seq![te]), e, f),
        interval_laws::modest(f),
        took_over(e, f, dst, src, te),
{
    let one = seq![te];
    let s = Step::Copy(ebpf_arith::sv(dst), ebpf_arith::sv(src));
    let u = Step::Copy(ebpf_arith::uv(dst), ebpf_arith::uv(src));
    step_laws::reaches_nothing(e);
    lemma_copy(seq![], e, e, ebpf_arith::sv(dst), ebpf_arith::sv(src));
    let f1 = copied(e, ebpf_arith::sv(dst), ebpf_arith::sv(src));
    assert(Seq::<Step>::empty().push(s) =~= seq![s]);
    lemma_copy(seq![s], e, f1, ebpf_arith::uv(dst), ebpf_arith::uv(src));
    let f2 = copied(f1, ebpf_arith::uv(dst), ebpf_arith::uv(src));
    assert(seq![s].push(u) =~= seq![s, u]);
    let ids = rcp::other_kind_ids(dst.v as int, one, None);
    act_laws::lemma_reach_forgets(ids, f2, f2);
    let forgets = rcp::forget_steps(ids);
    step_laws::reaches_both(seq![s, u], forgets, e, f2, f2);
    let before = seq![s, u] + forgets;
    let kinds = rcp::kinds_of(te);
    let copies = rcp::kind_copies(dst.v as int, src.v as int, one);
    assert(one.drop_last() =~= seq![]);
    assert(rcp::kind_copies(dst.v as int, src.v as int, one.drop_last()) =~= seq![]);
    assert(copies =~= kinds.map_values(|k: DataKind| Step::Copy(var_registry::reg_var(k, dst.v as int).id, var_registry::reg_var(k, src.v as int).id)));
    let all = rcp::register_copy_steps(dst, src, one, one);
    assert(all =~= before + copies);
    let vals = rcp::value_ids(dst);
    assert forall|i: int| 0 <= i < 10 implies vals.contains(#[trigger] vals[i]) by {}
    assert(vals[0] == rcp::id_of(DataKind::CtxOffsets, dst) && vals[1] == rcp::id_of(DataKind::MapFds, dst) && vals[2] == rcp::id_of(DataKind::MapFdPrograms, dst)
        && vals[3] == rcp::id_of(DataKind::PacketOffsets, dst) && vals[4] == rcp::id_of(DataKind::SharedOffsets, dst) && vals[5] == rcp::id_of(DataKind::SharedRegionSizes, dst)
        && vals[6] == rcp::id_of(DataKind::StackOffsets, dst) && vals[7] == rcp::id_of(DataKind::StackNumericSizes, dst)
        && vals[8] == ebpf_arith::sv(dst) && vals[9] == ebpf_arith::uv(dst));
    pointer_laws::lemma_kinds(DataKind::Svalues, DataKind::Uvalues, dst, dst);
    pointer_laws::lemma_kinds(DataKind::Svalues, DataKind::Uvalues, dst, src);
    pointer_laws::lemma_kinds(DataKind::Uvalues, DataKind::Svalues, dst, src);
    if kinds.len() == 0 {
        assert(all =~= before);
        f2
    } else {
        let k = kinds[0];
        let v = rcp::id_of(k, dst);
        let w = rcp::id_of(k, src);
        lemma_apart(k, dst, src);
        lemma_copy(before, e, f2, v, w);
        let f3 = copied(f2, v, w);
        if kinds.len() == 1 {
            assert(all =~= before.push(Step::Copy(v, w)));
            f3
        } else {
            let l = kinds[1];
            let x = rcp::id_of(l, dst);
            let y = rcp::id_of(l, src);
            lemma_apart(l, dst, src);
            pointer_laws::lemma_kinds(k, l, dst, src);
            pointer_laws::lemma_kinds(k, l, dst, dst);
            lemma_copy(before.push(Step::Copy(v, w)), e, f3, x, y);
            let f4 = copied(f3, x, y);
            assert(all =~= before.push(Step::Copy(v, w)).push(Step::Copy(x, y)));
            f4
        }
    }
}

/// What a type has besides its values is apart from them.
proof fn lemma_apart(k: DataKind, dst: Reg, src: Reg)
    requires dst.v <= 11, src.v <= 11, !(k is Svalues) && !(k is Uvalues),
    ensures
        rcp::id_of(k, dst) != ebpf_arith::sv(dst),
        rcp::id_of(k, dst) != ebpf_arith::uv(dst),
        rcp::id_of(k, src) != ebpf_arith::sv(dst),
        rcp::id_of(k, src) != ebpf_arith::uv(dst),
{
    pointer_laws::lemma_kinds(k, DataKind::Svalues, dst, dst);
    pointer_laws::lemma_kinds(k, DataKind::Uvalues, dst, dst);
    pointer_laws::lemma_kinds(k, DataKind::Svalues, src, dst);
    pointer_laws::lemma_kinds(k, DataKind::Uvalues, src, dst);
}

/// A copy of a register of one type.
proof fn lemma_copy_act(be: bool, dst: Reg, src: Reg, te: TypeEncoding, a: Place, b: Place, e: Env) -> (f: Env)
    requires
        acts::follows(be, a, seq![Act::CopyReg(dst, src)], b),
        act_laws::has_type(a, src, te),
        !(te is TUninit),
        act_laws::admits(a, e),
        dst.v <= 11,
        src.v <= 11,
        dst.v != src.v,
    ensures
        act_laws::admits(b, f),
        took_over(e, f, dst, src, te),
        act_laws::has_type(b, dst, te),
        act_laws::has_type(b, src, te),
        b.1 == a.1,
{
    act_laws::lemma_one(be, a, Act::CopyReg(dst, src), b);
    assert(b.1 == a.1 && acts::types_changed(a.0.state.types, acts::TypeChange::Copied(rcp::type_id(dst), rcp::type_id(src)), b.0.state.types)
        && numeric_steps::performs(a.0.num(), a.1, a.1,
            rcp::register_copy_steps(dst, src, b.0.state.types.iterated(rcp::type_id(dst)), b.0.state.types.iterated(rcp::type_id(src))), b.0.num())) by { reveal(acts::acted); }
    pointer_laws::lemma_kinds(DataKind::Types, DataKind::Types, dst, src);
    assert(act_laws::has_type(b, dst, te) && act_laws::has_type(b, src, te));
    act_laws::lemma_one_type(b, dst, te);
    act_laws::lemma_one_type(b, src, te);
    let f = lemma_copied(dst, src, te, e);
    step_laws::operations_are_sound(a.0.num(), a.1, a.1, rcp::register_copy_steps(dst, src, seq![te], seq![te]), b.0.num(), e, f);
    f
}

/// A move of a register, as acts.
proof fn lemma_move(be: bool, bin: Bin, src: Reg, te: TypeEncoding, a: Place, b: Place) -> (k: BinSeen)
    requires
        ebpf_bin::bin_effect(be, bin, a, b),
        a.0.num() is Some,
        bin.op is MOV,
        bin.v == Value::Reg(src),
        act_laws::has_type(a, src, te),
        !(te is TUninit),
    ensures acts::follows(be, a, ebpf_bin::move_reg_acts(bin, src, k.w) + ebpf_bin::tail_acts(bin, k.after), b),
{
    let k = choose|k: BinSeen| #[trigger] ebpf_bin::bin_runs(be, bin, k, a, b);
    act_laws::lemma_one_type(a, src, te);
    let tests = ebpf_bin::both_tests(bin, src, k);
    let rest = if k.src_init { ebpf_bin::move_reg_acts(bin, src, k.w) + ebpf_bin::tail_acts(bin, k.after) } else { seq![ebpf_memory::forgets(bin.dst)] };
    assert(seq![tests[0]] + (seq![tests[1]] + rest) =~= tests + rest);
    if k.src_init {
        assert(tests + ebpf_bin::bin_reg_acts(bin, src, k.w) + ebpf_bin::tail_acts(bin, k.after) =~= tests + rest);
    }
    lemma_asked(be, a, tests[0], seq![tests[1]] + rest, b);
    lemma_asked(be, a, tests[1], rest, b);
    assert(k.src_init) by { reveal(acts::acted); }
    k
}

/// A move of a register copies it: the register takes over the type, the values and what the type has
/// besides, and nothing else changes.
pub proof fn moves_copy_registers(be: bool, bin: Bin, src: Reg, te: TypeEncoding, a: Place, b: Place, e: Env) -> (f: Env)
    requires
        ebpf_bin::bin_effect(be, bin, a, b),
        bin.op is MOV,
        bin.is64,
        bin.v == Value::Reg(src),
        bin.dst.v <= 11,
        src.v <= 11,
        bin.dst.v != src.v,
        a.0.wf(),
        act_laws::has_type(a, src, te),
        !(te is TUninit),
        demands::describes(&a.0, e),
    ensures
        demands::describes(&b.0, f),
        took_over(e, f, bin.dst, src, te),
        act_laws::has_type(b, bin.dst, te),
{
    act_laws::lemma_admits(a, e);
    let k = lemma_move(be, bin, src, te, a, b);
    assert(ebpf_bin::move_reg_acts(bin, src, k.w) + ebpf_bin::tail_acts(bin, k.after) =~= seq![Act::CopyReg(bin.dst, src)]);
    lemma_copy_act(be, bin.dst, src, te, a, b, e)
}

/// A move of the low half of a number gives the low half.
pub proof fn half_moves_copy_low_halves(be: bool, bin: Bin, src: Reg, a: Place, b: Place, e: Env)
    requires
        ebpf_bin::bin_effect(be, bin, a, b),
        bin.op is MOV,
        !bin.is64,
        bin.v == Value::Reg(src),
        bin.dst.v <= 11,
        src.v <= 11,
        bin.dst.v != src.v,
        a.0.wf(),
        act_laws::has_type(a, src, TypeEncoding::TNum),
        demands::describes(&a.0, e),
        holds_word(e, src, e(rcp::id_of(DataKind::Uvalues, src))),
    ensures
        demands::describes(&b.0, with_word(e, bin.dst, low(e(rcp::id_of(DataKind::Uvalues, src)), false))),
{
    let dst = bin.dst;
    act_laws::lemma_admits(a, e);
    let k = lemma_move(be, bin, src, TypeEncoding::TNum, a, b);
    let group = Act::InGroup(src, ebpf_arith::nums(), k.w.first);
    let tail = ebpf_bin::tail_acts(bin, k.after);
    let all = ebpf_bin::move_reg_acts(bin, src, k.w) + tail;
    assert(all =~= seq![group] + all.skip(1));
    lemma_asked(be, a, group, all.skip(1), b);
    assert(k.w.first) by {
        reveal(acts::acted);
        let ts = a.0.state.types.s().types_of(rcp::type_id(src));
        assert forall|t: TypeEncoding| #[trigger] ts.has(t) implies ebpf_arith::nums().has(t) by { ts.algebra(ts, TypeEncoding::TNum, t); }
    }
    let copy = seq![Act::CopyReg(dst, src)];
    assert(all.skip(1) =~= copy + tail);
    let m = act_laws::lemma_split(be, a, copy, tail, b);
    lemma_number_copied(be, dst, src, a, m, e);
    let f = with_word(e, dst, e(ebpf_arith::uv(src)));
    pointer_laws::lemma_kinds(DataKind::Svalues, DataKind::Uvalues, dst, dst);
    lemma_tail(be, bin, k.after, m, b, f);
    assert(with_word(f, dst, low(e(ebpf_arith::uv(src)), false)) =~= with_word(e, dst, low(e(ebpf_arith::uv(src)), false)));
}

/// A copy of a number is the number; what the register had besides may be anything, as before.
proof fn lemma_number_copied(be: bool, dst: Reg, src: Reg, a: Place, b: Place, e: Env)
    requires
        acts::follows(be, a, seq![Act::CopyReg(dst, src)], b),
        act_laws::has_type(a, src, TypeEncoding::TNum),
        act_laws::admits(a, e),
        dst.v <= 11,
        src.v <= 11,
        dst.v != src.v,
        holds_word(e, src, e(ebpf_arith::uv(src))),
    ensures
        act_laws::admits(b, with_word(e, dst, e(ebpf_arith::uv(src)))),
        act_laws::has_type(b, dst, TypeEncoding::TNum),
        b.1 == a.1,
{
    let te = TypeEncoding::TNum;
    let g = lemma_copy_act(be, dst, src, te, a, b, e);
    act_laws::lemma_one(be, a, Act::CopyReg(dst, src), b);
    assert(numeric_steps::performs(a.0.num(), a.1, a.1,
        rcp::register_copy_steps(dst, src, b.0.state.types.iterated(rcp::type_id(dst)), b.0.state.types.iterated(rcp::type_id(src))), b.0.num())) by { reveal(acts::acted); }
    act_laws::lemma_one_type(b, dst, te);
    act_laws::lemma_one_type(b, src, te);
    let s = Step::Copy(ebpf_arith::sv(dst), ebpf_arith::sv(src));
    let u = Step::Copy(ebpf_arith::uv(dst), ebpf_arith::uv(src));
    let one = seq![te];
    assert(one.drop_last() =~= seq![]);
    let all = rcp::register_copy_steps(dst, src, one, one);
    assert(rcp::other_kind_ids(dst.v as int, one.drop_last(), None) =~= seq![]);
    assert(rcp::kind_copies(dst.v as int, src.v as int, one.drop_last()) =~= seq![]);
    assert(rcp::kind_ids(dst.v as int, te) =~= seq![]);
    assert(rcp::other_kind_ids(dst.v as int, one, None) =~= seq![]);
    assert(rcp::kind_copies(dst.v as int, src.v as int, one) =~= seq![]);
    assert(all =~= seq![s, u]);
    step_laws::reaches_nothing(e);
    lemma_copy(seq![], e, e, ebpf_arith::sv(dst), ebpf_arith::sv(src));
    let f1 = copied(e, ebpf_arith::sv(dst), ebpf_arith::sv(src));
    assert(Seq::<Step>::empty().push(s) =~= seq![s]);
    lemma_copy(seq![s], e, f1, ebpf_arith::uv(dst), ebpf_arith::uv(src));
    let f2 = copied(f1, ebpf_arith::uv(dst), ebpf_arith::uv(src));
    assert(seq![s].push(u) =~= seq![s, u]);
    pointer_laws::lemma_kinds(DataKind::Svalues, DataKind::Uvalues, dst, dst);
    pointer_laws::lemma_kinds(DataKind::Svalues, DataKind::Uvalues, dst, src);
    pointer_laws::lemma_kinds(DataKind::Uvalues, DataKind::Svalues, dst, src);
    assert(f2 =~= with_word(e, dst, e(ebpf_arith::uv(src))));
    step_laws::operations_are_sound(a.0.num(), a.1, a.1, all, b.0.num(), e, f2);
}

/// A move of a number into a register gives the number, whatever the register held.
#[verifier::rlimit(40)]
pub proof fn moves_set_numbers(be: bool, bin: Bin, i: Imm, a: Place, b: Place, e: Env)
    requires
        ebpf_bin::bin_effect(be, bin, a, b),
        bin.op is MOV,
        bin.is64,
        bin.v == Value::Imm(i),
        bin.dst.v <= 11,
        a.0.wf(),
        a.0.state.types.state is Some,
        demands::describes(&a.0, e),
    ensures
        demands::describes(&b.0, with_word(e, bin.dst, i.v as int)),
        act_laws::has_type(b, bin.dst, TypeEncoding::TNum),
{
    let dst = bin.dst;
    let s = ebpf_arith::sv(dst);
    let u = ebpf_arith::uv(dst);
    let imm = ebpf_bin::immediate(i.v, true);
    act_laws::lemma_admits(a, e);
    let k = choose|k: BinSeen| #[trigger] ebpf_bin::bin_runs(be, bin, k, a, b);
    let test = ebpf_bin::first_test(bin, k);
    let ops = seq![crate::numeric_ops::set_number(s, imm), crate::numeric_ops::set_number(u, imm), Step::WrapOne(u, 64, false)];
    let act = ebpf_memory::numbers(ops);
    let give = seq![ebpf_memory::gives(dst, TypeEncoding::TNum)];
    let drop = seq![ebpf_memory::forgets_offsets(dst)];
    let body = ebpf_bin::bin_imm_acts(bin, imm, k.w);
    assert(test + ebpf_bin::head_acts(bin, k.before) + body + ebpf_bin::tail_acts(bin, k.after) =~= seq![test[0]] + (seq![act] + (give + drop)));
    lemma_asked(be, a, test[0], seq![act] + (give + drop), b);
    let m1 = act_laws::lemma_split(be, a, seq![act], give + drop, b);
    let m2 = act_laws::lemma_split(be, m1, give, drop, b);
    pointer_laws::lemma_kinds(DataKind::Svalues, DataKind::Uvalues, dst, dst);
    lemma_low(i.v as int, true);
    lemma_low(imm, true);
    lemma_half(imm);
    assert(low(imm, true) == i.v as int);
    let f1 = zone_model::env_with(e, s, imm);
    let f2 = zone_model::env_with(f1, u, imm);
    let f = with_word(e, dst, i.v as int);
    pointer_laws::lemma_calm_with(e, s, imm);
    pointer_laws::lemma_calm_with(f1, u, imm);
    lemma_word_modest(e, dst, i.v as int);
    assert(register_laws::wrapped(imm, 64, false) == i.v as int);
    assert(f =~= zone_model::env_with(f2, u, i.v as int));
    step_laws::reaches_nothing(e);
    step_laws::reaches_next(seq![], e, e, ops[0], f1);
    assert(Seq::<Step>::empty().push(ops[0]) =~= seq![ops[0]]);
    step_laws::reaches_next(seq![ops[0]], e, f1, ops[1], f2);
    assert(seq![ops[0]].push(ops[1]) =~= seq![ops[0], ops[1]]);
    step_laws::reaches_next(seq![ops[0], ops[1]], e, f2, ops[2], f);
    assert(seq![ops[0], ops[1]].push(ops[2]) =~= ops);
    act_laws::lemma_one(be, a, act, m1);
    act_laws::act_is_sound(be, a, act, m1, e, f);
    step_laws::reaches_nothing(f);
    act_laws::lemma_still(be, m1, give[0], m2, f);
    act_laws::lemma_forgets(be, m2, acts::TypeChange::Same, rcp::offset_ids(dst), b, f, f);
    act_laws::lemma_one(be, m1, give[0], m2);
    act_laws::lemma_one(be, m2, drop[0], b);
    assert(m1.0.state.types == a.0.state.types && b.0.state.types == m2.0.state.types
        && acts::types_changed(m1.0.state.types, acts::TypeChange::Given(rcp::type_id(dst), TypeEncoding::TNum), m2.0.state.types)) by { reveal(acts::acted); }
    lemma_given(m1, dst, TypeEncoding::TNum, m2);
}

// ---------------------------------------------------------------------------------------------
// Opposites and shifts
// ---------------------------------------------------------------------------------------------

/// The opposite of a register is sound: the register holds the opposite of its word afterwards.
#[verifier::rlimit(40)]
pub proof fn opposites_are_sound(be: bool, un: Un, a: Place, b: Place, e: Env)
    requires
        ebpf_un::un_effect(be, un, a, b),
        un.op is NEG,
        un.dst.v <= 11,
        a.0.wf(),
        a.1.ready(),
        demands::describes(&a.0, e),
        holds_word(e, un.dst, e(rcp::id_of(DataKind::Uvalues, un.dst))),
    ensures demands::describes(&b.0, with_word(e, un.dst, low(-e(rcp::id_of(DataKind::Uvalues, un.dst)), un.is64))),
{
    let dst = un.dst;
    let s = ebpf_arith::sv(dst);
    let u = ebpf_arith::uv(dst);
    let w: int = if un.is64 { 64 } else { 32 };
    act_laws::lemma_admits(a, e);
    let (ws, wu) = choose|ws: ebpf_un::ByteSeen, wu: ebpf_un::ByteSeen| acts::follows(be, a, #[trigger] ebpf_un::un_acts(be, un, ws, wu), b);
    let op = Step::Signed(FiniteBinOp::Arith(ArithBinOp::MUL), s, u, s, ebpf_arith::lit(-1), w);
    let one = seq![ebpf_memory::numbers(seq![op])];
    let two = seq![ebpf_memory::forgets_offsets(dst)];
    assert(ebpf_un::un_acts(be, un, ws, wu) =~= one + two);
    let m = act_laws::lemma_split(be, a, one, two, b);
    let r = lemma_update(be, a, op, m);
    assert(m.0.num() is Some && finite_domain::signed_applied(a.0.num()->Some_0, r, FiniteBinOp::Arith(ArithBinOp::MUL), s, u, s, ebpf_arith::lit(-1), w, m.0.num()->Some_0)) by {
        reveal(numeric_steps::step);
    }
    lemma_metas(a.1, r, DataKind::Svalues, dst);
    pointer_laws::lemma_kinds(DataKind::Svalues, DataKind::Uvalues, dst, dst);
    let x = e(u);
    lemma_low(e(s), un.is64);
    lemma_reading(x, un.is64);
    let p = signed(x, un.is64);
    assert(register_laws::read_at(r, s, w, e) == p);
    assert(p * -1 == -p);
    register_laws::register_products_are_sound(a.0.num()->Some_0, r, s, u, s, ebpf_arith::lit(-1), w, m.0.num()->Some_0, e);
    lemma_took(e, dst, -p, un.is64);
    assert(low(0 - p, un.is64) == low(0 - x, un.is64)) by {
        assert(low(p, un.is64) == low(x, un.is64));
        lemma_sum_low(0, p, 0, x, un.is64);
    }
    let f = with_word(e, dst, low(-x, un.is64));
    lemma_word_modest(e, dst, low(-x, un.is64));
    step_laws::lemma_register_proper(a.0.num(), r, op, m.0.num());
    act_laws::lemma_forgets(be, m, acts::TypeChange::Same, rcp::offset_ids(dst), b, f, f);
}

/// The interval of an unsigned value is one of words.
pub open spec fn of_words(iv: Interval) -> bool {
    iv.lb matches ExtendedNumber::Finite(l) && iv.ub matches ExtendedNumber::Finite(h) && 0 <= l@ && h@ <= u64::MAX
}

/// The acts of a shift of a number by an immediate.
#[verifier::rlimit(40)]
proof fn lemma_shift(be: bool, bin: Bin, i: Imm, a: Place, b: Place, op: Step, e: Env) -> (m: Place)
    requires
        ebpf_bin::bin_effect(be, bin, a, b),
        bin.op is LSH || bin.op is RSH,
        bin.is64,
        bin.v == Value::Imm(i),
        i.v < 64,
        bin.dst.v <= 11,
        op == (if bin.op is LSH { Step::Shl(ebpf_arith::sv(bin.dst), ebpf_arith::uv(bin.dst), i.v as i32, 64) } else { Step::Lshr(ebpf_arith::sv(bin.dst), ebpf_arith::uv(bin.dst), i.v as int, 64) }),
        act_laws::has_type(a, bin.dst, TypeEncoding::TNum),
        act_laws::admits(a, e),
    ensures
        act_laws::admits(m, e),
        m.1 == a.1,
        acts::follows(be, m, seq![ebpf_memory::numbers(seq![op])], b),
        m.0.num() matches Some(z) && zone_model::zinterval(z, ebpf_arith::uv(bin.dst)) == zone_model::zinterval(a.0.num()->Some_0, ebpf_arith::uv(bin.dst)),
{
    let dst = bin.dst;
    act_laws::lemma_one_type(a, dst, TypeEncoding::TNum);
    let k = choose|k: BinSeen| #[trigger] ebpf_bin::bin_runs(be, bin, k, a, b);
    lemma_initialized(be, bin, k, a, b);
    let imm = ebpf_bin::immediate(i.v, true);
    lemma_low(i.v as int, true);
    lemma_low(i.v as int, false);
    assert(imm == i.v as int && ebpf_bin::low(imm) == imm && imm % 64 == imm);
    let test = ebpf_bin::first_test(bin, k);
    let body = ebpf_arith::shift_acts(dst, op, k.w.first);
    assert(ebpf_bin::bin_imm_acts(bin, imm, k.w) =~= body);
    assert(test + ebpf_bin::head_acts(bin, k.before) + body + ebpf_bin::tail_acts(bin, k.after) =~= seq![test[0]] + body);
    lemma_asked(be, a, test[0], body, b);
    let drop = seq![ebpf_memory::forgets_offsets(dst)];
    let group = Act::InGroup(dst, ebpf_arith::nums(), k.w.first);
    let last = seq![ebpf_memory::numbers(if k.w.first { seq![op] } else { ebpf_arith::drop_both(dst) })];
    assert(body =~= drop + (seq![group] + last));
    let m = act_laws::lemma_split(be, a, drop, seq![group] + last, b);
    act_laws::lemma_forgets(be, a, acts::TypeChange::Same, rcp::offset_ids(dst), m, e, e);
    act_laws::lemma_one(be, a, drop[0], m);
    lemma_asked(be, m, group, last, b);
    assert(m.0.state.types == a.0.state.types && m.1 == a.1 && numeric_steps::performs(a.0.num(), a.1, a.1, rcp::forget_steps(rcp::offset_ids(dst)), m.0.num())) by { reveal(acts::acted); }
    assert(k.w.first) by {
        reveal(acts::acted);
        let ts = a.0.state.types.s().types_of(rcp::type_id(dst));
        assert forall|t: TypeEncoding| #[trigger] ts.has(t) implies ebpf_arith::nums().has(t) by { ts.algebra(ts, TypeEncoding::TNum, t); }
    }
    let ops = rcp::forget_steps(rcp::offset_ids(dst));
    lemma_offsets_apart(dst);
    assert forall|j: int| 0 <= j < ops.len() implies !step_laws::targets(#[trigger] ops[j], ebpf_arith::uv(dst)) by {
        assert(ops[j] == Step::Forget(rcp::offset_ids(dst)[j]));
    }
    step_laws::other_intervals_stay_along(a.0.num(), a.1, a.1, ops, m.0.num(), ebpf_arith::uv(dst));
    m
}

proof fn lemma_offsets_apart(dst: Reg)
    requires dst.v <= 11,
    ensures forall|j: int| 0 <= j < rcp::offset_ids(dst).len() ==> #[trigger] rcp::offset_ids(dst)[j] != ebpf_arith::uv(dst),
{
    pointer_laws::lemma_kinds(DataKind::CtxOffsets, DataKind::Uvalues, dst, dst);
    pointer_laws::lemma_kinds(DataKind::MapFds, DataKind::Uvalues, dst, dst);
    pointer_laws::lemma_kinds(DataKind::MapFdPrograms, DataKind::Uvalues, dst, dst);
    pointer_laws::lemma_kinds(DataKind::PacketOffsets, DataKind::Uvalues, dst, dst);
    pointer_laws::lemma_kinds(DataKind::SharedOffsets, DataKind::Uvalues, dst, dst);
    pointer_laws::lemma_kinds(DataKind::SharedRegionSizes, DataKind::Uvalues, dst, dst);
    pointer_laws::lemma_kinds(DataKind::StackOffsets, DataKind::Uvalues, dst, dst);
    pointer_laws::lemma_kinds(DataKind::StackNumericSizes, DataKind::Uvalues, dst, dst);
}

/// A value put into the unsigned reading of a register is the register's word.
proof fn lemma_shifted(be: bool, dst: Reg, op: Step, iv: Interval, x: int, m: Place, b: Place, r: RegistryView, e: Env)
    requires
        numeric_steps::step(m.0.num(), r, op, b.0.num()),
        m.0.num() is Some,
        b.0.num() is Some,
        finite_domain::mirrored(zone_model::zput(m.0.num()->Some_0, ebpf_arith::uv(dst), iv, r.metas[ebpf_arith::uv(dst) as int].is_min_only), r,
            ebpf_arith::uv(dst), ebpf_arith::sv(dst), ebpf_arith::sv(dst), ebpf_arith::uv(dst), 64, b.0.num()->Some_0),
        op is Shl || op is Lshr,
        act_laws::admits(m, e),
        dst.v <= 11,
        iv.has(x),
        word_laws::is_word(x),
    ensures act_laws::admits(b, with_word(e, dst, x)),
{
    let s = ebpf_arith::sv(dst);
    let u = ebpf_arith::uv(dst);
    let z = m.0.num()->Some_0;
    let mo = r.metas[u as int].is_min_only;
    pointer_laws::lemma_kinds(DataKind::Svalues, DataKind::Uvalues, dst, dst);
    let g = zone_model::env_with(e, u, x);
    pointer_laws::lemma_calm_with(e, u, x);
    step_laws::lemma_modest(g);
    zone_model::putting_is_sound(z, u, iv, mo, e, x);
    let y = zone_model::zput(z, u, iv, mo);
    assert(zone_model::proper(y));
    assert forall|k: u64| k != s && k != u implies -interval_laws::MODEST <= #[trigger] g(k) <= interval_laws::MODEST by {}
    register_laws::mirroring_is_sound(y, r, u, s, s, u, 64, b.0.num()->Some_0, g);
    lemma_took(g, dst, x, true);
    assert(with_word(g, dst, low(x, true)) =~= with_word(e, dst, x));
    lemma_word_modest(e, dst, x);
    step_laws::lemma_register_proper(m.0.num(), r, op, b.0.num());
}

/// A shift right of a number by an immediate is sound: the register holds the quotient of its word by the
/// power of two.
pub proof fn right_shifts_are_sound(be: bool, bin: Bin, i: Imm, a: Place, b: Place, e: Env)
    requires
        ebpf_bin::bin_effect(be, bin, a, b),
        bin.op is RSH,
        bin.is64,
        bin.v == Value::Imm(i),
        i.v < 64,
        bin.dst.v <= 11,
        a.0.wf(),
        act_laws::has_type(a, bin.dst, TypeEncoding::TNum),
        demands::describes(&a.0, e),
        holds_word(e, bin.dst, e(rcp::id_of(DataKind::Uvalues, bin.dst))),
        of_words(zone_model::zinterval(a.0.state.values.z(), rcp::id_of(DataKind::Uvalues, bin.dst))),
    ensures demands::describes(&b.0, with_word(e, bin.dst, e(rcp::id_of(DataKind::Uvalues, bin.dst)) / (pow2(i.v as nat) as int))),
{
    let dst = bin.dst;
    let u = ebpf_arith::uv(dst);
    act_laws::lemma_admits(a, e);
    let op = Step::Lshr(ebpf_arith::sv(dst), u, i.v as int, 64);
    let m = lemma_shift(be, bin, i, a, b, op, e);
    let r = lemma_update(be, m, op, b);
    let z = m.0.num()->Some_0;
    let iv = zone_model::zinterval(z, u);
    let d = pow2(i.v as nat) as int;
    let x = e(u);
    step_laws::lemma_modest(e);
    zone_model::interval_is_sound(z, u, e);
    vstd::arithmetic::power2::lemma_pow2_pos(i.v as nat);
    let out = finite_domain::lshr_interval(iv, i.v as int, 64);
    lemma2_to64();
    lemma2_to64_rest();
    if let (ExtendedNumber::Finite(l), ExtendedNumber::Finite(h)) = (iv.lb, iv.ub) {
        number::lemma_wrap_identity(l@, 64);
        number::lemma_wrap_identity(h@, 64);
        vstd::arithmetic::div_mod::lemma_div_is_ordered(l@, x, d);
        vstd::arithmetic::div_mod::lemma_div_is_ordered(x, h@, d);
        vstd::arithmetic::div_mod::lemma_div_is_ordered(0, l@, d);
        lemma_quotient(l@, d);
        lemma_quotient(h@, d);
    }
    lemma_quotient(x, d);
    assert(out.has(x / d));
    assert(b.0.num() is Some && finite_domain::mirrored(zone_model::zput(z, u, out, r.metas[u as int].is_min_only), r, u, ebpf_arith::sv(dst), ebpf_arith::sv(dst), u, 64, b.0.num()->Some_0)) by {
        reveal(numeric_steps::step);
    }
    lemma_shifted(be, dst, op, out, x / d, m, b, r, e);
}

/// A quotient of a word is a word.
proof fn lemma_quotient(x: int, d: int)
    requires word_laws::is_word(x), d >= 1,
    ensures 0 <= x / d <= x,
{
    assert(0 <= x / d <= x) by (nonlinear_arith) requires x >= 0, d >= 1;
}

/// A shift left of a number by an immediate is sound: the register holds the low bits of the product of
/// its word and the power of two.
pub proof fn left_shifts_are_sound(be: bool, bin: Bin, i: Imm, a: Place, b: Place, e: Env)
    requires
        ebpf_bin::bin_effect(be, bin, a, b),
        bin.op is LSH,
        bin.is64,
        bin.v == Value::Imm(i),
        i.v < 64,
        bin.dst.v <= 11,
        a.0.wf(),
        act_laws::has_type(a, bin.dst, TypeEncoding::TNum),
        demands::describes(&a.0, e),
        holds_word(e, bin.dst, e(rcp::id_of(DataKind::Uvalues, bin.dst))),
        of_words(zone_model::zinterval(a.0.state.values.z(), rcp::id_of(DataKind::Uvalues, bin.dst))),
    ensures demands::describes(&b.0, with_word(e, bin.dst, low(e(rcp::id_of(DataKind::Uvalues, bin.dst)) * pow2(i.v as nat), true))),
{
    let dst = bin.dst;
    let u = ebpf_arith::uv(dst);
    act_laws::lemma_admits(a, e);
    let op = Step::Shl(ebpf_arith::sv(dst), u, i.v as i32, 64);
    let m = lemma_shift(be, bin, i, a, b, op, e);
    let r = lemma_update(be, m, op, b);
    let z = m.0.num()->Some_0;
    let iv = zone_model::zinterval(z, u);
    let x = e(u);
    step_laws::lemma_modest(e);
    zone_model::interval_is_sound(z, u, e);
    let c = i.v as int;
    let n = i.v as i32;
    assert((n as u32) as int == c);
    lemma_shl_interval(iv, x, n);
    let out = finite_domain::shl_interval(iv, n, 64)->Some_0;
    assert(b.0.num() is Some && finite_domain::mirrored(zone_model::zput(z, u, out, r.metas[u as int].is_min_only), r, u, ebpf_arith::sv(dst), ebpf_arith::sv(dst), u, 64, b.0.num()->Some_0)) by {
        reveal(numeric_steps::step);
    }
    lemma_shifted(be, dst, op, out, low(x * pow2(i.v as nat), true), m, b, r, e);
}

/// The low bits of a product with a power of two.
proof fn lemma_shifted_up(x: int, k: int)
    requires 0 <= k < 64, x >= 0,
    ensures
        finite_domain::shifted_up(x, k, 64) == low(x * pow2(k as nat), true),
        finite_domain::shifted_up(x, k, 64) == (x % (pow2((64 - k) as nat) as int)) * pow2(k as nat),
        pow2((64 - k) as nat) * pow2(k as nat) == 0x1_0000_0000_0000_0000,
{
    let p = pow2((64 - k) as nat) as int;
    let q = pow2(k as nat) as int;
    vstd::arithmetic::power2::lemma_pow2_pos((64 - k) as nat);
    vstd::arithmetic::power2::lemma_pow2_pos(k as nat);
    vstd::arithmetic::power2::lemma_pow2_adds((64 - k) as nat, k as nat);
    lemma2_to64_rest();
    assert(p * q == 0x1_0000_0000_0000_0000);
    vstd::arithmetic::div_mod::lemma_truncate_middle(x, q, p);
    assert((q * x) % (q * p) == q * (x % p));
    assert(q * x == x * q && q * p == p * q && q * (x % p) == (x % p) * q) by (nonlinear_arith);
}

#[verifier::rlimit(40)]
proof fn lemma_shl_interval(iv: Interval, x: int, n: i32)
    requires of_words(iv), iv.has(x), 0 <= n < 64,
    ensures
        finite_domain::shl_interval(iv, n, 64) is Some,
        finite_domain::shl_interval(iv, n, 64)->Some_0.has(low(x * pow2(n as nat), true)),
{
    let k = n as int;
    let l = iv.lb->Finite_0@;
    let h = iv.ub->Finite_0@;
    let p = pow2((64 - k) as nat) as int;
    let q = pow2(k as nat) as int;
    lemma2_to64();
    lemma2_to64_rest();
    vstd::arithmetic::power2::lemma_pow2_pos((64 - k) as nat);
    vstd::arithmetic::power2::lemma_pow2_pos(k as nat);
    lemma_shifted_up(x, k);
    lemma_shifted_up(l, k);
    lemma_shifted_up(h, k);
    lemma_shifted_up(pow2(64) - 1, k);
    let top = pow2(64) - 1;
    assert(top % p == p - 1) by {
        assert(top == p * (q - 1) + (p - 1)) by (nonlinear_arith) requires top == p * q - 1;
        vstd::arithmetic::div_mod::lemma_fundamental_div_mod_converse(top, p, q - 1, p - 1);
    }
    vstd::arithmetic::div_mod::lemma_mod_bound(x, p);
    vstd::arithmetic::div_mod::lemma_mod_bound(l, p);
    vstd::arithmetic::div_mod::lemma_mod_bound(h, p);
    let a = x % p;
    assert(0 <= a * q <= (p - 1) * q) by (nonlinear_arith) requires 0 <= a <= p - 1, q >= 1;
    assert((p - 1) * q <= 0x1_0000_0000_0000_0000) by (nonlinear_arith) requires p * q == 0x1_0000_0000_0000_0000, q >= 1, p >= 1;
    if k == 0 {
        assert(q == 1);
    }
    if k == 0 || l / p == h / p {
        vstd::arithmetic::div_mod::lemma_div_is_ordered(l, x, p);
        vstd::arithmetic::div_mod::lemma_div_is_ordered(x, h, p);
        vstd::arithmetic::div_mod::lemma_fundamental_div_mod(l, p);
        vstd::arithmetic::div_mod::lemma_fundamental_div_mod(x, p);
        vstd::arithmetic::div_mod::lemma_fundamental_div_mod(h, p);
        if k == 0 {
            vstd::arithmetic::div_mod::lemma_small_mod(l as nat, p as nat);
            vstd::arithmetic::div_mod::lemma_small_mod(x as nat, p as nat);
            vstd::arithmetic::div_mod::lemma_small_mod(h as nat, p as nat);
        }
        let b = l % p;
        let c = h % p;
        assert(b <= a <= c);
        assert(b * q <= a * q <= c * q && 0 <= b * q && c * q <= (p - 1) * q) by (nonlinear_arith) requires 0 <= b <= a <= c <= p - 1, q >= 1;
    }
}

// ---------------------------------------------------------------------------------------------
// Extensions
// ---------------------------------------------------------------------------------------------

/// The low bits of a word with a sign, of one, two or four bytes.
pub open spec fn extended(op: BinOp, x: int) -> int {
    match op {
        BinOp::MOVSX8 => if x % 0x100 < 0x80 { x % 0x100 } else { x % 0x100 - 0x100 },
        BinOp::MOVSX16 => if x % 0x1_0000 < 0x8000 { x % 0x1_0000 } else { x % 0x1_0000 - 0x1_0000 },
        _ => if x % 0x1_0000_0000 < 0x8000_0000 { x % 0x1_0000_0000 } else { x % 0x1_0000_0000 - 0x1_0000_0000 },
    }
}

/// A move that extends a sign is sound: the register holds the low bits of the other one, extended by
/// their sign.
#[verifier::rlimit(40)]
pub proof fn extensions_are_sound(be: bool, bin: Bin, src: Reg, a: Place, b: Place, e: Env)
    requires
        ebpf_bin::bin_effect(be, bin, a, b),
        bin.op is MOVSX8 || bin.op is MOVSX16 || bin.op is MOVSX32,
        bin.is64,
        bin.v == Value::Reg(src),
        bin.dst.v <= 11,
        src.v <= 11,
        bin.dst.v != src.v,
        a.0.wf(),
        act_laws::has_type(a, src, TypeEncoding::TNum),
        demands::describes(&a.0, e),
        holds_word(e, src, e(rcp::id_of(DataKind::Uvalues, src))),
    ensures demands::describes(&b.0, with_word(e, bin.dst, low(extended(bin.op, e(rcp::id_of(DataKind::Uvalues, src))), true))),
{
    let dst = bin.dst;
    let s = ebpf_arith::sv(dst);
    let u = ebpf_arith::uv(dst);
    act_laws::lemma_admits(a, e);
    act_laws::lemma_one_type(a, src, TypeEncoding::TNum);
    let k = choose|k: BinSeen| #[trigger] ebpf_bin::bin_runs(be, bin, k, a, b);
    let tests = ebpf_bin::both_tests(bin, src, k);
    let bits = ebpf_bin::source_bits(bin.op);
    let op = Step::Extend(s, u, k.w.e, 64, bits);
    let moved = ebpf_bin::move_reg_acts(bin, src, k.w);
    let rest = if k.src_init { moved } else { seq![ebpf_memory::forgets(dst)] };
    assert(dst != src);
    if k.src_init {
        assert(tests + ebpf_bin::bin_reg_acts(bin, src, k.w) + (if ebpf_bin::extension_is_idle(bin, src, k.w) { seq![] } else { ebpf_bin::tail_acts(bin, k.after) }) =~= seq![tests[0]] + (seq![tests[1]] + rest));
    } else {
        assert(tests + rest =~= seq![tests[0]] + (seq![tests[1]] + rest));
    }
    lemma_asked(be, a, tests[0], seq![tests[1]] + rest, b);
    lemma_asked(be, a, tests[1], rest, b);
    assert(k.src_init) by { reveal(acts::acted); }
    let group = Act::InGroup(src, ebpf_arith::nums(), k.w.first);
    assert(moved =~= seq![group] + moved.skip(1));
    lemma_asked(be, a, group, moved.skip(1), b);
    assert(k.w.first) by {
        reveal(acts::acted);
        let ts = a.0.state.types.s().types_of(rcp::type_id(src));
        assert forall|t: TypeEncoding| #[trigger] ts.has(t) implies ebpf_arith::nums().has(t) by { ts.algebra(ts, TypeEncoding::TNum, t); }
    }
    let drop = seq![ebpf_memory::forgets_offsets(dst)];
    let give = seq![ebpf_memory::gives(dst, TypeEncoding::TNum)];
    let last = seq![ebpf_memory::numbers(seq![op])];
    assert(moved.skip(1) =~= drop + (give + last));
    let m1 = act_laws::lemma_split(be, a, drop, give + last, b);
    let m2 = act_laws::lemma_split(be, m1, give, last, b);
    act_laws::lemma_forgets(be, a, acts::TypeChange::Same, rcp::offset_ids(dst), m1, e, e);
    step_laws::reaches_nothing(e);
    act_laws::lemma_still(be, m1, give[0], m2, e);
    let r = lemma_update(be, m2, op, b);
    lemma_extend(dst, src, bin.op, k.w.e, m2, b, r, e);
}

/// Wrapping at the width of the low bits extends them by their sign.
proof fn lemma_extended(op: BinOp, w: int)
    requires word_laws::is_word(w), op is MOVSX8 || op is MOVSX16 || op is MOVSX32,
    ensures
        number::wrap_signed(signed(w, true), ebpf_bin::source_bits(op)) == extended(op, w),
        -0x8000_0000 <= extended(op, w) <= 0x8000_0000,
{
    lemma2_to64();
    lemma2_to64_rest();
    if w >= 0x8000_0000_0000_0000 {
        assert((w - 0x1_0000_0000_0000_0000) % 0x100 == w % 0x100);
        assert((w - 0x1_0000_0000_0000_0000) % 0x1_0000 == w % 0x1_0000);
        assert((w - 0x1_0000_0000_0000_0000) % 0x1_0000_0000 == w % 0x1_0000_0000);
    }
}

#[verifier::rlimit(40)]
proof fn lemma_extend(dst: Reg, src: Reg, op: BinOp, x: linear_expression::LinearExpression, m: Place, b: Place, r: RegistryView, e: Env)
    requires
        zone_domain::is_variable(&x, ebpf_arith::sv(src)),
        numeric_steps::step(m.0.num(), r, Step::Extend(ebpf_arith::sv(dst), ebpf_arith::uv(dst), x, 64, ebpf_bin::source_bits(op)), b.0.num()),
        act_laws::admits(m, e),
        dst.v <= 11,
        op is MOVSX8 || op is MOVSX16 || op is MOVSX32,
        holds_word(e, src, e(ebpf_arith::uv(src))),
    ensures act_laws::admits(b, with_word(e, dst, low(extended(op, e(ebpf_arith::uv(src))), true))),
{
    let s = ebpf_arith::sv(dst);
    let u = ebpf_arith::uv(dst);
    let z = m.0.num()->Some_0;
    let bits = ebpf_bin::source_bits(op);
    let mo = r.metas[s as int].is_min_only;
    let v = e(ebpf_arith::sv(src));
    let w = e(ebpf_arith::uv(src));
    pointer_laws::lemma_kinds(DataKind::Svalues, DataKind::Uvalues, dst, dst);
    interval_laws::evaluation_is_sound(z, &x, e);
    assert(x.eval(e) == v);
    let iv = zone_model::zeval(z, &x).sign_extend_spec(bits);
    interval_laws::sign_extension_is_sound(zone_model::zeval(z, &x), bits, v);
    let t = number::wrap_signed(v, bits);
    lemma_extended(op, w);
    let y = zone_model::zput(z, s, iv, mo);
    assert(b.0.num() is Some && finite_domain::mirrored(y, r, s, u, s, u, 64, b.0.num()->Some_0)) by { reveal(numeric_steps::step); }
    let g = zone_model::env_with(e, s, t);
    pointer_laws::lemma_calm_with(e, s, t);
    step_laws::lemma_modest(g);
    zone_model::putting_is_sound(z, s, iv, mo, e, t);
    assert(zone_model::proper(y));
    assert forall|k: u64| k != s && k != u implies -interval_laws::MODEST <= #[trigger] g(k) <= interval_laws::MODEST by {}
    assert(-interval_laws::MODEST <= g(u) <= interval_laws::MODEST && -interval_laws::MODEST <= g(s) <= interval_laws::MODEST);
    register_laws::mirroring_is_sound(y, r, s, u, s, u, 64, b.0.num()->Some_0, g);
    lemma_took(g, dst, t, true);
    assert(with_word(g, dst, low(t, true)) =~= with_word(e, dst, low(t, true)));
    lemma_word_modest(e, dst, low(t, true));
    step_laws::lemma_register_proper(m.0.num(), r, Step::Extend(s, u, x, 64, bits), b.0.num());
}

}
