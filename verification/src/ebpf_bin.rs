//! Binary operations.
use vstd::prelude::*;
use vstd::string::*;
use crate::acts;
use crate::acts::{Act, Place, Trace};
use crate::arith::linear_expression::LinearExpression;
use crate::arith::number;
use crate::arith::number::Number;
use crate::array_domain;
use crate::branching;
use crate::branching::Transition;
use crate::ebpf_addsub;
use crate::ebpf_arith;
use crate::ebpf_arith::Seen;
use crate::ebpf_domain::{EbpfDomain, VerificationError};
use crate::ebpf_memory;
use crate::finite_assume;
use crate::finite_domain::{BitwiseBinOp, FiniteBinOp, Operand};
use crate::interval::Interval;
use crate::numeric_ops;
use crate::numeric_ops::Log;
use crate::numeric_steps::Step;
use crate::rcp::reg_pack;
use crate::syntax::{Bin, BinOp, Reg, Value};
use crate::type_encoding::{TypeEncoding, TypeSet};
use crate::var_registry::VariableRegistry;
use crate::zone_domain;

verus! {

/// The width of an operation in bits.
pub open spec fn bits_of(bin: Bin) -> int {
    if bin.is64 { 64 } else { 32 }
}

/// Moves, which do not read what was in the register before.
pub open spec fn is_move(op: BinOp) -> bool {
    op is MOV || is_extension(op)
}

/// Moves that extend a sign.
pub open spec fn is_extension(op: BinOp) -> bool {
    op is MOVSX8 || op is MOVSX16 || op is MOVSX32
}

/// The number of bits whose sign is extended.
pub open spec fn source_bits(op: BinOp) -> int {
    match op {
        BinOp::MOVSX8 => 8,
        BinOp::MOVSX16 => 16,
        _ => 32,
    }
}

fn movsx_bits(op: BinOp) -> (r: i32)
    ensures r == source_bits(op),
{
    match op {
        BinOp::MOVSX8 => 8,
        BinOp::MOVSX16 => 16,
        _ => 32,
    }
}

/// The signed value of an immediate operand at a width.
pub open spec fn immediate(v: u64, is64: bool) -> int {
    number::wrap_signed(v as int, if is64 { 64 } else { 32 })
}

/// The low half of an immediate, as a signed number.
pub open spec fn low(imm: int) -> int {
    number::wrap_signed(imm, 32)
}

// ---------------------------------------------------------------------------------------------
// Immediate operands
// ---------------------------------------------------------------------------------------------

/// What an operation with an immediate operand does.
pub open spec fn bin_imm_acts(bin: Bin, imm: int, w: Seen) -> Seq<Act> {
    let r = bin.dst;
    let width = bits_of(bin);
    let s = ebpf_arith::sv(r);
    let u = ebpf_arith::uv(r);
    match bin.op {
        BinOp::MOV => seq![
            ebpf_memory::numbers(seq![numeric_ops::set_number(s, imm), numeric_ops::set_number(u, imm), Step::WrapOne(u, width, false)]),
            ebpf_memory::gives(r, TypeEncoding::TNum),
            ebpf_memory::forgets_offsets(r),
        ],
        BinOp::ADD => if imm == 0 { seq![] } else { ebpf_arith::add_acts(r, low(imm), width, w) },
        BinOp::SUB => if imm == 0 { seq![] } else { ebpf_arith::add_acts(r, -low(imm), width, w) },
        BinOp::AND => seq![ebpf_memory::numbers(seq![Step::Mask(s, u, Number { n: imm as i128 })])] + (if low(imm) > 0 {
            seq![ebpf_memory::numbers(seq![
                numeric_ops::var_at_most(s, imm),
                numeric_ops::var_at_most(u, imm),
                numeric_ops::var_at_least(s, 0),
                numeric_ops::var_at_least(u, 0),
            ])]
        } else {
            seq![]
        }) + seq![ebpf_memory::forgets_offsets(r)],
        BinOp::LSH => ebpf_arith::shift_acts(r, Step::Shl(s, u, (low(imm) % width) as i32, width), w.first),
        BinOp::RSH => ebpf_arith::shift_acts(r, Step::Lshr(s, u, low(imm) % width, width), w.first),
        BinOp::ARSH => ebpf_arith::shift_acts(r, Step::Ashr(s, u, w.e, width), w.first),
        _ => match ebpf_arith::value_step(bin.op, r, ebpf_arith::lit(imm), ebpf_arith::lit(imm), width, 64) {
            Some(op) => ebpf_arith::value_acts(r, op),
            None => seq![],
        },
    }
}

/// The operand of a shift with a sign is the immediate.
pub open spec fn imm_seen(bin: Bin, imm: int, w: Seen) -> bool {
    bin.op is ARSH ==> finite_assume::is_constant(&w.e, low(imm))
}

/// A number shifted right by nothing.
fn seen_nothing() -> (r: Ghost<Seen>)
{
    let e = LinearExpression::from_i64(0);
    Ghost(Seen { first: false, second: false, third: false, fourth: false, offset: None, iv: Interval::all(), e })
}

fn move_imm(dom: &mut EbpfDomain, bin: &Bin, imm: i64, registry: &mut VariableRegistry, trace: &mut Trace, Ghost(w): Ghost<Seen>)
    requires old(trace).leads_to(old(dom), old(registry)@), bin.dst.ok(), bin.op is MOV,
    ensures
        final(registry)@ == old(registry)@,
        final(trace).leads_to(final(dom), final(registry)@),
        final(trace).grew(old(trace), bin_imm_acts(*bin, imm as int, w)),
{
    let ghost t0 = trace.acts@;
    let dst = reg_pack(&bin.dst, registry);
    let width: i32 = if bin.is64 { 64 } else { 32 };
    let ghost before: Place = (*dom, registry@);
    let mut log = Log::new(&dom.state.values, registry);
    numeric_ops::number(&mut dom.state.values, dst.svalue, imm, registry, &mut log);
    numeric_ops::number(&mut dom.state.values, dst.uvalue, imm, registry, &mut log);
    numeric_ops::wrap(&mut dom.state.values, dst.uvalue, width, false, registry, &mut log);
    assert(log.done@ =~= seq![
        numeric_ops::set_number(ebpf_arith::sv(bin.dst), imm as int),
        numeric_ops::set_number(ebpf_arith::uv(bin.dst), imm as int),
        Step::WrapOne(ebpf_arith::uv(bin.dst), width as int, false),
    ]);
    trace.numbers(&log, Ghost(before), dom, registry);
    acts::give_type(dom, &bin.dst, TypeEncoding::TNum, registry, trace);
    acts::forget_offsets(dom, &bin.dst, registry, trace);
    assert(trace.acts@ =~= t0 + bin_imm_acts(*bin, imm as int, w));
}

fn and_imm(dom: &mut EbpfDomain, bin: &Bin, imm: i64, registry: &VariableRegistry, trace: &mut Trace, Ghost(w): Ghost<Seen>)
    requires old(trace).leads_to(old(dom), registry@), bin.dst.ok(), bin.op is AND,
    ensures
        final(trace).leads_to(final(dom), registry@),
        final(trace).grew(old(trace), bin_imm_acts(*bin, imm as int, w)),
{
    let ghost t0 = trace.acts@;
    let ghost r = bin.dst;
    let dst = reg_pack(&bin.dst, registry);
    let ghost before: Place = (*dom, registry@);
    let mut log = Log::new(&dom.state.values, registry);
    numeric_ops::mask(&mut dom.state.values, dst.svalue, dst.uvalue, Number::of(imm as i128), registry, &mut log);
    assert(log.done@ =~= seq![Step::Mask(ebpf_arith::sv(r), ebpf_arith::uv(r), Number { n: imm as i128 })]);
    trace.numbers(&log, Ghost(before), dom, registry);
    if array_domain::narrow_to_i32(imm) > 0 {
        let ghost before2: Place = (*dom, registry@);
        let mut log2 = Log::new(&dom.state.values, registry);
        numeric_ops::say_var_at_most(&mut dom.state.values, dst.svalue, imm, registry, &mut log2);
        numeric_ops::say_var_at_most(&mut dom.state.values, dst.uvalue, imm, registry, &mut log2);
        numeric_ops::say_var_at_least(&mut dom.state.values, dst.svalue, 0, registry, &mut log2);
        numeric_ops::say_var_at_least(&mut dom.state.values, dst.uvalue, 0, registry, &mut log2);
        assert(log2.done@ =~= seq![
            numeric_ops::var_at_most(ebpf_arith::sv(r), imm as int),
            numeric_ops::var_at_most(ebpf_arith::uv(r), imm as int),
            numeric_ops::var_at_least(ebpf_arith::sv(r), 0),
            numeric_ops::var_at_least(ebpf_arith::uv(r), 0),
        ]);
        trace.numbers(&log2, Ghost(before2), dom, registry);
    }
    acts::forget_offsets(dom, &bin.dst, registry, trace);
    assert(trace.acts@ =~= t0 + bin_imm_acts(*bin, imm as int, w));
}

fn bin_imm(dom: &mut EbpfDomain, bin: &Bin, imm: i64, registry: &mut VariableRegistry, trace: &mut Trace) -> (r: Ghost<Seen>)
    requires old(trace).leads_to(old(dom), old(registry)@), bin.dst.ok(), !is_extension(bin.op),
    ensures
        final(trace).leads_to(final(dom), final(registry)@),
        final(trace).grew(old(trace), bin_imm_acts(*bin, imm as int, r@)),
        imm_seen(*bin, imm as int, r@),
{
    let ghost t0 = trace.acts@;
    let width: i32 = if bin.is64 { 64 } else { 32 };
    let nothing = seen_nothing();
    let ghost w = nothing@;
    let half: i32 = array_domain::narrow_to_i32(imm);
    match bin.op {
        BinOp::MOV => {
            move_imm(dom, bin, imm, registry, trace, Ghost(w));
            nothing
        }
        BinOp::ADD => {
            if imm == 0 {
                assert(trace.acts@ =~= t0 + bin_imm_acts(*bin, 0, w));
                return nothing;
            }
            ebpf_arith::add_to_reg(dom, &bin.dst, half as i64, width, registry, trace, Ghost(w))
        }
        BinOp::SUB => {
            if imm == 0 {
                assert(trace.acts@ =~= t0 + bin_imm_acts(*bin, 0, w));
                return nothing;
            }
            ebpf_arith::add_to_reg(dom, &bin.dst, -(half as i64), width, registry, trace, Ghost(w))
        }
        BinOp::AND => {
            and_imm(dom, bin, imm, registry, trace, Ghost(w));
            nothing
        }
        BinOp::LSH => {
            let is_num: bool = ebpf_arith::shl_to_reg(dom, &bin.dst, half, width, registry, trace);
            Ghost(Seen { first: is_num, ..w })
        }
        BinOp::RSH => {
            let is_num: bool = ebpf_arith::lshr_to_reg(dom, &bin.dst, half, width, registry, trace);
            Ghost(Seen { first: is_num, ..w })
        }
        BinOp::ARSH => {
            let e = LinearExpression::from_i64(half as i64);
            let is_num: bool = ebpf_arith::ashr_to_reg(dom, &bin.dst, &e, width, registry, trace);
            Ghost(Seen { first: is_num, e, ..w })
        }
        _ => {
            let operand = Operand::Num(Number::of(imm as i128));
            assert(operand == ebpf_arith::lit(imm as int));
            ebpf_arith::value_op(dom, bin.op, &bin.dst, operand, operand, width, 64, registry, trace);
            nothing
        }
    }
}

// ---------------------------------------------------------------------------------------------
// Register operands
// ---------------------------------------------------------------------------------------------

/// The count of a shift by a register whose value is known.
pub open spec fn known_count(iv: Interval, width: int) -> Option<int> {
    match iv.singleton_spec() {
        Some(n) => if 0 <= n@ <= u64::MAX { Some(n@ % width) } else { None },
        None => None,
    }
}

/// A shift left by a register.
pub open spec fn shl_any_step(r: Reg, src: Reg) -> Step {
    Step::Unsigned(FiniteBinOp::Bitwise(BitwiseBinOp::SHL), ebpf_arith::sv(r), ebpf_arith::uv(r), ebpf_arith::uv(r), Operand::Var(ebpf_arith::uv(src)), 64)
}

/// Before a 32-bit shift the upper half is cut.
pub open spec fn cut_acts(bin: Bin) -> Seq<Act> {
    if bin.is64 { seq![] } else { seq![ebpf_memory::numbers(ebpf_arith::low_half(bin.dst))] }
}

/// What a shift by a register does.
pub open spec fn shift_reg_acts(bin: Bin, src: Reg, w: Seen) -> Seq<Act> {
    let r = bin.dst;
    let width = bits_of(bin);
    let s = ebpf_arith::sv(r);
    let u = ebpf_arith::uv(r);
    seq![Act::InGroup(src, ebpf_arith::nums(), w.first)] + (if !w.first {
        if bin.op is LSH { ebpf_arith::value_acts(r, shl_any_step(r, src)) } else { seq![ebpf_memory::forgets_values(r)] }
    } else if bin.op is ARSH {
        ebpf_arith::shift_acts(r, Step::Ashr(s, u, w.e, width), w.second)
    } else {
        seq![Act::ValueOf(ebpf_arith::uv(src), w.iv)] + (match known_count(w.iv, width) {
            Some(c) => cut_acts(bin) + ebpf_arith::shift_acts(r, if bin.op is LSH { Step::Shl(s, u, c as i32, width) } else { Step::Lshr(s, u, c, width) }, w.second),
            None => if bin.op is LSH { ebpf_arith::value_acts(r, shl_any_step(r, src)) } else { seq![ebpf_memory::forgets_values(r)] },
        })
    })
}

/// Whether an extension of a register to itself changes nothing.
pub open spec fn extension_is_idle(bin: Bin, src: Reg, w: Seen) -> bool {
    is_extension(bin.op) && bin.dst == src && w.iv.included_spec(Interval::signed_int_spec(source_bits(bin.op)))
}

/// What a move of a register does.
pub open spec fn move_reg_acts(bin: Bin, src: Reg, w: Seen) -> Seq<Act> {
    let r = bin.dst;
    if bin.op is MOV {
        (if bin.is64 { seq![] } else { seq![Act::InGroup(src, ebpf_arith::nums(), w.first)] }) + (if !bin.is64 && !w.first {
            seq![ebpf_memory::forgets(r)]
        } else if r == src {
            seq![]
        } else {
            seq![Act::CopyReg(r, src)]
        })
    } else {
        (if r == src { seq![Act::ValueOf(ebpf_arith::sv(r), w.iv)] } else { seq![] }) + (if extension_is_idle(bin, src, w) { seq![] } else {
            seq![Act::InGroup(src, ebpf_arith::nums(), w.first)] + (if w.first {
                seq![
                    ebpf_memory::forgets_offsets(r),
                    ebpf_memory::gives(r, TypeEncoding::TNum),
                    ebpf_memory::numbers(seq![Step::Extend(ebpf_arith::sv(r), ebpf_arith::uv(r), w.e, bits_of(bin), source_bits(bin.op))]),
                ]
            } else {
                seq![ebpf_memory::forgets(r)]
            })
        })
    }
}

/// What an operation with a register operand does, where the types of the two do not have to be
/// gone through.
pub open spec fn bin_reg_acts(bin: Bin, src: Reg, w: Seen) -> Seq<Act> {
    if bin.op is LSH || bin.op is RSH || bin.op is ARSH {
        shift_reg_acts(bin, src, w)
    } else if is_move(bin.op) {
        move_reg_acts(bin, src, w)
    } else {
        match ebpf_arith::value_step(bin.op, bin.dst, Operand::Var(ebpf_arith::sv(src)), Operand::Var(ebpf_arith::uv(src)), bits_of(bin), bits_of(bin)) {
            Some(op) => ebpf_arith::value_acts(bin.dst, op),
            None => seq![],
        }
    }
}

/// The operand of a shift or an extension with a sign is the register's value.
pub open spec fn reg_seen(bin: Bin, src: Reg, w: Seen) -> bool {
    bin.op is ARSH || is_extension(bin.op) ==> zone_domain::is_variable(&w.e, ebpf_arith::sv(src))
}

fn shl_any(dom: &mut EbpfDomain, dst: &Reg, src: &Reg, registry: &VariableRegistry, trace: &mut Trace)
    requires old(trace).leads_to(old(dom), registry@), dst.ok(), src.ok(),
    ensures
        final(trace).leads_to(final(dom), registry@),
        final(trace).grew(old(trace), ebpf_arith::value_acts(*dst, shl_any_step(*dst, *src))),
{
    let ghost t0 = trace.acts@;
    let p = reg_pack(dst, registry);
    let q = reg_pack(src, registry);
    ebpf_arith::unsigned_on(dom, FiniteBinOp::Bitwise(BitwiseBinOp::SHL), &p, Operand::Var(q.uvalue.id), 64, registry, trace);
    acts::forget_offsets(dom, dst, registry, trace);
    assert(trace.acts@ =~= t0 + ebpf_arith::value_acts(*dst, shl_any_step(*dst, *src)));
}

fn count_of(iv: &Interval, width: i32) -> (r: Option<i32>)
    requires width == 32 || width == 64,
    ensures
        r is Some <==> known_count(*iv, width as int) is Some,
        r matches Some(c) ==> known_count(*iv, width as int) == Some(c as int) && 0 <= c < width,
{
    match iv.singleton() {
        Some(n) => match n.to_u64() {
            Some(k) => Some((k % (width as u64)) as i32),
            None => None,
        },
        None => None,
    }
}

fn shift_reg(dom: &mut EbpfDomain, bin: &Bin, src: &Reg, registry: &mut VariableRegistry, trace: &mut Trace) -> (r: Ghost<Seen>)
    requires old(trace).leads_to(old(dom), old(registry)@), bin.dst.ok(), src.ok(), bin.op is LSH || bin.op is RSH || bin.op is ARSH,
    ensures
        final(registry)@ == old(registry)@,
        final(trace).leads_to(final(dom), final(registry)@),
        final(trace).grew(old(trace), shift_reg_acts(*bin, *src, r@)),
        reg_seen(*bin, *src, r@),
{
    let ghost t0 = trace.acts@;
    let width: i32 = if bin.is64 { 64 } else { 32 };
    let q = reg_pack(src, registry);
    let e = LinearExpression::from_variable(q.svalue);
    let ghost w = Seen { first: false, second: false, third: false, fourth: false, offset: None, iv: Interval::all(), e };
    assert(zone_domain::is_variable(&e, ebpf_arith::sv(*src)));
    if !acts::test_in_group(dom, src, TypeSet::singleton(TypeEncoding::TNum), registry, trace) {
        if matches!(bin.op, BinOp::LSH) {
            shl_any(dom, &bin.dst, src, registry, trace);
        } else {
            acts::forget_values(dom, &bin.dst, registry, trace);
        }
        assert(trace.acts@ =~= t0 + shift_reg_acts(*bin, *src, w));
        return Ghost(w);
    }
    if matches!(bin.op, BinOp::ARSH) {
        let is_num: bool = ebpf_arith::ashr_to_reg(dom, &bin.dst, &e, width, registry, trace);
        let ghost w2 = Seen { first: true, second: is_num, ..w };
        assert(trace.acts@ =~= t0 + shift_reg_acts(*bin, *src, w2));
        return Ghost(w2);
    }
    let iv = acts::evaluate_var(dom, q.uvalue, registry, trace);
    let ghost t1 = trace.acts@;
    match count_of(&iv, width) {
        Some(c) => {
            if !bin.is64 {
                let p = reg_pack(&bin.dst, registry);
                let ghost before: Place = (*dom, registry@);
                let mut log = Log::new(&dom.state.values, registry);
                numeric_ops::mask(&mut dom.state.values, p.svalue, p.uvalue, Number::of(0xffff_ffff), registry, &mut log);
                assert(log.done@ =~= ebpf_arith::low_half(bin.dst));
                trace.numbers(&log, Ghost(before), dom, registry);
            }
            let ghost t2 = trace.acts@;
            assert(t2 =~= t1 + cut_acts(*bin));
            assert((c as int) % (width as int) == c) by { vstd::arithmetic::div_mod::lemma_small_mod(c as nat, width as nat); }
            let is_num: bool = if matches!(bin.op, BinOp::LSH) {
                ebpf_arith::shl_to_reg(dom, &bin.dst, c, width, registry, trace)
            } else {
                ebpf_arith::lshr_to_reg(dom, &bin.dst, c, width, registry, trace)
            };
            let ghost w2 = Seen { first: true, second: is_num, iv, ..w };
            assert(trace.acts@ =~= t0 + shift_reg_acts(*bin, *src, w2));
            Ghost(w2)
        }
        None => {
            if matches!(bin.op, BinOp::LSH) {
                shl_any(dom, &bin.dst, src, registry, trace);
            } else {
                acts::forget_values(dom, &bin.dst, registry, trace);
            }
            let ghost w2 = Seen { first: true, iv, ..w };
            assert(trace.acts@ =~= t0 + shift_reg_acts(*bin, *src, w2));
            Ghost(w2)
        }
    }
}

fn extend_reg(dom: &mut EbpfDomain, bin: &Bin, src: &Reg, registry: &mut VariableRegistry, trace: &mut Trace) -> (r: (bool, Ghost<Seen>))
    requires old(trace).leads_to(old(dom), old(registry)@), bin.dst.ok(), src.ok(), is_extension(bin.op),
    ensures
        final(registry)@ == old(registry)@,
        final(trace).leads_to(final(dom), final(registry)@),
        final(trace).grew(old(trace), move_reg_acts(*bin, *src, r.1@)),
        r.0 == extension_is_idle(*bin, *src, r.1@),
        reg_seen(*bin, *src, r.1@),
{
    let ghost t0 = trace.acts@;
    let width: i32 = if bin.is64 { 64 } else { 32 };
    let bits: i32 = movsx_bits(bin.op);
    let p = reg_pack(&bin.dst, registry);
    let q = reg_pack(src, registry);
    let e = LinearExpression::from_variable(q.svalue);
    assert(zone_domain::is_variable(&e, ebpf_arith::sv(*src)));
    let mut iv: Interval = Interval::top();
    if bin.dst == *src {
        iv = acts::evaluate_var(dom, p.svalue, registry, trace);
        if iv.is_included_in(&Interval::signed_int(bits)) {
            let ghost w = Seen { first: false, second: false, third: false, fourth: false, offset: None, iv, e };
            assert(trace.acts@ =~= t0 + move_reg_acts(*bin, *src, w));
            return (true, Ghost(w));
        }
    }
    let is_num: bool = acts::test_in_group(dom, src, TypeSet::singleton(TypeEncoding::TNum), registry, trace);
    if is_num {
        acts::forget_offsets(dom, &bin.dst, registry, trace);
        acts::give_type(dom, &bin.dst, TypeEncoding::TNum, registry, trace);
        let ghost before: Place = (*dom, registry@);
        let mut log = Log::new(&dom.state.values, registry);
        numeric_ops::extend(&mut dom.state.values, p.svalue, p.uvalue, &e, width, bits, registry, &mut log);
        assert(log.done@ =~= seq![Step::Extend(ebpf_arith::sv(bin.dst), ebpf_arith::uv(bin.dst), e, bits_of(*bin), source_bits(bin.op))]);
        trace.numbers(&log, Ghost(before), dom, registry);
    } else {
        acts::forget_register(dom, &bin.dst, registry, trace);
    }
    let ghost w = Seen { first: is_num, second: false, third: false, fourth: false, offset: None, iv, e };
    assert(trace.acts@ =~= t0 + move_reg_acts(*bin, *src, w));
    (false, Ghost(w))
}

/// Performs an operation with a register operand; whether it was found to change nothing.
fn bin_reg(dom: &mut EbpfDomain, bin: &Bin, src: &Reg, registry: &mut VariableRegistry, trace: &mut Trace) -> (r: (bool, Ghost<Seen>))
    requires old(trace).leads_to(old(dom), old(registry)@), bin.dst.ok(), src.ok(), !(bin.op is ADD), !(bin.op is SUB),
    ensures
        final(registry)@ == old(registry)@,
        final(trace).leads_to(final(dom), final(registry)@),
        final(trace).grew(old(trace), bin_reg_acts(*bin, *src, r.1@)),
        r.0 == extension_is_idle(*bin, *src, r.1@),
        reg_seen(*bin, *src, r.1@),
{
    let ghost t0 = trace.acts@;
    match bin.op {
        BinOp::LSH | BinOp::RSH | BinOp::ARSH => {
            let w = shift_reg(dom, bin, src, registry, trace);
            (false, w)
        }
        BinOp::MOVSX8 | BinOp::MOVSX16 | BinOp::MOVSX32 => extend_reg(dom, bin, src, registry, trace),
        BinOp::MOV => {
            let mut is_num: bool = true;
            if !bin.is64 {
                is_num = acts::test_in_group(dom, src, TypeSet::singleton(TypeEncoding::TNum), registry, trace);
            }
            if !is_num {
                acts::forget_register(dom, &bin.dst, registry, trace);
            } else if bin.dst != *src {
                acts::copy_register(dom, &bin.dst, src, registry, trace);
            }
            let nothing = seen_nothing();
            let ghost w = Seen { first: is_num, ..nothing@ };
            assert(trace.acts@ =~= t0 + bin_reg_acts(*bin, *src, w));
            (false, Ghost(w))
        }
        _ => {
            let width: i32 = if bin.is64 { 64 } else { 32 };
            let q = reg_pack(src, registry);
            ebpf_arith::value_op(dom, bin.op, &bin.dst, Operand::Var(q.svalue.id), Operand::Var(q.uvalue.id), width, width, registry, trace);
            let nothing = seen_nothing();
            (false, nothing)
        }
    }
}

// ---------------------------------------------------------------------------------------------
// The whole operation
// ---------------------------------------------------------------------------------------------

/// What the tests of a binary operation gave.
pub struct BinSeen {
    /// Whether the registers are initialized.
    pub dst_init: bool,
    pub src_init: bool,
    /// Whether the register is a number before and after a 32-bit operation.
    pub before: bool,
    pub after: bool,
    /// Whether the registers have the same type, and whether the first may point to the stack.
    pub same: bool,
    pub may_point: bool,
    pub w: Seen,
}

/// A 32-bit operation reads the low half of its register.
pub open spec fn head_acts(bin: Bin, is_num: bool) -> Seq<Act> {
    if bin.is64 { seq![] } else { ebpf_arith::narrow_acts(bin.dst, is_num) }
}

/// A 32-bit operation leaves the low half of a number, and of a pointer nothing.
pub open spec fn tail_acts(bin: Bin, is_num: bool) -> Seq<Act> {
    if bin.is64 { seq![] } else { ebpf_arith::narrow_acts(bin.dst, is_num) }
}

/// The test of the register that is changed.
pub open spec fn first_test(bin: Bin, k: BinSeen) -> Seq<Act> {
    seq![Act::Initialized(bin.dst, k.dst_init)]
}

/// The tests of both registers.
pub open spec fn both_tests(bin: Bin, src: Reg, k: BinSeen) -> Seq<Act> {
    seq![Act::Initialized(bin.dst, k.dst_init), Act::Initialized(src, k.src_init)]
}

/// Whether nothing is added or taken away.
pub open spec fn is_idle_sum(bin: Bin, imm: int) -> bool {
    (bin.op is ADD || bin.op is SUB) && imm == 0
}

/// What an operation with an immediate operand does.
pub open spec fn imm_runs(be: bool, bin: Bin, imm: int, k: BinSeen, a: Place, b: Place) -> bool {
    &&& !is_extension(bin.op)
    &&& imm_seen(bin, imm, k.w)
    &&& acts::follows(be, a, first_test(bin, k) + head_acts(bin, k.before) + bin_imm_acts(bin, imm, k.w)
            + (if is_idle_sum(bin, imm) { seq![] } else { tail_acts(bin, k.after) }), b)
}

/// Some acts, a transition for each type that a register may have, and some acts.
pub open spec fn runs_over_types(be: bool, first: Seq<Act>, reg: Reg, rel: Transition, last: Seq<Act>, a: Place, b: Place) -> bool {
    exists|m: Place, n: Place| #[trigger] acts::follows(be, a, first, m) && branching::over_types(m, reg, rel, n) && #[trigger] acts::follows(be, n, last, b)
}

/// What an operation with an initialized register operand does.
pub open spec fn reg_runs(be: bool, bin: Bin, src: Reg, k: BinSeen, a: Place, b: Place) -> bool {
    let tests = both_tests(bin, src, k);
    let typed = tests.push(Act::SameType(bin.dst, src, k.same));
    let tail = tail_acts(bin, k.after);
    let width = bits_of(bin);
    if bin.op is ADD {
        if k.same {
            acts::follows(be, a, typed + seq![ebpf_memory::numbers(seq![Step::Overflow(ebpf_arith::add_op(), ebpf_arith::sv(bin.dst), ebpf_arith::uv(bin.dst), ebpf_addsub::by_value(src), width)])] + tail, b)
        } else {
            runs_over_types(be, typed, bin.dst, ebpf_addsub::sum_split(be, bin.dst, src, width), tail, a, b)
        }
    } else if bin.op is SUB {
        if k.same {
            runs_over_types(be, typed, bin.dst, ebpf_addsub::difference_branch(be, bin.dst, src, width), tail, a, b)
        } else {
            acts::follows(be, a, typed + ebpf_addsub::minus_acts(bin.dst, src, width, k.w, k.may_point) + tail, b)
        }
    } else {
        reg_seen(bin, src, k.w)
            && acts::follows(be, a, tests + bin_reg_acts(bin, src, k.w) + (if extension_is_idle(bin, src, k.w) { seq![] } else { tail }), b)
    }
}

/// What a binary operation does. A register that is not initialized gives nothing to compute with.
pub open spec fn bin_runs(be: bool, bin: Bin, k: BinSeen, a: Place, b: Place) -> bool {
    if !k.dst_init && !is_move(bin.op) {
        acts::follows(be, a, first_test(bin, k) + seq![ebpf_memory::forgets(bin.dst)], b)
    } else {
        match bin.v {
            Value::Imm(i) => imm_runs(be, bin, immediate(i.v, bin.is64), k, a, b),
            Value::Reg(src) => if !k.src_init {
                acts::follows(be, a, both_tests(bin, src, k) + seq![ebpf_memory::forgets(bin.dst)], b)
            } else {
                reg_runs(be, bin, src, k, a, b)
            },
        }
    }
}

/// What a binary operation does; nothing to a state that is not possible.
pub open spec fn bin_effect(be: bool, bin: Bin, a: Place, b: Place) -> bool {
    if a.0.num() is None { a == b } else { exists|k: BinSeen| #[trigger] bin_runs(be, bin, k, a, b) }
}

fn no_answers() -> (r: Ghost<BinSeen>)
{
    let nothing = seen_nothing();
    Ghost(BinSeen { dst_init: false, src_init: false, before: false, after: false, same: false, may_point: false, w: nothing@ })
}

fn bin_tail(dom: &mut EbpfDomain, bin: &Bin, registry: &mut VariableRegistry, trace: &mut Trace) -> (is_num: bool)
    requires old(trace).leads_to(old(dom), old(registry)@), bin.dst.ok(),
    ensures
        final(registry)@ == old(registry)@,
        final(trace).leads_to(final(dom), final(registry)@),
        final(trace).grew(old(trace), tail_acts(*bin, is_num)),
{
    let ghost t0 = trace.acts@;
    if bin.is64 {
        assert(trace.acts@ =~= t0 + tail_acts(*bin, false));
        false
    } else {
        ebpf_arith::narrow_register(dom, &bin.dst, registry, trace)
    }
}

pub(crate) fn immediate_of(v: u64, is64: bool) -> (r: i64)
    ensures r == immediate(v, is64),
{
    proof {
        vstd::arithmetic::power2::lemma2_to64();
        vstd::arithmetic::power2::lemma2_to64_rest();
        vstd::arithmetic::div_mod::lemma_mod_bound(v as int, vstd::arithmetic::power2::pow2(if is64 { 64 } else { 32 }) as int);
    }
    Number::of(v as i128).cast_to_signed_width(if is64 { 64 } else { 32 }).narrow_to_i64()
}

fn transform_bin_imm(dom: &mut EbpfDomain, bin: &Bin, imm: i64, registry: &mut VariableRegistry, trace: &mut Trace, Ghost(k): Ghost<BinSeen>)
    requires
        old(trace).leads_to(old(dom), old(registry)@),
        old(trace).acts@ == first_test(*bin, k),
        bin.dst.ok(),
        !is_extension(bin.op),
        k.dst_init || is_move(bin.op),
    ensures
        final(dom).wf(),
        final(registry)@.ready(),
        exists|k2: BinSeen| k2.dst_init == k.dst_init && #[trigger] imm_runs(old(trace).be@, *bin, imm as int, k2, old(trace).start@, (*final(dom), final(registry)@)),
{
    let ghost be = trace.be@;
    let ghost start = trace.start@;
    let mut before: bool = false;
    if !bin.is64 {
        before = ebpf_arith::narrow_register(dom, &bin.dst, registry, trace);
    }
    let ghost t1 = trace.acts@;
    assert(t1 =~= first_test(*bin, k) + head_acts(*bin, before));
    let w = bin_imm(dom, bin, imm, registry, trace);
    let ghost t2 = trace.acts@;
    if imm == 0 && matches!(bin.op, BinOp::ADD | BinOp::SUB) {
        proof {
            let k2 = BinSeen { before, w: w@, ..k };
            assert(trace.acts@ =~= first_test(*bin, k2) + head_acts(*bin, before) + bin_imm_acts(*bin, imm as int, w@) + Seq::<Act>::empty());
            assert(imm_runs(be, *bin, imm as int, k2, start, (*dom, registry@)));
        }
        return;
    }
    let after: bool = bin_tail(dom, bin, registry, trace);
    proof {
        let k2 = BinSeen { before, after, w: w@, ..k };
        assert(trace.acts@ =~= first_test(*bin, k2) + head_acts(*bin, before) + bin_imm_acts(*bin, imm as int, w@) + tail_acts(*bin, after));
        assert(imm_runs(be, *bin, imm as int, k2, start, (*dom, registry@)));
    }
}

/// The last part of an operation that went through types: its record starts anew.
fn finish_over_types(dom: &mut EbpfDomain, bin: &Bin, registry: &mut VariableRegistry, Ghost(be): Ghost<bool>) -> (after: bool)
    requires old(dom).wf(), old(registry)@.ready(), bin.dst.ok(),
    ensures
        final(dom).wf(),
        final(registry)@ == old(registry)@,
        acts::follows(be, (*old(dom), old(registry)@), tail_acts(*bin, after), (*final(dom), final(registry)@)),
{
    let mut trace = Trace::new(Ghost(be), dom, registry);
    let after: bool = bin_tail(dom, bin, registry, &mut trace);
    assert(trace.acts@ =~= tail_acts(*bin, after));
    after
}

fn transform_bin_reg(dom: &mut EbpfDomain, bin: &Bin, src: &Reg, registry: &mut VariableRegistry, trace: &mut Trace, Ghost(k): Ghost<BinSeen>)
    requires
        old(trace).leads_to(old(dom), old(registry)@),
        old(trace).acts@ == both_tests(*bin, *src, k),
        bin.dst.ok(),
        src.ok(),
        k.src_init,
    ensures
        final(dom).wf(),
        final(registry)@.ready(),
        exists|k2: BinSeen| k2.dst_init == k.dst_init && k2.src_init && #[trigger] reg_runs(old(trace).be@, *bin, *src, k2, old(trace).start@, (*final(dom), final(registry)@)),
{
    let ghost be = trace.be@;
    let ghost start = trace.start@;
    let ghost tests = trace.acts@;
    let width: i32 = if bin.is64 { 64 } else { 32 };
    match bin.op {
        BinOp::ADD => {
            let same: bool = acts::test_same_type(dom, &bin.dst, src, registry, trace);
            let ghost typed = trace.acts@;
            if same {
                let p = reg_pack(&bin.dst, registry);
                let q = reg_pack(src, registry);
                let ghost before: Place = (*dom, registry@);
                let mut log = Log::new(&dom.state.values, registry);
                numeric_ops::add_overflow(&mut dom.state.values, p.svalue, p.uvalue, Operand::Var(q.svalue.id), width, registry, &mut log);
                assert(log.done@ =~= seq![Step::Overflow(ebpf_arith::add_op(), ebpf_arith::sv(bin.dst), ebpf_arith::uv(bin.dst), ebpf_addsub::by_value(*src), width as int)]);
                trace.numbers(&log, Ghost(before), dom, registry);
                let after: bool = bin_tail(dom, bin, registry, trace);
                proof {
                    let k2 = BinSeen { same, after, ..k };
                    assert(trace.acts@ =~= typed + seq![ebpf_memory::numbers(seq![Step::Overflow(ebpf_arith::add_op(), ebpf_arith::sv(bin.dst), ebpf_arith::uv(bin.dst), ebpf_addsub::by_value(*src), width as int)])] + tail_acts(*bin, after));
                    assert(reg_runs(be, *bin, *src, k2, start, (*dom, registry@)));
                }
            } else {
                let ghost m: Place = (*dom, registry@);
                ebpf_addsub::sum_over_types(dom, &bin.dst, src, width, registry, Ghost(be));
                let ghost n: Place = (*dom, registry@);
                let after: bool = finish_over_types(dom, bin, registry, Ghost(be));
                proof {
                    let k2 = BinSeen { same, after, ..k };
                    assert(acts::follows(be, start, typed, m));
                    assert(acts::follows(be, n, tail_acts(*bin, after), (*dom, registry@)));
                    assert(reg_runs(be, *bin, *src, k2, start, (*dom, registry@)));
                }
            }
        }
        BinOp::SUB => {
            let same: bool = acts::test_same_type(dom, &bin.dst, src, registry, trace);
            let ghost typed = trace.acts@;
            if same {
                let ghost m: Place = (*dom, registry@);
                ebpf_addsub::difference_over_types(dom, &bin.dst, src, width, registry, Ghost(be));
                let ghost n: Place = (*dom, registry@);
                let after: bool = finish_over_types(dom, bin, registry, Ghost(be));
                proof {
                    let k2 = BinSeen { same, after, ..k };
                    assert(acts::follows(be, start, typed, m));
                    assert(acts::follows(be, n, tail_acts(*bin, after), (*dom, registry@)));
                    assert(reg_runs(be, *bin, *src, k2, start, (*dom, registry@)));
                }
            } else {
                let (w, may_point) = ebpf_addsub::minus_register(dom, &bin.dst, src, width, registry, trace);
                let after: bool = bin_tail(dom, bin, registry, trace);
                proof {
                    let k2 = BinSeen { same, after, may_point, w: w@, ..k };
                    assert(trace.acts@ =~= typed + ebpf_addsub::minus_acts(bin.dst, *src, width as int, w@, may_point) + tail_acts(*bin, after));
                    assert(reg_runs(be, *bin, *src, k2, start, (*dom, registry@)));
                }
            }
        }
        _ => {
            let (idle, w) = bin_reg(dom, bin, src, registry, trace);
            let mut after: bool = false;
            if !idle {
                after = bin_tail(dom, bin, registry, trace);
            }
            proof {
                let k2 = BinSeen { after, w: w@, ..k };
                assert(trace.acts@ =~= tests + bin_reg_acts(*bin, *src, w@) + (if idle { seq![] } else { tail_acts(*bin, after) }));
                assert(reg_runs(be, *bin, *src, k2, start, (*dom, registry@)));
            }
        }
    }
}

/// Performs a binary operation. Only an extension of an immediate is refused.
pub(crate) fn transform_bin(dom: &mut EbpfDomain, bin: &Bin, registry: &mut VariableRegistry, Ghost(be): Ghost<bool>) -> (r: Result<(), VerificationError>)
    requires old(dom).wf(), old(registry)@.ready(), bin.ok(),
    ensures
        final(dom).wf(),
        final(registry)@.ready(),
        r is Err <==> old(dom).num() is Some && is_extension(bin.op) && bin.v is Imm,
        r is Ok ==> bin_effect(be, *bin, (*old(dom), old(registry)@), (*final(dom), final(registry)@)),
        r matches Err(e) ==> e.message@ == "Unsupported operation: MOVSX with immediate"@ && e.label is None && *final(dom) == *old(dom) && final(registry)@ == old(registry)@,
{
    let ghost start: Place = (*dom, registry@);
    if dom.is_bottom() {
        return Ok(());
    }
    if matches!(bin.op, BinOp::MOVSX8 | BinOp::MOVSX16 | BinOp::MOVSX32) && matches!(bin.v, Value::Imm(_)) {
        return Err(VerificationError::new(String::from_str("Unsupported operation: MOVSX with immediate")));
    }
    let mut trace = Trace::new(Ghost(be), dom, registry);
    let dst_init: bool = acts::test_initialized(dom, &bin.dst, registry, &mut trace);
    let answers = no_answers();
    let ghost k = BinSeen { dst_init, ..answers@ };
    assert(trace.acts@ =~= first_test(*bin, k));
    if !dst_init && !matches!(bin.op, BinOp::MOV | BinOp::MOVSX8 | BinOp::MOVSX16 | BinOp::MOVSX32) {
        acts::forget_register(dom, &bin.dst, registry, &mut trace);
        proof {
            assert(trace.acts@ =~= first_test(*bin, k) + seq![ebpf_memory::forgets(bin.dst)]);
            assert(bin_runs(be, *bin, k, start, (*dom, registry@)));
        }
        return Ok(());
    }
    match bin.v {
        Value::Imm(i) => {
            let imm: i64 = immediate_of(i.v, bin.is64);
            transform_bin_imm(dom, bin, imm, registry, &mut trace, Ghost(k));
            proof {
                let k2 = choose|k2: BinSeen| k2.dst_init == k.dst_init && #[trigger] imm_runs(be, *bin, imm as int, k2, start, (*dom, registry@));
                assert(bin_runs(be, *bin, k2, start, (*dom, registry@)));
            }
        }
        Value::Reg(src) => {
            let src_init: bool = acts::test_initialized(dom, &src, registry, &mut trace);
            let ghost k1 = BinSeen { src_init, ..k };
            assert(trace.acts@ =~= both_tests(*bin, src, k1));
            if !src_init {
                acts::forget_register(dom, &bin.dst, registry, &mut trace);
                proof {
                    assert(trace.acts@ =~= both_tests(*bin, src, k1) + seq![ebpf_memory::forgets(bin.dst)]);
                    assert(bin_runs(be, *bin, k1, start, (*dom, registry@)));
                }
                return Ok(());
            }
            transform_bin_reg(dom, bin, &src, registry, &mut trace, Ghost(k1));
            proof {
                let k2 = choose|k2: BinSeen| k2.dst_init == k1.dst_init && k2.src_init && #[trigger] reg_runs(be, *bin, src, k2, start, (*dom, registry@));
                assert(bin_runs(be, *bin, k2, start, (*dom, registry@)));
            }
        }
    }
    Ok(())
}

}
