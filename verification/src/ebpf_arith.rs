//! Arithmetic on registers.
use vstd::prelude::*;
use crate::acts;
use crate::acts::{Act, Place, Trace};
use crate::arith::linear_expression::LinearExpression;
use crate::arith::number::Number;
use crate::arith::variable::Variable;
use crate::ebpf_domain::EbpfDomain;
use crate::ebpf_memory;
use crate::finite_domain::{BitwiseBinOp, FiniteBinOp, Operand, SignedArithBinOp};
use crate::interval::Interval;
use crate::numeric_ops;
use crate::numeric_ops::Log;
use crate::numeric_steps;
use crate::numeric_steps::Step;
use crate::rcp;
use crate::rcp::{reg_pack, RegPack};
use crate::syntax::{BinOp, Reg};
use crate::type_encoding::{DataKind, TypeEncoding, TypeSet};
use crate::var_registry;
use crate::var_registry::VariableRegistry;
use crate::zone_domain::ArithBinOp;

verus! {

/// What tests of a register gave, in the order in which they are made.
pub struct Seen {
    pub first: bool,
    pub second: bool,
    pub third: bool,
    pub fourth: bool,
    pub offset: Option<Variable>,
    pub iv: Interval,
    pub e: LinearExpression,
}

pub open spec fn sv(r: Reg) -> u64 {
    rcp::id_of(DataKind::Svalues, r)
}

pub open spec fn uv(r: Reg) -> u64 {
    rcp::id_of(DataKind::Uvalues, r)
}

pub open spec fn size_id(r: Reg) -> u64 {
    rcp::id_of(DataKind::StackNumericSizes, r)
}

pub open spec fn add_op() -> FiniteBinOp {
    FiniteBinOp::Arith(ArithBinOp::ADD)
}

pub open spec fn sub_op() -> FiniteBinOp {
    FiniteBinOp::Arith(ArithBinOp::SUB)
}

/// A number as an operand.
pub open spec fn lit(n: int) -> Operand {
    Operand::Num(Number { n: n as i128 })
}

/// The set of numbers.
pub open spec fn nums() -> TypeSet {
    TypeSet::just(TypeEncoding::TNum)
}

/// Keeping the low 32 bits of a register.
pub open spec fn low_half(r: Reg) -> Seq<Step> {
    seq![Step::Mask(sv(r), uv(r), Number { n: 0xffff_ffff })]
}

/// A register keeps its low 32 bits where it is a number, and is forgotten where it is not.
pub open spec fn narrow_acts(r: Reg, is_num: bool) -> Seq<Act> {
    seq![Act::InGroup(r, nums(), is_num), if is_num { ebpf_memory::numbers(low_half(r)) } else { ebpf_memory::forgets(r) }]
}

/// Cuts a register to 32 bits.
pub(crate) fn narrow_register(dom: &mut EbpfDomain, reg: &Reg, registry: &mut VariableRegistry, trace: &mut Trace) -> (is_num: bool)
    requires old(trace).leads_to(old(dom), old(registry)@), reg.ok(),
    ensures
        final(registry)@ == old(registry)@,
        final(trace).leads_to(final(dom), final(registry)@),
        final(trace).grew(old(trace), narrow_acts(*reg, is_num)),
{
    let ghost t0 = trace.acts@;
    let is_num: bool = acts::test_in_group(dom, reg, TypeSet::singleton(TypeEncoding::TNum), registry, trace);
    if is_num {
        let pack = reg_pack(reg, registry);
        let ghost before: Place = (*dom, registry@);
        let mut log = Log::new(&dom.state.values, registry);
        numeric_ops::mask(&mut dom.state.values, pack.svalue, pack.uvalue, Number::of(0xffff_ffff), registry, &mut log);
        assert(log.done@ =~= low_half(*reg));
        trace.numbers(&log, Ghost(before), dom, registry);
    } else {
        acts::forget_register(dom, reg, registry, trace);
    }
    assert(trace.acts@ =~= t0 + narrow_acts(*reg, is_num));
    is_num
}

// ---------------------------------------------------------------------------------------------
// Adding a number
// ---------------------------------------------------------------------------------------------

/// Adding a number to the value or the offset of a register: to the value where it may be a number,
/// to the offset where it is a pointer of one type. Offsets that cannot be kept are forgotten.
pub open spec fn add_value_acts(r: Reg, n: int, width: int, w: Seen) -> Seq<Act> {
    seq![Act::MayHave(r, TypeEncoding::TNum, w.first)] + (if w.first {
        seq![ebpf_memory::numbers(seq![Step::Overflow(add_op(), sv(r), uv(r), lit(n), width)]), Act::InGroup(r, nums(), w.second)]
            + (if w.second { seq![] } else { seq![ebpf_memory::forgets_offsets(r)] })
    } else {
        seq![
            Act::OffsetOf(r, w.offset),
            match w.offset {
                Some(v) => ebpf_memory::numbers(seq![Step::Signed(add_op(), v.id, v.id, v.id, lit(n), 0)]),
                None => ebpf_memory::forgets_offsets(r),
            },
            ebpf_memory::numbers(seq![Step::Unsigned(add_op(), sv(r), uv(r), uv(r), lit(n), width)]),
        ]
    })
}

/// Bringing the number of numeric bytes up to date when a number is added to a stack pointer.
pub open spec fn add_size_acts(r: Reg, n: int, may_point: bool) -> Seq<Act> {
    seq![Act::MayHave(r, TypeEncoding::TStack, may_point)] + (if !may_point { seq![] } else {
        (if n > 0 {
            seq![ebpf_memory::numbers(seq![Step::Signed(sub_op(), size_id(r), size_id(r), size_id(r), lit(n), 0)])]
        } else if n < 0 {
            seq![ebpf_memory::numbers(seq![Step::Forget(size_id(r))])]
        } else {
            seq![]
        }) + seq![Act::NumericSize(var_registry::reg_var(DataKind::Types, r.v as int))]
    })
}

/// Adding a number to a register.
pub open spec fn add_acts(r: Reg, n: int, width: int, w: Seen) -> Seq<Act> {
    add_value_acts(r, n, width, w) + add_size_acts(r, n, w.third)
}

/// Finds the number of numeric bytes behind a register again.
pub(crate) fn recompute_register(dom: &mut EbpfDomain, reg: &Reg, registry: &mut VariableRegistry, trace: &mut Trace)
    requires old(trace).leads_to(old(dom), old(registry)@), reg.ok(),
    ensures
        final(trace).leads_to(final(dom), final(registry)@),
        final(trace).with(Act::NumericSize(var_registry::reg_var(DataKind::Types, reg.v as int)), old(trace)),
        final(registry)@.extends(old(registry)@),
{
    proof {
        registry@.register_variable(DataKind::Types, reg.v as int);
        registry@.register_is_there(DataKind::Types, reg.v as int, var_registry::kind_meta(DataKind::Types, false));
    }
    let v = registry.type_reg(reg.v as i32);
    acts::recompute_numeric_size(dom, v, registry, trace);
}

/// A signed operation on one variable.
pub(crate) fn signed_on(dom: &mut EbpfDomain, op: FiniteBinOp, v: Variable, o: Operand, registry: &VariableRegistry, trace: &mut Trace)
    requires old(trace).leads_to(old(dom), registry@), registry@.knows(v), numeric_ops::knows_operand(registry@, o),
    ensures
        final(trace).leads_to(final(dom), registry@),
        final(trace).with(ebpf_memory::numbers(seq![Step::Signed(op, v.id, v.id, v.id, o, 0)]), old(trace)),
{
    let ghost before: Place = (*dom, registry@);
    let mut log = Log::new(&dom.state.values, registry);
    numeric_ops::signed(&mut dom.state.values, op, v, v, v, o, 0, registry, &mut log);
    assert(log.done@ =~= seq![Step::Signed(op, v.id, v.id, v.id, o, 0)]);
    trace.numbers(&log, Ghost(before), dom, registry);
}

/// Forgets a variable.
pub(crate) fn forget_variable(dom: &mut EbpfDomain, v: Variable, registry: &VariableRegistry, trace: &mut Trace)
    requires old(trace).leads_to(old(dom), registry@),
    ensures
        final(trace).leads_to(final(dom), registry@),
        final(trace).with(ebpf_memory::numbers(seq![Step::Forget(v.id)]), old(trace)),
{
    let ghost before: Place = (*dom, registry@);
    let mut log = Log::new(&dom.state.values, registry);
    numeric_ops::forget(&mut dom.state.values, v, registry, &mut log);
    assert(log.done@ =~= seq![Step::Forget(v.id)]);
    trace.numbers(&log, Ghost(before), dom, registry);
}

/// An unsigned operation on the values of a register.
pub(crate) fn unsigned_on(dom: &mut EbpfDomain, op: FiniteBinOp, pack: &RegPack, o: Operand, width: i32, registry: &VariableRegistry, trace: &mut Trace)
    requires
        old(trace).leads_to(old(dom), registry@), pack.known(registry@), numeric_ops::knows_operand(registry@, o),
        crate::finite_domain::width_ok(width as int),
    ensures
        final(trace).leads_to(final(dom), registry@),
        final(trace).with(ebpf_memory::numbers(seq![Step::Unsigned(op, pack.svalue.id, pack.uvalue.id, pack.uvalue.id, o, width as int)]), old(trace)),
{
    let ghost before: Place = (*dom, registry@);
    let mut log = Log::new(&dom.state.values, registry);
    numeric_ops::unsigned(&mut dom.state.values, op, pack.svalue, pack.uvalue, pack.uvalue, o, width, registry, &mut log);
    assert(log.done@ =~= seq![Step::Unsigned(op, pack.svalue.id, pack.uvalue.id, pack.uvalue.id, o, width as int)]);
    trace.numbers(&log, Ghost(before), dom, registry);
}

fn add_value(dom: &mut EbpfDomain, dst_reg: &Reg, n: i64, finite_width: i32, registry: &mut VariableRegistry, trace: &mut Trace, Ghost(w): Ghost<Seen>) -> (r: Ghost<Seen>)
    requires old(trace).leads_to(old(dom), old(registry)@), dst_reg.ok(), finite_width == 32 || finite_width == 64,
    ensures
        final(registry)@ == old(registry)@,
        final(trace).leads_to(final(dom), final(registry)@),
        final(trace).grew(old(trace), add_value_acts(*dst_reg, n as int, finite_width as int, r@)),
{
    let ghost t0 = trace.acts@;
    let dst = reg_pack(dst_reg, registry);
    let operand = Operand::Num(Number::of(n as i128));
    assert(operand == lit(n as int));
    if acts::test_may_have(dom, dst_reg, TypeEncoding::TNum, registry, trace) {
        let ghost before: Place = (*dom, registry@);
        let mut log = Log::new(&dom.state.values, registry);
        numeric_ops::add_overflow(&mut dom.state.values, dst.svalue, dst.uvalue, operand, finite_width, registry, &mut log);
        assert(log.done@ =~= seq![Step::Overflow(add_op(), sv(*dst_reg), uv(*dst_reg), lit(n as int), finite_width as int)]);
        trace.numbers(&log, Ghost(before), dom, registry);
        let is_num: bool = acts::test_in_group(dom, dst_reg, TypeSet::singleton(TypeEncoding::TNum), registry, trace);
        if !is_num {
            acts::forget_offsets(dom, dst_reg, registry, trace);
        }
        let ghost r = Seen { first: true, second: is_num, ..w };
        assert(trace.acts@ =~= t0 + add_value_acts(*dst_reg, n as int, finite_width as int, r));
        Ghost(r)
    } else {
        let offset = acts::offset_of(dom, dst_reg, registry, trace);
        match offset {
            Some(v) => { signed_on(dom, FiniteBinOp::Arith(ArithBinOp::ADD), v, operand, registry, trace); }
            None => { acts::forget_offsets(dom, dst_reg, registry, trace); }
        }
        unsigned_on(dom, FiniteBinOp::Arith(ArithBinOp::ADD), &dst, operand, finite_width, registry, trace);
        let ghost r = Seen { first: false, offset, ..w };
        assert(trace.acts@ =~= t0 + add_value_acts(*dst_reg, n as int, finite_width as int, r));
        Ghost(r)
    }
}

fn add_size(dom: &mut EbpfDomain, dst_reg: &Reg, n: i64, registry: &mut VariableRegistry, trace: &mut Trace) -> (may_point: bool)
    requires old(trace).leads_to(old(dom), old(registry)@), dst_reg.ok(),
    ensures
        final(registry)@.extends(old(registry)@),
        final(trace).leads_to(final(dom), final(registry)@),
        final(trace).grew(old(trace), add_size_acts(*dst_reg, n as int, may_point)),
{
    let ghost t0 = trace.acts@;
    proof { numeric_steps::extends_itself(registry@); }
    let dst = reg_pack(dst_reg, registry);
    let may_point: bool = acts::test_may_have(dom, dst_reg, TypeEncoding::TStack, registry, trace);
    if may_point {
        if n > 0 {
            let operand = Operand::Num(Number::of(n as i128));
            assert(operand == lit(n as int));
            signed_on(dom, FiniteBinOp::Arith(ArithBinOp::SUB), dst.stack_numeric_size, operand, registry, trace);
        } else if n < 0 {
            forget_variable(dom, dst.stack_numeric_size, registry, trace);
        }
        recompute_register(dom, dst_reg, registry, trace);
    }
    assert(trace.acts@ =~= t0 + add_size_acts(*dst_reg, n as int, may_point));
    may_point
}

/// Adds a number to a register.
pub(crate) fn add_to_reg(dom: &mut EbpfDomain, dst_reg: &Reg, n: i64, finite_width: i32, registry: &mut VariableRegistry, trace: &mut Trace, Ghost(w): Ghost<Seen>) -> (r: Ghost<Seen>)
    requires old(trace).leads_to(old(dom), old(registry)@), dst_reg.ok(), finite_width == 32 || finite_width == 64,
    ensures
        final(registry)@.extends(old(registry)@),
        final(trace).leads_to(final(dom), final(registry)@),
        final(trace).grew(old(trace), add_acts(*dst_reg, n as int, finite_width as int, r@)),
{
    let ghost t0 = trace.acts@;
    let value = add_value(dom, dst_reg, n, finite_width, registry, trace, Ghost(w));
    let may_point: bool = add_size(dom, dst_reg, n, registry, trace);
    let ghost r = Seen { third: may_point, ..value@ };
    proof {
        assert(add_value_acts(*dst_reg, n as int, finite_width as int, r) == add_value_acts(*dst_reg, n as int, finite_width as int, value@));
        assert(trace.acts@ =~= t0 + add_acts(*dst_reg, n as int, finite_width as int, r));
    }
    Ghost(r)
}

// ---------------------------------------------------------------------------------------------
// Shifts
// ---------------------------------------------------------------------------------------------

/// Both values of a register are forgotten.
pub open spec fn drop_both(r: Reg) -> Seq<Step> {
    seq![Step::Forget(sv(r)), Step::Forget(uv(r))]
}

/// A shift of a register: of a number by the operation, of anything else to an unknown value.
pub open spec fn shift_acts(r: Reg, op: Step, is_num: bool) -> Seq<Act> {
    seq![
        ebpf_memory::forgets_offsets(r),
        Act::InGroup(r, nums(), is_num),
        ebpf_memory::numbers(if is_num { seq![op] } else { drop_both(r) }),
    ]
}

/// A count within a width.
pub(crate) fn shift_count(imm: i32, width: i32) -> (r: i32)
    requires width == 32 || width == 64,
    ensures r == (imm as int) % (width as int), 0 <= r < width,
{
    let big: u64 = (imm as i64 + 0x1_0000_0000) as u64;
    let r: u64 = big % (width as u64);
    proof {
        assert(0x1_0000_0000int % 32 == 0 && 0x1_0000_0000int % 64 == 0);
        let w = width as int;
        let k: int = if w == 32 { 0x800_0000 } else { 0x400_0000 };
        vstd::arithmetic::div_mod::lemma_mod_multiples_vanish(k, imm as int, w);
        assert(w * k + imm == big);
    }
    r as i32
}

fn drop_values(dom: &mut EbpfDomain, pack: &RegPack, registry: &VariableRegistry, log: &mut Log)
    requires old(dom).wf(), old(log).leads_to(&old(dom).state.values, registry@), old(log).done@ == Seq::<Step>::empty(),
    ensures
        final(dom).wf(), final(dom).stack == old(dom).stack, final(dom).state.types == old(dom).state.types,
        final(log).leads_to(&final(dom).state.values, registry@),
        final(log).start@ == old(log).start@, final(log).older@ == old(log).older@,
        final(log).done@ == seq![Step::Forget(pack.svalue.id), Step::Forget(pack.uvalue.id)],
{
    numeric_ops::forget(&mut dom.state.values, pack.svalue, registry, log);
    numeric_ops::forget(&mut dom.state.values, pack.uvalue, registry, log);
    assert(log.done@ =~= seq![Step::Forget(pack.svalue.id), Step::Forget(pack.uvalue.id)]);
}

/// Shifts a register left by a number.
pub(crate) fn shl_to_reg(dom: &mut EbpfDomain, dst_reg: &Reg, imm: i32, finite_width: i32, registry: &mut VariableRegistry, trace: &mut Trace) -> (is_num: bool)
    requires old(trace).leads_to(old(dom), old(registry)@), dst_reg.ok(), finite_width == 32 || finite_width == 64,
    ensures
        final(registry)@ == old(registry)@,
        final(trace).leads_to(final(dom), final(registry)@),
        final(trace).grew(old(trace), shift_acts(*dst_reg, Step::Shl(sv(*dst_reg), uv(*dst_reg), ((imm as int) % (finite_width as int)) as i32, finite_width as int), is_num)),
{
    let ghost t0 = trace.acts@;
    acts::forget_offsets(dom, dst_reg, registry, trace);
    let count: i32 = shift_count(imm, finite_width);
    let dst = reg_pack(dst_reg, registry);
    let is_num: bool = acts::test_in_group(dom, dst_reg, TypeSet::singleton(TypeEncoding::TNum), registry, trace);
    let ghost before: Place = (*dom, registry@);
    let mut log = Log::new(&dom.state.values, registry);
    if is_num {
        numeric_ops::shl(&mut dom.state.values, dst.svalue, dst.uvalue, count, finite_width, registry, &mut log);
        assert(log.done@ =~= seq![Step::Shl(sv(*dst_reg), uv(*dst_reg), count, finite_width as int)]);
    } else {
        drop_values(dom, &dst, registry, &mut log);
    }
    trace.numbers(&log, Ghost(before), dom, registry);
    assert(trace.acts@ =~= t0 + shift_acts(*dst_reg, Step::Shl(sv(*dst_reg), uv(*dst_reg), count, finite_width as int), is_num));
    is_num
}

/// Shifts a register right by a number.
pub(crate) fn lshr_to_reg(dom: &mut EbpfDomain, dst_reg: &Reg, imm: i32, finite_width: i32, registry: &mut VariableRegistry, trace: &mut Trace) -> (is_num: bool)
    requires old(trace).leads_to(old(dom), old(registry)@), dst_reg.ok(), finite_width == 32 || finite_width == 64,
    ensures
        final(registry)@ == old(registry)@,
        final(trace).leads_to(final(dom), final(registry)@),
        final(trace).grew(old(trace), shift_acts(*dst_reg, Step::Lshr(sv(*dst_reg), uv(*dst_reg), (imm as int) % (finite_width as int), finite_width as int), is_num)),
{
    let ghost t0 = trace.acts@;
    acts::forget_offsets(dom, dst_reg, registry, trace);
    let count: i32 = shift_count(imm, finite_width);
    let dst = reg_pack(dst_reg, registry);
    let is_num: bool = acts::test_in_group(dom, dst_reg, TypeSet::singleton(TypeEncoding::TNum), registry, trace);
    let ghost before: Place = (*dom, registry@);
    let mut log = Log::new(&dom.state.values, registry);
    if is_num {
        numeric_ops::lshr(&mut dom.state.values, dst.svalue, dst.uvalue, count, finite_width, registry, &mut log);
        assert(log.done@ =~= seq![Step::Lshr(sv(*dst_reg), uv(*dst_reg), count as int, finite_width as int)]);
    } else {
        drop_values(dom, &dst, registry, &mut log);
    }
    trace.numbers(&log, Ghost(before), dom, registry);
    assert(trace.acts@ =~= t0 + shift_acts(*dst_reg, Step::Lshr(sv(*dst_reg), uv(*dst_reg), count as int, finite_width as int), is_num));
    is_num
}

/// Shifts a register right with its sign.
pub(crate) fn ashr_to_reg(dom: &mut EbpfDomain, dst_reg: &Reg, right_svalue: &LinearExpression, finite_width: i32, registry: &mut VariableRegistry, trace: &mut Trace) -> (is_num: bool)
    requires old(trace).leads_to(old(dom), old(registry)@), dst_reg.ok(), finite_width == 32 || finite_width == 64,
    ensures
        final(registry)@ == old(registry)@,
        final(trace).leads_to(final(dom), final(registry)@),
        final(trace).grew(old(trace), shift_acts(*dst_reg, Step::Ashr(sv(*dst_reg), uv(*dst_reg), *right_svalue, finite_width as int), is_num)),
{
    let ghost t0 = trace.acts@;
    acts::forget_offsets(dom, dst_reg, registry, trace);
    let dst = reg_pack(dst_reg, registry);
    let is_num: bool = acts::test_in_group(dom, dst_reg, TypeSet::singleton(TypeEncoding::TNum), registry, trace);
    let ghost before: Place = (*dom, registry@);
    let mut log = Log::new(&dom.state.values, registry);
    if is_num {
        numeric_ops::ashr(&mut dom.state.values, dst.svalue, dst.uvalue, right_svalue, finite_width, registry, &mut log);
        assert(log.done@ =~= seq![Step::Ashr(sv(*dst_reg), uv(*dst_reg), *right_svalue, finite_width as int)]);
    } else {
        drop_values(dom, &dst, registry, &mut log);
    }
    trace.numbers(&log, Ghost(before), dom, registry);
    assert(trace.acts@ =~= t0 + shift_acts(*dst_reg, Step::Ashr(sv(*dst_reg), uv(*dst_reg), *right_svalue, finite_width as int), is_num));
    is_num
}

// ---------------------------------------------------------------------------------------------
// Operations that treat both operands as numbers
// ---------------------------------------------------------------------------------------------

/// The numeric operation of a binary operation that treats its operands as numbers. The operand is
/// given as a signed and as an unsigned value.
pub open spec fn value_step(op: BinOp, r: Reg, os: Operand, ou: Operand, width: int, bit_width: int) -> Option<Step> {
    let s = sv(r);
    let u = uv(r);
    match op {
        BinOp::MUL => Some(Step::Signed(FiniteBinOp::Arith(ArithBinOp::MUL), s, u, s, os, width)),
        BinOp::UDIV => Some(Step::Unsigned(FiniteBinOp::Signed(SignedArithBinOp::UDIV), s, u, u, ou, width)),
        BinOp::UMOD => Some(Step::Unsigned(FiniteBinOp::Signed(SignedArithBinOp::UREM), s, u, u, ou, width)),
        BinOp::SDIV => Some(Step::Signed(FiniteBinOp::Signed(SignedArithBinOp::SDIV), s, u, s, os, width)),
        BinOp::SMOD => Some(Step::Signed(FiniteBinOp::Signed(SignedArithBinOp::SREM), s, u, s, os, width)),
        BinOp::OR => Some(Step::Unsigned(FiniteBinOp::Bitwise(BitwiseBinOp::OR), s, u, u, ou, bit_width)),
        BinOp::XOR => Some(Step::Unsigned(FiniteBinOp::Bitwise(BitwiseBinOp::XOR), s, u, u, ou, bit_width)),
        BinOp::AND => Some(Step::Unsigned(FiniteBinOp::Bitwise(BitwiseBinOp::AND), s, u, u, ou, bit_width)),
        _ => None,
    }
}

/// What such an operation does.
pub open spec fn value_acts(r: Reg, op: Step) -> Seq<Act> {
    seq![ebpf_memory::numbers(seq![op]), ebpf_memory::forgets_offsets(r)]
}

/// Performs an operation that treats its operands as numbers.
pub(crate) fn value_op(dom: &mut EbpfDomain, op: BinOp, dst_reg: &Reg, os: Operand, ou: Operand, width: i32, bit_width: i32, registry: &VariableRegistry, trace: &mut Trace)
    requires
        old(trace).leads_to(old(dom), registry@),
        dst_reg.ok(),
        value_step(op, *dst_reg, os, ou, width as int, bit_width as int) is Some,
        numeric_ops::knows_operand(registry@, os),
        numeric_ops::knows_operand(registry@, ou),
        width == 32 || width == 64,
        bit_width == 32 || bit_width == 64,
    ensures
        final(trace).leads_to(final(dom), registry@),
        final(trace).grew(old(trace), value_acts(*dst_reg, value_step(op, *dst_reg, os, ou, width as int, bit_width as int)->Some_0)),
{
    let ghost t0 = trace.acts@;
    let ghost want = value_step(op, *dst_reg, os, ou, width as int, bit_width as int)->Some_0;
    let p = reg_pack(dst_reg, registry);
    let ghost before: Place = (*dom, registry@);
    let mut log = Log::new(&dom.state.values, registry);
    let v = &mut dom.state.values;
    match op {
        BinOp::MUL => { numeric_ops::signed(v, FiniteBinOp::Arith(ArithBinOp::MUL), p.svalue, p.uvalue, p.svalue, os, width, registry, &mut log); }
        BinOp::UDIV => { numeric_ops::unsigned(v, FiniteBinOp::Signed(SignedArithBinOp::UDIV), p.svalue, p.uvalue, p.uvalue, ou, width, registry, &mut log); }
        BinOp::UMOD => { numeric_ops::unsigned(v, FiniteBinOp::Signed(SignedArithBinOp::UREM), p.svalue, p.uvalue, p.uvalue, ou, width, registry, &mut log); }
        BinOp::SDIV => { numeric_ops::signed(v, FiniteBinOp::Signed(SignedArithBinOp::SDIV), p.svalue, p.uvalue, p.svalue, os, width, registry, &mut log); }
        BinOp::SMOD => { numeric_ops::signed(v, FiniteBinOp::Signed(SignedArithBinOp::SREM), p.svalue, p.uvalue, p.svalue, os, width, registry, &mut log); }
        BinOp::OR => { numeric_ops::unsigned(v, FiniteBinOp::Bitwise(BitwiseBinOp::OR), p.svalue, p.uvalue, p.uvalue, ou, bit_width, registry, &mut log); }
        BinOp::XOR => { numeric_ops::unsigned(v, FiniteBinOp::Bitwise(BitwiseBinOp::XOR), p.svalue, p.uvalue, p.uvalue, ou, bit_width, registry, &mut log); }
        _ => { numeric_ops::unsigned(v, FiniteBinOp::Bitwise(BitwiseBinOp::AND), p.svalue, p.uvalue, p.uvalue, ou, bit_width, registry, &mut log); }
    }
    assert(log.done@ =~= seq![want]);
    trace.numbers(&log, Ghost(before), dom, registry);
    acts::forget_offsets(dom, dst_reg, registry, trace);
    assert(trace.acts@ =~= t0 + value_acts(*dst_reg, want));
}

}
