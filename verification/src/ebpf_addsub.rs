//! Sums and differences of registers, which may be pointers.
use vstd::prelude::*;
use crate::acts;
use crate::acts::{Act, Place, Trace};
use crate::arith::linear_constraint::{gt, lt};
use crate::arith::linear_expression::LinearExpression;
use crate::branching;
use crate::branching::{Fold, Transition};
use crate::ebpf_arith;
use crate::ebpf_arith::Seen;
use crate::ebpf_domain::EbpfDomain;
use crate::ebpf_memory;
use crate::finite_domain::{FiniteBinOp, Operand};
use crate::interval::Interval;
use crate::numeric_ops;
use crate::numeric_ops::Log;
use crate::numeric_steps;
use crate::numeric_steps::{Lin, Step};
use crate::rcp;
use crate::rcp::{reg_pack, type_to_offset_kind};
use crate::syntax::Reg;
use crate::type_encoding::{DataKind, TypeEncoding, TypeSet};
use crate::var_registry;
use crate::var_registry::VariableRegistry;
use crate::zone_domain::ArithBinOp;

verus! {

/// A register's value is negative, or positive.
pub open spec fn is_negative(r: Reg) -> Lin {
    numeric_steps::below(numeric_steps::just_var(ebpf_arith::sv(r)), numeric_steps::just_num(0))
}

pub open spec fn is_positive(r: Reg) -> Lin {
    numeric_steps::below(numeric_steps::just_num(0), numeric_steps::just_var(ebpf_arith::sv(r)))
}

/// The value of a register as an operand.
pub open spec fn by_value(r: Reg) -> Operand {
    Operand::Var(ebpf_arith::sv(r))
}

/// The sum of the unsigned values.
pub open spec fn raw_sum(dst: Reg, src: Reg, width: int) -> Step {
    Step::Unsigned(ebpf_arith::add_op(), ebpf_arith::sv(dst), ebpf_arith::uv(dst), ebpf_arith::uv(dst), Operand::Var(ebpf_arith::uv(src)), width)
}

/// The difference of the unsigned values.
pub open spec fn raw_difference(dst: Reg, src: Reg, width: int) -> Step {
    Step::Unsigned(ebpf_arith::sub_op(), ebpf_arith::sv(dst), ebpf_arith::uv(dst), ebpf_arith::uv(dst), Operand::Var(ebpf_arith::uv(src)), width)
}

/// A number plus a pointer: the sum has the pointer's type and region.
pub open spec fn number_plus_pointer_acts(dst: Reg, src: Reg, te: TypeEncoding, width: int) -> Seq<Act> {
    seq![
        ebpf_memory::gives(dst, te),
        ebpf_memory::numbers((match rcp::offset_kind(te) {
            Some(k) => seq![Step::Plain(ebpf_arith::add_op(), rcp::id_of(k, dst), ebpf_arith::sv(dst), Operand::Var(rcp::id_of(k, src)), 0)],
            None => seq![],
        }) + seq![raw_sum(dst, src, width)] + (if te is TShared {
            seq![Step::Copy(rcp::id_of(DataKind::SharedRegionSizes, dst), rcp::id_of(DataKind::SharedRegionSizes, src))]
        } else {
            seq![]
        })),
    ]
}

/// The numeric bytes behind a stack pointer after a register is added to it.
pub open spec fn sum_size_acts(dst: Reg, src: Reg, may_go_back: bool) -> Seq<Act> {
    seq![Act::Meets(is_negative(src), may_go_back)] + (if may_go_back {
        seq![ebpf_memory::numbers(seq![Step::Forget(ebpf_arith::size_id(dst))]), Act::NumericSize(var_registry::reg_var(DataKind::Types, dst.v as int))]
    } else {
        seq![ebpf_memory::numbers(seq![Step::Signed(ebpf_arith::sub_op(), ebpf_arith::size_id(dst), ebpf_arith::size_id(dst), ebpf_arith::size_id(dst), by_value(src), 0)])]
    })
}

/// A pointer plus a number: the offset moves.
pub open spec fn pointer_plus_number_acts(dst: Reg, src: Reg, te: TypeEncoding, width: int, may_go_back: bool) -> Seq<Act> {
    seq![ebpf_memory::gives(dst, te)] + (match rcp::offset_kind(te) {
        Some(k) => seq![ebpf_memory::numbers(seq![Step::Plain(ebpf_arith::add_op(), rcp::id_of(k, dst), rcp::id_of(k, dst), by_value(src), 0)])]
            + (if te is TStack { sum_size_acts(dst, src, may_go_back) } else { seq![] }),
        None => seq![],
    }) + seq![ebpf_memory::numbers(seq![raw_sum(dst, src, width)])]
}

/// The sum of two registers with one type each. Two pointers cannot be added.
pub open spec fn sum_acts(dst: Reg, src: Reg, dst_type: TypeEncoding, src_type: TypeEncoding, width: int, may_go_back: bool) -> Seq<Act> {
    if dst_type is TNum && !(src_type is TNum) {
        number_plus_pointer_acts(dst, src, src_type, width)
    } else if !(dst_type is TNum) && src_type is TNum {
        pointer_plus_number_acts(dst, src, dst_type, width, may_go_back)
    } else if dst_type is TNum && src_type is TNum {
        seq![ebpf_memory::numbers(seq![Step::Signed(ebpf_arith::add_op(), ebpf_arith::sv(dst), ebpf_arith::uv(dst), ebpf_arith::sv(dst), by_value(src), width)])]
    } else {
        seq![Act::Nothing]
    }
}

/// The sum where each register has one type.
pub open spec fn sum_branch(be: bool, dst: Reg, src: Reg, dst_type: TypeEncoding, width: int) -> Transition {
    |a: Place, src_type: TypeEncoding, b: Place| exists|may_go_back: bool| acts::follows(be, a, #[trigger] sum_acts(dst, src, dst_type, src_type, width, may_go_back), b)
}

/// The sum where the first register has one type.
pub open spec fn sum_split(be: bool, dst: Reg, src: Reg, width: int) -> Transition {
    |a: Place, dst_type: TypeEncoding, b: Place| branching::over_types(a, src, sum_branch(be, dst, src, dst_type, width), b)
}

fn number_plus_pointer(dom: &mut EbpfDomain, dst: &Reg, src: &Reg, te: TypeEncoding, width: i32, registry: &mut VariableRegistry, trace: &mut Trace)
    requires old(trace).leads_to(old(dom), old(registry)@), dst.ok(), src.ok(), width == 32 || width == 64,
    ensures
        final(registry)@ == old(registry)@,
        final(trace).leads_to(final(dom), final(registry)@),
        final(trace).grew(old(trace), number_plus_pointer_acts(*dst, *src, te, width as int)),
{
    let ghost t0 = trace.acts@;
    acts::give_type(dom, dst, te, registry, trace);
    let p = reg_pack(dst, registry);
    let q = reg_pack(src, registry);
    let ghost before: Place = (*dom, registry@);
    let mut log = Log::new(&dom.state.values, registry);
    match type_to_offset_kind(te) {
        Some(k) => {
            proof {
                registry@.register_variable(k, dst.v as int);
                registry@.register_variable(k, src.v as int);
            }
            numeric_ops::plain(&mut dom.state.values, FiniteBinOp::Arith(ArithBinOp::ADD), p.get(k), p.svalue, q.get(k), registry, &mut log);
        }
        None => {}
    }
    numeric_ops::unsigned(&mut dom.state.values, FiniteBinOp::Arith(ArithBinOp::ADD), p.svalue, p.uvalue, p.uvalue, Operand::Var(q.uvalue.id), width, registry, &mut log);
    if matches!(te, TypeEncoding::TShared) {
        numeric_ops::copy_var(&mut dom.state.values, p.shared_region_size, q.shared_region_size, registry, &mut log);
    }
    assert(ebpf_memory::numbers(log.done@) == number_plus_pointer_acts(*dst, *src, te, width as int)[1]) by {
        assert(log.done@ =~= (match rcp::offset_kind(te) {
            Some(k) => seq![Step::Plain(ebpf_arith::add_op(), rcp::id_of(k, *dst), ebpf_arith::sv(*dst), Operand::Var(rcp::id_of(k, *src)), 0)],
            None => seq![],
        }) + seq![raw_sum(*dst, *src, width as int)] + (if te is TShared {
            seq![Step::Copy(rcp::id_of(DataKind::SharedRegionSizes, *dst), rcp::id_of(DataKind::SharedRegionSizes, *src))]
        } else {
            seq![]
        }));
    }
    trace.numbers(&log, Ghost(before), dom, registry);
    assert(trace.acts@ =~= t0 + number_plus_pointer_acts(*dst, *src, te, width as int));
}

fn sum_size(dom: &mut EbpfDomain, dst: &Reg, src: &Reg, registry: &mut VariableRegistry, trace: &mut Trace) -> (may_go_back: bool)
    requires old(trace).leads_to(old(dom), old(registry)@), dst.ok(), src.ok(),
    ensures
        final(registry)@.extends(old(registry)@),
        final(trace).leads_to(final(dom), final(registry)@),
        final(trace).grew(old(trace), sum_size_acts(*dst, *src, may_go_back)),
{
    let ghost t0 = trace.acts@;
    proof { numeric_steps::extends_itself(registry@); }
    let p = reg_pack(dst, registry);
    let q = reg_pack(src, registry);
    let left = LinearExpression::from_variable(q.svalue);
    let right = LinearExpression::from_i64(0);
    proof { numeric_ops::combination_is_known(registry@, left.terms@, -1, right.terms@); }
    let c = lt(left, right);
    assert(numeric_steps::lin_of(&c) == is_negative(*src));
    let may_go_back: bool = acts::test_meets(dom, &c, registry, trace);
    if may_go_back {
        ebpf_arith::forget_variable(dom, p.stack_numeric_size, registry, trace);
        ebpf_arith::recompute_register(dom, dst, registry, trace);
    } else {
        ebpf_arith::signed_on(dom, FiniteBinOp::Arith(ArithBinOp::SUB), p.stack_numeric_size, Operand::Var(q.svalue.id), registry, trace);
    }
    assert(trace.acts@ =~= t0 + sum_size_acts(*dst, *src, may_go_back));
    may_go_back
}

fn pointer_plus_number(dom: &mut EbpfDomain, dst: &Reg, src: &Reg, te: TypeEncoding, width: i32, registry: &mut VariableRegistry, trace: &mut Trace) -> (may_go_back: bool)
    requires old(trace).leads_to(old(dom), old(registry)@), dst.ok(), src.ok(), width == 32 || width == 64,
    ensures
        final(registry)@.extends(old(registry)@),
        final(trace).leads_to(final(dom), final(registry)@),
        final(trace).grew(old(trace), pointer_plus_number_acts(*dst, *src, te, width as int, may_go_back)),
{
    let ghost t0 = trace.acts@;
    proof { numeric_steps::extends_itself(registry@); }
    let ghost r0 = registry@;
    acts::give_type(dom, dst, te, registry, trace);
    let p = reg_pack(dst, registry);
    let q = reg_pack(src, registry);
    let mut may_go_back: bool = false;
    match type_to_offset_kind(te) {
        Some(k) => {
            proof { registry@.register_variable(k, dst.v as int); }
            let ghost before: Place = (*dom, registry@);
            let mut log = Log::new(&dom.state.values, registry);
            numeric_ops::plain(&mut dom.state.values, FiniteBinOp::Arith(ArithBinOp::ADD), p.get(k), p.get(k), q.svalue, registry, &mut log);
            assert(log.done@ =~= seq![Step::Plain(ebpf_arith::add_op(), rcp::id_of(k, *dst), rcp::id_of(k, *dst), by_value(*src), 0)]);
            trace.numbers(&log, Ghost(before), dom, registry);
            if matches!(te, TypeEncoding::TStack) {
                may_go_back = sum_size(dom, dst, src, registry, trace);
            }
        }
        None => {}
    }
    let p2 = reg_pack(dst, registry);
    let q2 = reg_pack(src, registry);
    ebpf_arith::unsigned_on(dom, FiniteBinOp::Arith(ArithBinOp::ADD), &p2, Operand::Var(q2.uvalue.id), width, registry, trace);
    assert(trace.acts@ =~= t0 + pointer_plus_number_acts(*dst, *src, te, width as int, may_go_back));
    may_go_back
}

/// The sum of two registers with one type each.
fn sum_one(dom: &mut EbpfDomain, dst: &Reg, src: &Reg, dst_type: TypeEncoding, src_type: TypeEncoding, width: i32, registry: &mut VariableRegistry, Ghost(be): Ghost<bool>)
    requires old(dom).wf(), old(registry)@.ready(), dst.ok(), src.ok(), width == 32 || width == 64,
    ensures
        final(dom).wf(),
        final(registry)@.ready(),
        final(registry)@.extends(old(registry)@),
        sum_branch(be, *dst, *src, dst_type, width as int)((*old(dom), old(registry)@), src_type, (*final(dom), final(registry)@)),
{
    let mut trace = Trace::new(Ghost(be), dom, registry);
    proof { numeric_steps::extends_itself(registry@); }
    let ghost t0 = trace.acts@;
    let mut may_go_back: bool = false;
    let dst_num: bool = matches!(dst_type, TypeEncoding::TNum);
    let src_num: bool = matches!(src_type, TypeEncoding::TNum);
    if dst_num && !src_num {
        number_plus_pointer(dom, dst, src, src_type, width, registry, &mut trace);
    } else if !dst_num && src_num {
        may_go_back = pointer_plus_number(dom, dst, src, dst_type, width, registry, &mut trace);
    } else if dst_num && src_num {
        let p = reg_pack(dst, registry);
        let q = reg_pack(src, registry);
        let ghost before: Place = (*dom, registry@);
        let mut log = Log::new(&dom.state.values, registry);
        numeric_ops::signed(&mut dom.state.values, FiniteBinOp::Arith(ArithBinOp::ADD), p.svalue, p.uvalue, p.svalue, Operand::Var(q.svalue.id), width, registry, &mut log);
        assert(log.done@ =~= seq![Step::Signed(ebpf_arith::add_op(), ebpf_arith::sv(*dst), ebpf_arith::uv(*dst), ebpf_arith::sv(*dst), by_value(*src), width as int)]);
        trace.numbers(&log, Ghost(before), dom, registry);
    } else {
        acts::rule_out(dom, registry, &mut trace);
    }
    proof {
        let want = sum_acts(*dst, *src, dst_type, src_type, width as int, may_go_back);
        assert(trace.acts@ =~= want);
        assert(acts::follows(be, (*old(dom), old(registry)@), want, (*dom, registry@)));
    }
}

/// The sum where the first register has one type.
fn sum_over_source(dom: &mut EbpfDomain, dst: &Reg, src: &Reg, dst_type: TypeEncoding, width: i32, registry: &mut VariableRegistry, Ghost(be): Ghost<bool>)
    requires old(dom).wf(), old(registry)@.ready(), dst.ok(), src.ok(), width == 32 || width == 64,
    ensures
        final(dom).wf(),
        final(registry)@.ready(),
        final(registry)@.extends(old(registry)@),
        sum_split(be, *dst, *src, width as int)((*old(dom), old(registry)@), dst_type, (*final(dom), final(registry)@)),
{
    let ghost start: Place = (*dom, registry@);
    let ghost rel = sum_branch(be, *dst, *src, dst_type, width as int);
    proof { numeric_steps::extends_itself(registry@); }
    if !acts::is_initialized(dom, src, registry) {
        sum_one(dom, dst, src, dst_type, TypeEncoding::TUninit, width, registry, Ghost(be));
        return;
    }
    let mut fold = Fold::new(dom, src, registry, Ghost(rel));
    while fold.more()
        invariant
            dst.ok(), src.ok(), width == 32 || width == 64,
            dom.stack.wf(),
            fold.ok(dom.stack, registry@),
            fold.about() == (start, *src, rel),
            rel == sum_branch(be, *dst, *src, dst_type, width as int),
            0 <= fold.count() <= fold.tes().len(),
            registry@.ready(),
        decreases fold.tes().len() - fold.count(),
    {
        let te = fold.take(dom, registry);
        let ghost input: Place = (*dom, registry@);
        sum_one(dom, dst, src, dst_type, te, width, registry, Ghost(be));
        fold.give(dom, registry, Ghost(input));
    }
    fold.finish(dom, registry);
}

/// The sum, for each type that the first register may have and each that the second may have.
pub(crate) fn sum_over_types(dom: &mut EbpfDomain, dst: &Reg, src: &Reg, width: i32, registry: &mut VariableRegistry, Ghost(be): Ghost<bool>)
    requires old(dom).wf(), old(registry)@.ready(), dst.ok(), src.ok(), width == 32 || width == 64,
    ensures
        final(dom).wf(),
        final(registry)@.ready(),
        final(registry)@.extends(old(registry)@),
        branching::over_types((*old(dom), old(registry)@), *dst, sum_split(be, *dst, *src, width as int), (*final(dom), final(registry)@)),
{
    let ghost start: Place = (*dom, registry@);
    let ghost rel = sum_split(be, *dst, *src, width as int);
    proof { numeric_steps::extends_itself(registry@); }
    if !acts::is_initialized(dom, dst, registry) {
        sum_over_source(dom, dst, src, TypeEncoding::TUninit, width, registry, Ghost(be));
        return;
    }
    let mut fold = Fold::new(dom, dst, registry, Ghost(rel));
    while fold.more()
        invariant
            dst.ok(), src.ok(), width == 32 || width == 64,
            dom.stack.wf(),
            fold.ok(dom.stack, registry@),
            fold.about() == (start, *dst, rel),
            rel == sum_split(be, *dst, *src, width as int),
            0 <= fold.count() <= fold.tes().len(),
            registry@.ready(),
        decreases fold.tes().len() - fold.count(),
    {
        let te = fold.take(dom, registry);
        let ghost input: Place = (*dom, registry@);
        sum_over_source(dom, dst, src, te, width, registry, Ghost(be));
        fold.give(dom, registry, Ghost(input));
    }
    fold.finish(dom, registry);
}

// ---------------------------------------------------------------------------------------------
// Differences
// ---------------------------------------------------------------------------------------------

/// The difference of two registers of the same type. That of two pointers is the number between
/// their offsets.
pub open spec fn difference_acts(dst: Reg, src: Reg, te: TypeEncoding, width: int) -> Seq<Act> {
    let s = ebpf_arith::sv(dst);
    let u = ebpf_arith::uv(dst);
    if te is TNum {
        seq![
            ebpf_memory::numbers(seq![Step::Signed(ebpf_arith::sub_op(), s, u, s, by_value(src), width)]),
            ebpf_memory::gives(dst, TypeEncoding::TNum),
            ebpf_memory::forgets_offsets(dst),
        ]
    } else {
        (match rcp::offset_kind(te) {
            Some(k) => seq![ebpf_memory::numbers(seq![
                Step::Signed(ebpf_arith::sub_op(), s, u, rcp::id_of(k, dst), Operand::Var(rcp::id_of(k, src)), width),
                Step::Forget(rcp::id_of(k, dst)),
            ])],
            None => seq![],
        }) + seq![ebpf_memory::forgets_offsets(dst), ebpf_memory::gives(dst, TypeEncoding::TNum)]
    }
}

/// The difference where both registers have one type.
pub open spec fn difference_branch(be: bool, dst: Reg, src: Reg, width: int) -> Transition {
    |a: Place, te: TypeEncoding, b: Place| acts::follows(be, a, difference_acts(dst, src, te, width), b)
}

fn difference_one(dom: &mut EbpfDomain, dst: &Reg, src: &Reg, te: TypeEncoding, width: i32, registry: &mut VariableRegistry, Ghost(be): Ghost<bool>)
    requires old(dom).wf(), old(registry)@.ready(), dst.ok(), src.ok(), width == 32 || width == 64,
    ensures
        final(dom).wf(),
        final(registry)@ == old(registry)@,
        difference_branch(be, *dst, *src, width as int)((*old(dom), old(registry)@), te, (*final(dom), final(registry)@)),
{
    let mut trace = Trace::new(Ghost(be), dom, registry);
    let p = reg_pack(dst, registry);
    let q = reg_pack(src, registry);
    if matches!(te, TypeEncoding::TNum) {
        let ghost before: Place = (*dom, registry@);
        let mut log = Log::new(&dom.state.values, registry);
        numeric_ops::signed(&mut dom.state.values, FiniteBinOp::Arith(ArithBinOp::SUB), p.svalue, p.uvalue, p.svalue, Operand::Var(q.svalue.id), width, registry, &mut log);
        assert(log.done@ =~= seq![Step::Signed(ebpf_arith::sub_op(), ebpf_arith::sv(*dst), ebpf_arith::uv(*dst), ebpf_arith::sv(*dst), by_value(*src), width as int)]);
        trace.numbers(&log, Ghost(before), dom, registry);
        acts::give_type(dom, dst, TypeEncoding::TNum, registry, &mut trace);
        acts::forget_offsets(dom, dst, registry, &mut trace);
    } else {
        match type_to_offset_kind(te) {
            Some(k) => {
                proof {
                    registry@.register_variable(k, dst.v as int);
                    registry@.register_variable(k, src.v as int);
                }
                let ghost before: Place = (*dom, registry@);
                let mut log = Log::new(&dom.state.values, registry);
                numeric_ops::signed(&mut dom.state.values, FiniteBinOp::Arith(ArithBinOp::SUB), p.svalue, p.uvalue, p.get(k), Operand::Var(q.get(k).id), width, registry, &mut log);
                numeric_ops::forget(&mut dom.state.values, p.get(k), registry, &mut log);
                assert(log.done@ =~= seq![
                    Step::Signed(ebpf_arith::sub_op(), ebpf_arith::sv(*dst), ebpf_arith::uv(*dst), rcp::id_of(k, *dst), Operand::Var(rcp::id_of(k, *src)), width as int),
                    Step::Forget(rcp::id_of(k, *dst)),
                ]);
                trace.numbers(&log, Ghost(before), dom, registry);
            }
            None => {}
        }
        acts::forget_offsets(dom, dst, registry, &mut trace);
        acts::give_type(dom, dst, TypeEncoding::TNum, registry, &mut trace);
    }
    assert(trace.acts@ =~= difference_acts(*dst, *src, te, width as int));
}

/// The difference of two registers of the same type, for each type that they may have.
pub(crate) fn difference_over_types(dom: &mut EbpfDomain, dst: &Reg, src: &Reg, width: i32, registry: &mut VariableRegistry, Ghost(be): Ghost<bool>)
    requires old(dom).wf(), old(registry)@.ready(), dst.ok(), src.ok(), width == 32 || width == 64,
    ensures
        final(dom).wf(),
        final(registry)@.ready(),
        final(registry)@.extends(old(registry)@),
        branching::over_types((*old(dom), old(registry)@), *dst, difference_branch(be, *dst, *src, width as int), (*final(dom), final(registry)@)),
{
    let ghost start: Place = (*dom, registry@);
    let ghost rel = difference_branch(be, *dst, *src, width as int);
    proof { numeric_steps::extends_itself(registry@); }
    if !acts::is_initialized(dom, dst, registry) {
        difference_one(dom, dst, src, TypeEncoding::TUninit, width, registry, Ghost(be));
        return;
    }
    let mut fold = Fold::new(dom, dst, registry, Ghost(rel));
    while fold.more()
        invariant
            dst.ok(), src.ok(), width == 32 || width == 64,
            dom.stack.wf(),
            fold.ok(dom.stack, registry@),
            fold.about() == (start, *dst, rel),
            rel == difference_branch(be, *dst, *src, width as int),
            0 <= fold.count() <= fold.tes().len(),
            registry@.ready(),
        decreases fold.tes().len() - fold.count(),
    {
        let te = fold.take(dom, registry);
        let ghost input: Place = (*dom, registry@);
        proof { numeric_steps::extends_itself(registry@); }
        difference_one(dom, dst, src, te, width, registry, Ghost(be));
        fold.give(dom, registry, Ghost(input));
    }
    fold.finish(dom, registry);
}

/// A number is taken from a register whose type may be another: from the value where it may be a
/// number, from the offset where it is a pointer of one type.
pub open spec fn minus_value_acts(dst: Reg, src: Reg, width: int, w: Seen) -> Seq<Act> {
    seq![Act::MayHave(dst, TypeEncoding::TNum, w.second)] + (if w.second {
        seq![
            ebpf_memory::numbers(seq![Step::Overflow(ebpf_arith::sub_op(), ebpf_arith::sv(dst), ebpf_arith::uv(dst), by_value(src), width)]),
            Act::InGroup(dst, ebpf_arith::nums(), w.third),
        ] + (if w.third { seq![] } else { seq![ebpf_memory::forgets_offsets(dst)] })
    } else {
        seq![
            Act::OffsetOf(dst, w.offset),
            match w.offset {
                Some(v) => ebpf_memory::numbers(seq![Step::Signed(ebpf_arith::sub_op(), v.id, v.id, v.id, by_value(src), 0)]),
                None => ebpf_memory::forgets_offsets(dst),
            },
            ebpf_memory::numbers(seq![raw_difference(dst, src, width)]),
        ]
    })
}

/// The numeric bytes behind a stack pointer after a register is taken from it.
pub open spec fn minus_size_acts(dst: Reg, src: Reg, may_point: bool, may_go_back: bool) -> Seq<Act> {
    seq![Act::MayHave(dst, TypeEncoding::TStack, may_point)] + (if !may_point { seq![] } else {
        seq![Act::Meets(is_positive(src), may_go_back)] + (if may_go_back {
            seq![ebpf_memory::numbers(seq![Step::Forget(ebpf_arith::size_id(dst))]), Act::NumericSize(var_registry::reg_var(DataKind::Types, dst.v as int))]
        } else {
            seq![ebpf_memory::numbers(seq![Step::Plain(ebpf_arith::add_op(), ebpf_arith::size_id(dst), ebpf_arith::size_id(dst), by_value(src), 0)])]
        })
    })
}

/// The difference of registers whose types may differ: only a number can be taken away.
pub open spec fn minus_acts(dst: Reg, src: Reg, width: int, w: Seen, may_point: bool) -> Seq<Act> {
    seq![Act::InGroup(src, ebpf_arith::nums(), w.first)] + (if w.first {
        minus_value_acts(dst, src, width, w) + minus_size_acts(dst, src, may_point, w.fourth)
    } else {
        seq![ebpf_memory::forgets(dst)]
    })
}

fn minus_value(dom: &mut EbpfDomain, dst: &Reg, src: &Reg, width: i32, registry: &mut VariableRegistry, trace: &mut Trace, Ghost(w): Ghost<Seen>) -> (r: Ghost<Seen>)
    requires old(trace).leads_to(old(dom), old(registry)@), dst.ok(), src.ok(), width == 32 || width == 64,
    ensures
        final(registry)@ == old(registry)@,
        final(trace).leads_to(final(dom), final(registry)@),
        final(trace).grew(old(trace), minus_value_acts(*dst, *src, width as int, r@)),
        r@.first == w.first,
{
    let ghost t0 = trace.acts@;
    let p = reg_pack(dst, registry);
    let q = reg_pack(src, registry);
    if acts::test_may_have(dom, dst, TypeEncoding::TNum, registry, trace) {
        let ghost before: Place = (*dom, registry@);
        let mut log = Log::new(&dom.state.values, registry);
        numeric_ops::sub_overflow(&mut dom.state.values, p.svalue, p.uvalue, q.svalue, width, registry, &mut log);
        assert(log.done@ =~= seq![Step::Overflow(ebpf_arith::sub_op(), ebpf_arith::sv(*dst), ebpf_arith::uv(*dst), by_value(*src), width as int)]);
        trace.numbers(&log, Ghost(before), dom, registry);
        let is_num: bool = acts::test_in_group(dom, dst, TypeSet::singleton(TypeEncoding::TNum), registry, trace);
        if !is_num {
            acts::forget_offsets(dom, dst, registry, trace);
        }
        let ghost r = Seen { second: true, third: is_num, ..w };
        assert(trace.acts@ =~= t0 + minus_value_acts(*dst, *src, width as int, r));
        Ghost(r)
    } else {
        let offset = acts::offset_of(dom, dst, registry, trace);
        match offset {
            Some(v) => { ebpf_arith::signed_on(dom, FiniteBinOp::Arith(ArithBinOp::SUB), v, Operand::Var(q.svalue.id), registry, trace); }
            None => { acts::forget_offsets(dom, dst, registry, trace); }
        }
        ebpf_arith::unsigned_on(dom, FiniteBinOp::Arith(ArithBinOp::SUB), &p, Operand::Var(q.uvalue.id), width, registry, trace);
        let ghost r = Seen { second: false, offset, ..w };
        assert(trace.acts@ =~= t0 + minus_value_acts(*dst, *src, width as int, r));
        Ghost(r)
    }
}

fn minus_size(dom: &mut EbpfDomain, dst: &Reg, src: &Reg, registry: &mut VariableRegistry, trace: &mut Trace) -> (r: (bool, bool))
    requires old(trace).leads_to(old(dom), old(registry)@), dst.ok(), src.ok(),
    ensures
        final(registry)@.extends(old(registry)@),
        final(trace).leads_to(final(dom), final(registry)@),
        final(trace).grew(old(trace), minus_size_acts(*dst, *src, r.0, r.1)),
{
    let ghost t0 = trace.acts@;
    proof { numeric_steps::extends_itself(registry@); }
    let p = reg_pack(dst, registry);
    let q = reg_pack(src, registry);
    if !acts::test_may_have(dom, dst, TypeEncoding::TStack, registry, trace) {
        assert(trace.acts@ =~= t0 + minus_size_acts(*dst, *src, false, false));
        return (false, false);
    }
    let left = LinearExpression::from_variable(q.svalue);
    let right = LinearExpression::from_i64(0);
    proof { numeric_ops::combination_is_known(registry@, right.terms@, -1, left.terms@); }
    let c = gt(left, right);
    assert(numeric_steps::lin_of(&c) == is_positive(*src));
    let may_go_back: bool = acts::test_meets(dom, &c, registry, trace);
    if may_go_back {
        ebpf_arith::forget_variable(dom, p.stack_numeric_size, registry, trace);
        ebpf_arith::recompute_register(dom, dst, registry, trace);
    } else {
        let ghost before: Place = (*dom, registry@);
        let mut log = Log::new(&dom.state.values, registry);
        numeric_ops::plain(&mut dom.state.values, FiniteBinOp::Arith(ArithBinOp::ADD), p.stack_numeric_size, p.stack_numeric_size, q.svalue, registry, &mut log);
        assert(log.done@ =~= seq![Step::Plain(ebpf_arith::add_op(), ebpf_arith::size_id(*dst), ebpf_arith::size_id(*dst), by_value(*src), 0)]);
        trace.numbers(&log, Ghost(before), dom, registry);
    }
    assert(trace.acts@ =~= t0 + minus_size_acts(*dst, *src, true, may_go_back));
    (true, may_go_back)
}

/// Takes a register from another whose type may differ.
pub(crate) fn minus_register(dom: &mut EbpfDomain, dst: &Reg, src: &Reg, width: i32, registry: &mut VariableRegistry, trace: &mut Trace) -> (r: (Ghost<Seen>, bool))
    requires old(trace).leads_to(old(dom), old(registry)@), dst.ok(), src.ok(), width == 32 || width == 64,
    ensures
        final(registry)@.extends(old(registry)@),
        final(trace).leads_to(final(dom), final(registry)@),
        final(trace).grew(old(trace), minus_acts(*dst, *src, width as int, r.0@, r.1)),
{
    let ghost t0 = trace.acts@;
    proof { numeric_steps::extends_itself(registry@); }
    let is_num: bool = acts::test_in_group(dom, src, TypeSet::singleton(TypeEncoding::TNum), registry, trace);
    let zero = LinearExpression::from_i64(0);
    let ghost w = Seen { first: is_num, second: false, third: false, fourth: false, offset: None, iv: Interval::all(), e: zero };
    if !is_num {
        acts::forget_register(dom, dst, registry, trace);
        assert(trace.acts@ =~= t0 + minus_acts(*dst, *src, width as int, w, false));
        return (Ghost(w), false);
    }
    let value = minus_value(dom, dst, src, width, registry, trace, Ghost(w));
    let (may_point, may_go_back) = minus_size(dom, dst, src, registry, trace);
    let ghost w2 = Seen { fourth: may_go_back, ..value@ };
    proof {
        assert(minus_value_acts(*dst, *src, width as int, w2) == minus_value_acts(*dst, *src, width as int, value@));
        assert(trace.acts@ =~= t0 + minus_acts(*dst, *src, width as int, w2, may_point));
    }
    (Ghost(w2), may_point)
}

}
