//! Loads and stores through a register, and atomic updates.
use vstd::prelude::*;
use vstd::string::*;
use crate::acts;
use crate::acts::{Act, Place, Trace};
use crate::arith::linear_expression::LinearExpression;
use crate::arith::number;
use crate::arith::variable::Variable;
use crate::array_domain;
use crate::branching;
use crate::branching::{Fold, Transition};
use crate::config::DomainContext;
use crate::ebpf_bin;
use crate::ebpf_domain::{EbpfDomain, VerificationError};
use crate::ebpf_memory;
use crate::ebpf_memory::StackLoad;
use crate::ebpf_store;
use crate::ebpf_store::{StackStore, Stored};
use crate::finite_assume;
use crate::interval::Interval;
use crate::numeric_steps;
use crate::numeric_steps::Sum;
use crate::rcp;
use crate::rcp::reg_pack;
use crate::syntax::{AccessSize, Atomic, AtomicOp, Bin, BinOp, Mem, Reg, Value, R0_RETURN_VALUE, R10_STACK_POINTER, R11_ATOMIC_SCRATCH};
use crate::type_encoding::{ts_pointer, DataKind, TypeEncoding, TypeSet};
use crate::var_registry::VariableRegistry;
use crate::zone_domain;

verus! {

/// The address of an access through an offset.
pub open spec fn address(kind: DataKind, m: Mem) -> Sum {
    numeric_steps::plus(numeric_steps::just_var(rcp::id_of(kind, m.access.basereg)), numeric_steps::just_num(m.access.offset as int))
}

/// Some acts of a load from the stack.
pub open spec fn stack_load_runs(be: bool, m: Mem, target: Reg, a: Place, b: Place) -> bool {
    exists|addr: LinearExpression, w: StackLoad| numeric_steps::sum_of(&addr) == address(DataKind::StackOffsets, m)
        && acts::follows(be, a, #[trigger] ebpf_memory::stack_load_acts(target, addr, m.access.width.count() as i32, m.access.basereg, w), b)
}

/// Some acts of a load from the context.
pub open spec fn context_load_runs(be: bool, ctx: &DomainContext, m: Mem, target: Reg, a: Place, b: Place) -> bool {
    if a.0.num() is None {
        acts::follows(be, a, seq![Act::IsNothing(true)], b)
    } else {
        exists|addr: LinearExpression, iv: Interval| numeric_steps::sum_of(&addr) == address(DataKind::CtxOffsets, m) && addr.orderly()
            && acts::follows(be, a, #[trigger] ebpf_memory::context_load_acts(target, addr, iv, m.access.width.count(), ctx), b)
    }
}

/// What a load does where the base register has one type.
pub open spec fn load_branch(be: bool, ctx: &DomainContext, m: Mem, target: Reg) -> Transition {
    |a: Place, te: TypeEncoding, b: Place| match te {
        TypeEncoding::TCtx => context_load_runs(be, ctx, m, target, a, b),
        TypeEncoding::TStack => stack_load_runs(be, m, target, a, b),
        TypeEncoding::TPacket | TypeEncoding::TShared => acts::follows(be, a,
            if a.0.num() is None { seq![Act::IsNothing(true)] } else { ebpf_memory::number_load_acts(target, m.access.width.count(), m.is_signed) }, b),
        _ => a == b,
    }
}

/// What a load does: the frame pointer points to the stack, any other register may point to what its
/// types allow.
pub open spec fn load_effect(be: bool, ctx: &DomainContext, m: Mem, target: Reg, a: Place, b: Place) -> bool {
    if m.access.basereg.v == 10 { stack_load_runs(be, m, target, a, b) } else { branching::over_types(a, m.access.basereg, load_branch(be, ctx, m, target), b) }
}

fn address_of(v: Variable, offset: i32) -> (r: LinearExpression)
    ensures
        numeric_steps::sum_of(&r) == numeric_steps::plus(numeric_steps::just_var(v.id), numeric_steps::just_num(offset as int)),
        forall|k: u64| r.terms@.contains_key(k) ==> k == v.id,
{
    LinearExpression::from_variable(v).plus(&LinearExpression::from_i64(offset as i64))
}

fn load_from_stack(dom: &mut EbpfDomain, m: &Mem, target: &Reg, big_endian: bool, registry: &mut VariableRegistry)
    requires old(dom).wf(), old(registry)@.ready(), m.ok(), target.ok(),
    ensures
        final(dom).wf(),
        final(registry)@.ready(),
        final(registry)@.extends(old(registry)@),
        stack_load_runs(big_endian, *m, *target, (*old(dom), old(registry)@), (*final(dom), final(registry)@)),
{
    let ghost start: Place = (*dom, registry@);
    let mut trace = Trace::new(Ghost(big_endian), dom, registry);
    let base = reg_pack(&m.access.basereg, registry);
    let addr = address_of(base.stack_offset, m.access.offset);
    let width: i32 = m.access.width.bytes();
    ebpf_memory::do_load_stack(dom, target, &addr, width, &m.access.basereg, big_endian, registry, &mut trace);
    proof {
        let w = choose|w: StackLoad| trace.acts@ == Seq::<Act>::empty() + #[trigger] ebpf_memory::stack_load_acts(*target, addr, width, m.access.basereg, w);
        assert(trace.acts@ =~= ebpf_memory::stack_load_acts(*target, addr, width, m.access.basereg, w));
        assert(width == m.access.width.count() as i32);
        assert(acts::follows(big_endian, start, ebpf_memory::stack_load_acts(*target, addr, m.access.width.count() as i32, m.access.basereg, w), (*dom, registry@)));
        acts::following_extends(big_endian, start, trace.acts@, (*dom, registry@));
    }
}

/// A load where the base register has one type.
fn load_one(dom: &mut EbpfDomain, m: &Mem, target: &Reg, te: TypeEncoding, ctx: &DomainContext, registry: &mut VariableRegistry)
    requires old(dom).wf(), old(registry)@.ready(), m.ok(), target.ok(), ctx.ok(),
    ensures
        final(dom).wf(),
        final(registry)@.ready(),
        final(registry)@.extends(old(registry)@),
        load_branch(ctx.runtime.big_endian, ctx, *m, *target)((*old(dom), old(registry)@), te, (*final(dom), final(registry)@)),
{
    proof { numeric_steps::extends_itself(registry@); }
    let big_endian: bool = ctx.runtime.big_endian;
    let width: i32 = m.access.width.bytes();
    match te {
        TypeEncoding::TCtx => {
            let mut trace = Trace::new(Ghost(big_endian), dom, registry);
            let base = reg_pack(&m.access.basereg, registry);
            let addr = address_of(base.ctx_offset, m.access.offset);
            addr.order_holds();
            ebpf_memory::do_load_ctx(dom, target, &addr, width, ctx, registry, &mut trace);
            proof {
                if old(dom).num() is None {
                    assert(trace.acts@ =~= seq![Act::IsNothing(true)]);
                } else {
                    let iv = choose|iv: Interval| trace.acts@ == Seq::<Act>::empty() + #[trigger] ebpf_memory::context_load_acts(*target, addr, iv, width as int, ctx);
                    assert(trace.acts@ =~= ebpf_memory::context_load_acts(*target, addr, iv, width as int, ctx));
                }
            }
        }
        TypeEncoding::TStack => { load_from_stack(dom, m, target, big_endian, registry); }
        TypeEncoding::TPacket | TypeEncoding::TShared => {
            let mut trace = Trace::new(Ghost(big_endian), dom, registry);
            ebpf_memory::do_load_packet_or_shared(dom, target, width, m.is_signed, registry, &mut trace);
            assert(trace.acts@ =~= if old(dom).num() is None { seq![Act::IsNothing(true)] } else { ebpf_memory::number_load_acts(*target, m.access.width.count(), m.is_signed) });
        }
        _ => {}
    }
}

fn do_load(dom: &mut EbpfDomain, m: &Mem, target: &Reg, ctx: &DomainContext, registry: &mut VariableRegistry)
    requires old(dom).wf(), old(registry)@.ready(), m.ok(), target.ok(), ctx.ok(),
    ensures
        final(dom).wf(),
        final(registry)@.ready(),
        load_effect(ctx.runtime.big_endian, ctx, *m, *target, (*old(dom), old(registry)@), (*final(dom), final(registry)@)),
{
    if m.access.basereg.v == R10_STACK_POINTER {
        load_from_stack(dom, m, target, ctx.runtime.big_endian, registry);
        return;
    }
    let base: Reg = m.access.basereg;
    let ghost start: Place = (*dom, registry@);
    let ghost rel = load_branch(ctx.runtime.big_endian, ctx, *m, *target);
    if !acts::is_initialized(dom, &base, registry) {
        load_one(dom, m, target, TypeEncoding::TUninit, ctx, registry);
        return;
    }
    let mut fold = Fold::new(dom, &base, registry, Ghost(rel));
    while fold.more()
        invariant
            m.ok(), target.ok(), ctx.ok(), base == m.access.basereg,
            dom.stack.wf(),
            fold.ok(dom.stack, registry@),
            fold.about() == (start, base, rel),
            rel == load_branch(ctx.runtime.big_endian, ctx, *m, *target),
            0 <= fold.count() <= fold.tes().len(),
            registry@.ready(),
        decreases fold.tes().len() - fold.count(),
    {
        let te = fold.take(dom, registry);
        let ghost input: Place = (*dom, registry@);
        load_one(dom, m, target, te, ctx, registry);
        fold.give(dom, registry, Ghost(input));
    }
    fold.finish(dom, registry);
}

// ---------------------------------------------------------------------------------------------
// Stores
// ---------------------------------------------------------------------------------------------

/// What is stored: a register, or a number as an expression.
pub struct Source {
    pub svalue: LinearExpression,
    pub uvalue: LinearExpression,
    pub reg: Option<Reg>,
}

/// A store to the stack at an address.
pub open spec fn stack_store_runs(be: bool, m: Mem, at: Sum, v: Source, a: Place, b: Place) -> bool {
    exists|addr: LinearExpression, w: StackStore| numeric_steps::sum_of(&addr) == at
        && acts::follows(be, a, #[trigger] ebpf_store::stack_store_acts(
            (Stored { addr, width: m.access.width.count() as i32, svalue: v.svalue, uvalue: v.uvalue, reg: v.reg }), w), b)
        && ebpf_store::store_is_typed((Stored { addr, width: m.access.width.count() as i32, svalue: v.svalue, uvalue: v.uvalue, reg: v.reg }), w)
}

/// What a store does where the base register has one type: only the stack is kept book of.
pub open spec fn store_branch(be: bool, m: Mem, v: Source) -> Transition {
    |a: Place, te: TypeEncoding, b: Place| if te is TStack { stack_store_runs(be, m, address(DataKind::StackOffsets, m), v, a, b) } else { a == b }
}

/// The stack offset of the frame pointer, where it is the base and the offset is known.
pub open spec fn frame_offset(m: Mem, d: &EbpfDomain) -> Option<int> {
    match d.state.values.interval(rcp::id_of(DataKind::StackOffsets, m.access.basereg)).singleton_spec() {
        Some(n) => if m.access.basereg.v == 10 && i64::MIN <= n@ <= i64::MAX { Some(number::wrap_signed(n@, 32)) } else { None },
        None => None,
    }
}

/// The address of an access at a known offset of the frame.
pub open spec fn frame_address(m: Mem, offset: int) -> Sum {
    numeric_steps::plus(numeric_steps::just_num(offset), numeric_steps::just_num(m.access.offset as int))
}

/// What a store does.
pub open spec fn store_effect(be: bool, m: Mem, v: Source, a: Place, b: Place) -> bool {
    if a.0.num() is None {
        a == b
    } else {
        match frame_offset(m, &a.0) {
            Some(o) => stack_store_runs(be, m, frame_address(m, o), v, a, b),
            None => branching::over_types(a, m.access.basereg, store_branch(be, m, v), b),
        }
    }
}

fn store_to_stack(dom: &mut EbpfDomain, m: &Mem, addr: &LinearExpression, svalue: &LinearExpression, uvalue: &LinearExpression, reg: &Option<Reg>, big_endian: bool, registry: &mut VariableRegistry)
    requires
        old(dom).wf(),
        old(registry)@.ready(),
        reg matches Some(q) ==> q.ok(),
        zone_domain::knows_terms(old(registry)@, addr.terms@),
        zone_domain::knows_terms(old(registry)@, svalue.terms@),
        zone_domain::knows_terms(old(registry)@, uvalue.terms@),
    ensures
        final(dom).wf(),
        final(registry)@.ready(),
        final(registry)@.extends(old(registry)@),
        stack_store_runs(big_endian, *m, numeric_steps::sum_of(addr), (Source { svalue: *svalue, uvalue: *uvalue, reg: *reg }), (*old(dom), old(registry)@), (*final(dom), final(registry)@)),
{
    let ghost start: Place = (*dom, registry@);
    let mut trace = Trace::new(Ghost(big_endian), dom, registry);
    let width: i32 = m.access.width.bytes();
    ebpf_store::do_store_stack(dom, addr, width, svalue, uvalue, reg, big_endian, registry, &mut trace);
    proof {
        let s = Stored { addr: *addr, width, svalue: *svalue, uvalue: *uvalue, reg: *reg };
        let w = choose|w: StackStore| trace.acts@ == Seq::<Act>::empty() + #[trigger] ebpf_store::stack_store_acts(s, w) && ebpf_store::store_is_typed(s, w);
        assert(trace.acts@ =~= ebpf_store::stack_store_acts(s, w));
        assert(acts::follows(big_endian, start, ebpf_store::stack_store_acts(s, w), (*dom, registry@)));
        acts::following_extends(big_endian, start, trace.acts@, (*dom, registry@));
    }
}

fn do_mem_store(dom: &mut EbpfDomain, m: &Mem, svalue: &LinearExpression, uvalue: &LinearExpression, reg: &Option<Reg>, big_endian: bool, registry: &mut VariableRegistry)
    requires
        old(dom).wf(),
        old(registry)@.ready(),
        m.ok(),
        reg matches Some(q) ==> q.ok(),
        zone_domain::knows_terms(old(registry)@, svalue.terms@),
        zone_domain::knows_terms(old(registry)@, uvalue.terms@),
    ensures
        final(dom).wf(),
        final(registry)@.ready(),
        store_effect(big_endian, *m, (Source { svalue: *svalue, uvalue: *uvalue, reg: *reg }), (*old(dom), old(registry)@), (*final(dom), final(registry)@)),
{
    if dom.is_bottom() {
        return;
    }
    let ghost r0 = registry@;
    let base: Reg = m.access.basereg;
    let offset: i32 = m.access.offset;
    if base.v == R10_STACK_POINTER {
        let pack = reg_pack(&base, registry);
        let iv = dom.state.values.eval_interval_var(pack.stack_offset, registry);
        if let Some(n) = iv.singleton() {
            if let Some(k) = n.to_i64() {
                let frame: i32 = array_domain::narrow_to_i32(k);
                let addr = LinearExpression::from_i64(frame as i64).plus(&LinearExpression::from_i64(offset as i64));
                store_to_stack(dom, m, &addr, svalue, uvalue, reg, big_endian, registry);
                return;
            }
        }
    }
    let ghost start: Place = (*dom, registry@);
    let ghost v = Source { svalue: *svalue, uvalue: *uvalue, reg: *reg };
    let ghost rel = store_branch(big_endian, *m, v);
    if !acts::is_initialized(dom, &base, registry) {
        return;
    }
    let mut fold = Fold::new(dom, &base, registry, Ghost(rel));
    proof { numeric_steps::extends_itself(r0); }
    while fold.more()
        invariant
            m.ok(), base == m.access.basereg, offset == m.access.offset,
            reg matches Some(q) ==> q.ok(),
            dom.stack.wf(),
            fold.ok(dom.stack, registry@),
            fold.about() == (start, base, rel),
            v == (Source { svalue: *svalue, uvalue: *uvalue, reg: *reg }),
            rel == store_branch(big_endian, *m, v),
            0 <= fold.count() <= fold.tes().len(),
            registry@.ready(),
            registry@.extends(r0),
            zone_domain::knows_terms(r0, svalue.terms@),
            zone_domain::knows_terms(r0, uvalue.terms@),
        decreases fold.tes().len() - fold.count(),
    {
        let ghost r1 = registry@;
        let te = fold.take(dom, registry);
        let ghost input: Place = (*dom, registry@);
        proof { numeric_steps::extends_itself(r1); }
        if matches!(te, TypeEncoding::TStack) {
            let pack = reg_pack(&base, registry);
            let addr = address_of(pack.stack_offset, offset);
            store_to_stack(dom, m, &addr, svalue, uvalue, reg, big_endian, registry);
        }
        let ghost r2 = registry@;
        proof { r2.extending_is_transitive(r1, r0); }
        fold.give(dom, registry, Ghost(input));
        proof { registry@.extending_is_transitive(r2, r0); }
    }
    fold.finish(dom, registry);
}

// ---------------------------------------------------------------------------------------------
// Loads, stores and atomic updates
// ---------------------------------------------------------------------------------------------

/// The extension that follows a signed load.
pub open spec fn extension_of(m: Mem, target: Reg) -> Bin {
    Bin {
        op: match m.access.width { AccessSize::Byte => BinOp::MOVSX8, AccessSize::Half => BinOp::MOVSX16, _ => BinOp::MOVSX32 },
        dst: target,
        v: Value::Reg(target),
        is64: true,
        lddw: false,
    }
}

/// What a register or a number is as the source of a store.
pub open spec fn is_source(value: Value, v: Source) -> bool {
    match value {
        Value::Reg(r) => v.reg == Some(r) && zone_domain::is_variable(&v.svalue, rcp::id_of(DataKind::Svalues, r))
            && zone_domain::is_variable(&v.uvalue, rcp::id_of(DataKind::Uvalues, r)),
        Value::Imm(i) => v.reg is None && finite_assume::is_constant(&v.svalue, ebpf_bin::immediate(i.v, true))
            && finite_assume::is_constant(&v.uvalue, ebpf_bin::immediate(i.v, true)),
    }
}

/// Whether an access is a load into a register.
pub open spec fn is_load(m: Mem) -> bool {
    m.is_load && m.value is Reg
}

/// What a load or a store does.
pub open spec fn mem_effect(be: bool, ctx: &DomainContext, m: Mem, a: Place, b: Place) -> bool {
    if a.0.num() is None {
        a == b
    } else if is_load(m) {
        if m.is_signed && !(m.access.width is DWord) {
            exists|mid: Place| #[trigger] load_effect(be, ctx, m, m.value->Reg_0, a, mid) && ebpf_bin::bin_effect(be, extension_of(m, m.value->Reg_0), mid, b)
        } else {
            load_effect(be, ctx, m, m.value->Reg_0, a, b)
        }
    } else {
        exists|v: Source| is_source(m.value, v) && #[trigger] store_effect(be, m, v, a, b)
    }
}

/// Performs a load or a store. Only a signed load of eight bytes is refused.
pub(crate) fn transform_mem(dom: &mut EbpfDomain, m: &Mem, ctx: &DomainContext, registry: &mut VariableRegistry) -> (r: Result<(), VerificationError>)
    requires old(dom).wf(), old(registry)@.ready(), m.ok(), ctx.ok(),
    ensures
        final(dom).wf(),
        final(registry)@.ready(),
        r is Err <==> old(dom).num() is Some && is_load(*m) && m.is_signed && m.access.width is DWord,
        mem_effect(ctx.runtime.big_endian, ctx, *m, (*old(dom), old(registry)@), (*final(dom), final(registry)@)),
        r matches Err(e) ==> e.message@ == "unexpected MEMSX width"@ && e.label is None,
{
    let ghost be = ctx.runtime.big_endian;
    let ghost start: Place = (*dom, registry@);
    if dom.is_bottom() {
        return Ok(());
    }
    match m.value {
        Value::Reg(preg) => {
            if m.is_load {
                do_load(dom, m, &preg, ctx, registry);
                if m.is_signed {
                    let op: BinOp = match m.access.width {
                        AccessSize::Byte => BinOp::MOVSX8,
                        AccessSize::Half => BinOp::MOVSX16,
                        AccessSize::Word => BinOp::MOVSX32,
                        AccessSize::DWord => {
                            return Err(VerificationError::new(String::from_str("unexpected MEMSX width")));
                        }
                    };
                    let ghost mid: Place = (*dom, registry@);
                    let bin = Bin { op, dst: preg, v: Value::Reg(preg), is64: true, lddw: false };
                    assert(bin == extension_of(*m, preg));
                    let r = ebpf_bin::transform_bin(dom, &bin, registry, Ghost(be));
                    assert(load_effect(be, ctx, *m, preg, start, mid));
                    return r;
                }
            } else {
                let pack = reg_pack(&preg, registry);
                let svalue = LinearExpression::from_variable(pack.svalue);
                let uvalue = LinearExpression::from_variable(pack.uvalue);
                let ghost v = Source { svalue, uvalue, reg: Some(preg) };
                do_mem_store(dom, m, &svalue, &uvalue, &Some(preg), ctx.runtime.big_endian, registry);
                assert(is_source(m.value, v) && store_effect(be, *m, v, start, (*dom, registry@)));
            }
        }
        Value::Imm(imm) => {
            let n: i64 = ebpf_bin::immediate_of(imm.v, true);
            let svalue = LinearExpression::from_i64(n);
            let uvalue = LinearExpression::from_i64(n);
            let ghost v = Source { svalue, uvalue, reg: None };
            do_mem_store(dom, m, &svalue, &uvalue, &None, ctx.runtime.big_endian, registry);
            assert(is_source(m.value, v) && store_effect(be, *m, v, start, (*dom, registry@)));
        }
    }
    Ok(())
}

/// The operation that an atomic update performs on the scratch register.
pub open spec fn update_of(x: Atomic) -> Bin {
    Bin {
        op: match x.op {
            AtomicOp::ADD => BinOp::ADD,
            AtomicOp::OR => BinOp::OR,
            AtomicOp::AND => BinOp::AND,
            AtomicOp::XOR => BinOp::XOR,
            _ => BinOp::MOV,
        },
        dst: Reg { v: 11 },
        v: Value::Reg(x.valreg),
        is64: x.access.width is DWord,
        lddw: false,
    }
}

fn atomic_to_bin(x: &Atomic) -> (r: Bin)
    ensures r == update_of(*x),
{
    let op: BinOp = match x.op {
        AtomicOp::ADD => BinOp::ADD,
        AtomicOp::OR => BinOp::OR,
        AtomicOp::AND => BinOp::AND,
        AtomicOp::XOR => BinOp::XOR,
        AtomicOp::XCHG | AtomicOp::CMPXCHG => BinOp::MOV,
    };
    Bin { op, dst: Reg { v: R11_ATOMIC_SCRATCH }, v: Value::Reg(x.valreg), is64: x.access.width == AccessSize::DWord, lddw: false }
}

/// The load of an atomic update's place into a register, and the store of the scratch register there.
pub open spec fn atomic_load(x: Atomic, r: Reg) -> Mem {
    Mem { access: x.access, value: Value::Reg(r), is_load: true, is_signed: false }
}

pub open spec fn atomic_store(x: Atomic) -> Mem {
    Mem { access: x.access, value: Value::Reg(Reg { v: 11 }), is_load: false, is_signed: false }
}

/// What an atomic update of the stack does: the old value is read and updated in the scratch
/// register, handed out where it is asked for, and written back.
pub open spec fn stack_update(be: bool, ctx: &DomainContext, x: Atomic, a: Place, b: Place) -> bool {
    let scratch = Reg { v: 11 };
    exists|p: Place, q: Place, r: Place, s: Place|
        #[trigger] mem_effect(be, ctx, atomic_load(x, scratch), a, p)
        && #[trigger] ebpf_bin::bin_effect(be, update_of(x), p, q)
        && #[trigger] handed_out(be, ctx, x, q, r)
        && #[trigger] mem_effect(be, ctx, atomic_store(x), r, s)
        && acts::follows(be, s, seq![ebpf_memory::forgets(scratch)], b)
}

/// The old value goes to the register that an atomic update hands it out in.
pub open spec fn handed_out(be: bool, ctx: &DomainContext, x: Atomic, a: Place, b: Place) -> bool {
    if x.op is CMPXCHG {
        exists|mid: Place| #[trigger] mem_effect(be, ctx, atomic_load(x, Reg { v: 0 }), a, mid) && acts::follows(be, mid, seq![ebpf_memory::forgets_values(Reg { v: 11 })], b)
    } else if x.fetch {
        mem_effect(be, ctx, atomic_load(x, x.valreg), a, b)
    } else {
        a == b
    }
}

/// The types of pointers.
pub open spec fn is_pointer_set(ts: TypeSet) -> bool {
    forall|t: TypeEncoding| #[trigger] ts.has(t) <==> (t is TCtx || t is TPacket || t is TStack || t is TShared)
}

/// A register has one of some types.
pub open spec fn in_group(d: &EbpfDomain, r: Reg, ts: TypeSet) -> bool {
    d.state.types.state is None || d.state.types.s().types_of(rcp::type_id(r)).subset(ts)
}

/// What an atomic update does. Memory that others change is not kept book of: what is read from it is
/// not known.
pub open spec fn atomic_effect(be: bool, ctx: &DomainContext, x: Atomic, a: Place, b: Place) -> bool {
    if a.0.num() is None {
        a == b
    } else {
        exists|ts: TypeSet| #[trigger] is_pointer_set(ts) && (if !in_group(&a.0, x.access.basereg, ts) || !in_group(&a.0, x.valreg, TypeSet::just(TypeEncoding::TNum)) {
            a == b
        } else if !a.0.state.types.may_have(rcp::type_id(x.access.basereg), TypeEncoding::TStack) {
            if x.op is CMPXCHG {
                acts::follows(be, a, seq![ebpf_memory::forgets_values(Reg { v: 0 })], b)
            } else if x.fetch {
                acts::follows(be, a, seq![ebpf_memory::forgets_values(x.valreg)], b)
            } else {
                a == b
            }
        } else {
            stack_update(be, ctx, x, a, b)
        })
    }
}

/// Forgets the values of a register.
fn drop_values(dom: &mut EbpfDomain, reg: &Reg, registry: &VariableRegistry, Ghost(be): Ghost<bool>)
    requires old(dom).wf(), registry@.ready(), reg.ok(),
    ensures final(dom).wf(), acts::follows(be, (*old(dom), registry@), seq![ebpf_memory::forgets_values(*reg)], (*final(dom), registry@)),
{
    let mut trace = Trace::new(Ghost(be), dom, registry);
    acts::forget_values(dom, reg, registry, &mut trace);
    assert(trace.acts@ =~= seq![ebpf_memory::forgets_values(*reg)]);
}

fn hand_out(dom: &mut EbpfDomain, x: &Atomic, ctx: &DomainContext, registry: &mut VariableRegistry)
    requires old(dom).wf(), old(registry)@.ready(), x.access.basereg.ok(), x.valreg.ok(), ctx.ok(),
    ensures
        final(dom).wf(),
        final(registry)@.ready(),
        handed_out(ctx.runtime.big_endian, ctx, *x, (*old(dom), old(registry)@), (*final(dom), final(registry)@)),
{
    let ghost be = ctx.runtime.big_endian;
    if x.op == AtomicOp::CMPXCHG {
        let load_r0 = Mem { access: x.access, value: Value::Reg(Reg { v: R0_RETURN_VALUE }), is_load: true, is_signed: false };
        let _ok = transform_mem(dom, &load_r0, ctx, registry);
        assert(mem_effect(be, ctx, atomic_load(*x, Reg { v: 0 }), (*old(dom), old(registry)@), (*dom, registry@)));
        drop_values(dom, &Reg { v: R11_ATOMIC_SCRATCH }, registry, Ghost(be));
    } else if x.fetch {
        let load_valreg = Mem { access: x.access, value: Value::Reg(x.valreg), is_load: true, is_signed: false };
        let _ok = transform_mem(dom, &load_valreg, ctx, registry);
    }
}

fn update_stack(dom: &mut EbpfDomain, x: &Atomic, ctx: &DomainContext, registry: &mut VariableRegistry)
    requires old(dom).wf(), old(registry)@.ready(), x.access.basereg.ok(), x.valreg.ok(), ctx.ok(),
    ensures
        final(dom).wf(),
        final(registry)@.ready(),
        stack_update(ctx.runtime.big_endian, ctx, *x, (*old(dom), old(registry)@), (*final(dom), final(registry)@)),
{
    let ghost be = ctx.runtime.big_endian;
    let r11 = Reg { v: R11_ATOMIC_SCRATCH };
    let load_mem = Mem { access: x.access, value: Value::Reg(r11), is_load: true, is_signed: false };
    let _loaded = transform_mem(dom, &load_mem, ctx, registry);
    let ghost p: Place = (*dom, registry@);
    let bin = atomic_to_bin(x);
    let _updated = ebpf_bin::transform_bin(dom, &bin, registry, Ghost(be));
    let ghost q: Place = (*dom, registry@);
    hand_out(dom, x, ctx, registry);
    let ghost r: Place = (*dom, registry@);
    let store_mem = Mem { access: x.access, value: Value::Reg(r11), is_load: false, is_signed: false };
    let _stored = transform_mem(dom, &store_mem, ctx, registry);
    let ghost s: Place = (*dom, registry@);
    let mut trace = Trace::new(Ghost(be), dom, registry);
    acts::forget_register(dom, &r11, registry, &mut trace);
    proof {
        assert(trace.acts@ =~= seq![ebpf_memory::forgets(Reg { v: 11 })]);
        assert(mem_effect(be, ctx, atomic_load(*x, Reg { v: 11 }), (*old(dom), old(registry)@), p));
        assert(ebpf_bin::bin_effect(be, update_of(*x), p, q));
        assert(handed_out(be, ctx, *x, q, r));
        assert(mem_effect(be, ctx, atomic_store(*x), r, s));
    }
}

/// Performs an atomic update.
pub(crate) fn transform_atomic(dom: &mut EbpfDomain, x: &Atomic, ctx: &DomainContext, registry: &mut VariableRegistry)
    requires old(dom).wf(), old(registry)@.ready(), x.access.basereg.ok(), x.valreg.ok(), ctx.ok(),
    ensures
        final(dom).wf(),
        final(registry)@.ready(),
        atomic_effect(ctx.runtime.big_endian, ctx, *x, (*old(dom), old(registry)@), (*final(dom), final(registry)@)),
{
    let ghost be = ctx.runtime.big_endian;
    if dom.is_bottom() {
        return;
    }
    let pointers = ts_pointer();
    assert(is_pointer_set(pointers));
    proof {
        registry@.register_variable(DataKind::Types, x.access.basereg.v as int);
        registry@.register_is_there(DataKind::Types, x.access.basereg.v as int, crate::var_registry::kind_meta(DataKind::Types, false));
        registry@.register_variable(DataKind::Types, x.valreg.v as int);
        registry@.register_is_there(DataKind::Types, x.valreg.v as int, crate::var_registry::kind_meta(DataKind::Types, false));
    }
    if !dom.state.types.is_in_group(&x.access.basereg, pointers, registry) {
        return;
    }
    if !dom.state.types.is_in_group(&x.valreg, TypeSet::singleton(TypeEncoding::TNum), registry) {
        return;
    }
    if !dom.state.types.may_have_type_reg(&x.access.basereg, TypeEncoding::TStack, registry) {
        if x.op == AtomicOp::CMPXCHG {
            drop_values(dom, &Reg { v: R0_RETURN_VALUE }, registry, Ghost(be));
        } else if x.fetch {
            drop_values(dom, &x.valreg, registry, Ghost(be));
        }
        return;
    }
    update_stack(dom, x, ctx, registry);
}

}
