//! Loads from and stores to the memory that a program sees.
use vstd::prelude::*;
use crate::acts;
use crate::acts::{Act, Place, Trace, TypeChange};
use crate::arith::linear_constraint::leq;
use crate::arith::linear_expression::LinearExpression;
use crate::arith::number::Number;
use crate::arith::variable::Variable;
use crate::config::{DomainContext, EbpfContextDescriptor};
use crate::ebpf_domain::EbpfDomain;
use crate::interval::Interval;
use crate::numeric_ops;
use crate::numeric_ops::Log;
use crate::numeric_steps;
use crate::numeric_steps::{Lin, Step};
use crate::array_domain;
use crate::rcp;
use crate::rcp::{reg_pack, type_to_kinds};
use crate::syntax::Reg;
use crate::type_encoding::{DataKind, TypeEncoding};
use crate::var_registry;
use crate::var_registry::VariableRegistry;
use crate::zone_domain;

verus! {

/// Numeric operations alone.
pub open spec fn numbers(ops: Seq<Step>) -> Act {
    Act::Update(TypeChange::Same, ops)
}

/// A register gets a type.
pub open spec fn gives(reg: Reg, te: TypeEncoding) -> Act {
    Act::Update(TypeChange::Given(rcp::type_id(reg), te), seq![])
}

/// A register is forgotten.
pub open spec fn forgets(reg: Reg) -> Act {
    Act::Update(TypeChange::Forgot(rcp::type_id(reg)), rcp::forget_steps(rcp::value_ids(reg)))
}

/// The values of a register are forgotten.
pub open spec fn forgets_values(reg: Reg) -> Act {
    numbers(rcp::forget_steps(rcp::value_ids(reg)))
}

/// The offsets of a register are forgotten.
pub open spec fn forgets_offsets(reg: Reg) -> Act {
    numbers(rcp::forget_steps(rcp::offset_ids(reg)))
}

/// A pointer has a value in range, zero among them where it may be null.
pub open spec fn valid_ptr_steps(reg: Reg, maybe_null: bool, limit: int) -> Seq<Step> {
    let u = rcp::id_of(DataKind::Uvalues, reg);
    seq![
        Step::Forget(u),
        if maybe_null { numeric_ops::var_at_least(u, 0) } else { numeric_ops::var_above(u, 0) },
        numeric_ops::var_at_most(u, limit),
    ]
}

/// Makes a register a pointer in range.
pub(crate) fn assign_valid_ptr(dom: &mut EbpfDomain, dst_reg: &Reg, maybe_null: bool, ctx: &DomainContext, registry: &VariableRegistry, trace: &mut Trace)
    requires old(trace).leads_to(old(dom), registry@), dst_reg.ok(),
    ensures
        final(trace).leads_to(final(dom), registry@),
        final(trace).with(numbers(valid_ptr_steps(*dst_reg, maybe_null, ctx.runtime.pointer_limit())), old(trace)),
{
    let ghost before: Place = (*dom, registry@);
    let r = reg_pack(dst_reg, registry);
    let mut log = Log::new(&dom.state.values, registry);
    numeric_ops::forget(&mut dom.state.values, r.uvalue, registry, &mut log);
    if maybe_null {
        numeric_ops::say_var_at_least(&mut dom.state.values, r.uvalue, 0, registry, &mut log);
    } else {
        numeric_ops::say_var_above(&mut dom.state.values, r.uvalue, 0, registry, &mut log);
    }
    numeric_ops::say_var_at_most(&mut dom.state.values, r.uvalue, ctx.runtime.ptr_max(), registry, &mut log);
    assert(log.done@ =~= valid_ptr_steps(*dst_reg, maybe_null, ctx.runtime.pointer_limit()));
    trace.numbers(&log, Ghost(before), dom, registry);
}

// ---------------------------------------------------------------------------------------------
// Context
// ---------------------------------------------------------------------------------------------

/// Whether an access may touch a packet pointer of the context.
pub open spec fn may_touch_pointer(iv: Interval, d: EbpfContextDescriptor) -> bool {
    iv.has(d.data as int) || iv.has(d.meta as int) || iv.has(d.end as int)
}

/// A register of which the context says no more than that it is a number, or not even that.
pub open spec fn plain_context_acts(target: Reg, touches: bool) -> Seq<Act> {
    if touches { seq![Act::Update(TypeChange::Forgot(rcp::type_id(target)), seq![])] } else { seq![gives(target, TypeEncoding::TNum)] }
}

/// The offset of a pointer that the context holds at a place, where it holds one there.
pub open spec fn context_pointer_steps(target: Reg, at: int, d: EbpfContextDescriptor, max_packet_size: int) -> Option<Seq<Step>> {
    let p = rcp::id_of(DataKind::PacketOffsets, target);
    if at == d.data {
        Some(seq![numeric_ops::set_number(p, 0)])
    } else if at == d.end {
        Some(seq![Step::Copy(p, 183), numeric_ops::var_below(p, max_packet_size)])
    } else if at == d.meta {
        Some(seq![Step::Copy(p, 182)])
    } else {
        None
    }
}

/// What a load from the context does: a packet pointer comes from the three slots that hold one,
/// when the whole slot is read; everything else is a number, or unknown where a slot may be touched.
pub open spec fn context_load_acts(target: Reg, addr: LinearExpression, iv: Interval, width: int, ctx: &DomainContext) -> Seq<Act> {
    let d = ctx.layout();
    let u = rcp::id_of(DataKind::Uvalues, target);
    if d.end < 0 {
        seq![Act::IsNothing(false), forgets(target), gives(target, TypeEncoding::TNum)]
    } else {
        seq![Act::IsNothing(false), Act::Value(addr, iv), forgets(target)] + (match iv.singleton_spec() {
            None => plain_context_acts(target, may_touch_pointer(iv, d)),
            Some(n) => match context_pointer_steps(target, n@, d, ctx.runtime.max_packet_size as int) {
                None => plain_context_acts(target, may_touch_pointer(iv, d)),
                Some(ops) => if width == d.end - d.data {
                    seq![
                        numbers(ops),
                        gives(target, TypeEncoding::TPacket),
                        numbers(seq![numeric_ops::var_at_least(u, 4098), numeric_ops::var_at_most(u, ctx.runtime.pointer_limit())]),
                    ]
                } else {
                    seq![]
                },
            },
        })
    }
}

fn plain_context(dom: &mut EbpfDomain, target_reg: &Reg, touches: bool, registry: &mut VariableRegistry, trace: &mut Trace)
    requires old(trace).leads_to(old(dom), old(registry)@), target_reg.ok(),
    ensures
        final(registry)@ == old(registry)@,
        final(trace).leads_to(final(dom), final(registry)@),
        final(trace).grew(old(trace), plain_context_acts(*target_reg, touches)),
{
    let ghost t0 = trace.acts@;
    if touches {
        acts::forget_type(dom, target_reg, registry, trace);
    } else {
        acts::give_type(dom, target_reg, TypeEncoding::TNum, registry, trace);
    }
    assert(trace.acts@ =~= t0 + plain_context_acts(*target_reg, touches));
}

pub(crate) fn do_load_ctx(dom: &mut EbpfDomain, target_reg: &Reg, addr_vague: &LinearExpression, width: i32, ctx: &DomainContext, registry: &mut VariableRegistry, trace: &mut Trace)
    requires old(trace).leads_to(old(dom), old(registry)@), target_reg.ok(), ctx.ok(),
    ensures
        final(registry)@ == old(registry)@,
        final(trace).leads_to(final(dom), final(registry)@),
        old(dom).num() is None ==> final(trace).grew(old(trace), seq![Act::IsNothing(true)]),
        old(dom).num() is Some ==> exists|iv: Interval| final(trace).grew(old(trace), #[trigger] context_load_acts(*target_reg, *addr_vague, iv, width as int, ctx)),
{
    let ghost t0 = trace.acts@;
    let ghost trace0 = *trace;
    if acts::test_nothing(dom, registry, trace) {
        assert(trace.acts@ =~= t0 + seq![Act::IsNothing(true)]);
        return;
    }
    let desc = ctx.descriptor();
    let target = reg_pack(target_reg, registry);
    if desc.end < 0 {
        acts::forget_register(dom, target_reg, registry, trace);
        acts::give_type(dom, target_reg, TypeEncoding::TNum, registry, trace);
        assert(trace.acts@ =~= t0 + context_load_acts(*target_reg, *addr_vague, Interval::all(), width as int, ctx));
        return;
    }
    let interval = acts::evaluate(dom, addr_vague, registry, trace);
    acts::forget_register(dom, target_reg, registry, trace);
    let touches: bool = interval.contains(&Number::of(desc.data as i128)) || interval.contains(&Number::of(desc.meta as i128))
        || interval.contains(&Number::of(desc.end as i128));
    let ghost t1 = trace.acts@;
    let ghost want = context_load_acts(*target_reg, *addr_vague, interval, width as int, ctx);
    assert(touches == may_touch_pointer(interval, desc));
    match interval.singleton() {
        None => {
            plain_context(dom, target_reg, touches, registry, trace);
            assert(trace.acts@ =~= t0 + want);
        }
        Some(n) => {
            let at_data: bool = n.n == desc.data as i128;
            let at_end: bool = n.n == desc.end as i128;
            let at_meta: bool = n.n == desc.meta as i128;
            if !at_data && !at_end && !at_meta {
                plain_context(dom, target_reg, touches, registry, trace);
                assert(trace.acts@ =~= t0 + want);
                return;
            }
            if width as i64 != desc.end as i64 - desc.data as i64 {
                assert(trace.acts@ =~= t0 + want);
                return;
            }
            proof { registry@.packet_variables(); }
            let packet_size = registry.packet_size();
            let meta_offset = registry.meta_offset();
            let ghost before: Place = (*dom, registry@);
            let mut log = Log::new(&dom.state.values, registry);
            if at_data {
                numeric_ops::number(&mut dom.state.values, target.packet_offset, 0, registry, &mut log);
            } else if at_end {
                numeric_ops::copy_var(&mut dom.state.values, target.packet_offset, packet_size, registry, &mut log);
                numeric_ops::say_var_below(&mut dom.state.values, target.packet_offset, ctx.runtime.max_packet_size as i64, registry, &mut log);
            } else {
                numeric_ops::copy_var(&mut dom.state.values, target.packet_offset, meta_offset, registry, &mut log);
            }
            assert(Some(log.done@) == context_pointer_steps(*target_reg, n@, desc, ctx.runtime.max_packet_size as int)) by {
                assert(log.done@ =~= context_pointer_steps(*target_reg, n@, desc, ctx.runtime.max_packet_size as int)->Some_0);
            }
            trace.numbers(&log, Ghost(before), dom, registry);
            acts::give_type(dom, target_reg, TypeEncoding::TPacket, registry, trace);
            let ghost before2: Place = (*dom, registry@);
            let mut log2 = Log::new(&dom.state.values, registry);
            numeric_ops::say_var_at_least(&mut dom.state.values, target.uvalue, 4098, registry, &mut log2);
            numeric_ops::say_var_at_most(&mut dom.state.values, target.uvalue, ctx.runtime.ptr_max(), registry, &mut log2);
            assert(log2.done@ =~= seq![numeric_ops::var_at_least(target.uvalue.id, 4098), numeric_ops::var_at_most(target.uvalue.id, ctx.runtime.pointer_limit())]);
            trace.numbers(&log2, Ghost(before2), dom, registry);
            assert(trace.acts@ =~= t0 + want);
        }
    }
}

// ---------------------------------------------------------------------------------------------
// Packets and shared memory
// ---------------------------------------------------------------------------------------------

/// The range of a value of a few bytes.
pub open spec fn loaded_range_steps(target: Reg, width: int, is_signed: bool) -> Seq<Step> {
    let s = rcp::id_of(DataKind::Svalues, target);
    let u = rcp::id_of(DataKind::Uvalues, target);
    if is_signed && (width == 1 || width == 2 || width == 4) {
        seq![Step::Put(s, Interval::signed_int_spec(width * 8)), Step::Put(u, Interval::unsigned_int_spec(width * 8))]
    } else if width == 1 || width == 2 {
        seq![Step::Put(s, Interval::unsigned_int_spec(width * 8)), Step::Put(u, Interval::unsigned_int_spec(width * 8))]
    } else {
        seq![]
    }
}

/// What a load of a number does.
pub open spec fn number_load_acts(target: Reg, width: int, is_signed: bool) -> Seq<Act> {
    seq![Act::IsNothing(false), forgets(target), gives(target, TypeEncoding::TNum), numbers(loaded_range_steps(target, width, is_signed))]
}

pub(crate) fn do_load_packet_or_shared(dom: &mut EbpfDomain, target_reg: &Reg, width: i32, is_signed: bool, registry: &mut VariableRegistry, trace: &mut Trace)
    requires old(trace).leads_to(old(dom), old(registry)@), target_reg.ok(),
    ensures
        final(registry)@ == old(registry)@,
        final(trace).leads_to(final(dom), final(registry)@),
        final(trace).grew(old(trace), if old(dom).num() is None { seq![Act::IsNothing(true)] } else { number_load_acts(*target_reg, width as int, is_signed) }),
{
    let ghost t0 = trace.acts@;
    if acts::test_nothing(dom, registry, trace) {
        assert(trace.acts@ =~= t0 + seq![Act::IsNothing(true)]);
        return;
    }
    let target = reg_pack(target_reg, registry);
    acts::forget_register(dom, target_reg, registry, trace);
    acts::give_type(dom, target_reg, TypeEncoding::TNum, registry, trace);
    let ghost before: Place = (*dom, registry@);
    let mut log = Log::new(&dom.state.values, registry);
    if is_signed && (width == 1 || width == 2 || width == 4) {
        numeric_ops::put(&mut dom.state.values, target.svalue, &Interval::signed_int(width * 8), registry, &mut log);
        numeric_ops::put(&mut dom.state.values, target.uvalue, &Interval::unsigned_int(width * 8), registry, &mut log);
    } else if width == 1 || width == 2 {
        let full = Interval::unsigned_int(width * 8);
        numeric_ops::put(&mut dom.state.values, target.svalue, &full, registry, &mut log);
        numeric_ops::put(&mut dom.state.values, target.uvalue, &full, registry, &mut log);
    }
    assert(log.done@ =~= loaded_range_steps(*target_reg, width as int, is_signed));
    trace.numbers(&log, Ghost(before), dom, registry);
    assert(trace.acts@ =~= t0 + number_load_acts(*target_reg, width as int, is_signed));
}

// ---------------------------------------------------------------------------------------------
// The stack: loads
// ---------------------------------------------------------------------------------------------

/// The kinds of some types, one type after the other.
pub open spec fn all_kinds(tes: Seq<TypeEncoding>) -> Seq<DataKind>
    decreases tes.len(),
{
    if tes.len() == 0 { seq![] } else { all_kinds(tes.drop_last()) + rcp::kinds_of(tes.last()) }
}

pub(crate) fn list_kinds(tes: &Vec<TypeEncoding>) -> (r: Vec<DataKind>)
    ensures r@ == all_kinds(tes@),
{
    let mut out: Vec<DataKind> = Vec::new();
    let mut i: usize = 0;
    while i < tes.len()
        invariant i <= tes.len(), out@ == all_kinds(tes@.take(i as int)),
        decreases tes.len() - i,
    {
        let mut kinds = type_to_kinds(tes[i]);
        out.append(&mut kinds);
        assert(tes@.take(i + 1).drop_last() =~= tes@.take(i as int));
        i = i + 1;
    }
    assert(tes@.take(tes@.len() as int) =~= tes@);
    out
}

/// The loads of the variables of some kinds of a register.
pub open spec fn kind_load_acts(target: Reg, iv: Interval, width: i32, kinds: Seq<DataKind>, es: Seq<Option<LinearExpression>>, n: nat) -> Seq<Act>
    decreases n,
{
    if n == 0 {
        seq![]
    } else {
        kind_load_acts(target, iv, width, kinds, es, (n - 1) as nat) + seq![
            Act::Load(kinds[n - 1], iv, width, es[n - 1]),
            numbers(seq![array_domain::assignment(rcp::id_of(kinds[n - 1], target), es[n - 1])]),
        ]
    }
}

/// What the tests and reads of a load from the stack gave.
pub struct StackLoad {
    /// The address.
    pub iv: Interval,
    /// Whether the bytes are numbers by what is known of the pointer.
    pub numeric: bool,
    /// The type read otherwise, and whether it leaves the register initialized.
    pub typed: Option<LinearExpression>,
    pub initialized: bool,
    /// The values read.
    pub svalue: Option<LinearExpression>,
    pub uvalue: Option<LinearExpression>,
    pub tes: Seq<TypeEncoding>,
    pub kinds: Seq<Option<LinearExpression>>,
}

/// The bytes that a pointer points to include those of an access.
pub open spec fn numeric_access(src: Reg, width: int) -> Lin {
    numeric_steps::at_most(numeric_steps::just_num(width), numeric_steps::just_var(rcp::id_of(DataKind::StackNumericSizes, src)))
}

/// The type of what a load from the stack reads.
pub open spec fn stack_load_type_acts(target: Reg, addr: LinearExpression, width: i32, src: Reg, w: StackLoad) -> Seq<Act> {
    seq![Act::Value(addr, w.iv), Act::Entails(numeric_access(src, width as int), w.numeric)] + (if w.numeric {
        seq![gives(target, TypeEncoding::TNum)]
    } else {
        seq![Act::LoadType(w.iv, width, w.typed), Act::TypeBy(rcp::type_id(target), w.typed), Act::Initialized(target, w.initialized)]
    })
}

/// The values of what a load from the stack reads. They are read before the register is forgotten,
/// since the address may come from it.
pub open spec fn stack_load_value_acts(target: Reg, width: i32, w: StackLoad) -> Seq<Act> {
    if width == 1 || width == 2 || width == 4 || width == 8 {
        seq![
            Act::Load(DataKind::Svalues, w.iv, width, w.svalue),
            Act::Load(DataKind::Uvalues, w.iv, width, w.uvalue),
            forgets_values(target),
            numbers(seq![
                array_domain::assignment(rcp::id_of(DataKind::Svalues, target), w.svalue),
                array_domain::assignment(rcp::id_of(DataKind::Uvalues, target), w.uvalue),
            ]),
            Act::Iterated(target, w.tes),
        ] + kind_load_acts(target, w.iv, width, all_kinds(w.tes), w.kinds, all_kinds(w.tes).len())
    } else {
        seq![forgets_values(target)]
    }
}

/// What a load from the stack does.
pub open spec fn stack_load_acts(target: Reg, addr: LinearExpression, width: i32, src: Reg, w: StackLoad) -> Seq<Act> {
    stack_load_type_acts(target, addr, width, src, w) + (if !w.numeric && !w.initialized {
        seq![forgets(target)]
    } else {
        stack_load_value_acts(target, width, w)
    })
}

/// Assigns an expression or forgets.
fn assign_or_forget(dom: &mut EbpfDomain, x: Variable, e: &Option<LinearExpression>, registry: &VariableRegistry, log: &mut Log)
    requires
        old(dom).wf(), old(log).leads_to(&old(dom).state.values, registry@), registry@.knows(x),
        e matches Some(expr) ==> zone_domain::knows_terms(registry@, expr.terms@),
    ensures
        final(dom).wf(),
        final(dom).stack == old(dom).stack,
        final(dom).state.types == old(dom).state.types,
        final(log).leads_to(&final(dom).state.values, registry@),
        final(log).with(array_domain::assignment(x.id, *e), old(log)),
{
    match e {
        Some(expr) => { numeric_ops::assign(&mut dom.state.values, x, expr, registry, log); }
        None => { numeric_ops::forget(&mut dom.state.values, x, registry, log); }
    }
}

fn load_kinds(dom: &mut EbpfDomain, target_reg: &Reg, addr: &Interval, width: i32, kinds: &Vec<DataKind>, big_endian: bool, registry: &mut VariableRegistry, trace: &mut Trace) -> (es: Ghost<Seq<Option<LinearExpression>>>)
    requires old(trace).leads_to(old(dom), old(registry)@), target_reg.ok(), width >= 0, big_endian == old(trace).be@,
    ensures
        final(trace).leads_to(final(dom), final(registry)@),
        final(trace).grew(old(trace), kind_load_acts(*target_reg, *addr, width, kinds@, es@, kinds@.len())),
{
    let ghost trace0 = *trace;
    let ghost mut es: Seq<Option<LinearExpression>> = seq![];
    let mut i: usize = 0;
    assert(trace.acts@ =~= trace0.acts@ + kind_load_acts(*target_reg, *addr, width, kinds@, es, 0));
    while i < kinds.len()
        invariant
            i <= kinds.len(),
            target_reg.ok(),
            width >= 0,
            big_endian == trace.be@,
            es.len() == i,
            trace.leads_to(dom, registry@),
            trace.grew(&trace0, kind_load_acts(*target_reg, *addr, width, kinds@, es, i as nat)),
        decreases kinds.len() - i,
    {
        let kind: DataKind = kinds[i];
        let loaded = acts::load_value(dom, kind, addr, width, big_endian, registry, trace);
        proof { registry@.register_variable(kind, target_reg.v as int); registry@.register_is_there(kind, target_reg.v as int, var_registry::kind_meta(kind, false)); }
        let x = registry.reg(kind, target_reg.v as i32);
        let ghost before: Place = (*dom, registry@);
        let mut log = Log::new(&dom.state.values, registry);
        assign_or_forget(dom, x, &loaded, registry, &mut log);
        assert(log.done@ =~= seq![array_domain::assignment(rcp::id_of(kind, *target_reg), loaded)]);
        trace.numbers(&log, Ghost(before), dom, registry);
        proof {
            let old_es = es;
            es = es.push(loaded);
            lemma_kind_loads_same(*target_reg, *addr, width, kinds@, old_es, es, i as nat);
            assert(trace.acts@ =~= trace0.acts@ + kind_load_acts(*target_reg, *addr, width, kinds@, es, (i + 1) as nat));
        }
        i = i + 1;
    }
    Ghost(es)
}

proof fn lemma_kind_loads_same(target: Reg, iv: Interval, width: i32, kinds: Seq<DataKind>, a: Seq<Option<LinearExpression>>, b: Seq<Option<LinearExpression>>, n: nat)
    requires n <= a.len(), n <= b.len(), forall|i: int| 0 <= i < n ==> a[i] == b[i],
    ensures kind_load_acts(target, iv, width, kinds, a, n) == kind_load_acts(target, iv, width, kinds, b, n),
    decreases n,
{
    if n > 0 { lemma_kind_loads_same(target, iv, width, kinds, a, b, (n - 1) as nat); }
}

/// Reads the type; also the address, and whether the register is worth reading values for.
fn load_stack_type(dom: &mut EbpfDomain, target_reg: &Reg, symb_addr: &LinearExpression, width: i32, src_reg: &Reg, registry: &mut VariableRegistry, trace: &mut Trace) -> (r: (Interval, bool, Ghost<StackLoad>))
    requires old(trace).leads_to(old(dom), old(registry)@), target_reg.ok(), src_reg.ok(), width >= 0,
    ensures
        final(trace).leads_to(final(dom), final(registry)@),
        final(trace).grew(old(trace), stack_load_type_acts(*target_reg, *symb_addr, width, *src_reg, r.2@)),
        r.0 == r.2@.iv,
        r.1 == (r.2@.numeric || r.2@.initialized),
{
    let ghost t0 = trace.acts@;
    let addr = acts::evaluate(dom, symb_addr, registry, trace);
    let src_pack = reg_pack(src_reg, registry);
    let wide = LinearExpression::from_i64(width as i64);
    let size = LinearExpression::from_variable(src_pack.stack_numeric_size);
    proof { numeric_ops::combination_is_known(registry@, wide.terms@, -1, size.terms@); }
    let cst = leq(wide, size);
    assert(numeric_steps::lin_of(&cst) == numeric_access(*src_reg, width as int));
    let numeric: bool = acts::test_entails(dom, &cst, registry, trace);
    if numeric {
        acts::give_type(dom, target_reg, TypeEncoding::TNum, registry, trace);
        let ghost w = StackLoad { iv: addr, numeric, typed: None, initialized: true, svalue: None, uvalue: None, tes: seq![], kinds: seq![] };
        assert(trace.acts@ =~= t0 + stack_load_type_acts(*target_reg, *symb_addr, width, *src_reg, w));
        (addr, true, Ghost(w))
    } else {
        let typed = acts::load_type_range(dom, &addr, width, registry, trace);
        acts::type_register_by(dom, target_reg, &typed, registry, trace);
        let initialized: bool = acts::test_initialized(dom, target_reg, registry, trace);
        let ghost w = StackLoad { iv: addr, numeric, typed, initialized, svalue: None, uvalue: None, tes: seq![], kinds: seq![] };
        assert(trace.acts@ =~= t0 + stack_load_type_acts(*target_reg, *symb_addr, width, *src_reg, w));
        (addr, initialized, Ghost(w))
    }
}

/// Reads the values.
fn load_stack_values(dom: &mut EbpfDomain, target_reg: &Reg, addr: &Interval, width: i32, big_endian: bool, registry: &mut VariableRegistry, trace: &mut Trace, Ghost(w): Ghost<StackLoad>) -> (r: Ghost<StackLoad>)
    requires old(trace).leads_to(old(dom), old(registry)@), target_reg.ok(), width >= 0, big_endian == old(trace).be@, w.iv == *addr,
    ensures
        final(trace).leads_to(final(dom), final(registry)@),
        final(trace).grew(old(trace), stack_load_value_acts(*target_reg, width, r@)),
        r@.iv == w.iv && r@.numeric == w.numeric && r@.typed == w.typed && r@.initialized == w.initialized,
{
    let ghost t0 = trace.acts@;
    let target = reg_pack(target_reg, registry);
    if width == 1 || width == 2 || width == 4 || width == 8 {
        let sresult = acts::load_value(dom, DataKind::Svalues, addr, width, big_endian, registry, trace);
        let uresult = acts::load_value(dom, DataKind::Uvalues, addr, width, big_endian, registry, trace);
        acts::forget_values(dom, target_reg, registry, trace);
        let ghost before: Place = (*dom, registry@);
        proof {
            registry@.register_variable(DataKind::Svalues, target_reg.v as int);
            registry@.register_variable(DataKind::Uvalues, target_reg.v as int);
        }
        let mut log = Log::new(&dom.state.values, registry);
        assign_or_forget(dom, target.svalue, &sresult, registry, &mut log);
        assign_or_forget(dom, target.uvalue, &uresult, registry, &mut log);
        assert(log.done@ =~= seq![
            array_domain::assignment(rcp::id_of(DataKind::Svalues, *target_reg), sresult),
            array_domain::assignment(rcp::id_of(DataKind::Uvalues, *target_reg), uresult),
        ]);
        trace.numbers(&log, Ghost(before), dom, registry);
        let tes = acts::list_types(dom, target_reg, registry, trace);
        let kinds = list_kinds(&tes);
        let es = load_kinds(dom, target_reg, addr, width, &kinds, big_endian, registry, trace);
        let ghost w2 = StackLoad { svalue: sresult, uvalue: uresult, tes: tes@, kinds: es@, ..w };
        assert(trace.acts@ =~= t0 + stack_load_value_acts(*target_reg, width, w2));
        Ghost(w2)
    } else {
        acts::forget_values(dom, target_reg, registry, trace);
        assert(trace.acts@ =~= t0 + stack_load_value_acts(*target_reg, width, w));
        Ghost(w)
    }
}

pub(crate) fn do_load_stack(dom: &mut EbpfDomain, target_reg: &Reg, symb_addr: &LinearExpression, width: i32, src_reg: &Reg, big_endian: bool, registry: &mut VariableRegistry, trace: &mut Trace)
    requires old(trace).leads_to(old(dom), old(registry)@), target_reg.ok(), src_reg.ok(), width >= 0, big_endian == old(trace).be@,
    ensures
        final(trace).leads_to(final(dom), final(registry)@),
        exists|w: StackLoad| final(trace).grew(old(trace), #[trigger] stack_load_acts(*target_reg, *symb_addr, width, *src_reg, w)),
{
    let ghost t0 = trace.acts@;
    let (addr, useful, seen) = load_stack_type(dom, target_reg, symb_addr, width, src_reg, registry, trace);
    let ghost w = seen@;
    if !useful {
        acts::forget_register(dom, target_reg, registry, trace);
        assert(trace.acts@ =~= t0 + stack_load_acts(*target_reg, *symb_addr, width, *src_reg, w));
        return;
    }
    let all = load_stack_values(dom, target_reg, &addr, width, big_endian, registry, trace, seen);
    proof {
        let w2 = all@;
        assert(stack_load_type_acts(*target_reg, *symb_addr, width, *src_reg, w2) == stack_load_type_acts(*target_reg, *symb_addr, width, *src_reg, w));
        assert(trace.acts@ =~= t0 + stack_load_acts(*target_reg, *symb_addr, width, *src_reg, w2));
    }
}

}
