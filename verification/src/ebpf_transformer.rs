//! What the instructions do to the state of a program.
use vstd::prelude::*;
use vstd::string::*;
use crate::acts;
use crate::acts::{Act, Place, Trace};
use crate::arith::number::Number;
use crate::arith::variable::Variable;
use crate::array_domain;
use crate::branching;
use crate::branching::{Fold, Transition};
use crate::config::{DomainContext, EbpfMapValueType, EbpfPlatform};
use crate::ebpf_access;
use crate::ebpf_arith;
use crate::ebpf_bin;
use crate::ebpf_calls;
use crate::ebpf_domain;
use crate::ebpf_domain::{EbpfDomain, MapField, VerificationError};
use crate::ebpf_memory;
use crate::ebpf_store;
use crate::ebpf_un;
use crate::finite_domain::{FiniteBinOp, Operand};
use crate::interval::Interval;
use crate::numeric_ops;
use crate::numeric_ops::Log;
use crate::numeric_steps;
use crate::numeric_steps::Step;
use crate::rcp;
use crate::rcp::reg_pack;
use crate::syntax::{ArgPair, ArgPairKind, ArgSingle, ArgSingleKind, Call, CallContract, Callx, Instruction, Reg, R0_RETURN_VALUE};
use crate::type_encoding::{DataKind, TypeEncoding};
use crate::var_registry;
use crate::var_registry::VariableRegistry;
use crate::zone_domain::ArithBinOp;

verus! {

// ---------------------------------------------------------------------------------------------
// Arguments of helper functions
// ---------------------------------------------------------------------------------------------

/// The register of return values.
pub open spec fn r0() -> Reg {
    Reg { v: 0 }
}

/// Values of all kinds in a range of the stack are forgotten.
pub open spec fn overwrite_acts(iv: Interval, width: Interval) -> Seq<Act> {
    ebpf_store::havoc_acts(ebpf_store::value_kinds(), iv, width, false, ebpf_store::value_kinds().len())
}

/// A helper function writes a number of a fixed width through a pointer.
pub open spec fn write_branch(be: bool, reg: Reg, width: int) -> Transition {
    |a: Place, te: TypeEncoding, b: Place| if te is TStack {
        exists|iv: Interval| acts::follows(be, a, #[trigger] write_acts(reg, iv, width), b)
    } else {
        a == b
    }
}

pub open spec fn write_acts(reg: Reg, iv: Interval, width: int) -> Seq<Act> {
    seq![Act::ValueOf(rcp::id_of(DataKind::StackOffsets, reg), iv)] + overwrite_acts(iv, ebpf_store::wide(width))
        + seq![Act::StoreNumbers(iv, ebpf_store::wide(width))]
}

/// The number of bytes that a helper function writes through an argument; none where it does not.
pub open spec fn written_bytes(kind: ArgSingleKind) -> int {
    match kind {
        ArgSingleKind::PtrToWritableLong => 8,
        ArgSingleKind::PtrToWritableInt => 4,
        _ => 0,
    }
}

/// What a helper function does through an argument in one register.
pub open spec fn single_effect(be: bool, p: ArgSingle, a: Place, b: Place) -> bool {
    if written_bytes(p.kind) == 0 { a == b } else { branching::over_types(a, p.reg, write_branch(be, p.reg, written_bytes(p.kind)), b) }
}

/// The register of the map that a helper function takes: the last one.
pub open spec fn map_argument(ps: Seq<ArgSingle>) -> Option<Reg>
    decreases ps.len(),
{
    if ps.len() == 0 { None } else if ps.last().kind is MapFd { Some(ps.last().reg) } else { map_argument(ps.drop_last()) }
}

/// A helper function writes through a pointer with a size.
pub open spec fn fill_branch(be: bool, iv: Interval, width: Interval) -> Transition {
    |a: Place, te: TypeEncoding, b: Place| if te is TStack { acts::follows(be, a, overwrite_acts(iv, width), b) } else { a == b }
}

/// Whether a register points to the stack, whatever type of those that it may have.
pub open spec fn only_stack(d: &EbpfDomain, reg: Reg) -> bool {
    rcp::initialized(&d.state, reg) && forall|i: int| 0 <= i < d.state.types.iterated(rcp::type_id(reg)).len() ==> (#[trigger] d.state.types.iterated(rcp::type_id(reg))[i]) is TStack
}

/// What a helper function does through an argument with a size: what it may write is forgotten, and
/// the bytes of a known range of the stack become numbers.
pub open spec fn pair_effect(be: bool, p: ArgPair, a: Place, b: Place) -> bool {
    if p.kind is PtrToReadableMem {
        a == b
    } else {
        exists|v: Option<Variable>| #[trigger] acts::offset_answer(&a.0, p.mem, v) && (match v {
            None => a == b,
            Some(x) => {
                let iv = a.0.state.values.interval(x.id);
                let width = a.0.state.values.interval(rcp::id_of(DataKind::Svalues, p.size));
                exists|m: Place| #[trigger] branching::over_types(a, p.mem, fill_branch(be, iv, width), m)
                    && (if only_stack(&a.0, p.mem) { acts::follows(be, m, seq![Act::StoreNumbers(iv, width)], b) } else { m == b })
            },
        })
    }
}

/// What a helper function does through its arguments, one after the other.
pub open spec fn singles_run(be: bool, ps: Seq<ArgSingle>, a: Place, b: Place) -> bool {
    exists|path: Seq<Place>| path.len() == ps.len() + 1 && path[0] == a && path[ps.len() as int] == b && #[trigger] singles_path(be, ps, path, ps.len() as int)
}

pub open spec fn singles_path(be: bool, ps: Seq<ArgSingle>, path: Seq<Place>, n: int) -> bool {
    forall|i: int| 0 <= i < n ==> single_effect(be, #[trigger] ps[i], path[i], path[i + 1])
}

pub open spec fn pairs_run(be: bool, ps: Seq<ArgPair>, a: Place, b: Place) -> bool {
    exists|path: Seq<Place>| path.len() == ps.len() + 1 && path[0] == a && path[ps.len() as int] == b && #[trigger] pairs_path(be, ps, path, ps.len() as int)
}

pub open spec fn pairs_path(be: bool, ps: Seq<ArgPair>, path: Seq<Place>, n: int) -> bool {
    forall|i: int| 0 <= i < n ==> pair_effect(be, #[trigger] ps[i], path[i], path[i + 1])
}

fn write_one(dom: &mut EbpfDomain, reg: &Reg, width: i64, te: TypeEncoding, big_endian: bool, registry: &mut VariableRegistry)
    requires old(dom).wf(), old(registry)@.ready(), reg.ok(),
    ensures
        final(dom).wf(),
        final(registry)@.ready(),
        final(registry)@.extends(old(registry)@),
        write_branch(big_endian, *reg, width as int)((*old(dom), old(registry)@), te, (*final(dom), final(registry)@)),
{
    let ghost start: Place = (*dom, registry@);
    proof { numeric_steps::extends_itself(registry@); }
    if !matches!(te, TypeEncoding::TStack) {
        return;
    }
    let mut trace = Trace::new(Ghost(big_endian), dom, registry);
    let pack = reg_pack(reg, registry);
    let iv = acts::evaluate_var(dom, pack.stack_offset, registry, &mut trace);
    let wide = Interval::from_i64(width);
    assert(wide == ebpf_store::wide(width as int));
    ebpf_store::havoc_kinds(dom, &iv, &wide, false, big_endian, registry, &mut trace);
    acts::store_numbers(dom, &iv, &wide, registry, &mut trace);
    proof {
        assert(trace.acts@ =~= write_acts(*reg, iv, width as int));
        assert(acts::follows(big_endian, start, write_acts(*reg, iv, width as int), (*dom, registry@)));
    }
}

fn write_through(dom: &mut EbpfDomain, reg: &Reg, width: i64, big_endian: bool, registry: &mut VariableRegistry)
    requires old(dom).wf(), old(registry)@.ready(), reg.ok(),
    ensures
        final(dom).wf(),
        final(registry)@.ready(),
        branching::over_types((*old(dom), old(registry)@), *reg, write_branch(big_endian, *reg, width as int), (*final(dom), final(registry)@)),
{
    let ghost start: Place = (*dom, registry@);
    let ghost rel = write_branch(big_endian, *reg, width as int);
    if !acts::is_initialized(dom, reg, registry) {
        write_one(dom, reg, width, TypeEncoding::TUninit, big_endian, registry);
        return;
    }
    let mut fold = Fold::new(dom, reg, registry, Ghost(rel));
    while fold.more()
        invariant
            reg.ok(),
            dom.stack.wf(),
            fold.ok(dom.stack, registry@),
            fold.about() == (start, *reg, rel),
            rel == write_branch(big_endian, *reg, width as int),
            0 <= fold.count() <= fold.tes().len(),
            registry@.ready(),
        decreases fold.tes().len() - fold.count(),
    {
        let te = fold.take(dom, registry);
        let ghost input: Place = (*dom, registry@);
        write_one(dom, reg, width, te, big_endian, registry);
        fold.give(dom, registry, Ghost(input));
    }
    fold.finish(dom, registry);
}

/// Goes through the arguments in one register; the register of the map among them.
fn run_singles(dom: &mut EbpfDomain, ps: &Vec<ArgSingle>, big_endian: bool, registry: &mut VariableRegistry) -> (fd: Option<Reg>)
    requires old(dom).wf(), old(registry)@.ready(), forall|i: int| 0 <= i < ps@.len() ==> (#[trigger] ps@[i]).reg.ok(),
    ensures
        final(dom).wf(),
        final(registry)@.ready(),
        singles_run(big_endian, ps@, (*old(dom), old(registry)@), (*final(dom), final(registry)@)),
        fd == map_argument(ps@),
        fd matches Some(r) ==> r.ok(),
{
    let ghost start: Place = (*dom, registry@);
    let ghost mut path: Seq<Place> = seq![start];
    let mut fd: Option<Reg> = None;
    let mut i: usize = 0;
    while i < ps.len()
        invariant
            i <= ps.len(),
            dom.wf(),
            registry@.ready(),
            forall|i: int| 0 <= i < ps@.len() ==> (#[trigger] ps@[i]).reg.ok(),
            path.len() == i + 1,
            path[0] == start,
            path[i as int] == (*dom, registry@),
            singles_path(big_endian, ps@, path, i as int),
            fd == map_argument(ps@.take(i as int)),
            fd matches Some(r) ==> r.ok(),
        decreases ps.len() - i,
    {
        let p: ArgSingle = ps[i];
        match p.kind {
            ArgSingleKind::MapFd => { fd = Some(p.reg); }
            ArgSingleKind::PtrToWritableLong => { write_through(dom, &p.reg, 8, big_endian, registry); }
            ArgSingleKind::PtrToWritableInt => { write_through(dom, &p.reg, 4, big_endian, registry); }
            _ => {}
        }
        proof {
            let before = path;
            path = path.push((*dom, registry@));
            assert(ps@.take(i + 1).drop_last() =~= ps@.take(i as int));
            assert(ps@.take(i + 1).last() == p);
            assert forall|j: int| 0 <= j < i + 1 implies single_effect(big_endian, #[trigger] ps@[j], path[j], path[j + 1]) by {
                if j < i { assert(path[j] == before[j] && path[j + 1] == before[j + 1]); }
            }
        }
        i = i + 1;
    }
    assert(ps@.take(ps@.len() as int) =~= ps@);
    fd
}

fn fill_one(dom: &mut EbpfDomain, iv: &Interval, width: &Interval, te: TypeEncoding, big_endian: bool, registry: &mut VariableRegistry)
    requires old(dom).wf(), old(registry)@.ready(),
    ensures
        final(dom).wf(),
        final(registry)@.ready(),
        final(registry)@.extends(old(registry)@),
        fill_branch(big_endian, *iv, *width)((*old(dom), old(registry)@), te, (*final(dom), final(registry)@)),
{
    proof { numeric_steps::extends_itself(registry@); }
    if matches!(te, TypeEncoding::TStack) {
        let mut trace = Trace::new(Ghost(big_endian), dom, registry);
        ebpf_store::havoc_kinds(dom, iv, width, false, big_endian, registry, &mut trace);
        assert(trace.acts@ =~= overwrite_acts(*iv, *width));
    }
}

/// Forgets what may be written; whether the register points to the stack only.
fn fill_through(dom: &mut EbpfDomain, reg: &Reg, iv: &Interval, width: &Interval, big_endian: bool, registry: &mut VariableRegistry) -> (r: bool)
    requires old(dom).wf(), old(registry)@.ready(), reg.ok(),
    ensures
        final(dom).wf(),
        final(registry)@.ready(),
        branching::over_types((*old(dom), old(registry)@), *reg, fill_branch(big_endian, *iv, *width), (*final(dom), final(registry)@)),
        r == only_stack(old(dom), *reg),
{
    let ghost start: Place = (*dom, registry@);
    let ghost rel = fill_branch(big_endian, *iv, *width);
    if !acts::is_initialized(dom, reg, registry) {
        return false;
    }
    let mut all_stack: bool = true;
    let mut fold = Fold::new(dom, reg, registry, Ghost(rel));
    let ghost tes = fold.tes();
    while fold.more()
        invariant
            reg.ok(),
            dom.stack.wf(),
            fold.ok(dom.stack, registry@),
            fold.about() == (start, *reg, rel),
            rel == fill_branch(big_endian, *iv, *width),
            tes == fold.tes(),
            0 <= fold.count() <= fold.tes().len(),
            all_stack <==> forall|i: int| 0 <= i < fold.count() ==> (#[trigger] tes[i]) is TStack,
            registry@.ready(),
        decreases fold.tes().len() - fold.count(),
    {
        let te = fold.take(dom, registry);
        let ghost input: Place = (*dom, registry@);
        fill_one(dom, iv, width, te, big_endian, registry);
        if !matches!(te, TypeEncoding::TStack) {
            all_stack = false;
        }
        proof {
            let k = fold.count();
            assert(tes[k] == te);
            if all_stack {
                assert forall|i: int| 0 <= i < k + 1 implies (#[trigger] tes[i]) is TStack by {}
            } else if forall|i: int| 0 <= i < k + 1 ==> (#[trigger] tes[i]) is TStack {
                assert(tes[k] is TStack);
            }
        }
        fold.give(dom, registry, Ghost(input));
    }
    fold.finish(dom, registry);
    all_stack
}

fn run_pair(dom: &mut EbpfDomain, p: &ArgPair, big_endian: bool, registry: &mut VariableRegistry)
    requires old(dom).wf(), old(registry)@.ready(), p.mem.ok(), p.size.ok(),
    ensures
        final(dom).wf(),
        final(registry)@.ready(),
        pair_effect(big_endian, *p, (*old(dom), old(registry)@), (*final(dom), final(registry)@)),
{
    let ghost start: Place = (*dom, registry@);
    match p.kind {
        ArgPairKind::PtrToReadableMem => {}
        ArgPairKind::PtrToWritableMem => {
            let v = dom.state.get_type_offset_variable(&p.mem, registry);
            assert(acts::offset_answer(&start.0, p.mem, v));
            match v {
                None => {}
                Some(x) => {
                    let iv = dom.state.values.eval_interval_var(x, registry);
                    let size = reg_pack(&p.size, registry);
                    let width = dom.state.values.eval_interval_var(size.svalue, registry);
                    let all_stack: bool = fill_through(dom, &p.mem, &iv, &width, big_endian, registry);
                    let ghost m: Place = (*dom, registry@);
                    assert(branching::over_types(start, p.mem, fill_branch(big_endian, iv, width), m));
                    if all_stack {
                        let mut trace = Trace::new(Ghost(big_endian), dom, registry);
                        acts::store_numbers(dom, &iv, &width, registry, &mut trace);
                        assert(trace.acts@ =~= seq![Act::StoreNumbers(iv, width)]);
                    }
                }
            }
        }
    }
}

fn run_pairs(dom: &mut EbpfDomain, ps: &Vec<ArgPair>, big_endian: bool, registry: &mut VariableRegistry)
    requires old(dom).wf(), old(registry)@.ready(), forall|i: int| 0 <= i < ps@.len() ==> (#[trigger] ps@[i]).mem.ok() && ps@[i].size.ok(),
    ensures
        final(dom).wf(),
        final(registry)@.ready(),
        pairs_run(big_endian, ps@, (*old(dom), old(registry)@), (*final(dom), final(registry)@)),
{
    let ghost start: Place = (*dom, registry@);
    let ghost mut path: Seq<Place> = seq![start];
    let mut i: usize = 0;
    while i < ps.len()
        invariant
            i <= ps.len(),
            dom.wf(),
            registry@.ready(),
            forall|i: int| 0 <= i < ps@.len() ==> (#[trigger] ps@[i]).mem.ok() && ps@[i].size.ok(),
            path.len() == i + 1,
            path[0] == start,
            path[i as int] == (*dom, registry@),
            pairs_path(big_endian, ps@, path, i as int),
        decreases ps.len() - i,
    {
        let p: ArgPair = ps[i];
        run_pair(dom, &p, big_endian, registry);
        proof {
            let before = path;
            path = path.push((*dom, registry@));
            assert forall|j: int| 0 <= j < i + 1 implies pair_effect(big_endian, #[trigger] ps@[j], path[j], path[j + 1]) by {
                if j < i { assert(path[j] == before[j] && path[j + 1] == before[j + 1]); }
            }
        }
        i = i + 1;
    }
}

// ---------------------------------------------------------------------------------------------
// Return values of helper functions
// ---------------------------------------------------------------------------------------------

/// The result is a pointer to a value of a map, or null.
pub open spec fn shared_value_acts(size: Option<Interval>, limit: int) -> Seq<Act> {
    let region = rcp::id_of(DataKind::SharedRegionSizes, r0());
    seq![
        ebpf_memory::numbers(ebpf_memory::valid_ptr_steps(r0(), true, limit)),
        ebpf_memory::numbers(seq![
            numeric_ops::set_number(rcp::id_of(DataKind::SharedOffsets, r0()), 0),
            match size { Some(iv) => Step::Put(region, iv), None => Step::Forget(region) },
        ]),
        ebpf_memory::gives(r0(), TypeEncoding::TShared),
    ]
}

/// What is known of the maps in an interval of descriptor numbers.
pub struct LookupSeen {
    pub iv: Interval,
    pub map_type: Option<u32>,
    pub inner: Option<u32>,
}

pub open spec fn lookup_seen(p: &EbpfPlatform, w: LookupSeen) -> bool {
    &&& forall|t: u32| w.map_type == Some(t) <==> #[trigger] ebpf_domain::type_in(p, w.iv, t)
    &&& forall|t: u32| w.inner == Some(t) <==> #[trigger] ebpf_domain::inner_in(p, w.iv, t)
}

/// The inner map that a lookup gives, where it gives one.
pub open spec fn looked_up_map(p: &EbpfPlatform, w: LookupSeen) -> Option<int> {
    match (w.map_type, w.inner) {
        (Some(t), Some(fd)) => if p.type_from(t, 0).value_type is InnerMap { Some(crate::arith::number::wrap_signed(fd as int, 32)) } else { None },
        _ => None,
    }
}

/// What a lookup in a map returns: a map where the values are maps and the inner one is known,
/// otherwise a pointer to a value, of a known size where the type of the map is known.
pub open spec fn lookup_acts(p: &EbpfPlatform, fd_reg: Option<Reg>, w: LookupSeen, limit: int) -> Seq<Act> {
    match fd_reg {
        None => shared_value_acts(None, limit),
        Some(r) => seq![Act::ValueOf(rcp::id_of(DataKind::MapFds, r), w.iv)] + (match w.map_type {
            None => shared_value_acts(None, limit),
            Some(t) => if p.type_from(t, 0).value_type is InnerMap {
                match looked_up_map(p, w) {
                    Some(fd) => ebpf_calls::map_fd_acts(p, r0(), fd, true, limit),
                    None => shared_value_acts(None, limit),
                }
            } else {
                shared_value_acts(Some(ebpf_domain::field_range(p, MapField::ValueSize, w.iv)), limit)
            },
        })
    }
}

/// What a helper function returns.
pub open spec fn return_acts(ctx: &DomainContext, c: &CallContract, w: LookupSeen) -> Seq<Act> {
    let limit = ctx.runtime.pointer_limit();
    seq![ebpf_memory::numbers(seq![Step::Forget(ebpf_arith::size_id(r0()))])] + (if c.is_map_lookup {
        lookup_acts(&ctx.platform, map_argument(c.singles@), w, limit)
    } else {
        match c.return_ptr_type {
            Some(te) => seq![
                ebpf_memory::numbers(ebpf_memory::valid_ptr_steps(r0(), c.return_nullable, limit)),
                ebpf_memory::gives(r0(), te),
                ebpf_memory::forgets_offsets(r0()),
            ],
            None => seq![ebpf_memory::forgets_values(r0()), ebpf_memory::gives(r0(), TypeEncoding::TNum)],
        }
    })
}

/// What a helper function leaves of the other registers, and of packet pointers where it may move the
/// packet.
pub open spec fn aftermath_acts(ctx: &DomainContext, c: &CallContract) -> Seq<Act> {
    ebpf_calls::scratch_acts() + (if c.reallocate_packet {
        seq![Act::ForgetLocations(TypeEncoding::TPacket), ebpf_memory::numbers(ebpf_domain::packet_steps(ctx.layout().meta as int))]
    } else {
        seq![]
    })
}

/// The map that a helper function would return although it is not known.
pub open spec fn missing_result(ctx: &DomainContext, c: &CallContract, w: LookupSeen) -> Option<int> {
    match looked_up_map(&ctx.platform, w) {
        Some(fd) => if c.is_map_lookup && map_argument(c.singles@) is Some && ctx.platform.map_from(fd, 0) is None { Some(fd) } else { None },
        None => None,
    }
}

/// What happens before a lookup is refused.
pub open spec fn refused_acts(c: &CallContract, w: LookupSeen) -> Seq<Act> {
    seq![
        ebpf_memory::numbers(seq![Step::Forget(ebpf_arith::size_id(r0()))]),
        Act::ValueOf(rcp::id_of(DataKind::MapFds, map_argument(c.singles@)->Some_0), w.iv),
    ]
}

/// A call of a helper function is refused with a message.
pub open spec fn call_refused(be: bool, ctx: &DomainContext, c: &CallContract, a: Place, m: Seq<char>) -> bool {
    a.0.num() is Some && exists|p: Place, q: Place, w: LookupSeen, b: Place| #[trigger] singles_run(be, c.singles@, a, p) && #[trigger] pairs_run(be, c.pairs@, p, q)
        && lookup_seen(&ctx.platform, w)
        && #[trigger] acts::follows(be, q, refused_acts(c, w), b)
        && (missing_result(ctx, c, w) matches Some(fd) && m == ebpf_calls::map_missing(fd))
}

/// What a call of a helper function does.
pub open spec fn call_effect(be: bool, ctx: &DomainContext, c: &CallContract, a: Place, b: Place) -> bool {
    if a.0.num() is None {
        a == b
    } else {
        exists|p: Place, q: Place, w: LookupSeen| #[trigger] singles_run(be, c.singles@, a, p) && #[trigger] pairs_run(be, c.pairs@, p, q)
            && lookup_seen(&ctx.platform, w) && missing_result(ctx, c, w) is None
            && acts::follows(be, q, #[trigger] return_acts(ctx, c, w) + aftermath_acts(ctx, c), b)
    }
}

fn assign_shared_map_value(dom: &mut EbpfDomain, size: &Option<Interval>, ctx: &DomainContext, registry: &mut VariableRegistry, trace: &mut Trace)
    requires old(trace).leads_to(old(dom), old(registry)@),
    ensures
        final(registry)@ == old(registry)@,
        final(trace).leads_to(final(dom), final(registry)@),
        final(trace).grew(old(trace), shared_value_acts(*size, ctx.runtime.pointer_limit())),
{
    let ghost t0 = trace.acts@;
    let reg = Reg { v: R0_RETURN_VALUE };
    ebpf_memory::assign_valid_ptr(dom, &reg, true, ctx, registry, trace);
    let pack = reg_pack(&reg, registry);
    let ghost before: Place = (*dom, registry@);
    let mut log = Log::new(&dom.state.values, registry);
    numeric_ops::number(&mut dom.state.values, pack.shared_offset, 0, registry, &mut log);
    match size {
        Some(iv) => { numeric_ops::put(&mut dom.state.values, pack.shared_region_size, iv, registry, &mut log); }
        None => { numeric_ops::forget(&mut dom.state.values, pack.shared_region_size, registry, &mut log); }
    }
    assert(ebpf_memory::numbers(log.done@) == shared_value_acts(*size, ctx.runtime.pointer_limit())[1]) by {
        assert(log.done@ =~= seq![
            numeric_ops::set_number(rcp::id_of(DataKind::SharedOffsets, r0()), 0),
            match *size { Some(iv) => Step::Put(rcp::id_of(DataKind::SharedRegionSizes, r0()), iv), None => Step::Forget(rcp::id_of(DataKind::SharedRegionSizes, r0())) },
        ]);
    }
    trace.numbers(&log, Ghost(before), dom, registry);
    acts::give_type(dom, &reg, TypeEncoding::TShared, registry, trace);
    assert(trace.acts@ =~= t0 + shared_value_acts(*size, ctx.runtime.pointer_limit()));
}

/// The result of a lookup in a map; an error where it is a map that is not known.
fn return_lookup(dom: &mut EbpfDomain, fd_reg: Option<Reg>, ctx: &DomainContext, registry: &mut VariableRegistry, trace: &mut Trace) -> (r: (Result<(), VerificationError>, Ghost<LookupSeen>))
    requires old(trace).leads_to(old(dom), old(registry)@), fd_reg matches Some(q) ==> q.ok(),
    ensures
        final(registry)@ == old(registry)@,
        final(trace).leads_to(final(dom), final(registry)@),
        fd_reg is Some ==> lookup_seen(&ctx.platform, r.1@),
        r.0 is Ok ==> final(trace).grew(old(trace), lookup_acts(&ctx.platform, fd_reg, r.1@, ctx.runtime.pointer_limit())),
        r.0 is Err <==> fd_reg is Some && (looked_up_map(&ctx.platform, r.1@) matches Some(fd) && ctx.platform.map_from(fd, 0) is None),
        r.0 matches Err(e) ==> e.message@ == ebpf_calls::map_missing(looked_up_map(&ctx.platform, r.1@)->Some_0) && e.label is None
            && final(trace).grew(old(trace), seq![Act::ValueOf(rcp::id_of(DataKind::MapFds, fd_reg->Some_0), r.1@.iv)]),
{
    let ghost t0 = trace.acts@;
    let ghost limit = ctx.runtime.pointer_limit();
    let reg = Reg { v: R0_RETURN_VALUE };
    let fd: Reg = match fd_reg {
        Some(q) => q,
        None => {
            assign_shared_map_value(dom, &None, ctx, registry, trace);
            let ghost w = LookupSeen { iv: Interval::all(), map_type: None, inner: None };
            return (Ok(()), Ghost(w));
        }
    };
    let pack = reg_pack(&fd, registry);
    let iv = acts::evaluate_var(dom, pack.map_fd, registry, trace);
    let map_type = dom.get_map_type(&fd, ctx, registry);
    let inner = dom.get_map_inner_map_fd(&fd, ctx, registry);
    let ghost w = LookupSeen { iv, map_type, inner };
    assert(iv == dom.fds(fd));
    assert(lookup_seen(&ctx.platform, w));
    let t: u32 = match map_type {
        Some(t) => t,
        None => {
            assign_shared_map_value(dom, &None, ctx, registry, trace);
            assert(trace.acts@ =~= t0 + lookup_acts(&ctx.platform, fd_reg, w, limit));
            return (Ok(()), Ghost(w));
        }
    };
    if ctx.platform.get_map_type(t).value_type == EbpfMapValueType::InnerMap {
        match inner {
            Some(inner_fd) => {
                let r = ebpf_calls::do_load_mapfd(dom, &reg, array_domain::narrow_to_i32(inner_fd as i64), true, ctx, registry, trace);
                proof {
                    if r is Ok {
                        assert(trace.acts@ =~= t0 + lookup_acts(&ctx.platform, fd_reg, w, limit));
                    } else {
                        assert(trace.acts@ =~= t0 + seq![Act::ValueOf(rcp::id_of(DataKind::MapFds, fd), iv)]);
                    }
                }
                (r, Ghost(w))
            }
            None => {
                assign_shared_map_value(dom, &None, ctx, registry, trace);
                assert(trace.acts@ =~= t0 + lookup_acts(&ctx.platform, fd_reg, w, limit));
                (Ok(()), Ghost(w))
            }
        }
    } else {
        let size = dom.get_map_value_size(&fd, ctx, registry);
        assign_shared_map_value(dom, &Some(size), ctx, registry, trace);
        assert(trace.acts@ =~= t0 + lookup_acts(&ctx.platform, fd_reg, w, limit));
        (Ok(()), Ghost(w))
    }
}

/// A known lookup result exists for every platform: that of no descriptor number at all.
fn seen_of_nothing(ctx: &DomainContext) -> (w: Ghost<LookupSeen>)
    ensures lookup_seen(&ctx.platform, w@),
{
    let ghost w = LookupSeen { iv: Interval::all(), map_type: None, inner: None };
    assert(ebpf_domain::fd_range(w.iv) is None);
    Ghost(w)
}

fn return_value(dom: &mut EbpfDomain, call: &Call, fd_reg: Option<Reg>, ctx: &DomainContext, registry: &mut VariableRegistry, trace: &mut Trace) -> (r: (Result<(), VerificationError>, Ghost<LookupSeen>))
    requires
        old(trace).leads_to(old(dom), old(registry)@),
        fd_reg == map_argument(call.contract.singles@),
        fd_reg matches Some(q) ==> q.ok(),
    ensures
        final(registry)@ == old(registry)@,
        final(trace).leads_to(final(dom), final(registry)@),
        lookup_seen(&ctx.platform, r.1@),
        r.0 is Ok ==> final(trace).grew(old(trace), return_acts(ctx, &call.contract, r.1@)),
        r.0 is Ok <==> missing_result(ctx, &call.contract, r.1@) is None,
        r.0 matches Err(e) ==> e.label is None && e.message@ == ebpf_calls::map_missing(missing_result(ctx, &call.contract, r.1@)->Some_0)
            && final(trace).grew(old(trace), refused_acts(&call.contract, r.1@)),
{
    let ghost t0 = trace.acts@;
    let reg = Reg { v: R0_RETURN_VALUE };
    let pack = reg_pack(&reg, registry);
    ebpf_arith::forget_variable(dom, pack.stack_numeric_size, registry, trace);
    let nothing = seen_of_nothing(ctx);
    if call.contract.is_map_lookup {
        let (r, w) = return_lookup(dom, fd_reg, ctx, registry, trace);
        if fd_reg.is_none() {
            assert(lookup_acts(&ctx.platform, fd_reg, w@, ctx.runtime.pointer_limit()) == lookup_acts(&ctx.platform, fd_reg, nothing@, ctx.runtime.pointer_limit()));
            assert(trace.acts@ =~= t0 + return_acts(ctx, &call.contract, nothing@));
            return (r, nothing);
        }
        proof {
            if r is Ok {
                assert(trace.acts@ =~= t0 + return_acts(ctx, &call.contract, w@));
            } else {
                assert(trace.acts@ =~= t0 + refused_acts(&call.contract, w@));
            }
        }
        return (r, w);
    }
    match call.contract.return_ptr_type {
        Some(te) => {
            ebpf_memory::assign_valid_ptr(dom, &reg, call.contract.return_nullable, ctx, registry, trace);
            acts::give_type(dom, &reg, te, registry, trace);
            acts::forget_offsets(dom, &reg, registry, trace);
        }
        None => {
            acts::forget_values(dom, &reg, registry, trace);
            acts::give_type(dom, &reg, TypeEncoding::TNum, registry, trace);
        }
    }
    assert(trace.acts@ =~= t0 + return_acts(ctx, &call.contract, nothing@));
    (Ok(()), nothing)
}

fn aftermath(dom: &mut EbpfDomain, call: &Call, ctx: &DomainContext, registry: &mut VariableRegistry, trace: &mut Trace)
    requires old(trace).leads_to(old(dom), old(registry)@), ctx.ok(),
    ensures
        final(trace).leads_to(final(dom), final(registry)@),
        final(trace).grew(old(trace), aftermath_acts(ctx, &call.contract)),
{
    let ghost t0 = trace.acts@;
    ebpf_calls::forget_range(dom, 1, 5, registry, trace);
    if call.contract.reallocate_packet {
        acts::forget_locations(dom, TypeEncoding::TPacket, registry, trace);
        let ghost before: Place = (*dom, registry@);
        let mut log = Log::new(&dom.state.values, registry);
        dom.initialize_packet(ctx, registry);
        log.took_all(Ghost(ebpf_domain::packet_steps(ctx.layout().meta as int)), Ghost(registry@), Ghost(before.0.num()), &dom.state.values, registry);
        assert(log.done@ =~= ebpf_domain::packet_steps(ctx.layout().meta as int));
        trace.numbers(&log, Ghost(before), dom, registry);
    }
    assert(trace.acts@ =~= t0 + aftermath_acts(ctx, &call.contract));
}

/// Calls a helper function. It is refused where a lookup gives a map that is not known.
fn transform_call(dom: &mut EbpfDomain, call: &Call, ctx: &DomainContext, registry: &mut VariableRegistry) -> (r: Result<(), VerificationError>)
    requires old(dom).wf(), old(registry)@.ready(), call.contract.ok(), ctx.ok(),
    ensures
        final(dom).wf(),
        final(registry)@.ready(),
        r is Ok ==> call_effect(ctx.runtime.big_endian, ctx, &call.contract, (*old(dom), old(registry)@), (*final(dom), final(registry)@)),
        r matches Err(e) ==> e.label is None && call_refused(ctx.runtime.big_endian, ctx, &call.contract, (*old(dom), old(registry)@), e.message@),
{
    let be: bool = ctx.runtime.big_endian;
    let ghost start: Place = (*dom, registry@);
    if dom.is_bottom() {
        return Ok(());
    }
    let fd_reg = run_singles(dom, &call.contract.singles, be, registry);
    let ghost p: Place = (*dom, registry@);
    run_pairs(dom, &call.contract.pairs, be, registry);
    let ghost q: Place = (*dom, registry@);
    let mut trace = Trace::new(Ghost(be), dom, registry);
    let (r, w) = return_value(dom, call, fd_reg, ctx, registry, &mut trace);
    match r {
        Ok(_) => {}
        Err(e) => {
            proof {
                assert(singles_run(be, call.contract.singles@, start, p));
                assert(pairs_run(be, call.contract.pairs@, p, q));
                assert(trace.acts@ =~= refused_acts(&call.contract, w@));
                assert(acts::follows(be, q, refused_acts(&call.contract, w@), (*dom, registry@)));
            }
            return Err(e);
        }
    }
    aftermath(dom, call, ctx, registry, &mut trace);
    proof {
        assert(trace.acts@ =~= return_acts(ctx, &call.contract, w@) + aftermath_acts(ctx, &call.contract));
        assert(singles_run(be, call.contract.singles@, start, p));
        assert(pairs_run(be, call.contract.pairs@, p, q));
    }
    Ok(())
}

/// The helper function whose number is in a register.
pub open spec fn called_helper(ctx: &DomainContext, d: &EbpfDomain, func: Reg) -> Option<int> {
    match d.state.values.interval(rcp::id_of(DataKind::Svalues, func)).singleton_spec() {
        Some(n) => if i32::MIN <= n@ <= i32::MAX { ctx.platform.helper_from(n@, 0) } else { None },
        None => None,
    }
}

/// What a call through a register does; nothing where the function is not known.
pub open spec fn callx_effect(be: bool, ctx: &DomainContext, c: Callx, a: Place, b: Place) -> bool {
    if a.0.num() is None {
        a == b
    } else {
        match called_helper(ctx, &a.0, c.func) {
            Some(i) => call_effect(be, ctx, &ctx.platform.helpers@[i].call.contract, a, b),
            None => a == b,
        }
    }
}

fn transform_callx(dom: &mut EbpfDomain, callx: &Callx, ctx: &DomainContext, registry: &mut VariableRegistry) -> (r: Result<(), VerificationError>)
    requires old(dom).wf(), old(registry)@.ready(), callx.func.ok(), ctx.ok(),
    ensures
        final(dom).wf(),
        final(registry)@.ready(),
        r is Ok ==> callx_effect(ctx.runtime.big_endian, ctx, *callx, (*old(dom), old(registry)@), (*final(dom), final(registry)@)),
        r matches Err(e) ==> e.label is None && (called_helper(ctx, old(dom), callx.func) matches Some(i)
            && call_refused(ctx.runtime.big_endian, ctx, &ctx.platform.helpers@[i].call.contract, (*old(dom), old(registry)@), e.message@)),
{
    if dom.is_bottom() {
        return Ok(());
    }
    let pack = reg_pack(&callx.func, registry);
    let iv = dom.state.values.eval_interval_var(pack.svalue, registry);
    if let Some(n) = iv.singleton() {
        if n.n >= i32::MIN as i128 && n.n <= i32::MAX as i128 {
            let imm: i32 = n.n as i32;
            match ctx.platform.get_helper(imm) {
                Some(i) => {
                    assert(ctx.platform.helpers@[i as int].call.contract.ok());
                    return transform_call(dom, &ctx.platform.helpers[i].call, ctx, registry);
                }
                None => {}
            }
        }
    }
    Ok(())
}

// ---------------------------------------------------------------------------------------------
// Loops and the whole instruction set
// ---------------------------------------------------------------------------------------------

/// One more run of a loop.
pub open spec fn count_acts(name: Seq<char>, x: Variable) -> Seq<Act> {
    seq![
        Act::Named(var_registry::counter_name(name), x),
        ebpf_memory::numbers(seq![Step::Signed(FiniteBinOp::Arith(ArithBinOp::ADD), x.id, x.id, x.id, ebpf_arith::lit(1), 0)]),
    ]
}

fn transform_increment_loop_counter(dom: &mut EbpfDomain, name: &str, registry: &mut VariableRegistry, Ghost(be): Ghost<bool>)
    requires old(dom).wf(), old(registry)@.ready(),
    ensures
        final(dom).wf(),
        final(registry)@.ready(),
        old(dom).num() is None ==> *final(dom) == *old(dom) && final(registry)@ == old(registry)@,
        old(dom).num() is Some ==> exists|x: Variable| acts::follows(be, (*old(dom), old(registry)@), #[trigger] count_acts(name@, x), (*final(dom), final(registry)@)),
{
    let ghost start: Place = (*dom, registry@);
    if dom.is_bottom() {
        return;
    }
    let mut trace = Trace::new(Ghost(be), dom, registry);
    let counter = acts::counter_variable(dom, name, registry, &mut trace);
    let one = Operand::Num(Number::of(1));
    assert(one == ebpf_arith::lit(1));
    ebpf_arith::signed_on(dom, FiniteBinOp::Arith(ArithBinOp::ADD), counter, one, registry, &mut trace);
    assert(trace.acts@ =~= count_acts(name@, counter));
    assert(acts::follows(be, start, count_acts(name@, counter), (*dom, registry@)));
}

/// The first run of a loop: its counter is zero.
pub fn ebpf_domain_initialize_loop_counter(dom: &mut EbpfDomain, label: &str, registry: &mut VariableRegistry)
    requires old(dom).wf(), old(registry)@.ready(),
    ensures
        final(dom).wf(),
        final(registry)@.ready(),
        final(registry)@.extends(old(registry)@),
        final(dom).stack == old(dom).stack,
        final(dom).state.types == old(dom).state.types,
        exists|x: Variable| #[trigger] rcp::is_named(final(registry)@, x, var_registry::counter_name(label@))
            && numeric_steps::performs(old(dom).num(), old(registry)@, final(registry)@, seq![numeric_ops::set_number(x.id, 0)], final(dom).num()),
{
    let ghost r0 = registry@;
    let ghost n0 = dom.num();
    let counter = registry.loop_counter(label);
    proof {
        registry@.readiness_lasts(r0);
        rcp::lemma_var_named(r0, registry@, counter, var_registry::counter_name(label@), var_registry::counter_meta());
    }
    dom.state.values.assign_i64(counter, 0, registry);
    proof {
        let op = numeric_ops::set_number(counter.id, 0);
        numeric_steps::performs_nothing(n0, r0, registry@);
        numeric_steps::step_put(n0, registry@, counter.id, Interval::point(Number { n: 0 }), dom.num());
        numeric_steps::performs_one(n0, r0, registry@, seq![], n0, op, dom.num());
        assert(seq![].push(op) =~= seq![op]);
    }
}

/// What an instruction does to a state. Nothing happens to a state that is not possible.
pub open spec fn instruction_effect(ctx: &DomainContext, ins: &Instruction, a: Place, b: Place) -> bool {
    let be = ctx.runtime.big_endian;
    let size = ctx.runtime.subprogram_stack_size as int;
    if a.0.num() is None {
        a == b
    } else {
        match ins {
            Instruction::Assume(s) => ebpf_un::assume_effect(be, *s, a, b),
            Instruction::Bin(s) => ebpf_bin::bin_effect(be, *s, a, b),
            Instruction::Un(s) => ebpf_un::un_effect(be, *s, a, b),
            Instruction::Mem(s) => ebpf_access::mem_effect(be, ctx, *s, a, b),
            Instruction::Call(s) => call_effect(be, ctx, &s.contract, a, b),
            Instruction::CallLocal(s) => exists|ws: Seq<ebpf_calls::SaveSeen>, w: ebpf_arith::Seen|
                acts::follows(be, a, #[trigger] ebpf_calls::call_local_acts(s.stack_frame_prefix@, size, ws, w), b),
            Instruction::Callx(s) => callx_effect(be, ctx, *s, a, b),
            Instruction::Exit(s) => if s.stack_frame_prefix@.len() == 0 { a == b } else {
                exists|iv: Interval, vars: Seq<Variable>, w: ebpf_arith::Seen|
                    acts::follows(be, a, #[trigger] ebpf_calls::exit_acts(s.stack_frame_prefix@, size, iv, vars, w), b)
            },
            Instruction::Packet(_) => acts::follows(be, a, ebpf_calls::packet_acts(), b),
            Instruction::Atomic(s) => ebpf_access::atomic_effect(be, ctx, *s, a, b),
            Instruction::LoadMapFd(s) => ebpf_calls::load_map_fd_effect(be, ctx, *s, a, b),
            Instruction::LoadMapAddress(s) => ebpf_calls::load_map_address_effect(be, ctx, *s, a, b),
            Instruction::LoadPseudo(s) => acts::follows(be, a, ebpf_calls::load_code_acts(*s), b),
            Instruction::IncrementLoopCounter(s) => exists|x: Variable| acts::follows(be, a, #[trigger] count_acts(s.name@, x), b),
            Instruction::CallBtf | Instruction::Jmp | Instruction::Undefined => a == b,
        }
    }
}

/// An instruction is refused with a message. No instruction is refused in a state that is not
/// possible.
pub open spec fn instruction_refused(ctx: &DomainContext, ins: &Instruction, a: Place, m: Seq<char>) -> bool {
    let be = ctx.runtime.big_endian;
    a.0.num() is Some && match ins {
        Instruction::Call(s) => call_refused(be, ctx, &s.contract, a, m),
        Instruction::Callx(s) => called_helper(ctx, &a.0, s.func) matches Some(i) && call_refused(be, ctx, &ctx.platform.helpers@[i].call.contract, a, m),
        _ => flaw(ctx, ins) == Some(m),
    }
}

/// The message with which an instruction is refused in every possible state.
pub open spec fn flaw(ctx: &DomainContext, ins: &Instruction) -> Option<Seq<char>> {
    match ins {
        Instruction::Bin(s) => if ebpf_bin::is_extension(s.op) && s.v is Imm { Some("Unsupported operation: MOVSX with immediate"@) } else { None },
        Instruction::Mem(s) => if ebpf_access::is_load(*s) && s.is_signed && s.access.width is DWord { Some("unexpected MEMSX width"@) } else { None },
        Instruction::LoadMapFd(s) => if ctx.platform.map_from(s.mapfd as int, 0) is None { Some(ebpf_calls::map_missing(s.mapfd as int)) } else { None },
        Instruction::LoadMapAddress(s) => if ctx.platform.map_from(s.mapfd as int, 0) is None {
            Some(ebpf_calls::map_missing(s.mapfd as int))
        } else if ebpf_calls::holds_programs(&ctx.platform, s.mapfd as int) {
            Some("Cannot load address of program map type - only data maps are supported"@)
        } else {
            None
        },
        _ => None,
    }
}

/// Only a condition rules a state out: no other instruction makes a possible state impossible.
pub open spec fn ruled_out(ins: &Instruction, a: &EbpfDomain, b: &EbpfDomain) -> bool {
    a.num() is Some && b.num() is None && !(ins is Assume)
}

/// The message with which an instruction is refused that has ruled a state out and is no condition.
pub open spec fn ruled_out_message() -> Seq<char> {
    "Bug! instruction leads to bottom"@
}

/// Brings a state through an instruction. An instruction other than a condition that leaves no
/// possible state is refused.
pub fn ebpf_domain_transform(dom: &mut EbpfDomain, ins: &Instruction, ctx: &DomainContext, registry: &mut VariableRegistry) -> (r: Result<(), VerificationError>)
    requires old(dom).wf(), old(registry)@.ready(), old(dom).num() is Some ==> ins.ok() && ctx.ok(),
    ensures
        final(dom).wf(),
        final(registry)@.ready(),
        old(dom).num() is None ==> r is Ok && *final(dom) == *old(dom) && final(registry)@ == old(registry)@,
        r is Ok ==> instruction_effect(ctx, ins, (*old(dom), old(registry)@), (*final(dom), final(registry)@)),
        r is Ok ==> !ruled_out(ins, old(dom), final(dom)),
        r is Ok ==> old(dom).num() is None || flaw(ctx, ins) is None,
        r matches Err(e) ==> e.label is None && (instruction_refused(ctx, ins, (*old(dom), old(registry)@), e.message@)
            || (e.message@ == ruled_out_message() && ruled_out(ins, old(dom), final(dom))
                && instruction_effect(ctx, ins, (*old(dom), old(registry)@), (*final(dom), final(registry)@)))),
{
    let possible: bool = !dom.is_bottom();
    let r = perform(dom, ins, ctx, registry);
    if r.is_ok() && possible && dom.is_bottom() {
        if let Instruction::Assume(_) = ins {
            return r;
        }
        return Err(VerificationError::new("Bug! instruction leads to bottom".to_string()));
    }
    r
}

/// Brings a state through an instruction.
fn perform(dom: &mut EbpfDomain, ins: &Instruction, ctx: &DomainContext, registry: &mut VariableRegistry) -> (r: Result<(), VerificationError>)
    requires old(dom).wf(), old(registry)@.ready(), old(dom).num() is Some ==> ins.ok() && ctx.ok(),
    ensures
        final(dom).wf(),
        final(registry)@.ready(),
        r is Ok ==> instruction_effect(ctx, ins, (*old(dom), old(registry)@), (*final(dom), final(registry)@)),
        r is Ok ==> old(dom).num() is None || flaw(ctx, ins) is None,
        r matches Err(e) ==> e.label is None && instruction_refused(ctx, ins, (*old(dom), old(registry)@), e.message@),
{
    let ghost be = ctx.runtime.big_endian;
    if dom.is_bottom() {
        return Ok(());
    }
    match ins {
        Instruction::Assume(s) => {
            ebpf_un::transform_assume(dom, s, registry, Ghost(be));
            Ok(())
        }
        Instruction::Bin(s) => ebpf_bin::transform_bin(dom, s, registry, Ghost(be)),
        Instruction::Un(s) => {
            ebpf_un::transform_un(dom, s, ctx.runtime.big_endian, registry);
            Ok(())
        }
        Instruction::Mem(s) => ebpf_access::transform_mem(dom, s, ctx, registry),
        Instruction::Call(s) => transform_call(dom, s, ctx, registry),
        Instruction::CallLocal(s) => {
            ebpf_calls::transform_call_local(dom, s.stack_frame_prefix.as_str(), ctx, registry);
            Ok(())
        }
        Instruction::Callx(s) => transform_callx(dom, s, ctx, registry),
        Instruction::Exit(s) => {
            ebpf_calls::transform_exit(dom, s.stack_frame_prefix.as_str(), ctx, registry);
            Ok(())
        }
        Instruction::Packet(_) => {
            ebpf_calls::transform_packet(dom, registry, Ghost(be));
            Ok(())
        }
        Instruction::Atomic(s) => {
            ebpf_access::transform_atomic(dom, s, ctx, registry);
            Ok(())
        }
        Instruction::LoadMapFd(s) => ebpf_calls::transform_load_map_fd(dom, s, ctx, registry),
        Instruction::LoadMapAddress(s) => ebpf_calls::transform_load_map_address(dom, s, ctx, registry),
        Instruction::LoadPseudo(s) => {
            ebpf_calls::transform_load_pseudo(dom, s, registry, Ghost(be));
            Ok(())
        }
        Instruction::IncrementLoopCounter(s) => {
            transform_increment_loop_counter(dom, s.name.as_str(), registry, Ghost(be));
            Ok(())
        }
        Instruction::CallBtf | Instruction::Jmp | Instruction::Undefined => Ok(()),
    }
}

}
