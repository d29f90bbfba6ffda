//! Calls, returns and loads of addresses.
use vstd::prelude::*;
use vstd::string::*;
use crate::acts;
use crate::acts::{Act, Place, Trace, TypeChange};
use crate::arith::linear_expression::LinearExpression;
use crate::arith::number;
use crate::arith::number::Number;
use crate::arith::variable::Variable;
use crate::config::{DomainContext, EbpfMapValueType, EbpfPlatform};
use crate::ebpf_arith;
use crate::ebpf_arith::Seen;
use crate::ebpf_domain::{EbpfDomain, VerificationError};
use crate::ebpf_memory;
use crate::ebpf_store;
use crate::interval::Interval;
use crate::numeric_ops;
use crate::numeric_ops::Log;
use crate::numeric_steps::Step;
use crate::rcp;
use crate::rcp::{reg_pack, type_to_kinds};
use crate::syntax::{LoadMapAddress, LoadMapFd, LoadPseudo, Reg, R0_RETURN_VALUE, R10_STACK_POINTER};
use crate::text;
use crate::type_encoding;
use crate::type_encoding::{iterate_kinds, DataKind, TypeEncoding, KIND_MAX, KIND_MIN};
use crate::var_registry;
use crate::var_registry::VariableRegistry;

verus! {

// ---------------------------------------------------------------------------------------------
// Maps
// ---------------------------------------------------------------------------------------------

/// The message for a map that is not known.
pub open spec fn map_missing(fd: int) -> Seq<char> {
    "map_fd "@ + text::dec_int(fd) + " not found"@
}

fn missing_map(fd: i32) -> (r: VerificationError)
    ensures r.message@ == map_missing(fd as int), r.label is None,
{
    let mut s = String::from_str("map_fd ");
    Number::of(fd as i128).write_to(&mut s);
    s.append(" not found");
    assert(s@ =~= map_missing(fd as int));
    VerificationError::new(s)
}

/// Whether the values of the map with a descriptor number are programs.
pub open spec fn holds_programs(p: &EbpfPlatform, fd: int) -> bool {
    p.type_from(p.map_from(fd, 0)->Some_0.map_type, 0).value_type is Program
}

/// What a load of a map's descriptor does.
pub open spec fn map_fd_acts(p: &EbpfPlatform, dst: Reg, fd: int, maybe_null: bool, limit: int) -> Seq<Act> {
    let programs = holds_programs(p, fd);
    seq![
        ebpf_memory::gives(dst, if programs { TypeEncoding::TMapPrograms } else { TypeEncoding::TMap }),
        ebpf_memory::numbers(seq![numeric_ops::set_number(rcp::id_of(if programs { DataKind::MapFdPrograms } else { DataKind::MapFds }, dst), fd)]),
        ebpf_memory::numbers(ebpf_memory::valid_ptr_steps(dst, maybe_null, limit)),
    ]
}

fn set_variable(dom: &mut EbpfDomain, v: Variable, n: i64, registry: &VariableRegistry, trace: &mut Trace)
    requires old(trace).leads_to(old(dom), registry@), registry@.knows(v),
    ensures final(trace).leads_to(final(dom), registry@), final(trace).with(ebpf_memory::numbers(seq![numeric_ops::set_number(v.id, n as int)]), old(trace)),
{
    let ghost before: Place = (*dom, registry@);
    let mut log = Log::new(&dom.state.values, registry);
    numeric_ops::number(&mut dom.state.values, v, n, registry, &mut log);
    assert(log.done@ =~= seq![numeric_ops::set_number(v.id, n as int)]);
    trace.numbers(&log, Ghost(before), dom, registry);
}

/// Loads a map's descriptor; an error where the map is not known.
pub(crate) fn do_load_mapfd(dom: &mut EbpfDomain, dst_reg: &Reg, mapfd: i32, maybe_null: bool, ctx: &DomainContext, registry: &mut VariableRegistry, trace: &mut Trace) -> (r: Result<(), VerificationError>)
    requires old(trace).leads_to(old(dom), old(registry)@), dst_reg.ok(),
    ensures
        final(registry)@ == old(registry)@,
        final(trace).leads_to(final(dom), final(registry)@),
        r is Ok <==> ctx.platform.map_from(mapfd as int, 0) is Some,
        r is Ok ==> final(trace).grew(old(trace), map_fd_acts(&ctx.platform, *dst_reg, mapfd as int, maybe_null, ctx.runtime.pointer_limit())),
        r matches Err(e) ==> e.message@ == map_missing(mapfd as int) && e.label is None && *final(dom) == *old(dom) && *final(trace) == *old(trace),
{
    let ghost t0 = trace.acts@;
    let desc = match ctx.platform.get_map_descriptor(mapfd) {
        Some(d) => d,
        None => { return Err(missing_map(mapfd)); }
    };
    let map_type = ctx.platform.get_map_type(desc.map_type);
    let dst = reg_pack(dst_reg, registry);
    if map_type.value_type == EbpfMapValueType::Program {
        acts::give_type(dom, dst_reg, TypeEncoding::TMapPrograms, registry, trace);
        set_variable(dom, dst.map_fd_programs, mapfd as i64, registry, trace);
    } else {
        acts::give_type(dom, dst_reg, TypeEncoding::TMap, registry, trace);
        set_variable(dom, dst.map_fd, mapfd as i64, registry, trace);
    }
    ebpf_memory::assign_valid_ptr(dom, dst_reg, maybe_null, ctx, registry, trace);
    assert(trace.acts@ =~= t0 + map_fd_acts(&ctx.platform, *dst_reg, mapfd as int, maybe_null, ctx.runtime.pointer_limit()));
    Ok(())
}

/// What a load of the address of a map's values does.
pub open spec fn map_address_acts(p: &EbpfPlatform, dst: Reg, fd: int, offset: int, limit: int) -> Seq<Act> {
    seq![
        ebpf_memory::gives(dst, TypeEncoding::TShared),
        ebpf_memory::numbers(seq![
            numeric_ops::set_number(rcp::id_of(DataKind::SharedOffsets, dst), offset),
            numeric_ops::set_number(rcp::id_of(DataKind::SharedRegionSizes, dst), p.map_from(fd, 0)->Some_0.value_size as int),
        ]),
        ebpf_memory::numbers(ebpf_memory::valid_ptr_steps(dst, false, limit)),
    ]
}

/// Whether the address of a map's values can be loaded.
pub open spec fn has_address(p: &EbpfPlatform, fd: int) -> bool {
    p.map_from(fd, 0) is Some && !holds_programs(p, fd)
}

/// What a load of a map's descriptor does to a state.
pub open spec fn load_map_fd_effect(be: bool, ctx: &DomainContext, ins: LoadMapFd, a: Place, b: Place) -> bool {
    if a.0.num() is None { a == b } else { acts::follows(be, a, map_fd_acts(&ctx.platform, ins.dst, ins.mapfd as int, false, ctx.runtime.pointer_limit()), b) }
}

/// What a load of the address of a map's values does to a state.
pub open spec fn load_map_address_effect(be: bool, ctx: &DomainContext, ins: LoadMapAddress, a: Place, b: Place) -> bool {
    if a.0.num() is None { a == b } else {
        acts::follows(be, a, map_address_acts(&ctx.platform, ins.dst, ins.mapfd as int, ins.offset as int, ctx.runtime.pointer_limit()), b)
    }
}

/// Loads a map's descriptor.
pub(crate) fn transform_load_map_fd(dom: &mut EbpfDomain, ins: &LoadMapFd, ctx: &DomainContext, registry: &mut VariableRegistry) -> (r: Result<(), VerificationError>)
    requires old(dom).wf(), old(registry)@.ready(), ins.dst.ok(),
    ensures
        final(dom).wf(),
        final(registry)@ == old(registry)@,
        r is Err <==> old(dom).num() is Some && ctx.platform.map_from(ins.mapfd as int, 0) is None,
        r is Ok ==> load_map_fd_effect(ctx.runtime.big_endian, ctx, *ins, (*old(dom), old(registry)@), (*final(dom), final(registry)@)),
        r matches Err(e) ==> e.message@ == map_missing(ins.mapfd as int) && e.label is None && *final(dom) == *old(dom),
{
    if dom.is_bottom() {
        return Ok(());
    }
    let mut trace = Trace::new(Ghost(ctx.runtime.big_endian), dom, registry);
    let r = do_load_mapfd(dom, &ins.dst, ins.mapfd, false, ctx, registry, &mut trace);
    proof {
        if r is Ok { assert(trace.acts@ =~= map_fd_acts(&ctx.platform, ins.dst, ins.mapfd as int, false, ctx.runtime.pointer_limit())); }
    }
    r
}

/// Loads the address of a map's values. The values of a program map have none.
pub(crate) fn transform_load_map_address(dom: &mut EbpfDomain, ins: &LoadMapAddress, ctx: &DomainContext, registry: &mut VariableRegistry) -> (r: Result<(), VerificationError>)
    requires old(dom).wf(), old(registry)@.ready(), ins.dst.ok(),
    ensures
        final(dom).wf(),
        final(registry)@ == old(registry)@,
        r is Err <==> old(dom).num() is Some && !has_address(&ctx.platform, ins.mapfd as int),
        r is Ok ==> load_map_address_effect(ctx.runtime.big_endian, ctx, *ins, (*old(dom), old(registry)@), (*final(dom), final(registry)@)),
        r matches Err(e) ==> e.label is None && *final(dom) == *old(dom) && e.message@ == (if ctx.platform.map_from(ins.mapfd as int, 0) is None {
            map_missing(ins.mapfd as int)
        } else {
            "Cannot load address of program map type - only data maps are supported"@
        }),
{
    if dom.is_bottom() {
        return Ok(());
    }
    let desc = match ctx.platform.get_map_descriptor(ins.mapfd) {
        Some(d) => d,
        None => { return Err(missing_map(ins.mapfd)); }
    };
    let map_type = ctx.platform.get_map_type(desc.map_type);
    if map_type.value_type == EbpfMapValueType::Program {
        return Err(VerificationError::new(String::from_str("Cannot load address of program map type - only data maps are supported")));
    }
    let mut trace = Trace::new(Ghost(ctx.runtime.big_endian), dom, registry);
    acts::give_type(dom, &ins.dst, TypeEncoding::TShared, registry, &mut trace);
    let dst = reg_pack(&ins.dst, registry);
    let ghost before: Place = (*dom, registry@);
    let mut log = Log::new(&dom.state.values, registry);
    numeric_ops::number(&mut dom.state.values, dst.shared_offset, ins.offset as i64, registry, &mut log);
    numeric_ops::number(&mut dom.state.values, dst.shared_region_size, desc.value_size as i64, registry, &mut log);
    assert(log.done@ =~= seq![
        numeric_ops::set_number(rcp::id_of(DataKind::SharedOffsets, ins.dst), ins.offset as int),
        numeric_ops::set_number(rcp::id_of(DataKind::SharedRegionSizes, ins.dst), desc.value_size as int),
    ]);
    trace.numbers(&log, Ghost(before), dom, registry);
    ebpf_memory::assign_valid_ptr(dom, &ins.dst, false, ctx, registry, &mut trace);
    assert(trace.acts@ =~= map_address_acts(&ctx.platform, ins.dst, ins.mapfd as int, ins.offset as int, ctx.runtime.pointer_limit()));
    Ok(())
}

// ---------------------------------------------------------------------------------------------
// Code addresses
// ---------------------------------------------------------------------------------------------

/// Two 32-bit immediates as one number of 64 bits.
pub open spec fn merged_imm(lo: i32, hi: i32) -> int {
    number::wrap_unsigned(lo as int, 32) + number::wrap_unsigned(hi as int, 32) * 0x1_0000_0000
}

fn merge_imm32_to_u64(lo: i32, hi: i32) -> (r: u64)
    ensures r == merged_imm(lo, hi),
{
    proof {
        vstd::arithmetic::power2::lemma2_to64();
        vstd::arithmetic::div_mod::lemma_mod_bound(lo as int, vstd::arithmetic::power2::pow2(32) as int);
        vstd::arithmetic::div_mod::lemma_mod_bound(hi as int, vstd::arithmetic::power2::pow2(32) as int);
    }
    let a: u64 = Number::of(lo as i128).cast_to_unsigned_width(32).narrow_to_u64();
    let b: u64 = Number::of(hi as i128).cast_to_unsigned_width(32).narrow_to_u64();
    a + b * 0x1_0000_0000
}

/// What a load of a code address does: the value is known, and the type becomes unknown, as no type
/// stands for code.
pub open spec fn load_code_acts(p: LoadPseudo) -> Seq<Act> {
    let u = rcp::id_of(DataKind::Uvalues, p.dst);
    seq![
        ebpf_memory::numbers(seq![numeric_ops::set_number(u, number::wrap_signed(merged_imm(p.addr.imm, p.addr.next_imm), 64)), Step::WrapOne(u, 64, false)]),
        Act::Update(TypeChange::Forgot(rcp::type_id(p.dst)), seq![]),
        ebpf_memory::forgets_offsets(p.dst),
    ]
}

/// Loads a code address.
pub(crate) fn transform_load_pseudo(dom: &mut EbpfDomain, p: &LoadPseudo, registry: &mut VariableRegistry, Ghost(be): Ghost<bool>)
    requires old(dom).wf(), old(registry)@.ready(), p.dst.ok(), p.addr.kind is CodeAddr,
    ensures
        final(dom).wf(),
        final(registry)@ == old(registry)@,
        acts::follows(be, (*old(dom), old(registry)@), load_code_acts(*p), (*final(dom), final(registry)@)),
{
    let mut trace = Trace::new(Ghost(be), dom, registry);
    let dst = reg_pack(&p.dst, registry);
    let v: u64 = merge_imm32_to_u64(p.addr.imm, p.addr.next_imm);
    let n: i64 = crate::ebpf_bin::immediate_of(v, true);
    let ghost before: Place = (*dom, registry@);
    let mut log = Log::new(&dom.state.values, registry);
    numeric_ops::number(&mut dom.state.values, dst.uvalue, n, registry, &mut log);
    numeric_ops::wrap(&mut dom.state.values, dst.uvalue, 64, false, registry, &mut log);
    assert(log.done@ =~= seq![
        numeric_ops::set_number(rcp::id_of(DataKind::Uvalues, p.dst), number::wrap_signed(merged_imm(p.addr.imm, p.addr.next_imm), 64)),
        Step::WrapOne(rcp::id_of(DataKind::Uvalues, p.dst), 64, false),
    ]);
    trace.numbers(&log, Ghost(before), dom, registry);
    acts::forget_type(dom, &p.dst, registry, &mut trace);
    acts::forget_offsets(dom, &p.dst, registry, &mut trace);
    assert(trace.acts@ =~= load_code_acts(*p));
}

// ---------------------------------------------------------------------------------------------
// Registers across calls
// ---------------------------------------------------------------------------------------------

/// The registers from `lo` on, `n` of them, are forgotten.
pub open spec fn forget_range_acts(lo: int, n: nat) -> Seq<Act>
    decreases n,
{
    if n == 0 { seq![] } else { forget_range_acts(lo, (n - 1) as nat).push(ebpf_memory::forgets(Reg { v: (lo + n - 1) as u8 })) }
}

/// The registers that a call does not keep are forgotten.
pub open spec fn scratch_acts() -> Seq<Act> {
    forget_range_acts(1, 5)
}

pub(crate) fn forget_range(dom: &mut EbpfDomain, lo: u8, n: u8, registry: &mut VariableRegistry, trace: &mut Trace)
    requires old(trace).leads_to(old(dom), old(registry)@), lo + n <= 12,
    ensures
        final(registry)@ == old(registry)@,
        final(trace).leads_to(final(dom), final(registry)@),
        final(trace).grew(old(trace), forget_range_acts(lo as int, n as nat)),
{
    let ghost trace0 = *trace;
    let mut i: u8 = 0;
    assert(trace.acts@ =~= trace0.acts@ + forget_range_acts(lo as int, 0));
    while i < n
        invariant
            i <= n,
            lo + n <= 12,
            registry@ == old(registry)@,
            trace.leads_to(dom, registry@),
            trace.grew(&trace0, forget_range_acts(lo as int, i as nat)),
        decreases n - i,
    {
        acts::forget_register(dom, &Reg { v: lo + i }, registry, trace);
        assert(trace.acts@ =~= trace0.acts@ + forget_range_acts(lo as int, (i + 1) as nat));
        i = i + 1;
    }
}

/// What a load of a packet's bytes by the legacy instructions does.
pub open spec fn packet_acts() -> Seq<Act> {
    seq![ebpf_memory::forgets_values(Reg { v: 0 }), ebpf_memory::gives(Reg { v: 0 }, TypeEncoding::TNum)] + scratch_acts()
}

/// Loads bytes of a packet by the legacy instructions.
pub(crate) fn transform_packet(dom: &mut EbpfDomain, registry: &mut VariableRegistry, Ghost(be): Ghost<bool>)
    requires old(dom).wf(), old(registry)@.ready(),
    ensures
        final(dom).wf(),
        final(registry)@ == old(registry)@,
        old(dom).num() is None ==> *final(dom) == *old(dom),
        old(dom).num() is Some ==> acts::follows(be, (*old(dom), old(registry)@), packet_acts(), (*final(dom), final(registry)@)),
{
    if dom.is_bottom() {
        return;
    }
    let mut trace = Trace::new(Ghost(be), dom, registry);
    acts::forget_values(dom, &Reg { v: R0_RETURN_VALUE }, registry, &mut trace);
    acts::give_type(dom, &Reg { v: R0_RETURN_VALUE }, TypeEncoding::TNum, registry, &mut trace);
    forget_range(dom, 1, 5, registry, &mut trace);
    assert(trace.acts@ =~= packet_acts());
}

/// What was found of a register that is saved.
pub struct SaveSeen {
    pub initialized: bool,
    pub type_var: Variable,
    pub tes: Seq<TypeEncoding>,
    pub vars: Seq<Variable>,
}

/// The kinds that are saved for a type.
pub open spec fn saved_kinds(tes: Seq<TypeEncoding>) -> Seq<DataKind>
    decreases tes.len(),
{
    if tes.len() == 0 { seq![] } else { saved_kinds(tes.drop_last()) + rcp::kinds_of(tes.last()).push(DataKind::Uvalues) }
}

fn list_saved_kinds(tes: &Vec<TypeEncoding>) -> (r: Vec<DataKind>)
    ensures r@ == saved_kinds(tes@),
{
    let mut out: Vec<DataKind> = Vec::new();
    let mut i: usize = 0;
    while i < tes.len()
        invariant i <= tes.len(), out@ == saved_kinds(tes@.take(i as int)),
        decreases tes.len() - i,
    {
        let mut kinds = type_to_kinds(tes[i]);
        kinds.push(DataKind::Uvalues);
        out.append(&mut kinds);
        assert(tes@.take(i + 1).drop_last() =~= tes@.take(i as int));
        i = i + 1;
    }
    assert(tes@.take(tes@.len() as int) =~= tes@);
    out
}

/// The values of some kinds of a register are copied to a frame.
pub open spec fn save_kinds_acts(r: Reg, prefix: Seq<char>, kinds: Seq<DataKind>, vars: Seq<Variable>, n: nat) -> Seq<Act>
    decreases n,
{
    if n == 0 {
        seq![]
    } else {
        save_kinds_acts(r, prefix, kinds, vars, (n - 1) as nat) + seq![
            Act::Named(var_registry::frame_name(kinds[n - 1], r.v as int, prefix), vars[n - 1]),
            ebpf_memory::numbers(seq![Step::Copy(vars[n - 1].id, rcp::id_of(kinds[n - 1], r))]),
        ]
    }
}

/// A register that the caller keeps is copied to the frame of the call.
pub open spec fn save_acts(r: Reg, prefix: Seq<char>, w: SaveSeen) -> Seq<Act> {
    seq![Act::Initialized(r, w.initialized)] + (if !w.initialized { seq![] } else {
        seq![
            Act::Named(var_registry::frame_name(DataKind::Types, r.v as int, prefix), w.type_var),
            Act::Update(TypeChange::Copied(w.type_var.id, rcp::type_id(r)), seq![]),
            Act::Iterated(r, w.tes),
        ] + save_kinds_acts(r, prefix, saved_kinds(w.tes), w.vars, saved_kinds(w.tes).len())
    })
}

/// The first `n` of the registers that the caller keeps are copied.
pub open spec fn save_all_acts(prefix: Seq<char>, ws: Seq<SaveSeen>, n: nat) -> Seq<Act>
    decreases n,
{
    if n == 0 { seq![] } else { save_all_acts(prefix, ws, (n - 1) as nat) + save_acts(Reg { v: (6 + n - 1) as u8 }, prefix, ws[n - 1]) }
}

proof fn lemma_save_kinds_same(r: Reg, prefix: Seq<char>, kinds: Seq<DataKind>, a: Seq<Variable>, b: Seq<Variable>, n: nat)
    requires n <= a.len(), n <= b.len(), forall|i: int| 0 <= i < n ==> a[i] == b[i],
    ensures save_kinds_acts(r, prefix, kinds, a, n) == save_kinds_acts(r, prefix, kinds, b, n),
    decreases n,
{
    if n > 0 { lemma_save_kinds_same(r, prefix, kinds, a, b, (n - 1) as nat); }
}

proof fn lemma_save_all_same(prefix: Seq<char>, a: Seq<SaveSeen>, b: Seq<SaveSeen>, n: nat)
    requires n <= a.len(), n <= b.len(), forall|i: int| 0 <= i < n ==> a[i] == b[i],
    ensures save_all_acts(prefix, a, n) == save_all_acts(prefix, b, n),
    decreases n,
{
    if n > 0 { lemma_save_all_same(prefix, a, b, (n - 1) as nat); }
}

fn save_kinds(dom: &mut EbpfDomain, reg: &Reg, prefix: &str, kinds: &Vec<DataKind>, registry: &mut VariableRegistry, trace: &mut Trace) -> (vars: Ghost<Seq<Variable>>)
    requires old(trace).leads_to(old(dom), old(registry)@), reg.ok(),
    ensures
        final(trace).leads_to(final(dom), final(registry)@),
        final(trace).grew(old(trace), save_kinds_acts(*reg, prefix@, kinds@, vars@, kinds@.len())),
{
    let ghost trace0 = *trace;
    let ghost mut vars: Seq<Variable> = seq![];
    let mut i: usize = 0;
    assert(trace.acts@ =~= trace0.acts@ + save_kinds_acts(*reg, prefix@, kinds@, vars, 0));
    while i < kinds.len()
        invariant
            i <= kinds.len(),
            reg.ok(),
            vars.len() == i,
            trace.leads_to(dom, registry@),
            trace.grew(&trace0, save_kinds_acts(*reg, prefix@, kinds@, vars, i as nat)),
        decreases kinds.len() - i,
    {
        let kind: DataKind = kinds[i];
        let x = acts::frame_variable(dom, kind, reg.v as i32, prefix, registry, trace);
        proof { registry@.register_variable(kind, reg.v as int); registry@.register_is_there(kind, reg.v as int, var_registry::kind_meta(kind, false)); }
        let src = registry.reg(kind, reg.v as i32);
        let ghost before: Place = (*dom, registry@);
        let mut log = Log::new(&dom.state.values, registry);
        numeric_ops::copy_var(&mut dom.state.values, x, src, registry, &mut log);
        assert(log.done@ =~= seq![Step::Copy(x.id, rcp::id_of(kind, *reg))]);
        trace.numbers(&log, Ghost(before), dom, registry);
        proof {
            let old_vars = vars;
            vars = vars.push(x);
            lemma_save_kinds_same(*reg, prefix@, kinds@, old_vars, vars, i as nat);
            assert(trace.acts@ =~= trace0.acts@ + save_kinds_acts(*reg, prefix@, kinds@, vars, (i + 1) as nat));
        }
        i = i + 1;
    }
    Ghost(vars)
}

fn save_register(dom: &mut EbpfDomain, reg: &Reg, prefix: &str, registry: &mut VariableRegistry, trace: &mut Trace) -> (w: Ghost<SaveSeen>)
    requires old(trace).leads_to(old(dom), old(registry)@), reg.ok(),
    ensures
        final(trace).leads_to(final(dom), final(registry)@),
        final(trace).grew(old(trace), save_acts(*reg, prefix@, w@)),
{
    let ghost t0 = trace.acts@;
    if !acts::test_initialized(dom, reg, registry, trace) {
        let ghost w = SaveSeen { initialized: false, type_var: var_registry::reg_var(DataKind::Types, 0), tes: seq![], vars: seq![] };
        assert(trace.acts@ =~= t0 + save_acts(*reg, prefix@, w));
        return Ghost(w);
    }
    let type_var = acts::frame_variable(dom, DataKind::Types, reg.v as i32, prefix, registry, trace);
    proof { registry@.register_variable(DataKind::Types, reg.v as int); registry@.register_is_there(DataKind::Types, reg.v as int, var_registry::kind_meta(DataKind::Types, false)); }
    let src = registry.type_reg(reg.v as i32);
    acts::copy_type(dom, type_var, src, registry, trace);
    let tes = acts::list_types(dom, reg, registry, trace);
    let kinds = list_saved_kinds(&tes);
    let vars = save_kinds(dom, reg, prefix, &kinds, registry, trace);
    let ghost w = SaveSeen { initialized: true, type_var, tes: tes@, vars: vars@ };
    assert(trace.acts@ =~= t0 + save_acts(*reg, prefix@, w));
    Ghost(w)
}

/// What a call of a function of the program does: the caller's registers are saved, and the stack
/// pointer moves to the next frame.
pub open spec fn call_local_acts(prefix: Seq<char>, size: int, ws: Seq<SaveSeen>, w: Seen) -> Seq<Act> {
    save_all_acts(prefix, ws, 4) + ebpf_arith::add_acts(Reg { v: 10 }, -size, 64, w)
}

fn no_answers() -> (r: Ghost<Seen>)
{
    let e = LinearExpression::from_i64(0);
    Ghost(Seen { first: false, second: false, third: false, fourth: false, offset: None, iv: Interval::all(), e })
}

/// Calls a function of the program.
pub(crate) fn transform_call_local(dom: &mut EbpfDomain, prefix: &str, ctx: &DomainContext, registry: &mut VariableRegistry)
    requires old(dom).wf(), old(registry)@.ready(), ctx.ok(),
    ensures
        final(dom).wf(),
        final(registry)@.ready(),
        old(dom).num() is None ==> *final(dom) == *old(dom) && final(registry)@ == old(registry)@,
        old(dom).num() is Some ==> exists|ws: Seq<SaveSeen>, w: Seen| acts::follows(ctx.runtime.big_endian, (*old(dom), old(registry)@),
            #[trigger] call_local_acts(prefix@, ctx.runtime.subprogram_stack_size as int, ws, w), (*final(dom), final(registry)@)),
{
    if dom.is_bottom() {
        return;
    }
    let mut trace = Trace::new(Ghost(ctx.runtime.big_endian), dom, registry);
    let ghost start: Place = (*dom, registry@);
    let ghost mut ws: Seq<SaveSeen> = seq![];
    let mut i: u8 = 0;
    assert(trace.acts@ =~= save_all_acts(prefix@, ws, 0));
    while i < 4
        invariant
            i <= 4,
            ws.len() == i,
            trace.leads_to(dom, registry@),
            trace.start@ == start,
            trace.be@ == ctx.runtime.big_endian,
            trace.acts@ == save_all_acts(prefix@, ws, i as nat),
        decreases 4 - i,
    {
        let w = save_register(dom, &Reg { v: 6 + i }, prefix, registry, &mut trace);
        proof {
            let old_ws = ws;
            ws = ws.push(w@);
            lemma_save_all_same(prefix@, old_ws, ws, i as nat);
            assert(trace.acts@ =~= save_all_acts(prefix@, ws, (i + 1) as nat));
        }
        i = i + 1;
    }
    let answers = no_answers();
    let w = ebpf_arith::add_to_reg(dom, &Reg { v: R10_STACK_POINTER }, -(ctx.runtime.subprogram_stack_size as i64), 64, registry, &mut trace, answers);
    assert(trace.acts@ =~= call_local_acts(prefix@, ctx.runtime.subprogram_stack_size as int, ws, w@));
    assert(acts::follows(ctx.runtime.big_endian, start, call_local_acts(prefix@, ctx.runtime.subprogram_stack_size as int, ws, w@), (*dom, registry@)));
}

// ---------------------------------------------------------------------------------------------
// Returning
// ---------------------------------------------------------------------------------------------

/// The stack of the returning function, where the frame pointer is known.
pub open spec fn frame_start(iv: Interval, size: int) -> Option<int> {
    match iv.singleton_spec() {
        Some(n) => if i64::MIN <= n@ - size && n@ <= i64::MAX { Some(n@ - size) } else { None },
        None => None,
    }
}

/// The stack of the returning function is forgotten.
pub open spec fn drop_frame_acts(iv: Interval, size: int) -> Seq<Act> {
    seq![Act::ValueOf(rcp::id_of(DataKind::StackOffsets, Reg { v: 10 }), iv)] + (match frame_start(iv, size) {
        Some(start) => {
            let idx = ebpf_store::wide(start);
            let width = ebpf_store::wide(size);
            seq![Act::HavocType(idx, width)] + ebpf_store::havoc_acts(ebpf_store::value_kinds(), idx, width, false, ebpf_store::value_kinds().len())
        },
        None => seq![],
    })
}

/// The kinds of a register's variables that a frame holds.
pub open spec fn frame_kinds() -> Seq<DataKind> {
    type_encoding::kind_range(DataKind::Types, DataKind::StackNumericSizes)
}

/// The `n`th variable of the registers that the caller keeps: eleven for each register.
pub open spec fn frame_reg(n: int) -> int {
    6 + n / 11
}

pub open spec fn frame_kind(n: int) -> DataKind {
    DataKind::of_rank(n % 11)
}

/// The variables of the frame, one after the other.
pub open spec fn frame_names_acts(prefix: Seq<char>, vars: Seq<Variable>, n: nat) -> Seq<Act>
    decreases n,
{
    if n == 0 { seq![] } else {
        frame_names_acts(prefix, vars, (n - 1) as nat).push(Act::Named(var_registry::frame_name(frame_kind(n - 1), frame_reg(n - 1), prefix), vars[n - 1]))
    }
}

proof fn lemma_frame_names_same(prefix: Seq<char>, a: Seq<Variable>, b: Seq<Variable>, n: nat)
    requires n <= a.len(), n <= b.len(), forall|i: int| 0 <= i < n ==> a[i] == b[i],
    ensures frame_names_acts(prefix, a, n) == frame_names_acts(prefix, b, n),
    decreases n,
{
    if n > 0 { lemma_frame_names_same(prefix, a, b, (n - 1) as nat); }
}

/// The renaming that gives the caller its registers back.
pub open spec fn restoring(vars: Seq<Variable>) -> Seq<(Variable, Variable)> {
    Seq::new(44, |n: int| (vars[n], var_registry::reg_var(frame_kind(n), frame_reg(n))))
}

/// The caller gets its registers back.
pub open spec fn restore_acts(prefix: Seq<char>, vars: Seq<Variable>) -> Seq<Act> {
    forget_range_acts(6, 4) + frame_names_acts(prefix, vars, 44)
        + seq![Act::RenameTypes(restoring(vars)), ebpf_memory::numbers(seq![Step::Rename(restoring(vars))])]
}

/// What a return to a caller does.
pub open spec fn exit_acts(prefix: Seq<char>, size: int, iv: Interval, vars: Seq<Variable>, w: Seen) -> Seq<Act> {
    drop_frame_acts(iv, size) + restore_acts(prefix, vars) + ebpf_arith::add_acts(Reg { v: 10 }, size, 64, w) + scratch_acts()
}

fn havoc_subprogram_stack(dom: &mut EbpfDomain, size: i32, big_endian: bool, registry: &mut VariableRegistry, trace: &mut Trace) -> (iv: Interval)
    requires old(trace).leads_to(old(dom), old(registry)@), big_endian == old(trace).be@, size >= 0,
    ensures
        final(trace).leads_to(final(dom), final(registry)@),
        final(trace).grew(old(trace), drop_frame_acts(iv, size as int)),
{
    let ghost t0 = trace.acts@;
    let pack = reg_pack(&Reg { v: R10_STACK_POINTER }, registry);
    let iv = acts::evaluate_var(dom, pack.stack_offset, registry, trace);
    if let Some(n) = iv.singleton() {
        if n.n <= i64::MAX as i128 && n.n >= i64::MIN as i128 + size as i128 {
            let start: i64 = (n.n - size as i128) as i64;
            let idx = Interval::from_i64(start);
            let width = Interval::from_i64(size as i64);
            acts::havoc_type_range(dom, &idx, &width, registry, trace);
            ebpf_store::havoc_kinds(dom, &idx, &width, false, big_endian, registry, trace);
        }
    }
    assert(trace.acts@ =~= t0 + drop_frame_acts(iv, size as int));
    iv
}

fn restore_callee_saved_registers(dom: &mut EbpfDomain, prefix: &str, registry: &mut VariableRegistry, trace: &mut Trace) -> (vars: Ghost<Seq<Variable>>)
    requires old(trace).leads_to(old(dom), old(registry)@),
    ensures
        final(trace).leads_to(final(dom), final(registry)@),
        final(trace).grew(old(trace), restore_acts(prefix@, vars@)),
{
    let ghost t0 = trace.acts@;
    forget_range(dom, 6, 4, registry, trace);
    let ghost trace1 = *trace;
    let kinds = iterate_kinds(KIND_MIN, KIND_MAX);
    let ghost mut vars: Seq<Variable> = seq![];
    let mut pairs: Vec<(Variable, Variable)> = Vec::new();
    let mut n: usize = 0;
    assert(trace.acts@ =~= trace1.acts@ + frame_names_acts(prefix@, vars, 0));
    while n < 44
        invariant
            n <= 44,
            vars.len() == n,
            pairs.len() == n,
            kinds@ == frame_kinds(),
            trace.leads_to(dom, registry@),
            trace.grew(&trace1, frame_names_acts(prefix@, vars, n as nat)),
            forall|i: int| 0 <= i < n ==> #[trigger] pairs@[i] == (vars[i], var_registry::reg_var(frame_kind(i), frame_reg(i))),
        decreases 44 - n,
    {
        let r: i32 = 6 + (n / 11) as i32;
        let kind: DataKind = kinds[n % 11];
        assert(kind == frame_kind(n as int));
        proof { registry@.register_variable(kind, r as int); registry@.register_is_there(kind, r as int, var_registry::kind_meta(kind, false)); }
        let reg_var = registry.reg(kind, r);
        let x = acts::frame_variable(dom, kind, r, prefix, registry, trace);
        let ghost before = pairs@;
        pairs.push((x, reg_var));
        proof {
            let old_vars = vars;
            vars = vars.push(x);
            lemma_frame_names_same(prefix@, old_vars, vars, n as nat);
            assert(trace.acts@ =~= trace1.acts@ + frame_names_acts(prefix@, vars, (n + 1) as nat));
            assert forall|i: int| 0 <= i < n + 1 implies #[trigger] pairs@[i] == (vars[i], var_registry::reg_var(frame_kind(i), frame_reg(i))) by {
                if i < n { assert(before[i] == pairs@[i]); }
            }
        }
        n = n + 1;
    }
    assert(pairs@ =~= restoring(vars));
    acts::rename_types(dom, pairs.as_slice(), registry, trace);
    let ghost before: Place = (*dom, registry@);
    let mut log = Log::new(&dom.state.values, registry);
    numeric_ops::rename(&mut dom.state.values, pairs.as_slice(), registry, &mut log);
    assert(log.done@ =~= seq![Step::Rename(restoring(vars))]);
    trace.numbers(&log, Ghost(before), dom, registry);
    assert(trace.acts@ =~= t0 + restore_acts(prefix@, vars));
    Ghost(vars)
}

/// Returns to a caller. The end of the main function changes nothing.
pub(crate) fn transform_exit(dom: &mut EbpfDomain, prefix: &str, ctx: &DomainContext, registry: &mut VariableRegistry)
    requires old(dom).wf(), old(registry)@.ready(), ctx.ok(),
    ensures
        final(dom).wf(),
        final(registry)@.ready(),
        old(dom).num() is None || prefix@.len() == 0 ==> *final(dom) == *old(dom) && final(registry)@ == old(registry)@,
        old(dom).num() is Some && prefix@.len() > 0 ==> exists|iv: Interval, vars: Seq<Variable>, w: Seen| acts::follows(ctx.runtime.big_endian, (*old(dom), old(registry)@),
            #[trigger] exit_acts(prefix@, ctx.runtime.subprogram_stack_size as int, iv, vars, w), (*final(dom), final(registry)@)),
{
    let ghost start: Place = (*dom, registry@);
    if dom.is_bottom() {
        return;
    }
    if prefix.unicode_len() == 0 {
        return;
    }
    let size: i32 = ctx.runtime.subprogram_stack_size;
    let mut trace = Trace::new(Ghost(ctx.runtime.big_endian), dom, registry);
    let iv = havoc_subprogram_stack(dom, size, ctx.runtime.big_endian, registry, &mut trace);
    let vars = restore_callee_saved_registers(dom, prefix, registry, &mut trace);
    let answers = no_answers();
    let w = ebpf_arith::add_to_reg(dom, &Reg { v: R10_STACK_POINTER }, size as i64, 64, registry, &mut trace, answers);
    forget_range(dom, 1, 5, registry, &mut trace);
    assert(trace.acts@ =~= exit_acts(prefix@, size as int, iv, vars@, w@));
    assert(acts::follows(ctx.runtime.big_endian, start, exit_acts(prefix@, size as int, iv, vars@, w@), (*dom, registry@)));
}

}
