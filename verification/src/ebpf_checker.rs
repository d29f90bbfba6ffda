//! What must hold before an instruction, and whether a state shows that it does.
use vstd::prelude::*;
use vstd::string::*;
use crate::acts;
use crate::arith::linear_constraint::lt;
use crate::arith::linear_expression::{Env, LinearExpression};
use crate::arith::number;
use crate::arith::number::Number;
use crate::arith::variable::Variable;
use crate::array_domain;
use crate::config::{DomainContext, EbpfContextDescriptor};
use crate::demands;
use crate::demands::{Affine, Demand, Rel, Side};
use crate::ebpf_arith;
use crate::ebpf_bin;
use crate::ebpf_domain::EbpfDomain;
use crate::numeric_ops;
use crate::numeric_steps;
use crate::numeric_steps::Lin;
use crate::rcp;
use crate::rcp::reg_pack;
use crate::syntax::{AccessType, Imm, Reg, ValidAccess, Value, R10_STACK_POINTER};
use crate::text;
use crate::type_encoding::{DataKind, TypeEncoding};
use crate::var_registry;
use crate::var_registry::{RegistryView, VariableRegistry};

verus! {

// ---------------------------------------------------------------------------------------------
// Struct fields
// ---------------------------------------------------------------------------------------------

/// What a field of a struct may be used for.
#[derive(Clone, Copy, Debug, PartialEq, Eq, Structural)]
pub enum EbpfStructFieldPermission {
    ReadOnly,
    ReadWrite,
}

/// A field of a struct that programs see.
#[derive(Clone, Copy, Debug, PartialEq, Eq, Structural)]
pub struct EbpfStructFieldDescriptor {
    pub offset: i32,
    pub span: i32,
    pub permission: EbpfStructFieldPermission,
    pub max_access_width: i32,
    pub allow_narrow_access: bool,
    pub extra_read_width_at_start: i32,
}

/// A struct that programs see.
pub struct EbpfStructDescriptor {
    pub size: i32,
    pub fields: Vec<EbpfStructFieldDescriptor>,
}

/// The powers of two among 32-bit numbers.
pub open spec fn is_power(n: int) -> bool {
    exists|k: nat| k < 31 && n == #[trigger] vstd::arithmetic::power2::pow2(k)
}

/// Whether a number is a power of two.
pub fn is_power_of_two(size: i32) -> (r: bool)
    ensures r == is_power(size as int),
{
    proof {
        vstd::arithmetic::power2::lemma2_to64();
    }
    let mut p: i64 = 1;
    let mut k: u32 = 0;
    while k < 31
        invariant
            k <= 31,
            p == vstd::arithmetic::power2::pow2(k as nat),
            p <= 0x8000_0000,
            forall|j: nat| j < k ==> size != #[trigger] vstd::arithmetic::power2::pow2(j),
        decreases 31 - k,
    {
        if p == size as i64 {
            return true;
        }
        proof {
            vstd::arithmetic::power2::lemma_pow2_unfold((k + 1) as nat);
            vstd::arithmetic::power2::lemma2_to64();
            vstd::arithmetic::power2::lemma_pow2_strictly_increases(k as nat, 31);
        }
        p = p * 2;
        k = k + 1;
    }
    false
}

/// Whether a field takes bytes at all.
pub open spec fn is_present(f: EbpfStructFieldDescriptor) -> bool {
    f.offset >= 0 && f.span > 0
}

/// Whether an access to a field is allowed: to the whole field, to an aligned part of it where it
/// may be narrowed, and to the start of it for reads of one more width.
pub open spec fn field_admits(f: EbpfStructFieldDescriptor, offset: int, size: int, access: AccessType) -> bool {
    &&& is_present(f)
    &&& !(access is Write && f.permission is ReadOnly)
    &&& {
        ||| f.allow_narrow_access && size <= f.max_access_width && is_power(size) && offset >= f.offset && offset + size <= f.offset + f.span
        ||| !f.allow_narrow_access && offset == f.offset && size == f.max_access_width
        ||| access is Read && f.extra_read_width_at_start > 0 && size == f.extra_read_width_at_start && is_power(size) && offset == f.offset
    }
}

pub fn field_allows_access(field: &EbpfStructFieldDescriptor, offset: i32, size: i32, access_type: AccessType) -> (r: bool)
    ensures r == field_admits(*field, offset as int, size as int, access_type),
{
    if !(field.offset >= 0 && field.span > 0) {
        return false;
    }
    if access_type == AccessType::Write && field.permission == EbpfStructFieldPermission::ReadOnly {
        return false;
    }
    if field.allow_narrow_access {
        if size <= field.max_access_width && is_power_of_two(size) && offset >= field.offset
            && offset as i64 + size as i64 <= field.offset as i64 + field.span as i64 {
            return true;
        }
    } else if offset == field.offset && size == field.max_access_width {
        return true;
    }
    access_type == AccessType::Read && field.extra_read_width_at_start > 0 && size == field.extra_read_width_at_start
        && is_power_of_two(size) && offset == field.offset
}

/// Whether an access to a struct is aligned, within bounds and allowed by a field.
pub open spec fn struct_admits(d: &EbpfStructDescriptor, offset: int, size: int, access: AccessType) -> bool {
    &&& 0 < size
    &&& 0 <= offset
    &&& offset + size <= d.size
    &&& offset % size == 0
    &&& exists|i: int| 0 <= i < d.fields@.len() && #[trigger] field_admits(d.fields@[i], offset, size, access)
}

pub fn is_valid_struct_access(descriptor: &EbpfStructDescriptor, offset: i32, size: i32, access_type: AccessType) -> (r: bool)
    ensures r == struct_admits(descriptor, offset as int, size as int, access_type),
{
    if size <= 0 || offset < 0 || offset as i64 + size as i64 > descriptor.size as i64 {
        return false;
    }
    if (offset as u32) % (size as u32) != 0 {
        return false;
    }
    let mut i: usize = 0;
    while i < descriptor.fields.len()
        invariant
            i <= descriptor.fields.len(),
            0 < size,
            0 <= offset,
            offset + size <= descriptor.size,
            (offset as int) % (size as int) == 0,
            forall|j: int| 0 <= j < i ==> !(#[trigger] field_admits(descriptor.fields@[j], offset as int, size as int, access_type)),
        decreases descriptor.fields.len() - i,
    {
        if field_allows_access(&descriptor.fields[i], offset, size, access_type) {
            assert(field_admits(descriptor.fields@[i as int], offset as int, size as int, access_type));
            return true;
        }
        i = i + 1;
    }
    false
}

// ---------------------------------------------------------------------------------------------
// Memory accesses
// ---------------------------------------------------------------------------------------------

pub open spec fn sv(r: Reg) -> u64 {
    ebpf_arith::sv(r)
}

pub open spec fn uv(r: Reg) -> u64 {
    ebpf_arith::uv(r)
}

/// The width of an access.
pub open spec fn width_of(w: Value) -> Affine {
    match w {
        Value::Imm(i) => demands::num(ebpf_bin::immediate(i.v, true)),
        Value::Reg(r) => demands::var(sv(r)),
    }
}

/// The first byte of an access, and the first behind it, counted from the start of a region.
pub open spec fn lower_end(s: ValidAccess, kind: DataKind) -> Affine {
    demands::var_plus(rcp::id_of(kind, s.reg), s.offset as int)
}

pub open spec fn upper_end(s: ValidAccess, kind: DataKind) -> Affine {
    match s.width {
        Value::Imm(i) => demands::var_plus(rcp::id_of(kind, s.reg), s.offset + ebpf_bin::immediate(i.v, true)),
        Value::Reg(r) => demands::vars_plus(rcp::id_of(kind, s.reg), sv(r), s.offset as int),
    }
}

pub open spec fn at_most(a: Affine, b: Affine, m: Seq<char>) -> Demand {
    Demand::Compare(Rel::AtMost, a, b, m)
}

pub open spec fn below(a: Affine, b: Affine, m: Seq<char>) -> Demand {
    Demand::Compare(Rel::Below, a, b, m)
}

pub open spec fn equal(a: Affine, b: Affine, m: Seq<char>) -> Demand {
    Demand::Compare(Rel::Equal, a, b, m)
}

/// An upper bound that is a number, in a message.
pub open spec fn bound_text(n: int) -> Seq<char> {
    "Upper bound must be at most "@ + text::dec_int(n)
}

/// An access with no width compares pointers.
pub open spec fn is_comparison(s: ValidAccess) -> bool {
    s.width == Value::Imm(Imm { v: 0 })
}

/// An access to a packet stays behind the metadata and before the end: of the packet, or of every
/// packet for comparisons.
pub open spec fn packet_demands(lb: Affine, ub: Affine, max_size: Option<int>) -> Seq<Demand> {
    seq![
        at_most(demands::var(182), lb, "Lower bound must be at least meta_offset"@),
        match max_size {
            Some(n) => at_most(ub, demands::num(n), bound_text(n)),
            None => at_most(ub, demands::var(183), "Upper bound must be at most packet_size"@),
        },
    ]
}

/// An access to the stack stays within the frame and below the end.
pub open spec fn stack_demands(ctx: &DomainContext, lb: Affine, ub: Affine) -> Seq<Demand> {
    seq![
        at_most(demands::var_plus(rcp::id_of(DataKind::StackOffsets, Reg { v: 10 }), -ctx.runtime.subprogram_stack_size), lb,
            "Lower bound must be at least r10.stack_offset - subprogram_stack_size"@),
        at_most(ub, demands::num(ctx.runtime.stack_size()), "Upper bound must be at most total_stack_size"@),
    ]
}

/// An access to the context stays within it.
pub open spec fn context_demands(ctx: &DomainContext, lb: Affine, ub: Affine) -> Seq<Demand> {
    seq![
        at_most(demands::num(0), lb, "Lower bound must be at least 0"@),
        at_most(ub, demands::num(ctx.layout().size as int), bound_text(ctx.layout().size as int)),
    ]
}

/// An access to a shared region stays within it.
pub open spec fn shared_demands(reg: Reg, lb: Affine, ub: Affine) -> Seq<Demand> {
    seq![
        at_most(demands::num(0), lb, "Lower bound must be at least 0"@),
        at_most(ub, demands::var(rcp::id_of(DataKind::SharedRegionSizes, reg)),
            "Upper bound must be at most "@ + var_registry::reg_name(DataKind::SharedRegionSizes, reg.v as int)),
    ]
}

/// A pointer is not null.
pub open spec fn not_null(reg: Reg) -> Demand {
    below(demands::num(0), demands::var(uv(reg)), "Possible null access"@)
}

/// What was found of the bytes on the stack and of the pointers in the context.
pub struct AccessSeen {
    pub numeric: bool,
    pub touches: bool,
}

/// Whether the bytes of an access to the stack are all numbers.
pub open spec fn numeric_answer(d: &EbpfDomain, s: ValidAccess, answer: bool) -> bool {
    exists|l: LinearExpression, u: LinearExpression| #![trigger numeric_steps::sum_of(&l), numeric_steps::sum_of(&u)]
        numeric_steps::sum_of(&l) == lower_end(s, DataKind::StackOffsets).sum()
        && numeric_steps::sum_of(&u) == upper_end(s, DataKind::StackOffsets).sum()
        && l.orderly() && u.orderly()
        && answer == array_domain::all_numbers(d.stack.bits(), d.state.values.value_of(&l).join_spec(d.state.values.value_of(&u)))
}

/// An access lies before the end of a field at an offset, and an access lies behind its start.
pub open spec fn behind_start(s: ValidAccess, f: int) -> Lin {
    numeric_steps::below(demands::num(f).sum(), upper_end(s, DataKind::CtxOffsets).sum())
}

pub open spec fn before_end(s: ValidAccess, f: int) -> Lin {
    numeric_steps::below(lower_end(s, DataKind::CtxOffsets).sum(), demands::num(f).sum())
}

/// Whether an access may touch a pointer of the context at an offset.
pub open spec fn slot_answer(d: &EbpfDomain, r: RegistryView, s: ValidAccess, f: int, width: int, answer: bool) -> bool {
    if f < 0 {
        !answer
    } else if answer {
        acts::meet_answer(d, r, behind_start(s, f), true) && acts::meet_answer(d, r, before_end(s, f + width), true)
    } else {
        acts::meet_answer(d, r, behind_start(s, f), false) || acts::meet_answer(d, r, before_end(s, f + width), false)
    }
}

/// Whether an access may touch one of the three pointers of the context.
pub open spec fn touch_answer(d: &EbpfDomain, r: RegistryView, s: ValidAccess, c: EbpfContextDescriptor, answer: bool) -> bool {
    let width = c.end - c.data;
    if answer {
        slot_answer(d, r, s, c.data as int, width, true) || slot_answer(d, r, s, c.end as int, width, true) || slot_answer(d, r, s, c.meta as int, width, true)
    } else {
        slot_answer(d, r, s, c.data as int, width, false) && slot_answer(d, r, s, c.end as int, width, false) && slot_answer(d, r, s, c.meta as int, width, false)
    }
}

/// A write does not touch the pointers of the context.
pub open spec fn pointer_slot_demands(c: EbpfContextDescriptor, touches: bool) -> Seq<Demand> {
    if c.end < 0 {
        seq![]
    } else if c.end <= c.data {
        seq![Demand::Refuse("Cannot write to context with unexpected pointer-field layout"@)]
    } else if touches {
        seq![Demand::Refuse("Cannot write to context pointer field"@)]
    } else {
        seq![]
    }
}

/// What an access must meet where its pointer has one type.
pub open spec fn access_demands_at(ctx: &DomainContext, s: ValidAccess, te: TypeEncoding, w: AccessSeen) -> Seq<Demand> {
    match te {
        TypeEncoding::TPacket => packet_demands(lower_end(s, DataKind::PacketOffsets), upper_end(s, DataKind::PacketOffsets),
            if is_comparison(s) { Some(ctx.runtime.max_packet_size as int) } else { None }),
        TypeEncoding::TStack => stack_demands(ctx, lower_end(s, DataKind::StackOffsets), upper_end(s, DataKind::StackOffsets))
            + (if s.access_type is Read && !w.numeric {
                if s.offset < 0 {
                    seq![Demand::Refuse("Stack content is not numeric"@)]
                } else {
                    seq![at_most(width_of(s.width), demands::var_plus(rcp::id_of(DataKind::StackNumericSizes, s.reg), -s.offset), "Stack content is not numeric"@)]
                }
            } else {
                seq![]
            }),
        TypeEncoding::TCtx => (if s.access_type is Write { pointer_slot_demands(ctx.layout(), w.touches) } else { seq![] })
            + context_demands(ctx, lower_end(s, DataKind::CtxOffsets), upper_end(s, DataKind::CtxOffsets)),
        TypeEncoding::TShared => shared_demands(s.reg, lower_end(s, DataKind::SharedOffsets), upper_end(s, DataKind::SharedOffsets))
            + (if !is_comparison(s) && !s.or_null { seq![not_null(s.reg)] } else { seq![] }),
        TypeEncoding::TNum => if is_comparison(s) {
            seq![]
        } else if s.or_null {
            seq![equal(demands::var(sv(s.reg)), demands::num(0), "Non-null number"@)] + (match s.width {
                Value::Imm(i) => seq![Demand::Refuse("Non-zero access size with null pointer"@)],
                Value::Reg(r) => seq![equal(demands::var(sv(r)), demands::num(0), "Non-zero access size with null pointer"@)],
            })
        } else {
            seq![Demand::Refuse("Only pointers can be dereferenced"@)]
        },
        TypeEncoding::TMap | TypeEncoding::TMapPrograms => if is_comparison(s) { seq![] } else { seq![Demand::Refuse("FDs cannot be dereferenced directly"@)] },
        TypeEncoding::TUninit => seq![Demand::Refuse("Invalid type"@)],
    }
}

/// The types that are gone through for a register.
pub open spec fn types_for(d: &EbpfDomain, reg: Reg) -> Seq<TypeEncoding> {
    if rcp::initialized(&d.state, reg) { d.state.types.iterated(rcp::type_id(reg)) } else { seq![TypeEncoding::TUninit] }
}

/// What an access must meet for the first `n` types that its pointer may have.
pub open spec fn access_demands_below(ctx: &DomainContext, s: ValidAccess, tes: Seq<TypeEncoding>, w: AccessSeen, n: nat) -> Seq<Demand>
    decreases n,
{
    if n == 0 { seq![] } else { access_demands_below(ctx, s, tes, w, (n - 1) as nat) + access_demands_at(ctx, s, tes[n - 1], w) }
}

/// What an access must meet.
pub open spec fn access_demands(ctx: &DomainContext, d: &EbpfDomain, s: ValidAccess, w: AccessSeen) -> Seq<Demand> {
    access_demands_below(ctx, s, types_for(d, s.reg), w, types_for(d, s.reg).len())
}

/// What was found of the bytes of an access and of the pointers of the context.
pub open spec fn access_seen(ctx: &DomainContext, d: &EbpfDomain, r: RegistryView, s: ValidAccess, w: AccessSeen) -> bool {
    numeric_answer(d, s, w.numeric) && touch_answer(d, r, s, ctx.layout(), w.touches)
}

/// The lower end of an access.
fn lower_side(s: &ValidAccess, v: Variable, registry: &VariableRegistry) -> (r: Side)
    requires registry@.knows(v),
    ensures r.ok(registry@), r.a@ == demands::var_plus(v.id, s.offset as int),
{
    Side::var_plus(v, s.offset as i128, registry)
}

/// The upper end of an access.
fn upper_side(s: &ValidAccess, v: Variable, registry: &VariableRegistry) -> (r: Side)
    requires registry@.ready(), registry@.knows(v), s.width.ok(),
    ensures
        r.ok(registry@),
        r.a@ == (match s.width {
            Value::Imm(i) => demands::var_plus(v.id, s.offset + ebpf_bin::immediate(i.v, true)),
            Value::Reg(q) => demands::vars_plus(v.id, sv(q), s.offset as int),
        }),
{
    match s.width {
        Value::Imm(i) => {
            let n: i64 = ebpf_bin::immediate_of(i.v, true);
            Side::var_plus(v, s.offset as i128 + n as i128, registry)
        }
        Value::Reg(q) => {
            let pack = reg_pack(&q, registry);
            Side::vars_plus(v, pack.svalue, s.offset as i128, registry)
        }
    }
}

fn width_side(w: &Value, registry: &VariableRegistry) -> (r: Side)
    requires registry@.ready(), w.ok(),
    ensures r.ok(registry@), r.a@ == width_of(*w),
{
    match w {
        Value::Imm(i) => Side::num(ebpf_bin::immediate_of(i.v, true) as i128, registry),
        Value::Reg(q) => {
            let pack = reg_pack(q, registry);
            Side::var(pack.svalue, registry)
        }
    }
}

/// Asks, and complains with a message.
pub(crate) fn require(dom: &EbpfDomain, rel: Rel, a: Side, b: Side, message: &str, registry: &VariableRegistry) -> (r: Result<(), String>)
    requires dom.wf(), a.ok(registry@), b.ok(registry@),
    ensures demands::judged(dom, registry@, registry@, seq![Demand::Compare(rel, a.a@, b.a@, message@)], demands::outcome(r)),
{
    if demands::ask(dom, rel, a, b, registry, Ghost(message@)) {
        Ok(())
    } else {
        Err(String::from_str(message))
    }
}

/// Complains.
pub(crate) fn refuse(message: &str, Ghost(d): Ghost<EbpfDomain>, Ghost(r): Ghost<RegistryView>) -> (e: Result<(), String>)
    ensures e is Err, demands::judged(&d, r, r, seq![Demand::Refuse(message@)], demands::outcome(e)),
{
    proof { demands::judged_refusal(&d, r, r, message@); }
    Err(String::from_str(message))
}

/// Two demands, one after the other.
pub(crate) fn require_two(dom: &EbpfDomain, rel: Rel, a: Side, b: Side, first: &str, rel2: Rel, c: Side, d: Side, second: &str, registry: &VariableRegistry) -> (r: Result<(), String>)
    requires dom.wf(), a.ok(registry@), b.ok(registry@), c.ok(registry@), d.ok(registry@),
    ensures demands::judged(dom, registry@, registry@,
        seq![Demand::Compare(rel, a.a@, b.a@, first@), Demand::Compare(rel2, c.a@, d.a@, second@)], demands::outcome(r)),
{
    let ghost g = registry@;
    let ghost x = seq![Demand::Compare(rel, a.a@, b.a@, first@)];
    let ghost y = seq![Demand::Compare(rel2, c.a@, d.a@, second@)];
    proof { numeric_steps::extends_itself(g); assert(x + y =~= seq![Demand::Compare(rel, a.a@, b.a@, first@), Demand::Compare(rel2, c.a@, d.a@, second@)]); }
    match require(dom, rel, a, b, first, registry) {
        Err(m) => {
            proof { demands::judged_first(dom, g, g, g, x, y, m@); }
            Err(m)
        }
        Ok(_) => {
            let r = require(dom, rel2, c, d, second, registry);
            proof { demands::judged_both(dom, g, g, g, x, y, demands::outcome(r)); }
            r
        }
    }
}

fn bound_message(n: i32) -> (r: String)
    ensures r@ == bound_text(n as int),
{
    let mut s = String::from_str("Upper bound must be at most ");
    Number::of(n as i128).write_to(&mut s);
    s
}

pub(crate) fn check_access_packet(dom: &EbpfDomain, lb: Side, ub: Side, max_size: Option<i32>, registry: &mut VariableRegistry) -> (r: Result<(), String>)
    requires dom.wf(), old(registry)@.ready(), lb.ok(old(registry)@), ub.ok(old(registry)@),
    ensures
        final(registry)@ == old(registry)@,
        demands::judged(dom, final(registry)@, final(registry)@,
            packet_demands(lb.a@, ub.a@, match max_size { Some(n) => Some(n as int), None => None }), demands::outcome(r)),
{
    proof { registry@.packet_variables(); }
    let meta = registry.meta_offset();
    let size = registry.packet_size();
    let ghost ds = packet_demands(lb.a@, ub.a@, match max_size { Some(n) => Some(n as int), None => None });
    let start = Side::var(meta, registry);
    match max_size {
        Some(n) => {
            let end = Side::num(n as i128, registry);
            let message = bound_message(n);
            require_two(dom, Rel::AtMost, start, lb, "Lower bound must be at least meta_offset", Rel::AtMost, ub, end, message.as_str(), registry)
        }
        None => {
            let end = Side::var(size, registry);
            require_two(dom, Rel::AtMost, start, lb, "Lower bound must be at least meta_offset", Rel::AtMost, ub, end, "Upper bound must be at most packet_size", registry)
        }
    }
}

fn check_access_stack(dom: &EbpfDomain, lb: Side, ub: Side, ctx: &DomainContext, registry: &VariableRegistry) -> (r: Result<(), String>)
    requires dom.wf(), registry@.ready(), lb.ok(registry@), ub.ok(registry@), ctx.ok(),
    ensures demands::judged(dom, registry@, registry@, stack_demands(ctx, lb.a@, ub.a@), demands::outcome(r)),
{
    let r10 = reg_pack(&Reg { v: R10_STACK_POINTER }, registry);
    let start = Side::var_plus(r10.stack_offset, -(ctx.runtime.subprogram_stack_size as i128), registry);
    let end = Side::num(ctx.runtime.total_stack_size() as i128, registry);
    require_two(dom, Rel::AtMost, start, lb, "Lower bound must be at least r10.stack_offset - subprogram_stack_size",
        Rel::AtMost, ub, end, "Upper bound must be at most total_stack_size", registry)
}

fn check_access_context(dom: &EbpfDomain, lb: Side, ub: Side, ctx: &DomainContext, registry: &VariableRegistry) -> (r: Result<(), String>)
    requires dom.wf(), registry@.ready(), lb.ok(registry@), ub.ok(registry@), ctx.ok(),
    ensures demands::judged(dom, registry@, registry@, context_demands(ctx, lb.a@, ub.a@), demands::outcome(r)),
{
    let size: i32 = ctx.descriptor().size;
    let start = Side::num(0, registry);
    let end = Side::num(size as i128, registry);
    let message = bound_message(size);
    require_two(dom, Rel::AtMost, start, lb, "Lower bound must be at least 0", Rel::AtMost, ub, end, message.as_str(), registry)
}

pub(crate) fn check_access_shared(dom: &EbpfDomain, reg: &Reg, lb: Side, ub: Side, registry: &VariableRegistry) -> (r: Result<(), String>)
    requires dom.wf(), registry@.ready(), reg.ok(), lb.ok(registry@), ub.ok(registry@),
    ensures demands::judged(dom, registry@, registry@, shared_demands(*reg, lb.a@, ub.a@), demands::outcome(r)),
{
    let pack = reg_pack(reg, registry);
    proof { registry@.register_variable(DataKind::SharedRegionSizes, reg.v as int); }
    let start = Side::num(0, registry);
    let end = Side::var(pack.shared_region_size, registry);
    let mut message = String::from_str("Upper bound must be at most ");
    message.append(registry.name(pack.shared_region_size));
    assert(message@ =~= "Upper bound must be at most "@ + var_registry::reg_name(DataKind::SharedRegionSizes, reg.v as int));
    require_two(dom, Rel::AtMost, start, lb, "Lower bound must be at least 0", Rel::AtMost, ub, end, message.as_str(), registry)
}

/// Whether a constraint between two sides may hold.
fn may_be_below(dom: &EbpfDomain, a: &Side, b: &Side, registry: &VariableRegistry) -> (r: bool)
    requires dom.wf(), a.ok(registry@), b.ok(registry@),
    ensures acts::meet_answer(dom, registry@, numeric_steps::below(a.a@.sum(), b.a@.sum()), r),
{
    proof {
        demands::side_is_known(registry@, a);
        demands::side_is_known(registry@, b);
        numeric_ops::combination_is_known(registry@, a.e.terms@, -1, b.e.terms@);
    }
    let c = lt(a.e.copy(), b.e.copy());
    c.expression.order_holds();
    assert(numeric_steps::lin_of(&c) == numeric_steps::below(a.a@.sum(), b.a@.sum()));
    dom.state.values.intersect(&c, registry)
}

/// Whether an access may touch a pointer of the context at an offset.
fn may_touch_slot(dom: &EbpfDomain, s: &ValidAccess, f: i32, width: i64, registry: &VariableRegistry) -> (r: bool)
    requires dom.wf(), registry@.ready(), s.reg.ok(), s.width.ok(), 0 < width <= 0x1_0000_0000,
    ensures slot_answer(dom, registry@, *s, f as int, width as int, r),
{
    if f < 0 {
        return false;
    }
    let pack = reg_pack(&s.reg, registry);
    let lb = lower_side(s, pack.ctx_offset, registry);
    let ub = upper_side(s, pack.ctx_offset, registry);
    let start = Side::num(f as i128, registry);
    let end = Side::num(f as i128 + width as i128, registry);
    if !may_be_below(dom, &start, &ub, registry) {
        return false;
    }
    may_be_below(dom, &lb, &end, registry)
}

/// Whether an access may touch a pointer of the context.
fn may_touch_pointers(dom: &EbpfDomain, s: &ValidAccess, c: &EbpfContextDescriptor, registry: &VariableRegistry) -> (r: bool)
    requires dom.wf(), registry@.ready(), s.reg.ok(), s.width.ok(), c.data < c.end,
    ensures touch_answer(dom, registry@, *s, *c, r),
{
    let width: i64 = c.end as i64 - c.data as i64;
    let x: bool = may_touch_slot(dom, s, c.data, width, registry);
    if x {
        return true;
    }
    let y: bool = may_touch_slot(dom, s, c.end, width, registry);
    if y {
        return true;
    }
    may_touch_slot(dom, s, c.meta, width, registry)
}

/// Whether the bytes of an access to the stack are all numbers.
fn bytes_are_numbers(dom: &EbpfDomain, s: &ValidAccess, registry: &VariableRegistry) -> (r: bool)
    requires dom.wf(), registry@.ready(), s.reg.ok(), s.width.ok(),
    ensures numeric_answer(dom, *s, r),
{
    let pack = reg_pack(&s.reg, registry);
    let lb = lower_side(s, pack.stack_offset, registry);
    let ub = upper_side(s, pack.stack_offset, registry);
    let l = dom.state.values.eval_interval(&lb.e, registry);
    let u = dom.state.values.eval_interval(&ub.e, registry);
    let r: bool = dom.stack.all_num_lb_ub(&l, &u);
    lb.e.order_holds();
    ub.e.order_holds();
    assert(numeric_steps::sum_of(&lb.e) == lower_end(*s, DataKind::StackOffsets).sum());
    assert(numeric_steps::sum_of(&ub.e) == upper_end(*s, DataKind::StackOffsets).sum());
    r
}

/// What an access to the stack must meet.
fn check_stack(dom: &EbpfDomain, s: &ValidAccess, ctx: &DomainContext, numeric: bool, registry: &VariableRegistry, Ghost(w): Ghost<AccessSeen>) -> (r: Result<(), String>)
    requires dom.wf(), registry@.ready(), s.reg.ok(), s.width.ok(), ctx.ok(), w.numeric == numeric,
    ensures demands::judged(dom, registry@, registry@, access_demands_at(ctx, *s, TypeEncoding::TStack, w), demands::outcome(r)),
{
    let ghost g = registry@;
    let pack = reg_pack(&s.reg, registry);
    let lb = lower_side(s, pack.stack_offset, registry);
    let ub = upper_side(s, pack.stack_offset, registry);
    let ghost first = stack_demands(ctx, lb.a@, ub.a@);
    let ghost all = access_demands_at(ctx, *s, TypeEncoding::TStack, w);
    let ghost rest = all.skip(2);
    proof {
        numeric_steps::extends_itself(g);
        assert(all =~= first + rest);
    }
    match check_access_stack(dom, lb, ub, ctx, registry) {
        Err(m) => {
            proof { demands::judged_first(dom, g, g, g, first, rest, m@); }
            return Err(m);
        }
        Ok(_) => {}
    }
    let r = if s.access_type == AccessType::Read && !numeric {
        if s.offset < 0 {
            assert(rest =~= seq![Demand::Refuse("Stack content is not numeric"@)]);
            refuse("Stack content is not numeric", Ghost(*dom), Ghost(g))
        } else {
            let width = width_side(&s.width, registry);
            let left = Side::var_plus(pack.stack_numeric_size, -(s.offset as i128), registry);
            assert(rest =~= seq![at_most(width.a@, left.a@, "Stack content is not numeric"@)]);
            require(dom, Rel::AtMost, width, left, "Stack content is not numeric", registry)
        }
    } else {
        assert(rest =~= seq![]);
        Ok(())
    };
    proof { demands::judged_both(dom, g, g, g, first, rest, demands::outcome(r)); }
    r
}

/// What an access to the context must meet.
fn check_context(dom: &EbpfDomain, s: &ValidAccess, ctx: &DomainContext, touches: bool, registry: &VariableRegistry, Ghost(w): Ghost<AccessSeen>) -> (r: Result<(), String>)
    requires dom.wf(), registry@.ready(), s.reg.ok(), s.width.ok(), ctx.ok(), w.touches == touches,
    ensures demands::judged(dom, registry@, registry@, access_demands_at(ctx, *s, TypeEncoding::TCtx, w), demands::outcome(r)),
{
    let ghost g = registry@;
    let pack = reg_pack(&s.reg, registry);
    let lb = lower_side(s, pack.ctx_offset, registry);
    let ub = upper_side(s, pack.ctx_offset, registry);
    let ghost rest = context_demands(ctx, lb.a@, ub.a@);
    let ghost first = if s.access_type is Write { pointer_slot_demands(ctx.layout(), w.touches) } else { seq![] };
    proof { numeric_steps::extends_itself(g); }
    if s.access_type == AccessType::Write {
        let c = ctx.descriptor();
        if c.end >= 0 && c.end <= c.data {
            let r = refuse("Cannot write to context with unexpected pointer-field layout", Ghost(*dom), Ghost(g));
            proof { demands::judged_first(dom, g, g, g, first, rest, demands::outcome(r)->Err_0); }
            return r;
        }
        if c.end >= 0 && touches {
            let r = refuse("Cannot write to context pointer field", Ghost(*dom), Ghost(g));
            proof { demands::judged_first(dom, g, g, g, first, rest, demands::outcome(r)->Err_0); }
            return r;
        }
    }
    assert(first =~= seq![]);
    assert(access_demands_at(ctx, *s, TypeEncoding::TCtx, w) =~= rest);
    check_access_context(dom, lb, ub, ctx, registry)
}

/// What an access to a shared region must meet.
fn check_shared(dom: &EbpfDomain, s: &ValidAccess, ctx: &DomainContext, registry: &VariableRegistry, Ghost(w): Ghost<AccessSeen>) -> (r: Result<(), String>)
    requires dom.wf(), registry@.ready(), s.reg.ok(), s.width.ok(), ctx.ok(),
    ensures demands::judged(dom, registry@, registry@, access_demands_at(ctx, *s, TypeEncoding::TShared, w), demands::outcome(r)),
{
    let ghost g = registry@;
    let pack = reg_pack(&s.reg, registry);
    let lb = lower_side(s, pack.shared_offset, registry);
    let ub = upper_side(s, pack.shared_offset, registry);
    let ghost first = shared_demands(s.reg, lb.a@, ub.a@);
    let ghost all = access_demands_at(ctx, *s, TypeEncoding::TShared, w);
    let ghost rest = all.skip(2);
    proof {
        numeric_steps::extends_itself(g);
        assert(all =~= first + rest);
    }
    match check_access_shared(dom, &s.reg, lb, ub, registry) {
        Err(m) => {
            proof { demands::judged_first(dom, g, g, g, first, rest, m@); }
            return Err(m);
        }
        Ok(_) => {}
    }
    let zero_width: bool = s.width == Value::Imm(Imm { v: 0 });
    let r = if !zero_width && !s.or_null {
        assert(rest =~= seq![not_null(s.reg)]);
        let zero = Side::num(0, registry);
        let value = Side::var(pack.uvalue, registry);
        require(dom, Rel::Below, zero, value, "Possible null access", registry)
    } else {
        assert(rest =~= seq![]);
        Ok(())
    };
    proof { demands::judged_both(dom, g, g, g, first, rest, demands::outcome(r)); }
    r
}

/// What an access through a number must meet.
fn check_number(dom: &EbpfDomain, s: &ValidAccess, ctx: &DomainContext, registry: &VariableRegistry, Ghost(w): Ghost<AccessSeen>) -> (r: Result<(), String>)
    requires dom.wf(), registry@.ready(), s.reg.ok(), s.width.ok(), ctx.ok(),
    ensures demands::judged(dom, registry@, registry@, access_demands_at(ctx, *s, TypeEncoding::TNum, w), demands::outcome(r)),
{
    let ghost g = registry@;
    proof { numeric_steps::extends_itself(g); }
    if s.width == Value::Imm(Imm { v: 0 }) {
        return Ok(());
    }
    if !s.or_null {
        return refuse("Only pointers can be dereferenced", Ghost(*dom), Ghost(g));
    }
    let pack = reg_pack(&s.reg, registry);
    let value = Side::var(pack.svalue, registry);
    let zero = Side::num(0, registry);
    let ghost first = seq![equal(demands::var(sv(s.reg)), demands::num(0), "Non-null number"@)];
    let ghost rest = match s.width {
        Value::Imm(i) => seq![Demand::Refuse("Non-zero access size with null pointer"@)],
        Value::Reg(r) => seq![equal(demands::var(sv(r)), demands::num(0), "Non-zero access size with null pointer"@)],
    };
    match require(dom, Rel::Equal, value, zero, "Non-null number", registry) {
        Err(m) => {
            proof { demands::judged_first(dom, g, g, g, first, rest, m@); }
            return Err(m);
        }
        Ok(_) => {}
    }
    let r = match s.width {
        Value::Imm(_) => refuse("Non-zero access size with null pointer", Ghost(*dom), Ghost(g)),
        Value::Reg(q) => {
            let other = reg_pack(&q, registry);
            let width = Side::var(other.svalue, registry);
            let none = Side::num(0, registry);
            require(dom, Rel::Equal, width, none, "Non-zero access size with null pointer", registry)
        }
    };
    proof { demands::judged_both(dom, g, g, g, first, rest, demands::outcome(r)); }
    r
}

/// What an access must meet where its pointer has one type.
fn check_access_at(dom: &EbpfDomain, s: &ValidAccess, te: TypeEncoding, ctx: &DomainContext, numeric: bool, touches: bool, registry: &mut VariableRegistry) -> (r: Result<(), String>)
    requires dom.wf(), old(registry)@.ready(), s.reg.ok(), s.width.ok(), ctx.ok(),
    ensures
        final(registry)@ == old(registry)@,
        demands::judged(dom, final(registry)@, final(registry)@, access_demands_at(ctx, *s, te, (AccessSeen { numeric, touches })), demands::outcome(r)),
{
    let ghost g = registry@;
    let ghost w = AccessSeen { numeric, touches };
    let zero_width: bool = s.width == Value::Imm(Imm { v: 0 });
    match te {
        TypeEncoding::TPacket => {
            let pack = reg_pack(&s.reg, registry);
            let lb = lower_side(s, pack.packet_offset, registry);
            let ub = upper_side(s, pack.packet_offset, registry);
            let max_size: Option<i32> = if zero_width { Some(ctx.runtime.max_packet_size) } else { None };
            check_access_packet(dom, lb, ub, max_size, registry)
        }
        TypeEncoding::TStack => check_stack(dom, s, ctx, numeric, registry, Ghost(w)),
        TypeEncoding::TCtx => check_context(dom, s, ctx, touches, registry, Ghost(w)),
        TypeEncoding::TShared => check_shared(dom, s, ctx, registry, Ghost(w)),
        TypeEncoding::TNum => check_number(dom, s, ctx, registry, Ghost(w)),
        TypeEncoding::TMap | TypeEncoding::TMapPrograms => {
            if zero_width {
                Ok(())
            } else {
                refuse("FDs cannot be dereferenced directly", Ghost(*dom), Ghost(g))
            }
        }
        TypeEncoding::TUninit => refuse("Invalid type", Ghost(*dom), Ghost(g)),
    }
}

/// An access to memory is within bounds, whatever type of those that it may have its pointer has.
pub(crate) fn check_valid_access(dom: &EbpfDomain, s: &ValidAccess, ctx: &DomainContext, registry: &mut VariableRegistry) -> (r: (Result<(), String>, Ghost<AccessSeen>))
    requires dom.wf(), old(registry)@.ready(), s.reg.ok(), s.width.ok(), ctx.ok(),
    ensures
        final(registry)@ == old(registry)@,
        ctx.layout().data < ctx.layout().end ==> access_seen(ctx, dom, final(registry)@, *s, r.1@),
        numeric_answer(dom, *s, r.1@.numeric),
        demands::judged(dom, final(registry)@, final(registry)@, access_demands(ctx, dom, *s, r.1@), demands::outcome(r.0)),
{
    let ghost g = registry@;
    proof { numeric_steps::extends_itself(g); }
    let numeric: bool = bytes_are_numbers(dom, s, registry);
    let c = ctx.descriptor();
    let touches: bool = if c.data < c.end { may_touch_pointers(dom, s, &c, registry) } else { false };
    let ghost w = AccessSeen { numeric, touches };
    let tes = dom.state.enumerate_types(&s.reg, registry);
    let mut i: usize = 0;
    while i < tes.len()
        invariant
            i <= tes.len(),
            dom.wf(),
            s.reg.ok(),
            s.width.ok(),
            ctx.ok(),
            registry@ == g,
            g == old(registry)@,
            g.ready(),
            tes@ == types_for(dom, s.reg),
            w == (AccessSeen { numeric, touches }),
            numeric_answer(dom, *s, numeric),
            c == ctx.layout(),
            c.data < c.end ==> touch_answer(dom, g, *s, c, touches),
            demands::judged(dom, g, g, access_demands_below(ctx, *s, tes@, w, i as nat), Ok(())),
        decreases tes.len() - i,
    {
        let te: TypeEncoding = tes[i];
        let r = check_access_at(dom, s, te, ctx, numeric, touches, registry);
        let ghost first = access_demands_below(ctx, *s, tes@, w, i as nat);
        let ghost next = access_demands_at(ctx, *s, te, w);
        proof {
            numeric_steps::extends_itself(g);
            demands::judged_both(dom, g, g, g, first, next, demands::outcome(r));
        }
        if r.is_err() {
            proof { lemma_access_first(ctx, dom, g, *s, tes@, w, (i + 1) as nat, tes@.len(), demands::outcome(r)->Err_0); }
            return (r, Ghost(w));
        }
        i = i + 1;
    }
    (Ok(()), Ghost(w))
}

proof fn lemma_access_first(ctx: &DomainContext, d: &EbpfDomain, g: RegistryView, s: ValidAccess, tes: Seq<TypeEncoding>, w: AccessSeen, n: nat, m: nat, message: Seq<char>)
    requires n <= m, demands::judged(d, g, g, access_demands_below(ctx, s, tes, w, n), Err(message)),
    ensures demands::judged(d, g, g, access_demands_below(ctx, s, tes, w, m), Err(message)),
    decreases m,
{
    if n < m {
        lemma_access_first(ctx, d, g, s, tes, w, n, (m - 1) as nat, message);
        numeric_steps::extends_itself(g);
        demands::judged_first(d, g, g, g, access_demands_below(ctx, s, tes, w, (m - 1) as nat), access_demands_at(ctx, s, tes[m - 1], w), message);
    }
}

// ---------------------------------------------------------------------------------------------
// What accepted accesses cannot do
// ---------------------------------------------------------------------------------------------

proof fn lemma_access_part(ctx: &DomainContext, s: ValidAccess, tes: Seq<TypeEncoding>, w: AccessSeen, i: int, n: nat, dm: Demand)
    requires 0 <= i < n <= tes.len(), access_demands_at(ctx, s, tes[i], w).contains(dm),
    ensures access_demands_below(ctx, s, tes, w, n).contains(dm),
    decreases n,
{
    let head = access_demands_below(ctx, s, tes, w, (n - 1) as nat);
    let last = access_demands_at(ctx, s, tes[n - 1], w);
    let all = access_demands_below(ctx, s, tes, w, n);
    assert(all == head + last);
    if i == n - 1 {
        let k = choose|k: int| 0 <= k < last.len() && last[k] == dm;
        assert(all[head.len() + k] == dm);
    } else {
        lemma_access_part(ctx, s, tes, w, i, (n - 1) as nat, dm);
        let k = choose|k: int| 0 <= k < head.len() && head[k] == dm;
        assert(all[k] == dm);
    }
}

pub proof fn lemma_access_shown(ctx: &DomainContext, d: &EbpfDomain, older: RegistryView, newer: RegistryView, s: ValidAccess, w: AccessSeen, i: int, dm: Demand)
    requires
        demands::judged(d, older, newer, access_demands(ctx, d, s, w), Ok(())),
        0 <= i < types_for(d, s.reg).len(),
        access_demands_at(ctx, s, types_for(d, s.reg)[i], w).contains(dm),
    ensures demands::shown(d, older, newer, dm),
{
    let tes = types_for(d, s.reg);
    lemma_access_part(ctx, s, tes, w, i, tes.len(), dm);
    let ds = access_demands(ctx, d, s, w);
    let k = choose|k: int| 0 <= k < ds.len() && ds[k] == dm;
    assert(demands::shown(d, older, newer, ds[k]));
}

/// An accepted access through a register that may point to the stack stays within the frame of the
/// running function and below the end of the stack, under every valuation that the state admits.
pub proof fn stack_access_is_safe(ctx: &DomainContext, d: &EbpfDomain, older: RegistryView, newer: RegistryView, s: ValidAccess, w: AccessSeen, i: int, env: Env)
    requires
        demands::judged(d, older, newer, access_demands(ctx, d, s, w), Ok(())),
        0 <= i < types_for(d, s.reg).len(),
        types_for(d, s.reg)[i] is TStack,
        demands::describes(d, env),
    ensures
        env(rcp::id_of(DataKind::StackOffsets, Reg { v: 10 })) - ctx.runtime.subprogram_stack_size <= env(rcp::id_of(DataKind::StackOffsets, s.reg)) + s.offset,
        env(rcp::id_of(DataKind::StackOffsets, s.reg)) + s.offset + width_of(s.width).value(env) <= ctx.runtime.stack_size(),
{
    let te = types_for(d, s.reg)[i];
    let ds = access_demands_at(ctx, s, te, w);
    let lb = lower_end(s, DataKind::StackOffsets);
    let ub = upper_end(s, DataKind::StackOffsets);
    let first = stack_demands(ctx, lb, ub);
    assert(ds[0] == first[0] && ds[1] == first[1]);
    assert(ds.contains(ds[0]) && ds.contains(ds[1]));
    lemma_access_shown(ctx, d, older, newer, s, w, i, ds[0]);
    lemma_access_shown(ctx, d, older, newer, s, w, i, ds[1]);
    lemma_values(env, s, DataKind::StackOffsets);
    lemma_one_var(env, rcp::id_of(DataKind::StackOffsets, Reg { v: 10 }), -ctx.runtime.subprogram_stack_size);
    lemma_no_var(env, ctx.runtime.stack_size());
}

/// An accepted access to memory through a register that may point to a packet stays behind the
/// metadata and before the end of the packet, under every valuation that the state admits.
pub proof fn packet_access_is_safe(ctx: &DomainContext, d: &EbpfDomain, older: RegistryView, newer: RegistryView, s: ValidAccess, w: AccessSeen, i: int, env: Env)
    requires
        demands::judged(d, older, newer, access_demands(ctx, d, s, w), Ok(())),
        0 <= i < types_for(d, s.reg).len(),
        types_for(d, s.reg)[i] is TPacket,
        !is_comparison(s),
        demands::describes(d, env),
    ensures
        env(182) <= env(rcp::id_of(DataKind::PacketOffsets, s.reg)) + s.offset,
        env(rcp::id_of(DataKind::PacketOffsets, s.reg)) + s.offset + width_of(s.width).value(env) <= env(183),
{
    let ds = access_demands_at(ctx, s, types_for(d, s.reg)[i], w);
    assert(ds.contains(ds[0]) && ds.contains(ds[1]));
    lemma_access_shown(ctx, d, older, newer, s, w, i, ds[0]);
    lemma_access_shown(ctx, d, older, newer, s, w, i, ds[1]);
    lemma_values(env, s, DataKind::PacketOffsets);
    lemma_one_var(env, 182, 0);
    lemma_one_var(env, 183, 0);
}

/// An accepted access to memory through a register that may point to a shared region stays within
/// the region, and the pointer is not null, under every valuation that the state admits.
pub proof fn shared_access_is_safe(ctx: &DomainContext, d: &EbpfDomain, older: RegistryView, newer: RegistryView, s: ValidAccess, w: AccessSeen, i: int, env: Env)
    requires
        demands::judged(d, older, newer, access_demands(ctx, d, s, w), Ok(())),
        0 <= i < types_for(d, s.reg).len(),
        types_for(d, s.reg)[i] is TShared,
        !is_comparison(s),
        demands::describes(d, env),
    ensures
        0 <= env(rcp::id_of(DataKind::SharedOffsets, s.reg)) + s.offset,
        env(rcp::id_of(DataKind::SharedOffsets, s.reg)) + s.offset + width_of(s.width).value(env) <= env(rcp::id_of(DataKind::SharedRegionSizes, s.reg)),
        !s.or_null ==> 0 < env(uv(s.reg)),
{
    let ds = access_demands_at(ctx, s, types_for(d, s.reg)[i], w);
    let first = shared_demands(s.reg, lower_end(s, DataKind::SharedOffsets), upper_end(s, DataKind::SharedOffsets));
    assert(ds[0] == first[0] && ds[1] == first[1]);
    assert(ds.contains(ds[0]) && ds.contains(ds[1]));
    lemma_access_shown(ctx, d, older, newer, s, w, i, ds[0]);
    lemma_access_shown(ctx, d, older, newer, s, w, i, ds[1]);
    lemma_values(env, s, DataKind::SharedOffsets);
    lemma_one_var(env, rcp::id_of(DataKind::SharedRegionSizes, s.reg), 0);
    lemma_no_var(env, 0);
    if !s.or_null {
        assert(ds[2] == not_null(s.reg));
        assert(ds.contains(ds[2]));
        lemma_access_shown(ctx, d, older, newer, s, w, i, ds[2]);
        lemma_one_var(env, uv(s.reg), 0);
    }
}

/// An accepted access through a register that may point to the context stays within the context,
/// under every valuation that the state admits.
pub proof fn context_access_is_safe(ctx: &DomainContext, d: &EbpfDomain, older: RegistryView, newer: RegistryView, s: ValidAccess, w: AccessSeen, i: int, env: Env)
    requires
        demands::judged(d, older, newer, access_demands(ctx, d, s, w), Ok(())),
        0 <= i < types_for(d, s.reg).len(),
        types_for(d, s.reg)[i] is TCtx,
        demands::describes(d, env),
    ensures
        0 <= env(rcp::id_of(DataKind::CtxOffsets, s.reg)) + s.offset,
        env(rcp::id_of(DataKind::CtxOffsets, s.reg)) + s.offset + width_of(s.width).value(env) <= ctx.layout().size,
{
    let ds = access_demands_at(ctx, s, types_for(d, s.reg)[i], w);
    let last = context_demands(ctx, lower_end(s, DataKind::CtxOffsets), upper_end(s, DataKind::CtxOffsets));
    let k = ds.len() - 2;
    assert(ds[k] == last[0] && ds[k + 1] == last[1]);
    assert(ds.contains(ds[k]) && ds.contains(ds[k + 1]));
    lemma_access_shown(ctx, d, older, newer, s, w, i, ds[k]);
    lemma_access_shown(ctx, d, older, newer, s, w, i, ds[k + 1]);
    lemma_values(env, s, DataKind::CtxOffsets);
    lemma_no_var(env, 0);
    lemma_no_var(env, ctx.layout().size as int);
}

/// An accepted access to memory is never through a map descriptor or an uninitialized register, and
/// through a number only where it may be null and the number is zero.
pub proof fn only_pointers_are_dereferenced(ctx: &DomainContext, d: &EbpfDomain, older: RegistryView, newer: RegistryView, s: ValidAccess, w: AccessSeen, i: int, env: Env)
    requires
        demands::judged(d, older, newer, access_demands(ctx, d, s, w), Ok(())),
        0 <= i < types_for(d, s.reg).len(),
        !is_comparison(s),
        demands::describes(d, env),
    ensures
        ({
            let te = types_for(d, s.reg)[i];
            &&& !(te is TMap) && !(te is TMapPrograms) && !(te is TUninit)
            &&& te is TNum ==> s.or_null && env(sv(s.reg)) == 0
        }),
{
    let te = types_for(d, s.reg)[i];
    let ds = access_demands_at(ctx, s, te, w);
    if te is TMap || te is TMapPrograms || te is TUninit || te is TNum {
        assert(ds.contains(ds[0]));
        lemma_access_shown(ctx, d, older, newer, s, w, i, ds[0]);
        if te is TNum && s.or_null {
            lemma_one_var(env, sv(s.reg), 0);
            lemma_no_var(env, 0);
        }
    }
}

pub proof fn lemma_no_var(env: Env, n: int)
    ensures demands::num(n).value(env) == n,
{
}

pub proof fn lemma_one_var(env: Env, v: u64, n: int)
    ensures demands::var_plus(v, n).value(env) == env(v) + n, n == 0 ==> demands::var(v) == demands::var_plus(v, n),
{
    let a = demands::var_plus(v, n);
    assert(demands::prefix_value(a, 0, env) == n);
    assert(demands::prefix_value(a, 1, env) == n + env(v));
}

pub proof fn lemma_two_vars(env: Env, v: u64, w: u64, n: int)
    ensures demands::vars_plus(v, w, n).value(env) == env(v) + env(w) + n,
{
    let a = demands::vars_plus(v, w, n);
    assert(demands::prefix_value(a, 0, env) == n);
    assert(demands::prefix_value(a, 1, env) == n + env(v));
    assert(demands::prefix_value(a, 2, env) == n + env(v) + env(w));
}

pub proof fn lemma_values(env: Env, s: ValidAccess, kind: DataKind)
    ensures
        lower_end(s, kind).value(env) == env(rcp::id_of(kind, s.reg)) + s.offset,
        upper_end(s, kind).value(env) == env(rcp::id_of(kind, s.reg)) + s.offset + width_of(s.width).value(env),
{
    lemma_one_var(env, rcp::id_of(kind, s.reg), s.offset as int);
    match s.width {
        Value::Imm(i) => {
            lemma_one_var(env, rcp::id_of(kind, s.reg), s.offset + ebpf_bin::immediate(i.v, true));
            lemma_no_var(env, ebpf_bin::immediate(i.v, true));
        }
        Value::Reg(r) => {
            lemma_two_vars(env, rcp::id_of(kind, s.reg), sv(r), s.offset as int);
            lemma_one_var(env, sv(r), 0);
        }
    }
}

}
