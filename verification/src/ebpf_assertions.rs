//! The assertions before instructions other than memory accesses, and the check of them all.
use vstd::prelude::*;
use vstd::string::*;
use crate::arith::number::Number;
use crate::arith::variable::Variable;
use crate::config::DomainContext;
use crate::demands;
use crate::demands::{Demand, Rel, Side};
use crate::ebpf_arith;
use crate::ebpf_checker;
use crate::ebpf_checker::AccessSeen;
use crate::ebpf_domain;
use crate::ebpf_domain::EbpfDomain;
use crate::finite_domain;
use crate::numeric_steps;
use crate::rcp;
use crate::rcp::reg_pack;
use crate::syntax::{AccessType, Addable, BoundedLoopCount, Comparable, Imm, Reg, TypeConstraint, ValidAccess, ValidArgZero, ValidCallbackTarget, ValidDivisor, ValidMapType, ValidSize, ValidStore, Value, ZeroCtxOffset, LOOP_LIMIT};
use crate::text;
use crate::type_domain;
use crate::type_encoding;
use crate::type_encoding::{ts_map, ts_pointer, ts_singleton_ptr, DataKind, TypeEncoding, TypeGroup, TypeSet};
use crate::var_registry;
use crate::var_registry::{RegistryView, VariableRegistry};

verus! {

/// A set holds the types of a group, and no others.
pub open spec fn is_group_set(g: TypeGroup, ts: TypeSet) -> bool {
    forall|t: TypeEncoding| #[trigger] ts.has(t) <==> type_encoding::in_group(g, t)
}

/// The types of a group.
pub open spec fn group_set(g: TypeGroup) -> TypeSet {
    choose|ts: TypeSet| is_group_set(g, ts)
}

/// The types of maps.
pub open spec fn is_map_set(ts: TypeSet) -> bool {
    forall|t: TypeEncoding| #[trigger] ts.has(t) <==> (t is TMap || t is TMapPrograms)
}

pub open spec fn map_set() -> TypeSet {
    choose|ts: TypeSet| is_map_set(ts)
}

/// Every group has a set.
pub proof fn groups_have_sets(g: TypeGroup)
    ensures is_group_set(g, group_set(g)), is_map_set(map_set()),
{
    let ts = lemma_sifted(|t: TypeEncoding| type_encoding::in_group(g, t));
    assert(is_group_set(g, ts));
    let us = lemma_sifted(|t: TypeEncoding| t is TMap || t is TMapPrograms);
    assert(is_map_set(us));
}

/// A set without a type where the type is not wanted.
spec fn without(ts: TypeSet, wanted: spec_fn(TypeEncoding) -> bool, te: TypeEncoding) -> TypeSet {
    if wanted(te) { ts } else { ts.less(te) }
}

/// Any choice of types makes a set.
proof fn lemma_sifted(wanted: spec_fn(TypeEncoding) -> bool) -> (ts: TypeSet)
    ensures forall|t: TypeEncoding| #[trigger] ts.has(t) <==> wanted(t),
{
    let a = TypeSet::full();
    let b = without(a, wanted, TypeEncoding::TUninit);
    let c = without(b, wanted, TypeEncoding::TMapPrograms);
    let d = without(c, wanted, TypeEncoding::TMap);
    let e = without(d, wanted, TypeEncoding::TNum);
    let f = without(e, wanted, TypeEncoding::TCtx);
    let g = without(f, wanted, TypeEncoding::TPacket);
    let h = without(g, wanted, TypeEncoding::TStack);
    let r = without(h, wanted, TypeEncoding::TShared);
    assert forall|t: TypeEncoding| #[trigger] r.has(t) <==> wanted(t) by {
        a.algebra(a, TypeEncoding::TUninit, t);
        b.algebra(b, TypeEncoding::TMapPrograms, t);
        c.algebra(c, TypeEncoding::TMap, t);
        d.algebra(d, TypeEncoding::TNum, t);
        e.algebra(e, TypeEncoding::TCtx, t);
        f.algebra(f, TypeEncoding::TPacket, t);
        g.algebra(g, TypeEncoding::TStack, t);
        h.algebra(h, TypeEncoding::TShared, t);
    }
    r
}

/// A set with the members of a group is the set of the group.
proof fn lemma_group_set(g: TypeGroup, ts: TypeSet)
    requires is_group_set(g, ts),
    ensures ts == group_set(g),
{
    let us = group_set(g);
    assert(is_group_set(g, us));
    assert forall|t: TypeEncoding| #[trigger] ts.has(t) == us.has(t) by {}
    ts.extensional(us);
}

proof fn lemma_map_set(ts: TypeSet)
    requires is_map_set(ts),
    ensures ts == map_set(),
{
    let us = map_set();
    assert(is_map_set(us));
    assert forall|t: TypeEncoding| #[trigger] ts.has(t) == us.has(t) by {}
    ts.extensional(us);
}

/// The types that a register may have.
pub open spec fn types_of(d: &EbpfDomain, r: Reg) -> TypeSet {
    d.state.types.s().types_of(rcp::type_id(r))
}

/// A register has one of some types.
pub open spec fn within(d: &EbpfDomain, r: Reg, ts: TypeSet) -> bool {
    d.state.types.state is None || types_of(d, r).subset(ts)
}

/// Where one register has some of the given types only, another has some others only. The types of
/// registers that must agree are cut together.
pub open spec fn implies_types(d: &EbpfDomain, r: Reg, left: TypeSet, q: Reg, conclusion: TypeSet) -> bool {
    d.state.types.state is None || !left.inhabited()
        || (if q.v == r.v || d.state.types.s().linked(rcp::type_id(r), rcp::type_id(q)) { left } else { types_of(d, q) }).subset(conclusion)
}

/// One demand, or none.
pub open spec fn unless(ok: bool, m: Seq<char>) -> Seq<Demand> {
    if ok { seq![] } else { seq![Demand::Refuse(m)] }
}

/// A number is added to a pointer: where one register is a pointer, the other is a number.
pub open spec fn addable_demands(d: &EbpfDomain, s: Addable) -> Seq<Demand> {
    unless(implies_types(d, s.ptr, types_of(d, s.ptr).common(group_set(TypeGroup::Pointer)), s.num, TypeSet::just(TypeEncoding::TNum)),
        "Only numbers can be added to pointers"@)
}

/// Only numbers go to memory other than the stack.
pub open spec fn store_demands(d: &EbpfDomain, s: ValidStore) -> Seq<Demand> {
    unless(implies_types(d, s.mem, types_of(d, s.mem).less(TypeEncoding::TStack), s.val, TypeSet::just(TypeEncoding::TNum)),
        "Only numbers can be stored to externally-visible regions"@)
}

/// A register has a type of a group.
pub open spec fn type_demands(d: &EbpfDomain, s: TypeConstraint) -> Seq<Demand> {
    unless(within(d, s.reg, group_set(s.types)), "Invalid type"@)
}

/// A loop has not run too often.
pub open spec fn loop_demands(counter: u64) -> Seq<Demand> {
    seq![Demand::Compare(Rel::AtMost, demands::var(counter), demands::num(100000), "Loop counter is too large"@)]
}

/// An argument is zero.
pub open spec fn zero_demands(s: ValidArgZero) -> Seq<Demand> {
    seq![Demand::Compare(Rel::Equal, demands::var(ebpf_arith::sv(s.reg)), demands::num(0), "Argument must be zero"@)]
}

/// A size is not negative, or positive.
pub open spec fn size_demands(s: ValidSize) -> Seq<Demand> {
    seq![Demand::Compare(Rel::AtMost, demands::num(if s.can_be_zero { 0 } else { 1 }), demands::var(ebpf_arith::sv(s.reg)), "Invalid size"@)]
}

/// Whether a register can be zero in the operation that divides by it: in its low half where that is
/// what divides.
pub open spec fn may_be_zero(d: &EbpfDomain, r: RegistryView, s: ValidDivisor) -> bool {
    if s.is64 {
        d.state.values.interval(if s.is_signed { ebpf_arith::sv(s.reg) } else { ebpf_arith::uv(s.reg) }).has(0)
    } else {
        finite_domain::interval_at_width(d.state.values.z(), r, ebpf_arith::uv(s.reg), 32).has(0)
            && finite_domain::interval_at_width(d.state.values.z(), r, ebpf_arith::sv(s.reg), 32).has(0)
    }
}

/// A divisor is a number, and not zero where that matters.
pub open spec fn divisor_demands(ctx: &DomainContext, d: &EbpfDomain, r: RegistryView, s: ValidDivisor) -> Seq<Demand> {
    if !implies_types(d, s.reg, types_of(d, s.reg).common(group_set(TypeGroup::Pointer)), s.reg, TypeSet::just(TypeEncoding::TNum)) {
        seq![Demand::Refuse("Only numbers can be used as divisors"@)]
    } else {
        unless(ctx.runtime.allow_division_by_zero || !may_be_zero(d, r, s), "Possible division by zero"@)
    }
}

/// A comparison of two pointers, as an access of no width.
pub open spec fn compare_access(r: Reg) -> ValidAccess {
    ValidAccess { reg: r, offset: 0, width: Value::Imm(Imm { v: 0 }), or_null: false, access_type: AccessType::Compare }
}

/// The types that two registers of the same type have other than numbers.
pub open spec fn shared_types(d: &EbpfDomain, s: Comparable) -> TypeSet {
    types_of(d, s.r2).less(TypeEncoding::TNum)
}

/// Two registers can be subtracted: pointers to the same region of which there is one, within bounds,
/// or a number from anything.
pub open spec fn comparable_demands(ctx: &DomainContext, d: &EbpfDomain, s: Comparable, w1: AccessSeen, w2: AccessSeen) -> Seq<Demand> {
    if d.state.types.state is None || d.state.types.s().linked(rcp::type_id(s.r1), rcp::type_id(s.r2)) {
        if d.state.types.state is Some && shared_types(d, s).inhabited()
            && !shared_types(d, s).subset(group_set(TypeGroup::SingletonPtr)) && !shared_types(d, s).subset(map_set()) {
            seq![Demand::Refuse("Cannot subtract pointers to non-singleton regions"@)]
        } else {
            ebpf_checker::access_demands(ctx, d, compare_access(s.r1), w1) + ebpf_checker::access_demands(ctx, d, compare_access(s.r2), w2)
        }
    } else {
        unless(types_of(d, s.r2) == TypeSet::just(TypeEncoding::TNum), "Cannot subtract pointers to different regions"@)
    }
}

/// The value of a register that is known and fits 64 bits.
pub open spec fn known_value(d: &EbpfDomain, v: u64) -> Option<int> {
    match d.state.values.interval(v).singleton_spec() {
        Some(n) => if i64::MIN <= n@ <= i64::MAX { Some(n@) } else { None },
        None => None,
    }
}

/// A register holds the label of a callback from which an exit can be reached.
pub open spec fn callback_demands(ctx: &DomainContext, d: &EbpfDomain, s: ValidCallbackTarget) -> Seq<Demand> {
    match known_value(d, ebpf_arith::uv(s.reg)) {
        Some(n) if i32::MIN <= n <= i32::MAX => if !ctx.program_info.callback_targets@.contains(n as i32) {
            seq![Demand::Refuse("callback function pointer does not reference a valid callback entry"@)]
        } else {
            unless(ctx.program_info.callback_targets_with_exit@.contains(n as i32), "callback function does not have a reachable exit"@)
        },
        _ => seq![Demand::Refuse("callback function pointer must be a singleton code address"@)],
    }
}

/// A context pointer is not moved; a null one is fine where it may be null.
pub open spec fn context_offset_demands(s: ZeroCtxOffset, is_null: bool) -> Seq<Demand> {
    if s.or_null && is_null { seq![] } else {
        seq![Demand::Compare(Rel::Equal, demands::var(rcp::id_of(DataKind::CtxOffsets, s.reg)), demands::num(0), "Nonzero context offset"@)]
    }
}

/// Whether a register was found to be the number zero.
pub open spec fn null_answer(d: &EbpfDomain, r: RegistryView, s: ZeroCtxOffset, answer: bool) -> bool {
    let is_num = d.state.types.state is Some && types_of(d, s.reg).is_just(TypeEncoding::TNum);
    let zero = demands::comparison(Rel::Equal, demands::var(ebpf_arith::uv(s.reg)), demands::num(0));
    if is_num { crate::acts::entail_answer(d, r, zero, answer) } else { !answer }
}

/// The message of a map of a wrong type.
pub open spec fn map_type_text(t: int, what: Seq<char>, helper: Seq<char>) -> Seq<char> {
    "map type "@ + text::dec_int(t) + what + helper
}

/// The bit of a map type among the allowed ones.
pub open spec fn allows(mask: u64, t: u32) -> bool {
    mask & (1u64 << (t as u64)) != 0
}

/// A map has a type that a helper function takes. Nothing is asked of a map whose type is not known.
pub open spec fn map_type_demands(s: ValidMapType, t: Option<u32>) -> Seq<Demand> {
    match t {
        Some(n) => if n == 0 {
            seq![]
        } else if n >= 64 {
            seq![Demand::Refuse(map_type_text(n as int, " is out of supported range for "@, s.helper_name@))]
        } else {
            unless(allows(s.allowed_map_types, n), map_type_text(n as int, " is not allowed for "@, s.helper_name@))
        },
        None => seq![],
    }
}

/// The type of the maps that a register may describe.
pub open spec fn map_type_answer(ctx: &DomainContext, d: &EbpfDomain, r: Reg, t: Option<u32>) -> bool {
    forall|n: u32| t == Some(n) <==> #[trigger] ebpf_domain::type_in(&ctx.platform, d.fds(r), n)
}

// ---------------------------------------------------------------------------------------------
// Tests of types
// ---------------------------------------------------------------------------------------------

proof fn lemma_type_var(r: RegistryView, reg: Reg)
    requires r.ready(), reg.ok(),
    ensures
        type_domain::type_var_of(r, reg) == var_registry::reg_var(DataKind::Types, reg.v as int),
        type_domain::with_type_var(r, reg) == r,
        rcp::type_id(reg) == var_registry::reg_var(DataKind::Types, reg.v as int).id,
{
    r.register_variable(DataKind::Types, reg.v as int);
    r.register_is_there(DataKind::Types, reg.v as int, var_registry::kind_meta(DataKind::Types, false));
}

/// Nothing, or a complaint.
fn unless_refused(ok: bool, message: &str, Ghost(d): Ghost<EbpfDomain>, Ghost(r): Ghost<RegistryView>) -> (e: Result<(), String>)
    ensures demands::judged(&d, r, r, unless(ok, message@), demands::outcome(e)),
{
    if ok {
        Ok(())
    } else {
        proof { demands::judged_refusal(&d, r, r, message@); }
        Err(String::from_str(message))
    }
}

fn type_variable(reg: &Reg, registry: &mut VariableRegistry) -> (r: Variable)
    requires old(registry)@.ready(), reg.ok(),
    ensures final(registry)@ == old(registry)@, r == var_registry::reg_var(DataKind::Types, reg.v as int), r.id == rcp::type_id(*reg),
{
    proof { lemma_type_var(registry@, *reg); }
    type_domain::reg_type(reg, registry)
}

proof fn lemma_same_register(a: Reg, b: Reg)
    requires a.ok(), b.ok(),
    ensures (var_registry::reg_var(DataKind::Types, a.v as int) == var_registry::reg_var(DataKind::Types, b.v as int)) == (a.v == b.v),
{
}

pub(crate) fn check_addable(dom: &EbpfDomain, s: &Addable, registry: &mut VariableRegistry) -> (r: Result<(), String>)
    requires dom.wf(), old(registry)@.ready(), s.ptr.ok(), s.num.ok(),
    ensures final(registry)@ == old(registry)@, demands::judged(dom, final(registry)@, final(registry)@, addable_demands(dom, *s), demands::outcome(r)),
{
    let p = type_variable(&s.ptr, registry);
    let n = type_variable(&s.num, registry);
    let pointers = ts_pointer();
    proof {
        lemma_group_set(TypeGroup::Pointer, pointers);
        lemma_same_register(s.ptr, s.num);
    }
    let ok: bool = dom.state.types.implies_superset(p, pointers, n, TypeSet::singleton(TypeEncoding::TNum));
    unless_refused(ok, "Only numbers can be added to pointers", Ghost(*dom), Ghost(registry@))
}

pub(crate) fn check_valid_store(dom: &EbpfDomain, s: &ValidStore, registry: &mut VariableRegistry) -> (r: Result<(), String>)
    requires dom.wf(), old(registry)@.ready(), s.mem.ok(), s.val.ok(),
    ensures final(registry)@ == old(registry)@, demands::judged(dom, final(registry)@, final(registry)@, store_demands(dom, *s), demands::outcome(r)),
{
    let m = type_variable(&s.mem, registry);
    let v = type_variable(&s.val, registry);
    proof { lemma_same_register(s.mem, s.val); }
    let ok: bool = dom.state.types.implies_not_type(m, TypeEncoding::TStack, v, TypeSet::singleton(TypeEncoding::TNum));
    unless_refused(ok, "Only numbers can be stored to externally-visible regions", Ghost(*dom), Ghost(registry@))
}

pub(crate) fn check_type_constraint(dom: &EbpfDomain, s: &TypeConstraint, registry: &mut VariableRegistry) -> (r: Result<(), String>)
    requires dom.wf(), old(registry)@.ready(), s.reg.ok(),
    ensures final(registry)@ == old(registry)@, demands::judged(dom, final(registry)@, final(registry)@, type_demands(dom, *s), demands::outcome(r)),
{
    proof { lemma_type_var(registry@, s.reg); }
    let ts = s.types.to_typeset();
    proof { lemma_group_set(s.types, ts); }
    let ok: bool = dom.state.types.is_in_group(&s.reg, ts, registry);
    unless_refused(ok, "Invalid type", Ghost(*dom), Ghost(registry@))
}

pub(crate) fn check_bounded_loop_count(dom: &EbpfDomain, s: &BoundedLoopCount, registry: &mut VariableRegistry) -> (r: (Result<(), String>, Variable))
    requires dom.wf(), old(registry)@.ready(),
    ensures
        final(registry)@.ready(),
        final(registry)@.extends(old(registry)@),
        rcp::is_named(final(registry)@, r.1, var_registry::counter_name(s.name@)),
        demands::judged(dom, final(registry)@, final(registry)@, loop_demands(r.1.id), demands::outcome(r.0)),
{
    let ghost r0 = registry@;
    let counter = registry.loop_counter(s.name.as_str());
    proof {
        registry@.readiness_lasts(r0);
        rcp::lemma_var_named(r0, registry@, counter, var_registry::counter_name(s.name@), var_registry::counter_meta());
    }
    let left = Side::var(counter, registry);
    let right = Side::num(LOOP_LIMIT as i128, registry);
    let r = ebpf_checker::require(dom, Rel::AtMost, left, right, "Loop counter is too large", registry);
    (r, counter)
}

pub(crate) fn check_valid_arg_zero(dom: &EbpfDomain, s: &ValidArgZero, registry: &VariableRegistry) -> (r: Result<(), String>)
    requires dom.wf(), registry@.ready(), s.reg.ok(),
    ensures demands::judged(dom, registry@, registry@, zero_demands(*s), demands::outcome(r)),
{
    let pack = reg_pack(&s.reg, registry);
    let left = Side::var(pack.svalue, registry);
    let right = Side::num(0, registry);
    ebpf_checker::require(dom, Rel::Equal, left, right, "Argument must be zero", registry)
}

pub(crate) fn check_valid_size(dom: &EbpfDomain, s: &ValidSize, registry: &VariableRegistry) -> (r: Result<(), String>)
    requires dom.wf(), registry@.ready(), s.reg.ok(),
    ensures demands::judged(dom, registry@, registry@, size_demands(*s), demands::outcome(r)),
{
    let pack = reg_pack(&s.reg, registry);
    let least = Side::num(if s.can_be_zero { 0 } else { 1 }, registry);
    let value = Side::var(pack.svalue, registry);
    ebpf_checker::require(dom, Rel::AtMost, least, value, "Invalid size", registry)
}

pub(crate) fn check_valid_divisor(dom: &EbpfDomain, s: &ValidDivisor, ctx: &DomainContext, registry: &mut VariableRegistry) -> (r: Result<(), String>)
    requires dom.wf(), dom.num() is Some, old(registry)@.ready(), s.reg.ok(),
    ensures
        final(registry)@ == old(registry)@,
        demands::judged(dom, final(registry)@, final(registry)@, divisor_demands(ctx, dom, final(registry)@, *s), demands::outcome(r)),
{
    let v = type_variable(&s.reg, registry);
    let pointers = ts_pointer();
    proof { lemma_group_set(TypeGroup::Pointer, pointers); }
    if !dom.state.types.implies_superset(v, pointers, v, TypeSet::singleton(TypeEncoding::TNum)) {
        return ebpf_checker::refuse("Only numbers can be used as divisors", Ghost(*dom), Ghost(registry@));
    }
    let mut ok: bool = true;
    if !ctx.runtime.allow_division_by_zero {
        let pack = reg_pack(&s.reg, registry);
        let zero = Number::of(0);
        if s.is64 {
            let w: Variable = if s.is_signed { pack.svalue } else { pack.uvalue };
            ok = !dom.state.values.eval_interval_var(w, registry).contains(&zero);
        } else {
            let values = dom.state.values.inner();
            ok = !(values.eval_interval_with_width(pack.uvalue, 32, registry).contains(&zero)
                && values.eval_interval_with_width(pack.svalue, 32, registry).contains(&zero));
        }
    }
    unless_refused(ok, "Possible division by zero", Ghost(*dom), Ghost(registry@))
}

pub(crate) fn check_comparable(dom: &EbpfDomain, s: &Comparable, ctx: &DomainContext, registry: &mut VariableRegistry) -> (r: (Result<(), String>, Ghost<(AccessSeen, AccessSeen)>))
    requires dom.wf(), old(registry)@.ready(), s.r1.ok(), s.r2.ok(), ctx.ok(),
    ensures
        final(registry)@ == old(registry)@,
        demands::judged(dom, final(registry)@, final(registry)@, comparable_demands(ctx, dom, *s, r.1@.0, r.1@.1), demands::outcome(r.0)),
        ebpf_checker::numeric_answer(dom, compare_access(s.r1), r.1@.0.numeric) || r.0 is Err || !same_types(dom, *s),
{
    let ghost g = registry@;
    proof {
        lemma_type_var(g, s.r1);
        lemma_type_var(g, s.r2);
        numeric_steps::extends_itself(g);
    }
    let ghost none = AccessSeen { numeric: false, touches: false };
    if !dom.state.types.same_type(&s.r1, &s.r2, registry) {
        let v = type_variable(&s.r2, registry);
        let ok: bool = dom.state.types.entail_type(v, TypeEncoding::TNum);
        let r = unless_refused(ok, "Cannot subtract pointers to different regions", Ghost(*dom), Ghost(g));
        return (r, Ghost((none, none)));
    }
    let mut others = dom.state.types.copy();
    let v = type_variable(&s.r2, registry);
    let ghost copied = others;
    others.remove_type(v, TypeEncoding::TNum);
    let single = ts_singleton_ptr();
    let maps = ts_map();
    proof {
        lemma_group_set(TypeGroup::SingletonPtr, single);
        lemma_map_set(maps);
        if dom.state.types.state is Some {
            assert(copied.s().types_of(v.id) == types_of(dom, s.r2));
            dom.state.types.s().classes(rcp::type_id(s.r1), rcp::type_id(s.r2), rcp::type_id(s.r1));
            assert(copied.s().linked(rcp::type_id(s.r2), rcp::type_id(s.r1)));
            if others.state is Some {
                assert(others.s().types_of(rcp::type_id(s.r1)) == shared_types(dom, *s));
            }
        }
    }
    let in_single: bool = others.is_in_group(&s.r1, single, registry);
    let in_maps: bool = others.is_in_group(&s.r1, maps, registry);
    if !in_single && !in_maps {
        let r = ebpf_checker::refuse("Cannot subtract pointers to non-singleton regions", Ghost(*dom), Ghost(g));
        return (r, Ghost((none, none)));
    }
    let va1 = ValidAccess { reg: s.r1, offset: 0, width: Value::Imm(Imm { v: 0 }), or_null: false, access_type: AccessType::Compare };
    let (r1, w1) = ebpf_checker::check_valid_access(dom, &va1, ctx, registry);
    let va2 = ValidAccess { reg: s.r2, offset: 0, width: Value::Imm(Imm { v: 0 }), or_null: false, access_type: AccessType::Compare };
    let (r2, w2) = ebpf_checker::check_valid_access(dom, &va2, ctx, registry);
    let ghost first = ebpf_checker::access_demands(ctx, dom, va1, w1@);
    let ghost second = ebpf_checker::access_demands(ctx, dom, va2, w2@);
    match r1 {
        Err(m) => {
            proof { demands::judged_first(dom, g, g, g, first, second, m@); }
            (Err(m), Ghost((w1@, w2@)))
        }
        Ok(_) => {
            proof { demands::judged_both(dom, g, g, g, first, second, demands::outcome(r2)); }
            (r2, Ghost((w1@, w2@)))
        }
    }
}

/// Two registers must have the same type.
pub open spec fn same_types(d: &EbpfDomain, s: Comparable) -> bool {
    d.state.types.state is None || d.state.types.s().linked(rcp::type_id(s.r1), rcp::type_id(s.r2))
}

fn list_has(list: &Vec<i32>, x: i32) -> (r: bool)
    ensures r == list@.contains(x),
{
    let mut i: usize = 0;
    while i < list.len()
        invariant i <= list.len(), forall|j: int| 0 <= j < i ==> list@[j] != x,
        decreases list.len() - i,
    {
        if list[i] == x {
            assert(list@[i as int] == x);
            return true;
        }
        i = i + 1;
    }
    false
}

pub(crate) fn check_valid_callback_target(dom: &EbpfDomain, s: &ValidCallbackTarget, ctx: &DomainContext, registry: &VariableRegistry) -> (r: Result<(), String>)
    requires dom.wf(), registry@.ready(), s.reg.ok(),
    ensures demands::judged(dom, registry@, registry@, callback_demands(ctx, dom, *s), demands::outcome(r)),
{
    let pack = reg_pack(&s.reg, registry);
    let iv = dom.state.values.eval_interval_var(pack.uvalue, registry);
    let label: i32 = match iv.singleton() {
        Some(n) => {
            if n.n < i32::MIN as i128 || n.n > i32::MAX as i128 {
                return ebpf_checker::refuse("callback function pointer must be a singleton code address", Ghost(*dom), Ghost(registry@));
            }
            n.n as i32
        }
        None => { return ebpf_checker::refuse("callback function pointer must be a singleton code address", Ghost(*dom), Ghost(registry@)); }
    };
    if !list_has(&ctx.program_info.callback_targets, label) {
        return ebpf_checker::refuse("callback function pointer does not reference a valid callback entry", Ghost(*dom), Ghost(registry@));
    }
    let ok: bool = list_has(&ctx.program_info.callback_targets_with_exit, label);
    unless_refused(ok, "callback function does not have a reachable exit", Ghost(*dom), Ghost(registry@))
}

pub(crate) fn check_zero_ctx_offset(dom: &EbpfDomain, s: &ZeroCtxOffset, registry: &mut VariableRegistry) -> (r: (Result<(), String>, bool))
    requires dom.wf(), old(registry)@.ready(), s.reg.ok(),
    ensures
        final(registry)@ == old(registry)@,
        null_answer(dom, final(registry)@, *s, r.1),
        demands::judged(dom, final(registry)@, final(registry)@, context_offset_demands(*s, r.1), demands::outcome(r.0)),
{
    proof { lemma_type_var(registry@, s.reg); }
    let pack = reg_pack(&s.reg, registry);
    let t = dom.state.types.get_type(&s.reg, registry);
    let is_num: bool = match t {
        Some(te) => te == TypeEncoding::TNum,
        None => false,
    };
    proof {
        let ts = types_of(dom, s.reg);
        if let Some(te) = t {
            assert(ts.has(te));
            if te == TypeEncoding::TNum { assert(ts.is_just(TypeEncoding::TNum)); } else { assert(!ts.is_just(TypeEncoding::TNum)); }
        } else {
            if dom.state.types.state is Some { assert(!ts.is_just(TypeEncoding::TNum)); }
        }
    }
    let mut is_null: bool = false;
    if is_num {
        let value = Side::var(pack.uvalue, registry);
        let zero = Side::num(0, registry);
        is_null = demands::answer(dom, Rel::Equal, value, zero, registry);
    }
    if s.or_null && is_null {
        return (Ok(()), is_null);
    }
    let offset = Side::var(pack.ctx_offset, registry);
    let zero = Side::num(0, registry);
    let r = ebpf_checker::require(dom, Rel::Equal, offset, zero, "Nonzero context offset", registry);
    (r, is_null)
}

fn map_type_message(t: u32, what: &str, helper: &String) -> (r: String)
    ensures r@ == map_type_text(t as int, what@, helper@),
{
    let mut s = String::from_str("map type ");
    Number::of(t as i128).write_to(&mut s);
    s.append(what);
    s.append(helper.as_str());
    assert(s@ =~= map_type_text(t as int, what@, helper@));
    s
}

pub(crate) fn check_valid_map_type(dom: &EbpfDomain, s: &ValidMapType, ctx: &DomainContext, registry: &VariableRegistry) -> (r: (Result<(), String>, Option<u32>))
    requires dom.wf(), registry@.ready(), s.map_fd_reg.ok(),
    ensures
        map_type_answer(ctx, dom, s.map_fd_reg, r.1),
        demands::judged(dom, registry@, registry@, map_type_demands(*s, r.1), demands::outcome(r.0)),
{
    let t = dom.get_map_type(&s.map_fd_reg, ctx, registry);
    let n: u32 = match t {
        Some(n) => n,
        None => { return (Ok(()), t); }
    };
    if n == 0 {
        return (Ok(()), t);
    }
    if n >= 64 {
        let m = map_type_message(n, " is out of supported range for ", &s.helper_name);
        return (ebpf_checker::refuse(m.as_str(), Ghost(*dom), Ghost(registry@)), t);
    }
    let k: u64 = n as u64;
    if s.allowed_map_types & (1u64 << k) == 0 {
        let m = map_type_message(n, " is not allowed for ", &s.helper_name);
        return (ebpf_checker::refuse(m.as_str(), Ghost(*dom), Ghost(registry@)), t);
    }
    (Ok(()), t)
}

}
