//! The check of an assertion.
use vstd::prelude::*;
use vstd::string::*;
use crate::arith::extended_number::ExtendedNumber;
use crate::arith::number;
use crate::arith::number::Number;
use crate::arith::variable::Variable;
use crate::array_domain;
use crate::config::DomainContext;
use crate::demands;
use crate::demands::{Demand, Rel, Side};
use crate::ebpf_arith;
use crate::ebpf_assertions;
use crate::ebpf_checker;
use crate::ebpf_checker::AccessSeen;
use crate::ebpf_domain;
use crate::ebpf_domain::{EbpfDomain, MapField, VerificationError};
use crate::ebpf_store;
use crate::interval::Interval;
use crate::numeric_steps;
use crate::rcp;
use crate::rcp::reg_pack;
use crate::syntax::{Assertion, FuncConstraint, Reg, ValidMapKeyValue};
use crate::text;
use crate::type_encoding::{DataKind, TypeEncoding};
use crate::var_registry;
use crate::var_registry::{RegistryView, VariableRegistry};

verus! {

// ---------------------------------------------------------------------------------------------
// Keys and values of maps
// ---------------------------------------------------------------------------------------------

/// The sizes of the keys or of the values of the maps that a register may describe.
pub open spec fn sizes_of(ctx: &DomainContext, d: &EbpfDomain, s: ValidMapKeyValue) -> Interval {
    ebpf_domain::field_range(&ctx.platform, if s.key { MapField::KeySize } else { MapField::ValueSize }, d.fds(s.map_fd_reg))
}

/// The one size, where it fits 32 bits.
pub open spec fn access_width(iv: Interval) -> Option<int> {
    match iv.singleton_spec() {
        Some(n) => if 0 <= n@ < 0x1_0000_0000 { Some(n@) } else { None },
        None => None,
    }
}

/// The complaint about a size that is not one or does not fit.
pub open spec fn width_complaint(s: ValidMapKeyValue, iv: Interval) -> Seq<char> {
    if iv.singleton_spec() is Some {
        if s.key { "Map key size is out of supported range"@ } else { "Map value size is out of supported range"@ }
    } else {
        if s.key { "Map key size is not singleton"@ } else { "Map value size is not singleton"@ }
    }
}

/// An end of an interval in a message.
pub open spec fn end_text(b: ExtendedNumber, otherwise: Seq<char>) -> Seq<char> {
    match b {
        ExtendedNumber::Finite(n) => if i64::MIN <= n@ <= i64::MAX { text::dec_int(n@) } else { otherwise },
        _ => otherwise,
    }
}

/// The complaint about bytes on the stack that are not numbers.
pub open spec fn not_numeric_text(iv: Interval, width: int) -> Seq<char> {
    "Illegal map update with a non-numerical value ["@ + end_text(iv.lb, "-oo"@) + "-"@ + end_text(iv.add_spec(ebpf_store::wide(width)).ub, "oo"@) + ")"@
}

/// The least number of entries of the maps that a register may describe.
pub open spec fn least_entries(ctx: &DomainContext, d: &EbpfDomain, s: ValidMapKeyValue) -> Option<int> {
    match ebpf_domain::field_range(&ctx.platform, MapField::MaxEntries, d.fds(s.map_fd_reg)).lb {
        ExtendedNumber::Finite(n) => if i64::MIN <= n@ <= i64::MAX { Some(n@) } else { None },
        _ => None,
    }
}

/// What was found of the maps, and the variable of the key on the stack.
pub struct MapSeen {
    pub map_type: Option<u32>,
    pub key: Variable,
}

/// Whether the keys of a map are indexes that must be in range.
pub open spec fn checks_index(ctx: &DomainContext, w: MapSeen) -> bool {
    ctx.runtime.strict && (w.map_type matches Some(t) && ctx.platform.type_from(t, 0).is_array)
}

/// The index of an array is in range.
pub open spec fn index_demands(ctx: &DomainContext, d: &EbpfDomain, s: ValidMapKeyValue, w: MapSeen) -> Seq<Demand> {
    match least_entries(ctx, d, s) {
        Some(n) => seq![
            Demand::Compare(Rel::Below, demands::var(w.key.id), demands::num(n), "Array index overflow"@),
            Demand::Compare(Rel::AtMost, demands::num(0), demands::var(w.key.id), "Array index underflow"@),
        ],
        None => seq![Demand::Refuse("Max entries is not finite"@)],
    }
}

/// The interval of a stack pointer.
pub open spec fn stack_interval(d: &EbpfDomain, r: Reg) -> Interval {
    d.state.values.interval(rcp::id_of(DataKind::StackOffsets, r))
}

/// What a key or a value on the stack must meet.
pub open spec fn stack_param_demands(ctx: &DomainContext, d: &EbpfDomain, s: ValidMapKeyValue, width: int, w: MapSeen) -> Seq<Demand> {
    let iv = stack_interval(d, s.access_reg);
    if !array_domain::all_numbers(d.stack.bits(), array_domain::touched(iv, ebpf_store::wide(width))) {
        seq![Demand::Refuse(not_numeric_text(iv, width))]
    } else if !checks_index(ctx, w) {
        seq![]
    } else if iv.singleton_spec() is None {
        seq![Demand::Refuse("Pointer must be a singleton"@)]
    } else if s.key {
        index_demands(ctx, d, s, w)
    } else {
        seq![]
    }
}

/// What a key or a value must meet where the pointer to it has one type.
pub open spec fn param_demands_at(ctx: &DomainContext, d: &EbpfDomain, s: ValidMapKeyValue, te: TypeEncoding, width: int, w: MapSeen) -> Seq<Demand> {
    let r = s.access_reg;
    match te {
        TypeEncoding::TStack => stack_param_demands(ctx, d, s, width, w),
        TypeEncoding::TPacket => ebpf_checker::packet_demands(demands::var(rcp::id_of(DataKind::PacketOffsets, r)), demands::var_plus(rcp::id_of(DataKind::PacketOffsets, r), width), None),
        TypeEncoding::TShared => ebpf_checker::shared_demands(r, demands::var(rcp::id_of(DataKind::SharedOffsets, r)), demands::var_plus(rcp::id_of(DataKind::SharedOffsets, r), width))
            .push(ebpf_checker::not_null(r)),
        _ => seq![Demand::Refuse("Only stack, packet, or shared can be used as a parameter"@)],
    }
}

/// What a key or a value must meet for the first `n` types that the pointer to it may have.
pub open spec fn param_demands_below(ctx: &DomainContext, d: &EbpfDomain, s: ValidMapKeyValue, tes: Seq<TypeEncoding>, width: int, w: MapSeen, n: nat) -> Seq<Demand>
    decreases n,
{
    if n == 0 { seq![] } else { param_demands_below(ctx, d, s, tes, width, w, (n - 1) as nat) + param_demands_at(ctx, d, s, tes[n - 1], width, w) }
}

/// What a key or a value of a map must meet.
pub open spec fn map_param_demands(ctx: &DomainContext, d: &EbpfDomain, s: ValidMapKeyValue, w: MapSeen) -> Seq<Demand> {
    let iv = sizes_of(ctx, d, s);
    match access_width(iv) {
        Some(width) => param_demands_below(ctx, d, s, ebpf_checker::types_for(d, s.access_reg), width, w, ebpf_checker::types_for(d, s.access_reg).len()),
        None => seq![Demand::Refuse(width_complaint(s, iv))],
    }
}

/// The name of the four bytes on the stack that hold a key.
pub open spec fn key_name(d: &EbpfDomain, s: ValidMapKeyValue) -> Seq<char> {
    var_registry::cell_name(DataKind::Svalues, stack_interval(d, s.access_reg).singleton_spec()->Some_0, Number { n: 4 })
}

/// The answers are those of the platform, and the key's variable is that of four bytes on the stack.
pub open spec fn map_seen(ctx: &DomainContext, d: &EbpfDomain, before: RegistryView, s: ValidMapKeyValue, w: MapSeen) -> bool {
    &&& ebpf_assertions::map_type_answer(ctx, d, s.map_fd_reg, w.map_type)
    &&& stack_interval(d, s.access_reg).singleton_spec() is Some ==> w.key == before.var(key_name(d, s))
}

/// A key on the stack is read, as the index of an array.
pub open spec fn reads_index(ctx: &DomainContext, d: &EbpfDomain, s: ValidMapKeyValue, width: int, w: MapSeen) -> bool {
    let iv = stack_interval(d, s.access_reg);
    &&& array_domain::all_numbers(d.stack.bits(), array_domain::touched(iv, ebpf_store::wide(width)))
    &&& checks_index(ctx, w)
    &&& iv.singleton_spec() is Some
    &&& s.key
}

/// The registry with the variable of the key.
pub open spec fn with_key(d: &EbpfDomain, s: ValidMapKeyValue, r: RegistryView) -> RegistryView {
    r.interned(key_name(d, s), var_registry::kind_meta(DataKind::Svalues, true))
}

/// The variable of the key is registered where it is read, and only there: not where the pointer is
/// none to the stack or no index is read, and, where the check passes, wherever one is read.
pub open spec fn key_registered(ctx: &DomainContext, d: &EbpfDomain, before: RegistryView, after: RegistryView, s: ValidMapKeyValue, w: MapSeen, passed: bool) -> bool {
    let reads = access_width(sizes_of(ctx, d, s)) matches Some(width) && reads_index(ctx, d, s, width, w)
        && ebpf_checker::types_for(d, s.access_reg).contains(TypeEncoding::TStack);
    if reads {
        after == with_key(d, s, before) || (!passed && after == before)
    } else {
        after == before
    }
}

/// Nothing was demanded, and then something in a longer registry.
proof fn lemma_judged_later(d: &EbpfDomain, before: RegistryView, after: RegistryView, ds: Seq<Demand>, r: Result<(), Seq<char>>)
    requires after.extends(before), demands::judged(d, after, after, ds, r),
    ensures demands::judged(d, before, after, ds, r),
{
    numeric_steps::extends_itself(after);
    demands::judged_both(d, before, after, after, seq![], ds, r);
    assert(Seq::<Demand>::empty() + ds =~= ds);
}

fn end_message(b: &ExtendedNumber, otherwise: &str, s: &mut String)
    ensures final(s)@ == old(s)@ + end_text(*b, otherwise@),
{
    match b.number() {
        Some(n) => match n.to_i64() {
            Some(_) => { n.write_to(s); }
            None => { s.append(otherwise); }
        },
        None => { s.append(otherwise); }
    }
}

fn not_numeric_message(iv: &Interval, width: i64) -> (r: String)
    ensures r@ == not_numeric_text(*iv, width as int),
{
    let mut s = String::from_str("Illegal map update with a non-numerical value [");
    end_message(iv.lb(), "-oo", &mut s);
    s.append("-");
    let wide = Interval::from_i64(width);
    assert(wide == ebpf_store::wide(width as int));
    let end = iv.add(&wide);
    end_message(end.ub(), "oo", &mut s);
    s.append(")");
    assert(s@ =~= not_numeric_text(*iv, width as int));
    s
}

fn check_index(dom: &EbpfDomain, s: &ValidMapKeyValue, key: Variable, ctx: &DomainContext, registry: &VariableRegistry, Ghost(w): Ghost<MapSeen>) -> (r: Result<(), String>)
    requires dom.wf(), registry@.ready(), s.map_fd_reg.ok(), registry@.knows(key), w.key == key,
    ensures demands::judged(dom, registry@, registry@, index_demands(ctx, dom, *s, w), demands::outcome(r)),
{
    let entries = dom.get_map_max_entries(&s.map_fd_reg, ctx, registry);
    let least: i64 = match entries.lb().number() {
        Some(n) => match n.to_i64() {
            Some(k) => k,
            None => { return ebpf_checker::refuse("Max entries is not finite", Ghost(*dom), Ghost(registry@)); }
        },
        None => { return ebpf_checker::refuse("Max entries is not finite", Ghost(*dom), Ghost(registry@)); }
    };
    let a = Side::var(key, registry);
    let b = Side::num(least as i128, registry);
    let zero = Side::num(0, registry);
    let c = Side::var(key, registry);
    ebpf_checker::require_two(dom, Rel::Below, a, b, "Array index overflow", Rel::AtMost, zero, c, "Array index underflow", registry)
}

fn check_stack_param(dom: &EbpfDomain, s: &ValidMapKeyValue, width: i64, map_type: Option<u32>, ctx: &DomainContext, registry: &mut VariableRegistry, Ghost(w): Ghost<MapSeen>) -> (r: Result<(), String>)
    requires
        dom.wf(), old(registry)@.ready(), s.map_fd_reg.ok(), s.access_reg.ok(),
        w.map_type == map_type,
        stack_interval(dom, s.access_reg).singleton_spec() is Some ==> w.key == old(registry)@.var(key_name(dom, *s)),
    ensures
        final(registry)@.ready(),
        final(registry)@.extends(old(registry)@),
        final(registry)@ == (if reads_index(ctx, dom, *s, width as int, w) { with_key(dom, *s, old(registry)@) } else { old(registry)@ }),
        demands::judged(dom, old(registry)@, final(registry)@, stack_param_demands(ctx, dom, *s, width as int, w), demands::outcome(r)),
{
    let ghost g0 = registry@;
    proof { numeric_steps::extends_itself(g0); }
    let pack = reg_pack(&s.access_reg, registry);
    let iv = dom.state.values.eval_interval_var(pack.stack_offset, registry);
    let wide = Interval::from_i64(width);
    assert(wide == ebpf_store::wide(width as int));
    if !dom.stack.all_num_width(&iv, &wide) {
        let m = not_numeric_message(&iv, width);
        return ebpf_checker::refuse(m.as_str(), Ghost(*dom), Ghost(registry@));
    }
    let index: bool = ctx.runtime.strict && (match map_type {
        Some(t) => ctx.platform.get_map_type(t).is_array,
        None => false,
    });
    assert(index == checks_index(ctx, w));
    if !index {
        return Ok(());
    }
    let offset: Number = match iv.singleton() {
        Some(o) => o,
        None => { return ebpf_checker::refuse("Pointer must be a singleton", Ghost(*dom), Ghost(registry@)); }
    };
    if !s.key {
        return Ok(());
    }
    let key = registry.cell_var(DataKind::Svalues, &offset, &Number::of(4));
    proof { registry@.readiness_lasts(g0); }
    let r = check_index(dom, s, key, ctx, registry, Ghost(w));
    proof { lemma_judged_later(dom, g0, registry@, index_demands(ctx, dom, *s, w), demands::outcome(r)); }
    r
}

fn check_param_at(dom: &EbpfDomain, s: &ValidMapKeyValue, te: TypeEncoding, width: i64, map_type: Option<u32>, ctx: &DomainContext, registry: &mut VariableRegistry, Ghost(w): Ghost<MapSeen>) -> (r: Result<(), String>)
    requires
        dom.wf(), old(registry)@.ready(), s.map_fd_reg.ok(), s.access_reg.ok(), 0 <= width < 0x1_0000_0000,
        w.map_type == map_type,
        stack_interval(dom, s.access_reg).singleton_spec() is Some ==> w.key == old(registry)@.var(key_name(dom, *s)),
    ensures
        final(registry)@.ready(),
        final(registry)@.extends(old(registry)@),
        final(registry)@ == (if te is TStack && reads_index(ctx, dom, *s, width as int, w) { with_key(dom, *s, old(registry)@) } else { old(registry)@ }),
        demands::judged(dom, old(registry)@, final(registry)@, param_demands_at(ctx, dom, *s, te, width as int, w), demands::outcome(r)),
{
    let ghost g = registry@;
    proof { numeric_steps::extends_itself(g); }
    let pack = reg_pack(&s.access_reg, registry);
    match te {
        TypeEncoding::TStack => check_stack_param(dom, s, width, map_type, ctx, registry, Ghost(w)),
        TypeEncoding::TPacket => {
            let lb = Side::var(pack.packet_offset, registry);
            let ub = Side::var_plus(pack.packet_offset, width as i128, registry);
            ebpf_checker::check_access_packet(dom, lb, ub, None, registry)
        }
        TypeEncoding::TShared => {
            let lb = Side::var(pack.shared_offset, registry);
            let ub = Side::var_plus(pack.shared_offset, width as i128, registry);
            let ghost first = ebpf_checker::shared_demands(s.access_reg, lb.a@, ub.a@);
            let ghost rest = seq![ebpf_checker::not_null(s.access_reg)];
            proof {
                numeric_steps::extends_itself(g);
                assert(first.push(ebpf_checker::not_null(s.access_reg)) =~= first + rest);
            }
            match ebpf_checker::check_access_shared(dom, &s.access_reg, lb, ub, registry) {
                Err(m) => {
                    proof { demands::judged_first(dom, g, g, g, first, rest, m@); }
                    Err(m)
                }
                Ok(_) => {
                    let zero = Side::num(0, registry);
                    let value = Side::var(pack.uvalue, registry);
                    let r = ebpf_checker::require(dom, Rel::Below, zero, value, "Possible null access", registry);
                    proof { demands::judged_both(dom, g, g, g, first, rest, demands::outcome(r)); }
                    r
                }
            }
        }
        _ => ebpf_checker::refuse("Only stack, packet, or shared can be used as a parameter", Ghost(*dom), Ghost(g)),
    }
}

proof fn lemma_param_first(ctx: &DomainContext, d: &EbpfDomain, older: RegistryView, g: RegistryView, s: ValidMapKeyValue, tes: Seq<TypeEncoding>, width: int, w: MapSeen, n: nat, m: nat, message: Seq<char>)
    requires n <= m, g.extends(older), demands::judged(d, older, g, param_demands_below(ctx, d, s, tes, width, w, n), Err(message)),
    ensures demands::judged(d, older, g, param_demands_below(ctx, d, s, tes, width, w, m), Err(message)),
    decreases m,
{
    if n < m {
        lemma_param_first(ctx, d, older, g, s, tes, width, w, n, (m - 1) as nat, message);
        numeric_steps::extends_itself(g);
        demands::judged_first(d, older, g, g, param_demands_below(ctx, d, s, tes, width, w, (m - 1) as nat), param_demands_at(ctx, d, s, tes[m - 1], width, w), message);
    }
}

/// The variable of the key is found where it was registered, and registering it again changes nothing.
proof fn lemma_key_found(d: &EbpfDomain, s: ValidMapKeyValue, before: RegistryView, after: RegistryView)
    requires before.wf(), after.wf(), after == with_key(d, s, before),
    ensures after.var(key_name(d, s)) == before.var(key_name(d, s)), with_key(d, s, after) == after,
{
    let name = key_name(d, s);
    if !before.has(name) {
        let n = before.names.len() as int;
        assert(after.names[n] == name);
        after.var_is_unique(name, n);
    }
}

/// A register points to a key or a value of a map, whatever type of those that it may have it has.
fn check_valid_map_key_value(dom: &EbpfDomain, s: &ValidMapKeyValue, ctx: &DomainContext, registry: &mut VariableRegistry) -> (r: (Result<(), String>, Ghost<MapSeen>))
    requires dom.wf(), old(registry)@.ready(), s.map_fd_reg.ok(), s.access_reg.ok(),
    ensures
        final(registry)@.ready(),
        final(registry)@.extends(old(registry)@),
        map_seen(ctx, dom, old(registry)@, *s, r.1@),
        key_registered(ctx, dom, old(registry)@, final(registry)@, *s, r.1@, r.0 is Ok),
        demands::judged(dom, old(registry)@, final(registry)@, map_param_demands(ctx, dom, *s, r.1@), demands::outcome(r.0)),
{
    let ghost g0 = registry@;
    proof { numeric_steps::extends_itself(g0); }
    let map_type = dom.get_map_type(&s.map_fd_reg, ctx, registry);
    let ghost w = MapSeen { map_type, key: g0.var(key_name(dom, *s)) };
    let sizes = if s.key { dom.get_map_key_size(&s.map_fd_reg, ctx, registry) } else { dom.get_map_value_size(&s.map_fd_reg, ctx, registry) };
    let width: i64 = match sizes.singleton() {
        Some(n) => {
            if n.n >= 0 && n.n < 0x1_0000_0000 {
                n.n as i64
            } else {
                let m = if s.key { "Map key size is out of supported range" } else { "Map value size is out of supported range" };
                return (ebpf_checker::refuse(m, Ghost(*dom), Ghost(g0)), Ghost(w));
            }
        }
        None => {
            let m = if s.key { "Map key size is not singleton" } else { "Map value size is not singleton" };
            return (ebpf_checker::refuse(m, Ghost(*dom), Ghost(g0)), Ghost(w));
        }
    };
    let tes = dom.state.enumerate_types(&s.access_reg, registry);
    let ghost reads = reads_index(ctx, dom, *s, width as int, w);
    let mut i: usize = 0;
    assert(!tes@.take(0).contains(TypeEncoding::TStack));
    while i < tes.len()
        invariant
            i <= tes.len(),
            dom.wf(),
            s.map_fd_reg.ok(),
            s.access_reg.ok(),
            0 <= width < 0x1_0000_0000,
            registry@.ready(),
            registry@.extends(g0),
            g0.ready(),
            g0 == old(registry)@,
            registry@ == (if reads && tes@.take(i as int).contains(TypeEncoding::TStack) { with_key(dom, *s, g0) } else { g0 }),
            reads == reads_index(ctx, dom, *s, width as int, w),
            tes@ == ebpf_checker::types_for(dom, s.access_reg),
            w == (MapSeen { map_type, key: g0.var(key_name(dom, *s)) }),
            map_seen(ctx, dom, g0, *s, w),
            access_width(sizes_of(ctx, dom, *s)) == Some(width as int),
            demands::judged(dom, g0, registry@, param_demands_below(ctx, dom, *s, tes@, width as int, w, i as nat), Ok(())),
        decreases tes.len() - i,
    {
        let te: TypeEncoding = tes[i];
        let ghost g = registry@;
        proof {
            if stack_interval(dom, s.access_reg).singleton_spec() is Some && g != g0 {
                lemma_key_found(dom, *s, g0, g);
            }
        }
        let r = check_param_at(dom, s, te, width, map_type, ctx, registry, Ghost(w));
        proof {
            let upto = tes@.take(i as int);
            assert(tes@.take(i + 1) =~= upto.push(te));
            assert(upto.push(te).contains(TypeEncoding::TStack) == (upto.contains(TypeEncoding::TStack) || te is TStack)) by {
                if te is TStack { assert(upto.push(te)[i as int] == te); }
                if upto.contains(TypeEncoding::TStack) {
                    let k = choose|k: int| 0 <= k < upto.len() && upto[k] == TypeEncoding::TStack;
                    assert(upto.push(te)[k] == TypeEncoding::TStack);
                }
            }
            if upto.push(te).contains(TypeEncoding::TStack) {
                let k = choose|k: int| 0 <= k < upto.push(te).len() && upto.push(te)[k] == TypeEncoding::TStack;
                assert(tes@[k] == TypeEncoding::TStack);
            }
            registry@.extending_is_transitive(g, g0);
            numeric_steps::extends_itself(registry@);
            demands::judged_both(dom, g0, g, registry@, param_demands_below(ctx, dom, *s, tes@, width as int, w, i as nat),
                param_demands_at(ctx, dom, *s, te, width as int, w), demands::outcome(r));
        }
        if r.is_err() {
            proof { lemma_param_first(ctx, dom, g0, registry@, *s, tes@, width as int, w, (i + 1) as nat, tes@.len(), demands::outcome(r)->Err_0); }
            return (r, Ghost(w));
        }
        i = i + 1;
    }
    assert(tes@.take(tes@.len() as int) =~= tes@);
    (Ok(()), Ghost(w))
}

// ---------------------------------------------------------------------------------------------
// All assertions
// ---------------------------------------------------------------------------------------------

/// The list holds what an assertion demands of a state, by the answers to what it tests. The check
/// may have passed or not.
pub open spec fn is_demanded(ctx: &DomainContext, d: &EbpfDomain, older: RegistryView, newer: RegistryView, a: &Assertion, ds: Seq<Demand>, passed: bool) -> bool {
    match a {
        Assertion::Addable(s) => ds == ebpf_assertions::addable_demands(d, *s),
        Assertion::BoundedLoopCount(s) => exists|x: Variable| #[trigger] rcp::is_named(newer, x, var_registry::counter_name(s.name@)) && ds == ebpf_assertions::loop_demands(x.id),
        Assertion::Comparable(s) => exists|w1: AccessSeen, w2: AccessSeen| ds == #[trigger] ebpf_assertions::comparable_demands(ctx, d, *s, w1, w2),
        Assertion::FuncConstraint(_) => false,
        Assertion::ValidDivisor(s) => ds == ebpf_assertions::divisor_demands(ctx, d, newer, *s),
        Assertion::TypeConstraint(s) => ds == ebpf_assertions::type_demands(d, *s),
        Assertion::ValidAccess(s) => exists|w: AccessSeen| ds == #[trigger] ebpf_checker::access_demands(ctx, d, *s, w) && ebpf_checker::numeric_answer(d, *s, w.numeric)
            && (ctx.layout().data < ctx.layout().end ==> ebpf_checker::access_seen(ctx, d, newer, *s, w)),
        Assertion::ValidCallbackTarget(s) => ds == ebpf_assertions::callback_demands(ctx, d, *s),
        Assertion::ValidMapKeyValue(s) => exists|w: MapSeen| ds == #[trigger] map_param_demands(ctx, d, *s, w) && map_seen(ctx, d, older, *s, w)
            && key_registered(ctx, d, older, newer, *s, w, passed),
        Assertion::ValidSize(s) => ds == ebpf_assertions::size_demands(*s),
        Assertion::ValidArgZero(s) => ds == ebpf_assertions::zero_demands(*s),
        Assertion::ValidMapType(s) => exists|t: Option<u32>| ds == #[trigger] ebpf_assertions::map_type_demands(*s, t) && ebpf_assertions::map_type_answer(ctx, d, s.map_fd_reg, t),
        Assertion::ValidStore(s) => ds == ebpf_assertions::store_demands(d, *s),
        Assertion::ZeroCtxOffset(s) => exists|y: bool| ds == #[trigger] ebpf_assertions::context_offset_demands(*s, y) && ebpf_assertions::null_answer(d, newer, *s, y),
    }
}

/// What becomes of an assertion other than one on a called function.
pub open spec fn plain_verdict(ctx: &DomainContext, d: &EbpfDomain, older: RegistryView, newer: RegistryView, a: &Assertion, r: Result<(), Seq<char>>) -> bool {
    exists|ds: Seq<Demand>, g: RegistryView| is_demanded(ctx, d, older, newer, a, ds, r is Ok) && g.extends(older) && newer.extends(g) && #[trigger] demands::judged(d, g, newer, ds, r)
}

/// A complaint with the assertion that it is about.
pub open spec fn about(message: Seq<char>, assertion: Seq<char>) -> Seq<char> {
    message + " ("@ + assertion + ")"@
}

/// A result with the assertion that it is about.
pub open spec fn result_about(r: Result<(), Seq<char>>, assertion: Seq<char>) -> Result<(), Seq<char>> {
    match r {
        Ok(_) => Ok(()),
        Err(m) => Err(about(m, assertion)),
    }
}

fn visit_plain(dom: &EbpfDomain, a: &Assertion, ctx: &DomainContext, registry: &mut VariableRegistry) -> (r: Result<(), String>)
    requires dom.wf(), dom.num() is Some, old(registry)@.ready(), a.ok(), ctx.ok(), !(a is FuncConstraint),
    ensures
        final(registry)@.ready(),
        final(registry)@.extends(old(registry)@),
        plain_verdict(ctx, dom, old(registry)@, final(registry)@, a, demands::outcome(r)),
{
    let ghost g0 = registry@;
    proof { numeric_steps::extends_itself(g0); }
    match a {
        Assertion::Addable(s) => {
            let r = ebpf_assertions::check_addable(dom, s, registry);
            assert(is_demanded(ctx, dom, g0, registry@, a, ebpf_assertions::addable_demands(dom, *s), r is Ok));
            r
        }
        Assertion::BoundedLoopCount(s) => {
            let (r, x) = ebpf_assertions::check_bounded_loop_count(dom, s, registry);
            proof { numeric_steps::extends_itself(registry@); }
            assert(is_demanded(ctx, dom, g0, registry@, a, ebpf_assertions::loop_demands(x.id), r is Ok));
            r
        }
        Assertion::Comparable(s) => {
            let (r, w) = ebpf_assertions::check_comparable(dom, s, ctx, registry);
            assert(is_demanded(ctx, dom, g0, registry@, a, ebpf_assertions::comparable_demands(ctx, dom, *s, w@.0, w@.1), r is Ok));
            r
        }
        Assertion::FuncConstraint(_) => Ok(()),
        Assertion::ValidDivisor(s) => {
            let r = ebpf_assertions::check_valid_divisor(dom, s, ctx, registry);
            assert(is_demanded(ctx, dom, g0, registry@, a, ebpf_assertions::divisor_demands(ctx, dom, registry@, *s), r is Ok));
            r
        }
        Assertion::TypeConstraint(s) => {
            let r = ebpf_assertions::check_type_constraint(dom, s, registry);
            assert(is_demanded(ctx, dom, g0, registry@, a, ebpf_assertions::type_demands(dom, *s), r is Ok));
            r
        }
        Assertion::ValidAccess(s) => {
            let (r, w) = ebpf_checker::check_valid_access(dom, s, ctx, registry);
            assert(is_demanded(ctx, dom, g0, registry@, a, ebpf_checker::access_demands(ctx, dom, *s, w@), r is Ok));
            r
        }
        Assertion::ValidCallbackTarget(s) => {
            let r = ebpf_assertions::check_valid_callback_target(dom, s, ctx, registry);
            assert(is_demanded(ctx, dom, g0, registry@, a, ebpf_assertions::callback_demands(ctx, dom, *s), r is Ok));
            r
        }
        Assertion::ValidMapKeyValue(s) => {
            let (r, w) = check_valid_map_key_value(dom, s, ctx, registry);
            proof { numeric_steps::extends_itself(registry@); }
            assert(is_demanded(ctx, dom, g0, registry@, a, map_param_demands(ctx, dom, *s, w@), r is Ok));
            r
        }
        Assertion::ValidSize(s) => {
            let r = ebpf_assertions::check_valid_size(dom, s, registry);
            assert(is_demanded(ctx, dom, g0, registry@, a, ebpf_assertions::size_demands(*s), r is Ok));
            r
        }
        Assertion::ValidArgZero(s) => {
            let r = ebpf_assertions::check_valid_arg_zero(dom, s, registry);
            assert(is_demanded(ctx, dom, g0, registry@, a, ebpf_assertions::zero_demands(*s), r is Ok));
            r
        }
        Assertion::ValidMapType(s) => {
            let (r, t) = ebpf_assertions::check_valid_map_type(dom, s, ctx, registry);
            assert(is_demanded(ctx, dom, g0, registry@, a, ebpf_assertions::map_type_demands(*s, t), r is Ok));
            r
        }
        Assertion::ValidStore(s) => {
            let r = ebpf_assertions::check_valid_store(dom, s, registry);
            assert(is_demanded(ctx, dom, g0, registry@, a, ebpf_assertions::store_demands(dom, *s), r is Ok));
            r
        }
        Assertion::ZeroCtxOffset(s) => {
            let (r, y) = ebpf_assertions::check_zero_ctx_offset(dom, s, registry);
            assert(is_demanded(ctx, dom, g0, registry@, a, ebpf_assertions::context_offset_demands(*s, y), r is Ok));
            r
        }
    }
}

// ---------------------------------------------------------------------------------------------
// Called functions
// ---------------------------------------------------------------------------------------------

/// The number of the helper function in a register.
pub open spec fn helper_number(d: &EbpfDomain, s: FuncConstraint) -> Option<int> {
    match ebpf_assertions::known_value(d, ebpf_arith::uv(s.reg)) {
        Some(n) => Some(number::wrap_signed(n, 32)),
        None => None,
    }
}

/// The assertions of a helper function, one after the other: the first that is not met decides.
pub open spec fn helper_verdict(ctx: &DomainContext, d: &EbpfDomain, older: RegistryView, newer: RegistryView, i: int, r: Result<(), Seq<char>>) -> bool {
    let list = ctx.platform.helpers@[i].assertions@;
    exists|path: Seq<RegistryView>, n: int| 0 <= n <= list.len() && path.len() == n + 1 && path[0] == older && path[n] == newer
        && #[trigger] helper_path(ctx, d, i, path, n, r)
}

pub open spec fn helper_path(ctx: &DomainContext, d: &EbpfDomain, i: int, path: Seq<RegistryView>, n: int, r: Result<(), Seq<char>>) -> bool {
    let list = ctx.platform.helpers@[i].assertions@;
    match r {
        Ok(_) => n == list.len() && forall|j: int| 0 <= j < n ==> plain_verdict(ctx, d, path[j], path[j + 1], &(#[trigger] list[j]).0, Ok(())),
        Err(m) => n > 0 && (forall|j: int| 0 <= j < n - 1 ==> plain_verdict(ctx, d, path[j], path[j + 1], &(#[trigger] list[j]).0, Ok(())))
            && exists|x: Seq<char>| m == #[trigger] about(x, list[n - 1].1@) && plain_verdict(ctx, d, path[n - 1], path[n], &list[n - 1].0, Err(x)),
    }
}

/// What becomes of an assertion: it is shown, or complained of with its text.
pub open spec fn verdict(ctx: &DomainContext, d: &EbpfDomain, older: RegistryView, newer: RegistryView, a: &Assertion, text: Seq<char>, r: Result<(), Seq<char>>) -> bool {
    match a {
        Assertion::FuncConstraint(s) => match helper_number(d, *s) {
            None => r == Err::<(), Seq<char>>(about("callx helper function id is not a valid singleton"@, text)),
            Some(n) => match ctx.platform.helper_from(n, 0) {
                None => r == Err::<(), Seq<char>>(about("invalid helper function id "@ + text::dec_int(n), text)),
                Some(i) => helper_verdict(ctx, d, older, newer, i, r),
            },
        },
        _ => exists|x: Result<(), Seq<char>>| #[trigger] plain_verdict(ctx, d, older, newer, a, x) && r == result_about(x, text),
    }
}

fn with_text(message: &str, assertion: &str) -> (r: String)
    ensures r@ == about(message@, assertion@),
{
    let mut s = String::from_str(message);
    s.append(" (");
    s.append(assertion);
    s.append(")");
    assert(s@ =~= about(message@, assertion@));
    s
}

fn check_helper(dom: &EbpfDomain, i: usize, ctx: &DomainContext, registry: &mut VariableRegistry) -> (r: Result<(), String>)
    requires dom.wf(), dom.num() is Some, old(registry)@.ready(), ctx.ok(), i < ctx.platform.helpers@.len(),
    ensures
        final(registry)@.ready(),
        final(registry)@.extends(old(registry)@),
        helper_verdict(ctx, dom, old(registry)@, final(registry)@, i as int, demands::outcome(r)),
{
    let list = &ctx.platform.helpers[i].assertions;
    let ghost mut path: Seq<RegistryView> = seq![registry@];
    let mut j: usize = 0;
    proof { numeric_steps::extends_itself(registry@); }
    while j < list.len()
        invariant
            j <= list.len(),
            dom.wf(),
            dom.num() is Some,
            ctx.ok(),
            i < ctx.platform.helpers@.len(),
            *list == ctx.platform.helpers@[i as int].assertions,
            registry@.ready(),
            registry@.extends(old(registry)@),
            path.len() == j + 1,
            path[0] == old(registry)@,
            path[j as int] == registry@,
            forall|k: int| 0 <= k < j ==> plain_verdict(ctx, dom, path[k], path[k + 1], &(#[trigger] list@[k]).0, Ok(())),
        decreases list.len() - j,
    {
        assert(ctx.platform.helpers@[i as int].call.contract.ok());
        assert(list@[j as int].0.ok());
        let ghost g = registry@;
        let r = visit_plain(dom, &list[j].0, ctx, registry);
        let ghost before = path;
        proof {
            registry@.extending_is_transitive(g, old(registry)@);
            path = path.push(registry@);
            assert forall|k: int| 0 <= k < j implies plain_verdict(ctx, dom, path[k], path[k + 1], &(#[trigger] list@[k]).0, Ok(())) by {
                assert(path[k] == before[k] && path[k + 1] == before[k + 1]);
            }
        }
        match r {
            Ok(_) => {}
            Err(m) => {
                let e = with_text(m.as_str(), list[j].1.as_str());
                proof {
                    let all = ctx.platform.helpers@[i as int].assertions@;
                    assert(all == list@);
                    let n = j + 1;
                    assert(e@ == about(m@, all[n - 1].1@));
                    assert(plain_verdict(ctx, dom, path[n - 1], path[n], &all[n - 1].0, Err(m@)));
                    assert forall|k: int| 0 <= k < n - 1 implies plain_verdict(ctx, dom, path[k], path[k + 1], &(#[trigger] all[k]).0, Ok(())) by {
                        assert(list@[k] == all[k]);
                    }
                    assert(exists|x: Seq<char>| e@ == #[trigger] about(x, all[n - 1].1@) && plain_verdict(ctx, dom, path[n - 1], path[n], &all[n - 1].0, Err(x)));
                    assert(helper_path(ctx, dom, i as int, path, j + 1, Err(e@)));
                }
                return Err(e);
            }
        }
        j = j + 1;
    }
    assert(helper_path(ctx, dom, i as int, path, j as int, Ok(())));
    Ok(())
}

fn check_func_constraint(dom: &EbpfDomain, s: &FuncConstraint, assertion_text: &str, ctx: &DomainContext, registry: &mut VariableRegistry) -> (r: Result<(), String>)
    requires dom.wf(), dom.num() is Some, old(registry)@.ready(), ctx.ok(), s.reg.ok(),
    ensures
        final(registry)@.ready(),
        final(registry)@.extends(old(registry)@),
        match helper_number(dom, *s) {
            None => demands::outcome(r) == Err::<(), Seq<char>>(about("callx helper function id is not a valid singleton"@, assertion_text@)),
            Some(n) => match ctx.platform.helper_from(n, 0) {
                None => demands::outcome(r) == Err::<(), Seq<char>>(about("invalid helper function id "@ + text::dec_int(n), assertion_text@)),
                Some(i) => helper_verdict(ctx, dom, old(registry)@, final(registry)@, i, demands::outcome(r)),
            },
        },
{
    proof { numeric_steps::extends_itself(registry@); }
    let pack = reg_pack(&s.reg, registry);
    let iv = dom.state.values.eval_interval_var(pack.uvalue, registry);
    let known: Option<i64> = match iv.singleton() {
        Some(n) => n.to_i64(),
        None => None,
    };
    match known {
        None => Err(with_text("callx helper function id is not a valid singleton", assertion_text)),
        Some(k) => {
            let imm: i32 = array_domain::narrow_to_i32(k);
            match ctx.platform.get_helper(imm) {
                None => {
                    let mut m = String::from_str("invalid helper function id ");
                    Number::of(imm as i128).write_to(&mut m);
                    Err(with_text(m.as_str(), assertion_text))
                }
                Some(i) => check_helper(dom, i, ctx, registry),
            }
        }
    }
}

fn visit(dom: &EbpfDomain, a: &Assertion, assertion_text: &str, ctx: &DomainContext, registry: &mut VariableRegistry) -> (r: Result<(), String>)
    requires dom.wf(), dom.num() is Some, old(registry)@.ready(), a.ok(), ctx.ok(),
    ensures
        final(registry)@.ready(),
        final(registry)@.extends(old(registry)@),
        verdict(ctx, dom, old(registry)@, final(registry)@, a, assertion_text@, demands::outcome(r)),
{
    match a {
        Assertion::FuncConstraint(s) => check_func_constraint(dom, s, assertion_text, ctx, registry),
        _ => {
            let r = visit_plain(dom, a, ctx, registry);
            let ghost x = demands::outcome(r);
            match r {
                Ok(_) => {
                    assert(plain_verdict(ctx, dom, old(registry)@, registry@, a, x));
                    Ok(())
                }
                Err(m) => {
                    assert(plain_verdict(ctx, dom, old(registry)@, registry@, a, x));
                    Err(with_text(m.as_str(), assertion_text))
                }
            }
        }
    }
}

/// Checks an assertion. The error tells where and why; nothing is complained of in a state that is not
/// possible.
pub fn ebpf_domain_check(dom: &EbpfDomain, assertion: &Assertion, assertion_text: &str, where_label: &str, ctx: &DomainContext, registry: &mut VariableRegistry) -> (r: Option<VerificationError>)
    requires dom.wf(), old(registry)@.ready(), assertion.ok(), ctx.ok(),
    ensures
        final(registry)@.ready(),
        final(registry)@.extends(old(registry)@),
        dom.num() is None ==> r is None && final(registry)@ == old(registry)@,
        dom.num() is Some ==> verdict(ctx, dom, old(registry)@, final(registry)@, assertion, assertion_text@,
            match r { None => Ok(()), Some(e) => Err(e.message@) }),
        r matches Some(e) ==> e.label matches Some(l) && l@ == where_label@,
{
    proof { numeric_steps::extends_itself(registry@); }
    if dom.is_bottom() {
        return None;
    }
    match visit(dom, assertion, assertion_text, ctx, registry) {
        Ok(_) => None,
        Err(m) => Some(VerificationError { message: m, label: Some(String::from_str(where_label)) }),
    }
}

}
