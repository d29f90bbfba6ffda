//! The state of a program: the types and values of its registers, and its stack.
use vstd::prelude::*;
use vstd::string::*;
use crate::arith::extended_number::ExtendedNumber;
use crate::arith::linear_constraint::LinearConstraint;
use crate::arith::number;
use crate::arith::number::Number;
use crate::arith::variable::Variable;
use crate::array_domain;
use crate::array_domain::{ArrayDomain, Cell};
use crate::bitset_domain;
use crate::config::{DomainContext, EbpfMapDescriptor, EbpfPlatform, EbpfRuntimeConfig};
use crate::interval::Interval;
use crate::numeric_ops;
use crate::numeric_ops::Log;
use crate::numeric_steps;
use crate::numeric_steps::{Num, Step};
use crate::rcp;
use crate::rcp::{reg_pack, TypeToNumDomain};
use crate::string_constraints::StringInvariant;
use crate::syntax::{Reg, R0_RETURN_VALUE, R10_STACK_POINTER, R1_ARG};
use crate::type_domain;
use crate::type_domain::TypeDomain;
use crate::type_encoding::{DataKind, TypeEncoding, TypeSet};
use crate::var_registry;
use crate::var_registry::{RegistryView, VariableRegistry};
use crate::zone_domain;
use crate::zone_model;
use crate::zone_model::ZEdges;
use crate::zone_text;

verus! {

/// The largest size of a packet.
pub const MAX_PACKET_SIZE: i32 = 0xffff;

/// The largest value of a pointer at the start of a program.
pub const PTR_MAX: i64 = 0x7fff_0000;

/// Why a program is rejected, and where.
pub struct VerificationError {
    pub message: String,
    pub label: Option<String>,
}

impl VerificationError {
    pub fn new(message: String) -> (r: Self)
        ensures r.message == message, r.label is None,
    {
        VerificationError { message, label: None }
    }

    /// The message, behind the label where there is one.
    pub fn to_string(&self) -> (r: String)
        ensures r@ == (match self.label { Some(l) => l@ + ": "@ + self.message@, None => self.message@ }),
    {
        let mut s = String::new();
        if let Some(l) = &self.label {
            s.append(l.as_str());
            s.append(": ");
        }
        s.append(self.message.as_str());
        proof { assert(s@ =~= (match self.label { Some(l) => l@ + ": "@ + self.message@, None => self.message@ })); }
        s
    }
}

/// The state of a program.
pub struct EbpfDomain {
    pub state: TypeToNumDomain,
    pub stack: ArrayDomain,
}

/// The join of two states, neither of which is bottom.
pub open spec fn state_joined(a: &TypeToNumDomain, b: &TypeToNumDomain, older: RegistryView, newer: RegistryView, c: &TypeToNumDomain) -> bool {
    &&& rcp::joined_values(a, b, older, newer, c.num())
    &&& c.types.state is None <==> a.types.state is None && b.types.state is None
    &&& a.types.state is Some && b.types.state is Some ==> type_domain::joined(a.types.s(), b.types.s(), c.types.s())
    &&& a.types.state is None && b.types.state is Some ==> type_domain::same_state(b.types.s(), c.types.s())
    &&& a.types.state is Some && b.types.state is None ==> c.types == a.types
}

/// Two stacks with the same bytes and cells.
pub open spec fn same_stack(a: &ArrayDomain, b: &ArrayDomain) -> bool {
    a.bits() == b.bits() && array_domain::same_cells(&a.map(), &b.map())
}

/// The join of two stacks.
pub open spec fn stack_joined(a: &ArrayDomain, b: &ArrayDomain, c: &ArrayDomain) -> bool {
    c.bits() == bitset_domain::either_bits(a.bits(), b.bits()) && array_domain::merged(&a.map(), &b.map(), &c.map())
}

/// The meet of two stacks.
pub open spec fn stack_met(a: &ArrayDomain, b: &ArrayDomain, c: &ArrayDomain) -> bool {
    c.bits() == bitset_domain::common_bits(a.bits(), b.bits()) && array_domain::merged(&a.map(), &b.map(), &c.map())
}

/// The bounds that widening keeps to, for one register.
pub open spec fn limits_of(i: int, total: int, counters: Seq<Variable>, bounded: bool) -> Seq<Step> {
    let s = var_registry::reg_var(DataKind::Svalues, i).id;
    let u = var_registry::reg_var(DataKind::Uvalues, i).id;
    let stack = var_registry::reg_var(DataKind::StackOffsets, i).id;
    let shared = var_registry::reg_var(DataKind::SharedOffsets, i).id;
    let region = var_registry::reg_var(DataKind::SharedRegionSizes, i).id;
    let packet = var_registry::reg_var(DataKind::PacketOffsets, i).id;
    seq![
        numeric_ops::var_at_most(s, i32::MAX as int),
        numeric_ops::var_at_least(s, i32::MIN as int),
        numeric_ops::var_at_most(u, u32::MAX as int),
        numeric_ops::var_at_least(u, 0),
        numeric_ops::var_at_most(stack, total),
        numeric_ops::var_at_least(stack, 0),
        numeric_ops::var_at_most_var(shared, region),
        numeric_ops::var_at_least(shared, 0),
        numeric_ops::var_at_most_var(packet, 183),
        numeric_ops::var_at_least(packet, 0),
    ] + (if bounded { counter_limits(s, counters, counters.len()) } else { seq![] })
}

/// The bounds of the first `n` loop counters against a register's value.
pub open spec fn counter_limits(s: u64, counters: Seq<Variable>, n: nat) -> Seq<Step>
    decreases n,
{
    if n == 0 {
        seq![]
    } else {
        counter_limits(s, counters, (n - 1) as nat) + seq![
            numeric_ops::var_at_most(counters[n - 1].id, i32::MAX as int),
            numeric_ops::var_at_least(counters[n - 1].id, 0),
            numeric_ops::var_at_most_var(counters[n - 1].id, s),
        ]
    }
}

/// The bounds for the first `n` registers.
pub open spec fn limit_steps(n: nat, total: int, counters: Seq<Variable>, bounded: bool) -> Seq<Step>
    decreases n,
{
    if n == 0 { seq![] } else { limit_steps((n - 1) as nat, total, counters, bounded) + limits_of(n - 1, total, counters, bounded) }
}

/// The list holds the loop counters of a registry, in order.
pub open spec fn lists_counters(r: RegistryView, counters: Seq<Variable>) -> bool {
    &&& forall|i: int| 0 <= i < counters.len() ==> r.knows(#[trigger] counters[i]) && r.meta(counters[i]).is_loop_counter
    &&& forall|v: Variable| r.knows(v) && #[trigger] r.meta(v).is_loop_counter ==> counters.contains(v)
    &&& forall|i: int, j: int| 0 <= i < j < counters.len() ==> (#[trigger] counters[i]).id < (#[trigger] counters[j]).id
}

/// What is known of the size of a packet and of its metadata at the start.
pub open spec fn packet_steps(meta: int) -> Seq<Step> {
    seq![
        Step::Forget(183),
        Step::Forget(182),
        numeric_ops::var_at_least(183, 0),
        numeric_ops::var_below(183, 0xffff),
    ] + (if meta >= 0 {
        seq![numeric_ops::var_at_most(182, 0), numeric_ops::var_at_least(182, -4098)]
    } else {
        seq![numeric_ops::set_number(182, 0)]
    })
}

/// What is known of the registers at the start: the stack pointer points to the end of the stack,
/// and the first argument to the start of the context.
pub open spec fn entry_steps(init_r1: bool, total: int, meta: int) -> Seq<Step> {
    seq![
        numeric_ops::var_at_least(var_registry::reg_var(DataKind::Svalues, 10).id, total),
        numeric_ops::var_at_most(var_registry::reg_var(DataKind::Svalues, 10).id, 0x7fff_0000),
        numeric_ops::set_number(var_registry::reg_var(DataKind::StackOffsets, 10).id, total),
    ] + (if init_r1 {
        seq![
            numeric_ops::var_at_least(var_registry::reg_var(DataKind::Svalues, 1).id, 1),
            numeric_ops::var_at_most(var_registry::reg_var(DataKind::Svalues, 1).id, 0x7fff_0000),
            numeric_ops::set_number(var_registry::reg_var(DataKind::CtxOffsets, 1).id, 0),
        ]
    } else {
        seq![]
    }) + packet_steps(meta)
}

/// The types of variables at the start.
pub open spec fn entry_type(init_r1: bool, v: u64) -> TypeSet {
    if v == var_registry::reg_var(DataKind::Types, 10).id {
        TypeSet::just(TypeEncoding::TStack)
    } else if init_r1 && v == var_registry::reg_var(DataKind::Types, 1).id {
        TypeSet::just(TypeEncoding::TCtx)
    } else {
        TypeSet::full()
    }
}

/// The range of descriptor numbers in an interval, where there are few.
pub open spec fn fd_range(iv: Interval) -> Option<(int, int)> {
    match (iv.lb, iv.ub, iv.ub.sub_spec(iv.lb)) {
        (ExtendedNumber::Finite(l), ExtendedNumber::Finite(u), ExtendedNumber::Finite(size)) =>
            if i64::MIN <= l@ <= i64::MAX && i64::MIN <= u@ <= i64::MAX && size@ < 32 {
                Some((number::wrap_signed(l@, 32), number::wrap_signed(u@, 32)))
            } else {
                None
            },
        _ => None,
    }
}

/// Every map of a range has a type.
pub open spec fn all_of_type(p: &EbpfPlatform, start: int, end: int, t: u32) -> bool {
    start <= end && forall|fd: int| start <= fd <= end ==> (#[trigger] p.map_from(fd, 0)) is Some && p.map_from(fd, 0)->Some_0.map_type == t
}

/// The inner map of a range: that of its first map, where the types of the others equal its number.
pub open spec fn inner_map(p: &EbpfPlatform, start: int, end: int, inner: u32) -> bool {
    &&& start <= end
    &&& forall|fd: int| start <= fd <= end ==> (#[trigger] p.map_from(fd, 0)) is Some
    &&& p.map_from(start, 0)->Some_0.inner_map_fd as u32 == inner
    &&& forall|fd: int| start < fd <= end ==> (#[trigger] p.map_from(fd, 0))->Some_0.map_type == inner
}

/// The type of the maps in an interval of descriptor numbers.
pub open spec fn type_in(p: &EbpfPlatform, iv: Interval, t: u32) -> bool {
    fd_range(iv) is Some && all_of_type(p, fd_range(iv)->Some_0.0, fd_range(iv)->Some_0.1, t)
}

/// The inner map of the maps in an interval of descriptor numbers.
pub open spec fn inner_in(p: &EbpfPlatform, iv: Interval, inner: u32) -> bool {
    fd_range(iv) is Some && inner_map(p, fd_range(iv)->Some_0.0, fd_range(iv)->Some_0.1, inner)
}

/// Numbers that maps have.
#[derive(Clone, Copy, PartialEq, Eq, Structural)]
pub enum MapField {
    KeySize,
    ValueSize,
    MaxEntries,
}

/// A number of a map.
pub open spec fn field_of(m: EbpfMapDescriptor, f: MapField) -> int {
    match f {
        MapField::KeySize => m.key_size as int,
        MapField::ValueSize => m.value_size as int,
        MapField::MaxEntries => m.max_entries as int,
    }
}

fn get_field(m: &EbpfMapDescriptor, f: MapField) -> (r: i64)
    ensures r == field_of(*m, f),
{
    match f {
        MapField::KeySize => m.key_size as i64,
        MapField::ValueSize => m.value_size as i64,
        MapField::MaxEntries => m.max_entries as i64,
    }
}

/// The least interval that holds a number of the `n` maps from a descriptor number on; everything
/// where one of them is not known.
pub open spec fn field_hull(p: &EbpfPlatform, f: MapField, start: int, n: nat) -> Interval
    decreases n,
{
    if n == 0 {
        Interval::empty()
    } else if field_hull(p, f, start, (n - 1) as nat).is_top_spec() && n > 1 {
        Interval::all()
    } else {
        match p.map_from(start + n - 1, 0) {
            Some(m) => field_hull(p, f, start, (n - 1) as nat).join_spec(Interval::point(Number { n: field_of(m, f) as i128 })),
            None => Interval::all(),
        }
    }
}

/// The interval of a number of the maps in an interval of descriptor numbers.
pub open spec fn field_range(p: &EbpfPlatform, f: MapField, iv: Interval) -> Interval {
    match fd_range(iv) {
        Some((start, end)) => field_hull(p, f, start, (if start <= end { end - start + 1 } else { 0 }) as nat),
        None => Interval::all(),
    }
}

/// Constraints read from text.
pub struct ParsedConstraints {
    pub type_equalities: Vec<(Variable, Variable)>,
    pub type_restrictions: Vec<(Variable, TypeSet)>,
    pub value_csts: Vec<LinearConstraint>,
    pub numeric_ranges: Vec<(i32, i32)>,
}

impl EbpfDomain {
    pub open spec fn wf(&self) -> bool {
        self.state.wf() && self.stack.wf()
    }

    /// The numeric state.
    pub open spec fn num(&self) -> Num {
        self.state.num()
    }

    /// A state of which nothing is known.
    pub fn new(runtime: &EbpfRuntimeConfig) -> (r: Self)
        requires runtime.valid(),
        ensures
            r.wf(),
            r.num() == Some(ZEdges::empty()),
            r.state.types.state is Some,
            forall|v: u64| !(#[trigger] r.state.types.s().known(v)),
            r.stack.bits() == Seq::new(runtime.stack_size() as nat, |i: int| true),
            r.stack.map().total() == runtime.stack_size(),
            forall|k: DataKind, c: Cell| !(#[trigger] r.stack.map().has(k, c)),
    {
        proof { runtime.stack_size_fits(); }
        EbpfDomain { state: TypeToNumDomain::new(), stack: ArrayDomain::new(runtime.total_stack_size()) }
    }

    pub fn from_parts(state: TypeToNumDomain, stack: ArrayDomain) -> (r: Self)
        ensures r == (EbpfDomain { state, stack }),
    {
        EbpfDomain { state, stack }
    }

    pub fn top(runtime: &EbpfRuntimeConfig) -> (r: Self)
        requires runtime.valid(),
        ensures
            r.wf(),
            r.num() == Some(ZEdges::empty()),
            r.state.types.state is Some,
            forall|v: u64| !(#[trigger] r.state.types.s().known(v)),
            r.stack.bits() == Seq::new(runtime.stack_size() as nat, |i: int| true),
            r.stack.map().total() == runtime.stack_size(),
            forall|k: DataKind, c: Cell| !(#[trigger] r.stack.map().has(k, c)),
    {
        let mut dom = Self::new(runtime);
        dom.set_to_top();
        dom
    }

    pub fn bottom(runtime: &EbpfRuntimeConfig) -> (r: Self)
        requires runtime.valid(),
        ensures
            r.wf(),
            r.num() is None,
            r.state.types.state is Some,
            forall|v: u64| !(#[trigger] r.state.types.s().known(v)),
            r.stack.bits() == Seq::new(runtime.stack_size() as nat, |i: int| true),
            r.stack.map().total() == runtime.stack_size(),
            forall|k: DataKind, c: Cell| !(#[trigger] r.stack.map().has(k, c)),
    {
        let mut dom = Self::new(runtime);
        dom.set_to_bottom();
        dom
    }

    pub fn set_to_top(&mut self)
        requires old(self).wf(),
        ensures
            final(self).wf(),
            final(self).num() == Some(ZEdges::empty()),
            final(self).state.types.state is Some,
            forall|v: u64| !(#[trigger] final(self).state.types.s().known(v)),
            final(self).stack.bits() == Seq::new(old(self).stack.bits().len(), |i: int| true),
            final(self).stack.map() == old(self).stack.map(),
    {
        self.state.set_to_top();
        self.stack.set_to_top();
    }

    pub fn set_to_bottom(&mut self)
        requires old(self).wf(),
        ensures final(self).wf(), final(self).num() is None, final(self).stack == old(self).stack, final(self).state.types == old(self).state.types,
    {
        self.state.set_to_bottom();
    }

    pub fn is_bottom(&self) -> (r: bool)
        ensures r == (self.num() is None),
    {
        self.state.is_bottom()
    }

    pub fn is_top(&self) -> (r: bool)
        requires self.wf(),
        ensures r == (self.num() == Some(ZEdges::empty()) && forall|i: int| 0 <= i < self.stack.bits().len() ==> #[trigger] self.stack.bits()[i]),
    {
        self.state.is_top() && self.stack.is_top()
    }

    /// A copy of the state.
    pub fn copy(&self) -> (r: Self)
        requires self.wf(),
        ensures
            r.wf(),
            r.state.same(&self.state),
            self.num() is Some ==> r.state.values.held() == self.state.values.held(),
            same_stack(&self.stack, &r.stack),
    {
        EbpfDomain { state: self.state.copy(), stack: self.stack.copy() }
    }

    /// The comparison of two states: on the stack of the first no byte may be something else that is
    /// a number on the other, and its types and values are included.
    pub open spec fn included(&self, other: &EbpfDomain, before: RegistryView, after: RegistryView, r: bool) -> bool {
        if forall|i: int| 0 <= i < self.stack.bits().len() && #[trigger] self.stack.bits()[i] ==> other.stack.bits()[i] {
            &&& self.num() is None ==> r
            &&& self.num() is Some && other.num() is None ==> !r
            &&& self.num() is Some && other.num() is Some ==> exists|vars: Seq<Variable>|
                    #[trigger] rcp::included_up_to(&self.state, &other.state, before, after, vars, r)
        } else {
            !r
        }
    }

    /// A state lies in itself.
    pub proof fn inclusion_is_reflexive(&self, before: RegistryView, after: RegistryView, r: bool)
        requires self.wf(), self.included(self, before, after, r),
        ensures r,
    {
        if self.num() is Some {
            let vars = choose|vars: Seq<Variable>| #[trigger] rcp::included_up_to(&self.state, &self.state, before, after, vars, r);
            rcp::inclusion_is_reflexive(&self.state, before, after, vars, r);
        }
    }

    pub fn is_included_in(&self, other: &EbpfDomain, registry: &mut VariableRegistry) -> (r: bool)
        requires self.wf(), other.wf(), old(registry)@.wf(), self.stack.bits().len() == other.stack.bits().len(),
        ensures
            final(registry)@.wf(),
            final(registry)@.extends(old(registry)@),
            self.included(other, old(registry)@, final(registry)@, r),
    {
        proof { numeric_steps::extends_itself(registry@); }
        if !self.stack.is_included_in(&other.stack) {
            return false;
        }
        self.state.is_included_in(&other.state, registry)
    }

    pub fn join_assign(&mut self, other: &EbpfDomain, registry: &mut VariableRegistry)
        requires old(self).wf(), other.wf(), old(registry)@.wf(), old(self).stack.map().total() == other.stack.map().total(),
        ensures
            final(self).wf(),
            final(registry)@.wf(),
            final(registry)@.extends(old(registry)@),
            other.num() is None ==> *final(self) == *old(self),
            old(self).num() is None && other.num() is Some ==> final(self).state.same(&other.state) && same_stack(&other.stack, &final(self).stack),
            old(self).num() is Some && other.num() is Some ==> state_joined(&old(self).state, &other.state, old(registry)@, final(registry)@, &final(self).state)
                && stack_joined(&old(self).stack, &other.stack, &final(self).stack),
    {
        proof { numeric_steps::extends_itself(registry@); }
        if other.is_bottom() {
            return;
        }
        if self.is_bottom() {
            *self = other.copy();
            return;
        }
        self.stack.join_assign(&other.stack);
        self.state.join_assign(&other.state, registry);
    }

    pub fn join(&self, other: &EbpfDomain, registry: &mut VariableRegistry) -> (r: EbpfDomain)
        requires self.wf(), other.wf(), old(registry)@.wf(), self.stack.map().total() == other.stack.map().total(),
        ensures
            r.wf(),
            final(registry)@.wf(),
            final(registry)@.extends(old(registry)@),
            other.num() is None ==> r.state.same(&self.state) && same_stack(&self.stack, &r.stack),
            self.num() is None && other.num() is Some ==> r.state.same(&other.state) && same_stack(&other.stack, &r.stack),
            self.num() is Some && other.num() is Some ==> exists|c: EbpfDomain| c.state.same(&self.state) && same_stack(&self.stack, &c.stack)
                && #[trigger] state_joined(&c.state, &other.state, old(registry)@, final(registry)@, &r.state) && stack_joined(&c.stack, &other.stack, &r.stack),
    {
        proof { numeric_steps::extends_itself(registry@); }
        if other.is_bottom() {
            return self.copy();
        }
        if self.is_bottom() {
            return other.copy();
        }
        let mut res = self.copy();
        let ghost c = res;
        res.join_assign(other, registry);
        assert(state_joined(&c.state, &other.state, old(registry)@, registry@, &res.state));
        res
    }

    /// What both states say. Where they contradict each other the result has an empty stack.
    pub fn meet(&self, other: &EbpfDomain) -> (r: EbpfDomain)
        requires self.wf(), other.wf(), self.stack.map().total() == other.stack.map().total(),
        ensures
            r.wf(),
            is_meet(self, other, &r),
    {
        let state = self.state.meet(&other.state);
        if state.is_bottom() {
            let mut fresh = TypeToNumDomain::new();
            fresh.set_to_bottom();
            proof { self.stack.parts_are_wf(); }
            return EbpfDomain { state: fresh, stack: ArrayDomain::new(self.stack.total_stack_size()) };
        }
        EbpfDomain { state, stack: self.stack.meet(&other.stack) }
    }

    /// The widening of two states, within the constant limits where they are asked for.
    pub fn widen(&self, other: &EbpfDomain, to_constants: bool, ctx: &DomainContext, registry: &mut VariableRegistry) -> (r: EbpfDomain)
        requires
            self.wf(),
            other.wf(),
            old(registry)@.ready(),
            ctx.runtime.valid(),
            self.stack.map().total() == other.stack.map().total(),
            self.stack.map().total() == ctx.runtime.stack_size(),
        ensures
            r.wf(),
            final(registry)@.ready(),
            final(registry)@.extends(old(registry)@),
            !to_constants ==> widened(self, other, old(registry)@, final(registry)@, &r),
            to_constants ==> exists|w: EbpfDomain, l: EbpfDomain, mid: RegistryView| #[trigger] widened(self, other, old(registry)@, mid, &w)
                && #[trigger] is_limits(ctx, final(registry)@, &l) && is_meet(&w, &l, &r) && w.wf() && l.wf(),
    {
        let ghost r0 = registry@;
        let res = EbpfDomain { state: self.state.widen(&other.state, registry), stack: self.stack.widen(&other.stack) };
        proof { registry@.readiness_lasts(r0); }
        let ghost mid = registry@;
        assert(widened(self, other, r0, mid, &res));
        if to_constants {
            let limits = Self::calculate_constant_limits(ctx, registry);
            proof {
                registry@.extending_is_transitive(mid, r0);
                assert(is_limits(ctx, registry@, &limits));
            }
            res.meet(&limits)
        } else {
            res
        }
    }

    pub fn narrow(&self, other: &EbpfDomain) -> (r: EbpfDomain)
        requires self.wf(), other.wf(), self.stack.map().total() == other.stack.map().total(),
        ensures
            r.wf(),
            r.num() is Some <==> self.num() is Some && other.num() is Some,
            r.num() is Some ==> r.state.values.z() == (if self.state.values.z() == ZEdges::empty() { other.state.values.z() } else { self.state.values.z() }),
            r.state.types.state is Some ==> self.state.types.state is Some && other.state.types.state is Some
                && type_domain::met(self.state.types.s(), other.state.types.s(), r.state.types.s()),
            r.state.types.state is None && self.state.types.state is Some && other.state.types.state is Some ==>
                forall|typing: type_domain::Typing| !(#[trigger] type_domain::admits(self.state.types.s(), typing) && type_domain::admits(other.state.types.s(), typing)),
            stack_met(&self.stack, &other.stack, &r.stack),
    {
        EbpfDomain { state: self.state.narrow(&other.state), stack: self.stack.meet(&other.stack) }
    }

    /// Adds a constraint on values.
    pub fn add_value_constraint(&mut self, cst: &LinearConstraint, registry: &VariableRegistry)
        requires old(self).wf(), zone_domain::knows_terms(registry@, cst.expression.terms@),
        ensures
            final(self).wf(),
            final(self).stack == old(self).stack,
            final(self).state.types == old(self).state.types,
            numeric_steps::step(old(self).num(), registry@, Step::Say(numeric_steps::lin_of(cst)), final(self).num()),
    {
        let ghost a = self.num();
        self.state.values.add_constraint(cst, registry);
        cst.expression.order_holds();
        proof { numeric_steps::step_say(a, registry@, *cst, self.num()); }
    }

    /// Forgets a value.
    pub fn havoc(&mut self, var: Variable)
        requires old(self).wf(),
        ensures
            final(self).wf(),
            final(self).stack == old(self).stack,
            final(self).state.types == old(self).state.types,
            final(self).num() is Some <==> old(self).num() is Some,
            final(self).num() is Some ==> final(self).state.values.z() == zone_model::zwithout(old(self).state.values.z(), zone_model::node(var.id)),
    {
        self.state.values.havoc(var);
    }

    /// The interval of a register's map descriptor number.
    pub open spec fn fds(&self, reg: Reg) -> Interval {
        self.state.values.interval(rcp::id_of(DataKind::MapFds, reg))
    }

    fn get_map_fd_range(&self, map_fd_reg: &Reg, registry: &VariableRegistry) -> (r: Option<(i32, i32)>)
        requires self.wf(), registry@.ready(), map_fd_reg.ok(),
        ensures
            r is Some <==> fd_range(self.fds(*map_fd_reg)) is Some,
            r matches Some(p) ==> fd_range(self.fds(*map_fd_reg)) == Some((p.0 as int, p.1 as int)),
    {
        let pack = reg_pack(map_fd_reg, registry);
        let iv = self.state.values.eval_interval_var(pack.map_fd, registry);
        let lb: i64 = match iv.lb().number() {
            Some(n) => match n.to_i64() { Some(k) => k, None => { return None; } },
            None => { return None; }
        };
        let ub: i64 = match iv.ub().number() {
            Some(n) => match n.to_i64() { Some(k) => k, None => { return None; } },
            None => { return None; }
        };
        match iv.finite_size() {
            Some(size) => {
                if Number::of(32).le(size) {
                    return None;
                }
            }
            None => { return None; }
        }
        Some((array_domain::narrow_to_i32(lb), array_domain::narrow_to_i32(ub)))
    }

    /// The type of the maps that a register may describe, where it is the same for all.
    pub fn get_map_type(&self, map_fd_reg: &Reg, ctx: &DomainContext, registry: &VariableRegistry) -> (r: Option<u32>)
        requires self.wf(), registry@.ready(), map_fd_reg.ok(),
        ensures
            forall|t: u32| r == Some(t) <==> #[trigger] type_in(&ctx.platform, self.fds(*map_fd_reg), t),
    {
        let (start, end) = match self.get_map_fd_range(map_fd_reg, registry) {
            Some(p) => p,
            None => { return None; }
        };
        let mut result: Option<u32> = None;
        let mut fd: i64 = start as i64;
        let ghost p = ctx.platform;
        while fd <= end as i64
            invariant
                start <= fd,
                fd <= end + 1 || fd == start,
                p == ctx.platform,
                fd_range(self.fds(*map_fd_reg)) == Some((start as int, end as int)),
                result is None <==> fd == start,
                result matches Some(t) ==> forall|k: int| start <= k < fd ==> (#[trigger] p.map_from(k, 0)) is Some && p.map_from(k, 0)->Some_0.map_type == t,
            decreases end + 1 - fd,
        {
            match ctx.platform.get_map_descriptor(fd as i32) {
                None => {
                    assert forall|t: u32| !(#[trigger] all_of_type(&p, start as int, end as int, t)) by { assert(p.map_from(fd as int, 0) is None); }
                    return None;
                }
                Some(m) => {
                    match result {
                        None => { result = Some(m.map_type); }
                        Some(t) => {
                            if t != m.map_type {
                                assert forall|x: u32| !(#[trigger] all_of_type(&p, start as int, end as int, x)) by {
                                    assert(p.map_from(fd as int, 0)->Some_0.map_type != p.map_from(start as int, 0)->Some_0.map_type);
                                }
                                return None;
                            }
                        }
                    }
                }
            }
            fd = fd + 1;
        }
        proof {
            match result {
                Some(t) => {
                    assert(all_of_type(&p, start as int, end as int, t));
                    assert forall|x: u32| #[trigger] all_of_type(&p, start as int, end as int, x) implies x == t by { assert(p.map_from(start as int, 0)->Some_0.map_type == x); }
                }
                None => {}
            }
        }
        result
    }

    /// The inner map of the maps that a register may describe.
    pub fn get_map_inner_map_fd(&self, map_fd_reg: &Reg, ctx: &DomainContext, registry: &VariableRegistry) -> (r: Option<u32>)
        requires self.wf(), registry@.ready(), map_fd_reg.ok(),
        ensures
            forall|t: u32| r == Some(t) <==> #[trigger] inner_in(&ctx.platform, self.fds(*map_fd_reg), t),
    {
        let (start, end) = match self.get_map_fd_range(map_fd_reg, registry) {
            Some(p) => p,
            None => { return None; }
        };
        let mut result: Option<u32> = None;
        let mut fd: i64 = start as i64;
        let ghost p = ctx.platform;
        while fd <= end as i64
            invariant
                start <= fd,
                fd <= end + 1 || fd == start,
                p == ctx.platform,
                fd_range(self.fds(*map_fd_reg)) == Some((start as int, end as int)),
                result is None <==> fd == start,
                result matches Some(t) ==> p.map_from(start as int, 0)->Some_0.inner_map_fd as u32 == t
                    && (forall|k: int| start <= k < fd ==> (#[trigger] p.map_from(k, 0)) is Some)
                    && (forall|k: int| start < k < fd ==> (#[trigger] p.map_from(k, 0))->Some_0.map_type == t),
            decreases end + 1 - fd,
        {
            match ctx.platform.get_map_descriptor(fd as i32) {
                None => {
                    assert forall|t: u32| !(#[trigger] inner_map(&p, start as int, end as int, t)) by { assert(p.map_from(fd as int, 0) is None); }
                    return None;
                }
                Some(m) => {
                    match result {
                        None => { result = Some(m.inner_map_fd as u32); }
                        Some(t) => {
                            if t != m.map_type {
                                assert forall|x: u32| !(#[trigger] inner_map(&p, start as int, end as int, x)) by {
                                    assert(p.map_from(fd as int, 0)->Some_0.map_type == m.map_type);
                                }
                                return None;
                            }
                        }
                    }
                }
            }
            fd = fd + 1;
        }
        proof {
            match result {
                Some(t) => { assert(inner_map(&p, start as int, end as int, t)); }
                None => {}
            }
        }
        result
    }

    fn get_map_field_range(&self, map_fd_reg: &Reg, field: MapField, ctx: &DomainContext, registry: &VariableRegistry) -> (r: Interval)
        requires self.wf(), registry@.ready(), map_fd_reg.ok(),
        ensures r == field_range(&ctx.platform, field, self.fds(*map_fd_reg)),
    {
        let (start, end) = match self.get_map_fd_range(map_fd_reg, registry) {
            Some(p) => p,
            None => { return Interval::top(); }
        };
        let mut result = Interval::bottom();
        let mut fd: i64 = start as i64;
        let ghost p = ctx.platform;
        let ghost count = (if start <= end { end - start + 1 } else { 0 }) as nat;
        while fd <= end as i64
            invariant
                start <= fd,
                fd <= end + 1 || fd == start,
                count == (if start <= end { end - start + 1 } else { 0 }),
                fd_range(self.fds(*map_fd_reg)) == Some((start as int, end as int)),
                p == ctx.platform,
                result == field_hull(&p, field, start as int, (fd - start) as nat),
                fd > start ==> !result.is_top_spec(),
            decreases end + 1 - fd,
        {
            match ctx.platform.get_map_descriptor(fd as i32) {
                None => {
                    proof {
                        assert(field_hull(&p, field, start as int, (fd - start + 1) as nat) == Interval::all());
                        lemma_hull_top(&p, field, start as int, (fd - start + 1) as nat, count);
                    }
                    return Interval::top();
                }
                Some(m) => {
                    let v: i64 = get_field(&m, field);
                    result = result.join(&Interval::from_i64(v));
                }
            }
            fd = fd + 1;
        }
        result
    }

    /// The sizes of keys of the maps that a register may describe.
    pub fn get_map_key_size(&self, map_fd_reg: &Reg, ctx: &DomainContext, registry: &VariableRegistry) -> (r: Interval)
        requires self.wf(), registry@.ready(), map_fd_reg.ok(),
        ensures r == field_range(&ctx.platform, MapField::KeySize, self.fds(*map_fd_reg)),
    {
        self.get_map_field_range(map_fd_reg, MapField::KeySize, ctx, registry)
    }

    /// The sizes of values of the maps that a register may describe.
    pub fn get_map_value_size(&self, map_fd_reg: &Reg, ctx: &DomainContext, registry: &VariableRegistry) -> (r: Interval)
        requires self.wf(), registry@.ready(), map_fd_reg.ok(),
        ensures r == field_range(&ctx.platform, MapField::ValueSize, self.fds(*map_fd_reg)),
    {
        self.get_map_field_range(map_fd_reg, MapField::ValueSize, ctx, registry)
    }

    /// The numbers of entries of the maps that a register may describe.
    pub fn get_map_max_entries(&self, map_fd_reg: &Reg, ctx: &DomainContext, registry: &VariableRegistry) -> (r: Interval)
        requires self.wf(), registry@.ready(), map_fd_reg.ok(),
        ensures r == field_range(&ctx.platform, MapField::MaxEntries, self.fds(*map_fd_reg)),
    {
        self.get_map_field_range(map_fd_reg, MapField::MaxEntries, ctx, registry)
    }

    /// The largest upper bound of a loop counter, or zero.
    pub fn get_loop_count_upper_bound(&self, registry: &VariableRegistry) -> (r: ExtendedNumber)
        requires self.wf(),
        ensures
            ExtendedNumber::fin(0).le_spec(r),
            forall|v: Variable| registry@.knows(v) && #[trigger] registry@.meta(v).is_loop_counter ==> self.state.values.interval(v.id).ub.le_spec(r),
            r == ExtendedNumber::fin(0) || exists|v: Variable| registry@.knows(v) && #[trigger] registry@.meta(v).is_loop_counter && r == self.state.values.interval(v.id).ub,
    {
        let mut ub: ExtendedNumber = ExtendedNumber::Finite(Number::of(0));
        let counters = registry.get_loop_counters();
        let mut i: usize = 0;
        while i < counters.len()
            invariant
                i <= counters.len(),
                self.wf(),
                lists_counters(registry@, counters@),
                ExtendedNumber::fin(0).le_spec(ub),
                forall|j: int| 0 <= j < i ==> self.state.values.interval((#[trigger] counters@[j]).id).ub.le_spec(ub),
                ub == ExtendedNumber::fin(0) || exists|v: Variable| registry@.knows(v) && #[trigger] registry@.meta(v).is_loop_counter && ub == self.state.values.interval(v.id).ub,
            decreases counters.len() - i,
        {
            let v: Variable = counters[i];
            let iv = self.state.values.eval_interval_var(v, registry);
            let found: ExtendedNumber = *iv.ub();
            assert(registry@.meta(v).is_loop_counter);
            if ub.lt(&found) {
                ub = found;
            }
            i = i + 1;
        }
        proof {
            assert forall|v: Variable| registry@.knows(v) && #[trigger] registry@.meta(v).is_loop_counter implies self.state.values.interval(v.id).ub.le_spec(ub) by {
                assert(counters@.contains(v));
                let j = choose|j: int| 0 <= j < counters@.len() && counters@[j] == v;
                assert(self.state.values.interval(counters@[j].id).ub.le_spec(ub));
            }
        }
        ub
    }

    /// The interval of the returned value.
    pub fn get_r0(&self, registry: &VariableRegistry) -> (r: Interval)
        requires self.wf(), registry@.ready(),
        ensures r == self.state.values.interval(rcp::id_of(DataKind::Svalues, Reg { v: 0 })),
    {
        let pack = reg_pack(&Reg { v: R0_RETURN_VALUE }, registry);
        self.state.values.eval_interval_var(pack.svalue, registry)
    }

    /// The stack offset of a register that is known to point to the stack, where the offset is
    /// known too and fits a signed 64-bit integer.
    pub fn get_stack_offset(&self, reg: &Reg, registry: &mut VariableRegistry) -> (r: Option<i64>)
        requires self.wf(), old(registry)@.ready(), reg.ok(),
        ensures
            final(registry)@ == old(registry)@,
            !(self.state.types.state is Some && self.state.types.s().types_of(rcp::type_id(*reg)).is_just(TypeEncoding::TStack)) ==> r is None,
            self.state.types.state is Some && self.state.types.s().types_of(rcp::type_id(*reg)).is_just(TypeEncoding::TStack) ==>
                match self.state.values.interval(rcp::id_of(DataKind::StackOffsets, *reg)).singleton_spec() {
                    Some(n) => (r is Some <==> i64::MIN <= n@ <= i64::MAX) && (r matches Some(k) ==> k == n@),
                    None => r is None,
                },
    {
        proof {
            registry@.register_variable(DataKind::Types, reg.v as int);
            registry@.register_is_there(DataKind::Types, reg.v as int, var_registry::kind_meta(DataKind::Types, false));
        }
        let t = self.state.types.get_type(reg, registry);
        let pack = reg_pack(reg, registry);
        let iv = self.state.values.eval_interval_var(pack.stack_offset, registry);
        let ghost ts = self.state.types.s().types_of(rcp::type_id(*reg));
        let is_stack: bool = match t {
            Some(te) => te == TypeEncoding::TStack,
            None => false,
        };
        proof {
            assert(self.state.types.s().types_of(type_domain::type_var_of(registry@, *reg).id) == ts);
            if let Some(te) = t {
                assert(ts.has(te));
                assert(is_stack == (te == TypeEncoding::TStack));
                if te == TypeEncoding::TStack { assert(ts.is_just(TypeEncoding::TStack)); } else { assert(!ts.is_just(TypeEncoding::TStack)); }
            } else {
                if self.state.types.state is Some { assert(!ts.is_just(TypeEncoding::TStack)); }
            }
            assert(is_stack == (self.state.types.state is Some && ts.is_just(TypeEncoding::TStack)));
        }
        if !is_stack {
            return None;
        }
        match iv.singleton() {
            Some(n) => n.to_i64(),
            None => None,
        }
    }

    /// The state as lines of text.
    pub fn to_set(&self, reg: &VariableRegistry) -> (r: StringInvariant)
        requires self.wf(), self.printable(reg@),
        ensures
            r.content() is Some,
            forall|l: Seq<char>| #[trigger] r.has(l) <==> (self.num() is Some && (zone_text::zone_line(self.state.values.z(), reg@, l)
                || (self.state.types.state is Some && exists|v: u64| #[trigger] type_domain::type_line(self.state.types.s(), reg@, v, l))))
                || exists|k: int| 0 <= k < bitset_domain::runs_from(self.stack.bits(), 0).len()
                    && l == bitset_domain::run_line(#[trigger] bitset_domain::runs_from(self.stack.bits(), 0)[k]),
    {
        self.state.to_set(reg).union(&self.stack.to_set())
    }

    /// The variables of the state are registered.
    pub open spec fn printable(&self, reg: RegistryView) -> bool {
        &&& self.state.types.state matches Some(s) ==> forall|v: u64| #[trigger] s.known(v) ==> v < reg.size()
        &&& self.state.values.dom matches Some(d) ==> forall|k: u64| #[trigger] d.dom.held().contains(k) ==> k < reg.size()
    }

    /// Whether the variables of the state are registered.
    pub fn is_printable(&self, reg: &VariableRegistry) -> (r: bool)
        requires self.wf(),
        ensures r == self.printable(reg@),
    {
        let mut named: bool = true;
        if let Some(s) = &self.state.types.state {
            let vars = s.variables();
            named = reg.knows_all(&vars);
            proof {
                if named {
                    assert forall|v: u64| #[trigger] s.known(v) implies v < reg@.size() by {
                        let i = choose|i: int| 0 <= i < vars@.len() && vars@[i] == Variable { id: v };
                        assert(reg@.knows(vars@[i]));
                    }
                } else {
                    let i = choose|i: int| 0 <= i < vars.len() && !reg@.knows(#[trigger] vars@[i]);
                    assert(vars@.contains(Variable { id: vars@[i].id }));
                    assert(s.known(vars@[i].id));
                }
            }
        }
        if let Some(d) = &self.state.values.dom {
            let vars = d.dom.held_variables();
            let held: bool = reg.knows_all(&vars);
            proof {
                if held {
                    assert forall|k: u64| #[trigger] d.dom.held().contains(k) implies k < reg@.size() by {
                        let i = choose|i: int| 0 <= i < vars@.len() && vars@[i] == Variable { id: k };
                        assert(reg@.knows(vars@[i]));
                    }
                } else {
                    let i = choose|i: int| 0 <= i < vars.len() && !reg@.knows(#[trigger] vars@[i]);
                    assert(vars@.contains(Variable { id: vars@[i].id }));
                    assert(d.dom.held().contains(vars@[i].id));
                }
            }
            named = named && held;
        }
        named
    }

    /// The text of the state: the types, the values and the stack.
    pub fn to_text(&self, reg: &VariableRegistry) -> (r: String)
        requires self.wf(), self.printable(reg@),
        ensures
            self.num() is None ==> r@ == "_|_"@,
            self.num() is Some ==> exists|types: StringInvariant, values: StringInvariant|
                #![trigger types.text(), values.text()]
                r@ == types.text() + values.text() + "\nStack: "@ + stack_text(&self.stack)
                && (forall|l: Seq<char>| #[trigger] values.has(l) <==> zone_text::zone_line(self.state.values.z(), reg@, l))
                && (forall|l: Seq<char>| #[trigger] types.has(l) <==> self.state.types.state is Some && exists|v: u64| #[trigger] type_domain::type_line(self.state.types.s(), reg@, v, l)),
    {
        if self.is_bottom() {
            return String::from_str("_|_");
        }
        let types = self.state.types.to_set(reg);
        let values = self.state.values.to_set(reg);
        self.joined_text(&types, &values)
    }

    fn joined_text(&self, types: &StringInvariant, values: &StringInvariant) -> (r: String)
        requires self.wf(),
        ensures r@ == types.text() + values.text() + "\nStack: "@ + stack_text(&self.stack),
    {
        let mut s = String::new();
        s.append(types.to_string().as_str());
        s.append(values.to_string().as_str());
        s.append("\nStack: ");
        s.append(self.stack.to_string().as_str());
        assert(s@ =~= types.text() + values.text() + "\nStack: "@ + stack_text(&self.stack));
        s
    }

    /// The text of the state with only those lines of types and values that are relevant.
    pub fn to_text_filtered<F: Fn(&str) -> bool + Copy>(&self, reg: &VariableRegistry, relevant: F) -> (r: String)
        requires self.wf(), self.printable(reg@), forall|s: &str| #[trigger] relevant.requires((s,)),
        ensures
            self.num() is None ==> r@ == "_|_"@,
            self.num() is Some ==> exists|types: StringInvariant, values: StringInvariant|
                #![trigger types.text(), values.text()]
                r@ == types.text() + values.text() + "\nStack: "@ + stack_text(&self.stack)
                && (forall|l: Seq<char>| #[trigger] values.has(l) ==> zone_text::zone_line(self.state.values.z(), reg@, l))
                && (forall|l: Seq<char>| zone_text::zone_line(self.state.values.z(), reg@, l) ==> #[trigger] crate::string_constraints::decided(relevant, l, values.has(l)))
                && (forall|l: Seq<char>| #[trigger] types.has(l) ==> self.state.types.state is Some && exists|v: u64| #[trigger] type_domain::type_line(self.state.types.s(), reg@, v, l))
                && (forall|l: Seq<char>, v: u64| self.state.types.state is Some && #[trigger] type_domain::type_line(self.state.types.s(), reg@, v, l)
                    ==> crate::string_constraints::decided(relevant, l, types.has(l))),
    {
        if self.is_bottom() {
            return String::from_str("_|_");
        }
        let all_types = self.state.types.to_set(reg);
        let all_values = self.state.values.to_set(reg);
        let ghost t0 = all_types;
        let ghost v0 = all_values;
        let types = all_types.retain(relevant);
        let values = all_values.retain(relevant);
        proof {
            assert forall|l: Seq<char>| zone_text::zone_line(self.state.values.z(), reg@, l) implies #[trigger] crate::string_constraints::decided(relevant, l, values.has(l)) by { assert(v0.has(l)); }
            assert forall|l: Seq<char>| #[trigger] values.has(l) implies zone_text::zone_line(self.state.values.z(), reg@, l) by { assert(v0.has(l)); }
            assert forall|l: Seq<char>| #[trigger] types.has(l) implies self.state.types.state is Some && exists|v: u64| #[trigger] type_domain::type_line(self.state.types.s(), reg@, v, l) by { assert(t0.has(l)); }
            assert forall|l: Seq<char>, v: u64| self.state.types.state is Some && #[trigger] type_domain::type_line(self.state.types.s(), reg@, v, l)
                implies crate::string_constraints::decided(relevant, l, types.has(l)) by { assert(t0.has(l)); }
        }
        self.joined_text(&types, &values)
    }

    /// A short text: placeholders for types and values, and the stack.
    pub fn to_string(&self) -> (r: String)
        requires self.wf(),
        ensures
            r@ == (if self.num() is None { "_|_"@ } else {
                (if self.state.types.state is None { "_|_"@ } else { "TypeDomain"@ }) + "<finite_domain>"@ + "\nStack: "@ + stack_text(&self.stack)
            }),
    {
        if self.is_bottom() {
            return String::from_str("_|_");
        }
        let mut s = self.state.to_string();
        s.append("\nStack: ");
        s.append(self.stack.to_string().as_str());
        s
    }

    /// The limits that widening keeps to.
    pub fn calculate_constant_limits(ctx: &DomainContext, registry: &mut VariableRegistry) -> (r: EbpfDomain)
        requires old(registry)@.ready(), ctx.runtime.valid(),
        ensures
            r.wf(),
            final(registry)@ == old(registry)@,
            is_limits(ctx, final(registry)@, &r),
            r.stack.map().total() == ctx.runtime.stack_size(),
    {
        let mut inv = EbpfDomain::new(&ctx.runtime);
        let mut log = Log::new(&inv.state.values, registry);
        let total: i64 = ctx.runtime.total_stack_size() as i64;
        proof { registry@.packet_variables(); }
        let packet_size = registry.packet_size();
        let counters = registry.get_loop_counters();
        let bounded: bool = ctx.options.check_for_termination;
        let ghost stack = inv.stack;
        let ghost types = inv.state.types;
        let mut i: u8 = 0;
        while i <= 9
            invariant
                i <= 10,
                inv.wf(),
                inv.stack == stack,
                inv.state.types == types,
                registry@ == old(registry)@,
                registry@.ready(),
                registry@.knows(packet_size),
                packet_size.id == 183,
                bounded == ctx.options.check_for_termination,
                lists_counters(registry@, counters@),
                log.leads_to(&inv.state.values, registry@),
                log.start@ == Some(ZEdges::empty()),
                log.older@ == registry@,
                log.done@ == limit_steps(i as nat, total as int, counters@, bounded),
            decreases 10 - i,
        {
            let r = reg_pack(&Reg { v: i }, registry);
            let ghost before = log.done@;
            let values = &mut inv.state.values;
            numeric_ops::say_var_at_most(values, r.svalue, i32::MAX as i64, registry, &mut log);
            numeric_ops::say_var_at_least(values, r.svalue, i32::MIN as i64, registry, &mut log);
            numeric_ops::say_var_at_most(values, r.uvalue, u32::MAX as i64, registry, &mut log);
            numeric_ops::say_var_at_least(values, r.uvalue, 0, registry, &mut log);
            numeric_ops::say_var_at_most(values, r.stack_offset, total, registry, &mut log);
            numeric_ops::say_var_at_least(values, r.stack_offset, 0, registry, &mut log);
            numeric_ops::say_var_at_most_var(values, r.shared_offset, r.shared_region_size, registry, &mut log);
            numeric_ops::say_var_at_least(values, r.shared_offset, 0, registry, &mut log);
            numeric_ops::say_var_at_most_var(values, r.packet_offset, packet_size, registry, &mut log);
            numeric_ops::say_var_at_least(values, r.packet_offset, 0, registry, &mut log);
            let ghost fixed = log.done@;
            if bounded {
                let mut k: usize = 0;
                assert(fixed + counter_limits(r.svalue.id, counters@, 0) =~= fixed);
                while k < counters.len()
                    invariant
                        k <= counters.len(),
                        values.wf(),
                        registry@ == old(registry)@,
                        registry@.knows(r.svalue),
                        lists_counters(registry@, counters@),
                        log.leads_to(values, registry@),
                        log.start@ == Some(ZEdges::empty()),
                        log.older@ == registry@,
                        log.done@ == fixed + counter_limits(r.svalue.id, counters@, k as nat),
                    decreases counters.len() - k,
                {
                    let c: Variable = counters[k];
                    numeric_ops::say_var_at_most(values, c, i32::MAX as i64, registry, &mut log);
                    numeric_ops::say_var_at_least(values, c, 0, registry, &mut log);
                    numeric_ops::say_var_at_most_var(values, c, r.svalue, registry, &mut log);
                    assert(log.done@ =~= fixed + counter_limits(r.svalue.id, counters@, (k + 1) as nat));
                    k = k + 1;
                }
            }
            proof {
                assert(log.done@ =~= before + limits_of(i as int, total as int, counters@, bounded));
            }
            i = i + 1;
        }
        proof {
            assert(log.done@ == limit_steps(10, ctx.runtime.stack_size(), counters@, ctx.options.check_for_termination));
        }
        inv
    }

    /// What is known of a packet at the start.
    pub fn initialize_packet(&mut self, ctx: &DomainContext, registry: &mut VariableRegistry)
        requires old(self).wf(), old(registry)@.ready(), ctx.ok(),
        ensures
            final(self).wf(),
            final(registry)@ == old(registry)@,
            final(self).stack == old(self).stack,
            final(self).state.types == old(self).state.types,
            numeric_steps::performs(old(self).num(), old(registry)@, old(registry)@, packet_steps(ctx.layout().meta as int), final(self).num()),
    {
        let mut log = Log::new(&self.state.values, registry);
        proof { registry@.packet_variables(); }
        let packet_size = registry.packet_size();
        let meta_offset = registry.meta_offset();
        let values = &mut self.state.values;
        numeric_ops::forget(values, packet_size, registry, &mut log);
        numeric_ops::forget(values, meta_offset, registry, &mut log);
        numeric_ops::say_var_at_least(values, packet_size, 0, registry, &mut log);
        numeric_ops::say_var_below(values, packet_size, MAX_PACKET_SIZE as i64, registry, &mut log);
        let desc = ctx.descriptor();
        if desc.meta >= 0 {
            numeric_ops::say_var_at_most(values, meta_offset, 0, registry, &mut log);
            numeric_ops::say_var_at_least(values, meta_offset, -4098, registry, &mut log);
        } else {
            numeric_ops::number(values, meta_offset, 0, registry, &mut log);
        }
        assert(log.done@ =~= packet_steps(ctx.layout().meta as int));
    }

    /// The state at the start of a program.
    pub fn setup_entry(init_r1: bool, ctx: &DomainContext, registry: &mut VariableRegistry) -> (r: EbpfDomain)
        requires old(registry)@.ready(), ctx.ok(),
        ensures
            r.wf(),
            final(registry)@ == old(registry)@,
            r.state.types.state is Some,
            forall|v: u64| #[trigger] r.state.types.s().types_of(v) == entry_type(init_r1, v),
            numeric_steps::performs(Some(ZEdges::empty()), old(registry)@, old(registry)@,
                entry_steps(init_r1, ctx.runtime.stack_size(), ctx.layout().meta as int), r.num()),
            r.stack.bits() == Seq::new(ctx.runtime.stack_size() as nat, |i: int| true),
            r.stack.map().total() == ctx.runtime.stack_size(),
            forall|k: DataKind, c: Cell| !(#[trigger] r.stack.map().has(k, c)),
    {
        let total: i64 = ctx.runtime.total_stack_size() as i64;
        let mut inv = EbpfDomain::new(&ctx.runtime);
        let ghost t0 = inv.state.types.s();
        let mut log = Log::new(&inv.state.values, registry);
        let r10 = reg_pack(&Reg { v: R10_STACK_POINTER }, registry);
        numeric_ops::say_var_at_least(&mut inv.state.values, r10.svalue, total, registry, &mut log);
        numeric_ops::say_var_at_most(&mut inv.state.values, r10.svalue, PTR_MAX, registry, &mut log);
        numeric_ops::number(&mut inv.state.values, r10.stack_offset, total, registry, &mut log);
        inv.state.assign_type_encoding(&Reg { v: R10_STACK_POINTER }, TypeEncoding::TStack, registry);
        proof {
            assert forall|v: u64| #[trigger] t0.types_of(v) == TypeSet::full() by { t0.classes(v, v, v); assert(!t0.known(v)); }
        }
        if init_r1 {
            let r1 = reg_pack(&Reg { v: R1_ARG }, registry);
            numeric_ops::say_var_at_least(&mut inv.state.values, r1.svalue, 1, registry, &mut log);
            numeric_ops::say_var_at_most(&mut inv.state.values, r1.svalue, PTR_MAX, registry, &mut log);
            numeric_ops::number(&mut inv.state.values, r1.ctx_offset, 0, registry, &mut log);
            inv.state.assign_type_encoding(&Reg { v: R1_ARG }, TypeEncoding::TCtx, registry);
        }
        let ghost before = inv.num();
        inv.initialize_packet(ctx, registry);
        log.took_all(Ghost(packet_steps(ctx.layout().meta as int)), Ghost(registry@), Ghost(before), &inv.state.values, registry);
        assert(log.done@ =~= entry_steps(init_r1, ctx.runtime.stack_size(), ctx.layout().meta as int));
        inv
    }

    /// The state that some constraints describe, with or without what holds at the start.
    pub fn from_constraints(parsed: &ParsedConstraints, setup_constraints: bool, ctx: &DomainContext, registry: &mut VariableRegistry) -> (r: EbpfDomain)
        requires
            old(registry)@.ready(),
            ctx.ok(),
            forall|i: int| 0 <= i < parsed.value_csts@.len() ==> zone_domain::knows_terms(old(registry)@, (#[trigger] parsed.value_csts@[i]).expression.terms@),
        ensures
            r.wf(),
            final(registry)@ == old(registry)@,
            numeric_steps::performs(Some(ZEdges::empty()), old(registry)@, old(registry)@,
                (if setup_constraints { entry_steps(false, ctx.runtime.stack_size(), ctx.layout().meta as int) } else { seq![] }) + said(parsed.value_csts@), r.num()),
            r.stack.bits() == ranges_marked(Seq::new(ctx.runtime.stack_size() as nat, |i: int| true), parsed.numeric_ranges@, parsed.numeric_ranges@.len()),
            r.stack.map().total() == ctx.runtime.stack_size(),
            forall|k: DataKind, c: Cell| #[trigger] r.stack.map().has(k, c) <==> k is Svalues
                && in_ranges(parsed.numeric_ranges@, parsed.numeric_ranges@.len() as int, ctx.runtime.stack_size(), c),
            exists|start: TypeDomain, mid: TypeDomain| (forall|v: u64| start.state is Some && #[trigger] start.s().types_of(v) == (if setup_constraints { entry_type(false, v) } else { TypeSet::full() }))
                && #[trigger] all_unified(start, parsed.type_equalities@, mid) && #[trigger] all_restricted(mid, parsed.type_restrictions@, r.state.types),
    {
        let mut inv = if setup_constraints { EbpfDomain::setup_entry(false, ctx, registry) } else { EbpfDomain::new(&ctx.runtime) };
        proof {
            if !setup_constraints {
                numeric_steps::performs_nothing(inv.num(), registry@, registry@);
                assert forall|v: u64| #[trigger] inv.state.types.s().types_of(v) == TypeSet::full() by {
                    inv.state.types.s().classes(v, v, v);
                    assert(!inv.state.types.s().known(v));
                }
            }
        }
        let ghost first: Seq<Step> = if setup_constraints { entry_steps(false, ctx.runtime.stack_size(), ctx.layout().meta as int) } else { seq![] };
        let ghost start = inv.state.types;
        let ghost values0 = inv.state.values;
        let ghost bits0 = inv.stack.bits();
        let ghost stack0 = inv.stack;
        let ghost mut path: Seq<TypeDomain> = seq![start];
        let mut i: usize = 0;
        while i < parsed.type_equalities.len()
            invariant
                i <= parsed.type_equalities.len(),
                inv.wf(),
                inv.state.values == values0,
                inv.stack == stack0,
                path.len() == i + 1,
                path[0] == start,
                path[i as int] == inv.state.types,
                forall|j: int| 0 <= j < i ==> unifies(path[j], #[trigger] parsed.type_equalities@[j], path[j + 1]),
            decreases parsed.type_equalities.len() - i,
        {
            let (v1, v2) = parsed.type_equalities[i];
            inv.state.types.assume_eq(v1, v2);
            proof {
                let before = path;
                path = path.push(inv.state.types);
                assert forall|j: int| 0 <= j < i + 1 implies unifies(path[j], #[trigger] parsed.type_equalities@[j], path[j + 1]) by {
                    if j < i { assert(path[j] == before[j] && path[j + 1] == before[j + 1]); }
                }
            }
            i = i + 1;
        }
        let ghost mid = inv.state.types;
        assert(all_unified(start, parsed.type_equalities@, mid)) by { assert(is_unifying_path(path, parsed.type_equalities@)); }
        proof { path = seq![mid]; }
        i = 0;
        while i < parsed.type_restrictions.len()
            invariant
                i <= parsed.type_restrictions.len(),
                inv.wf(),
                inv.state.values == values0,
                inv.stack == stack0,
                path.len() == i + 1,
                path[0] == mid,
                path[i as int] == inv.state.types,
                forall|j: int| 0 <= j < i ==> restricts(path[j], #[trigger] parsed.type_restrictions@[j], path[j + 1]),
            decreases parsed.type_restrictions.len() - i,
        {
            let (v, ts) = parsed.type_restrictions[i];
            inv.state.types.restrict_to(v, ts);
            proof {
                let before = path;
                path = path.push(inv.state.types);
                assert forall|j: int| 0 <= j < i + 1 implies restricts(path[j], #[trigger] parsed.type_restrictions@[j], path[j + 1]) by {
                    if j < i { assert(path[j] == before[j] && path[j + 1] == before[j + 1]); }
                }
            }
            i = i + 1;
        }
        let ghost types = inv.state.types;
        assert(all_restricted(mid, parsed.type_restrictions@, types)) by { assert(is_restricting_path(path, parsed.type_restrictions@)); }
        i = 0;
        let ghost n0 = inv.num();
        let mut log = Log::new(&inv.state.values, registry);
        assert(said(parsed.value_csts@.take(0)) =~= seq![]);
        while i < parsed.value_csts.len()
            invariant
                i <= parsed.value_csts.len(),
                inv.wf(),
                inv.stack == stack0,
                inv.state.types == types,
                log.leads_to(&inv.state.values, registry@),
                log.start@ == n0,
                log.older@ == registry@,
                log.done@ == said(parsed.value_csts@.take(i as int)),
                forall|j: int| 0 <= j < parsed.value_csts@.len() ==> zone_domain::knows_terms(registry@, (#[trigger] parsed.value_csts@[j]).expression.terms@),
            decreases parsed.value_csts.len() - i,
        {
            numeric_ops::say(&mut inv.state.values, &parsed.value_csts[i], registry, &mut log);
            assert(parsed.value_csts@.take(i + 1) =~= parsed.value_csts@.take(i as int).push(parsed.value_csts@[i as int]));
            assert(log.done@ =~= said(parsed.value_csts@.take(i + 1)));
            i = i + 1;
        }
        proof {
            assert(parsed.value_csts@.take(parsed.value_csts@.len() as int) =~= parsed.value_csts@);
            numeric_steps::extends_itself(registry@);
            numeric_steps::performs_both(Some(ZEdges::empty()), registry@, registry@, registry@, first, n0, said(parsed.value_csts@), inv.num());
        }
        i = 0;
        while i < parsed.numeric_ranges.len()
            invariant
                i <= parsed.numeric_ranges.len(),
                inv.wf(),
                inv.state.types == types,
                numeric_steps::performs(Some(ZEdges::empty()), registry@, registry@, first + said(parsed.value_csts@), inv.num()),
                inv.stack.bits() == ranges_marked(bits0, parsed.numeric_ranges@, i as nat),
                bits0.len() == inv.stack.bits().len(),
                inv.stack.map().total() == ctx.runtime.stack_size(),
                ctx.runtime.valid(),
                forall|k: DataKind, c: Cell| #[trigger] inv.stack.map().has(k, c) <==> k is Svalues && in_ranges(parsed.numeric_ranges@, i as int, ctx.runtime.stack_size(), c),
            decreases parsed.numeric_ranges.len() - i,
        {
            let (start_byte, end_byte) = parsed.numeric_ranges[i];
            let width: i64 = 1 + (end_byte as i64 - start_byte as i64);
            let ghost before = inv.stack;
            inv.stack.initialize_numbers(start_byte, array_domain::narrow_to_i32(width));
            proof {
                let ranges = parsed.numeric_ranges@;
                let size = ctx.runtime.stack_size();
                assert forall|k: DataKind, c: Cell| #[trigger] inv.stack.map().has(k, c) <==> k is Svalues && in_ranges(ranges, i + 1, size, c) by {
                    assert(before.map().has(k, c) <==> k is Svalues && in_ranges(ranges, i as int, size, c));
                    if in_ranges(ranges, i + 1, size, c) && !in_ranges(ranges, i as int, size, c) {
                        let j = choose|j: int| 0 <= j < i + 1 && range_cell(#[trigger] ranges[j], size, c);
                        assert(j == i);
                    }
                    if in_ranges(ranges, i as int, size, c) {
                        let j = choose|j: int| 0 <= j < i && range_cell(#[trigger] ranges[j], size, c);
                        assert(range_cell(ranges[j], size, c));
                    }
                    if range_cell(ranges[i as int], size, c) { assert(in_ranges(ranges, i + 1, size, c)); }
                }
            }
            i = i + 1;
        }
        inv
    }
}

/// The text of a stack.
pub open spec fn stack_text(stack: &ArrayDomain) -> Seq<char> {
    bitset_domain::shown_runs(bitset_domain::runs_from(stack.bits(), 0), bitset_domain::runs_from(stack.bits(), 0).len()) + "}"@
}

/// Adding constraints, in turn.
pub open spec fn said(cs: Seq<LinearConstraint>) -> Seq<Step> {
    cs.map_values(|c: LinearConstraint| Step::Say(numeric_steps::lin_of(&c)))
}

/// The cell of a range of numbers, where it starts within the stack.
pub open spec fn range_cell(range: (i32, i32), size: int, c: Cell) -> bool {
    let (lb, ub) = range;
    0 <= lb < size && c == (Cell { offset: lb as u64, size: (number::wrap_signed(1 + (ub - lb), 32) as i32) as u32 })
}

/// The cell of one of the first `n` ranges.
pub open spec fn in_ranges(ranges: Seq<(i32, i32)>, n: int, size: int, c: Cell) -> bool {
    exists|j: int| 0 <= j < n && range_cell(#[trigger] ranges[j], size, c)
}

/// The bytes with the first `n` ranges marked as numbers.
pub open spec fn ranges_marked(bits: Seq<bool>, ranges: Seq<(i32, i32)>, n: nat) -> Seq<bool>
    decreases n,
{
    if n == 0 {
        bits
    } else {
        let before = ranges_marked(bits, ranges, (n - 1) as nat);
        let (lb, ub) = ranges[n - 1];
        if lb < 0 { before } else {
            bitset_domain::filled(before, lb as int, lb + bitset_domain::clipped(lb as int, number::wrap_signed(1 + (ub - lb), 32), before.len() as int), false)
        }
    }
}

/// Two variables are unified.
pub open spec fn unifies(a: TypeDomain, p: (Variable, Variable), b: TypeDomain) -> bool {
    &&& b.state is Some <==> a.state is Some && a.s().types_of(p.0.id).common(a.s().types_of(p.1.id)).inhabited()
    &&& b.state is Some ==> type_domain::unified(a.s(), p.0.id, p.1.id, b.s())
}

pub open spec fn is_unifying_path(path: Seq<TypeDomain>, pairs: Seq<(Variable, Variable)>) -> bool {
    path.len() == pairs.len() + 1 && forall|j: int| 0 <= j < pairs.len() ==> unifies(path[j], #[trigger] pairs[j], path[j + 1])
}

pub open spec fn all_unified(a: TypeDomain, pairs: Seq<(Variable, Variable)>, b: TypeDomain) -> bool {
    exists|path: Seq<TypeDomain>| #[trigger] is_unifying_path(path, pairs) && path[0] == a && path[pairs.len() as int] == b
}

/// A variable is restricted to some types.
pub open spec fn restricts(a: TypeDomain, p: (Variable, TypeSet), b: TypeDomain) -> bool {
    &&& b.state is Some <==> a.state is Some && a.s().types_of(p.0.id).common(p.1).inhabited()
    &&& b.state is Some ==> type_domain::narrowed(a.s(), p.0.id, a.s().types_of(p.0.id).common(p.1), b.s())
}

pub open spec fn is_restricting_path(path: Seq<TypeDomain>, pairs: Seq<(Variable, TypeSet)>) -> bool {
    path.len() == pairs.len() + 1 && forall|j: int| 0 <= j < pairs.len() ==> restricts(path[j], #[trigger] pairs[j], path[j + 1])
}

pub open spec fn all_restricted(a: TypeDomain, pairs: Seq<(Variable, TypeSet)>, b: TypeDomain) -> bool {
    exists|path: Seq<TypeDomain>| #[trigger] is_restricting_path(path, pairs) && path[0] == a && path[pairs.len() as int] == b
}

/// The meet of two states: nothing where the values or the types contradict each other.
pub open spec fn is_meet(a: &EbpfDomain, b: &EbpfDomain, r: &EbpfDomain) -> bool {
    if r.num() is Some {
        &&& a.num() is Some && b.num() is Some && a.state.types.state is Some && b.state.types.state is Some
        &&& zone_model::zmet(a.state.values.z(), b.state.values.z(), r.state.values.z())
        &&& r.state.types.state is Some
        &&& type_domain::met(a.state.types.s(), b.state.types.s(), r.state.types.s())
        &&& stack_met(&a.stack, &b.stack, &r.stack)
    } else {
        &&& a.num() is None || b.num() is None || a.state.types.state is None || b.state.types.state is None
                || zone_model::zdisjoint(a.state.values.z(), b.state.values.z())
                || forall|typing: type_domain::Typing| !(#[trigger] type_domain::admits(a.state.types.s(), typing) && type_domain::admits(b.state.types.s(), typing))
        &&& r.stack.bits() == Seq::new(a.stack.bits().len(), |i: int| true)
        &&& forall|k: DataKind, c: Cell| !(#[trigger] r.stack.map().has(k, c))
    }
}

/// The widening of two states.
pub open spec fn widened(a: &EbpfDomain, b: &EbpfDomain, older: RegistryView, newer: RegistryView, r: &EbpfDomain) -> bool {
    &&& rcp::widened_values(&a.state, &b.state, older, newer, r.num())
    &&& rcp::widened_types(&a.state.types, &b.state.types, &r.state.types)
    &&& stack_joined(&a.stack, &b.stack, &r.stack)
}

/// A state that says no more than the limits of widening.
pub open spec fn is_limits(ctx: &DomainContext, r: RegistryView, d: &EbpfDomain) -> bool {
    &&& exists|counters: Seq<Variable>| #[trigger] lists_counters(r, counters)
            && numeric_steps::performs(Some(ZEdges::empty()), r, r, limit_steps(10, ctx.runtime.stack_size(), counters, ctx.options.check_for_termination), d.num())
    &&& d.state.types.state is Some
    &&& forall|v: u64| !(#[trigger] d.state.types.s().known(v))
    &&& d.stack.bits() == Seq::new(ctx.runtime.stack_size() as nat, |i: int| true)
    &&& forall|k: DataKind, c: Cell| !(#[trigger] d.stack.map().has(k, c))
}

proof fn lemma_hull_top(p: &EbpfPlatform, f: MapField, start: int, n: nat, m: nat)
    requires 0 < n <= m, field_hull(p, f, start, n) == Interval::all(),
    ensures field_hull(p, f, start, m) == Interval::all(),
    decreases m,
{
    if n < m {
        lemma_hull_top(p, f, start, n, (m - 1) as nat);
    }
}

}
