//! Stores to the stack.
use vstd::prelude::*;
use crate::acts;
use crate::acts::{Act, Place, Trace};
use crate::arith::linear_constraint::{geq, leq};
use crate::arith::linear_expression::LinearExpression;
use crate::arith::number::Number;
use crate::arith::variable::Variable;
use crate::ebpf_domain::EbpfDomain;
use crate::ebpf_memory;
use crate::finite_assume;
use crate::interval::Interval;
use crate::numeric_ops;
use crate::numeric_ops::Log;
use crate::numeric_steps;
use crate::numeric_steps::{Lin, Step};
use crate::rcp;
use crate::syntax::Reg;
use crate::type_encoding;
use crate::type_encoding::{iterate_kinds, DataKind, TypeEncoding, TypeSet, KIND_MAX, KIND_VALUE_MIN};
use crate::var_registry;
use crate::var_registry::{RegistryView, VariableRegistry};
use crate::zone_domain;

verus! {

/// The kinds of values and offsets.
pub open spec fn value_kinds() -> Seq<DataKind> {
    type_encoding::kind_range(DataKind::Svalues, DataKind::StackNumericSizes)
}

/// Forgetting the values of some kinds in a range; plain values may be left out.
pub open spec fn havoc_acts(kinds: Seq<DataKind>, iv: Interval, width: Interval, but_values: bool, n: nat) -> Seq<Act>
    decreases n,
{
    if n == 0 {
        seq![]
    } else {
        let kind = kinds[n - 1];
        havoc_acts(kinds, iv, width, but_values, (n - 1) as nat)
            + (if but_values && (kind == DataKind::Svalues || kind == DataKind::Uvalues) { seq![] } else { seq![Act::Havoc(kind, iv, width)] })
    }
}

/// Forgets the values of all kinds in a range; plain values may be left out.
pub(crate) fn havoc_kinds(dom: &mut EbpfDomain, addr: &Interval, width: &Interval, but_values: bool, big_endian: bool, registry: &mut VariableRegistry, trace: &mut Trace)
    requires old(trace).leads_to(old(dom), old(registry)@), big_endian == old(trace).be@,
    ensures
        final(trace).leads_to(final(dom), final(registry)@),
        final(registry)@.extends(old(registry)@),
        final(trace).grew(old(trace), havoc_acts(value_kinds(), *addr, *width, but_values, value_kinds().len())),
{
    let ghost trace0 = *trace;
    let kinds = iterate_kinds(KIND_VALUE_MIN, KIND_MAX);
    let mut i: usize = 0;
    proof { numeric_steps::extends_itself(registry@); }
    assert(trace.acts@ =~= trace0.acts@ + havoc_acts(kinds@, *addr, *width, but_values, 0));
    while i < kinds.len()
        invariant
            i <= kinds.len(),
            big_endian == trace.be@,
            registry@.extends(old(registry)@),
            trace.leads_to(dom, registry@),
            trace.grew(&trace0, havoc_acts(kinds@, *addr, *width, but_values, i as nat)),
        decreases kinds.len() - i,
    {
        let kind: DataKind = kinds[i];
        if !(but_values && (kind == DataKind::Svalues || kind == DataKind::Uvalues)) {
            let ghost r0 = registry@;
            acts::havoc_range(dom, kind, addr, width, big_endian, registry, trace);
            proof { registry@.extending_is_transitive(r0, old(registry)@); }
        }
        assert(trace.acts@ =~= trace0.acts@ + havoc_acts(kinds@, *addr, *width, but_values, (i + 1) as nat));
        i = i + 1;
    }
}

/// What was found of a pointer when its number of numeric bytes was brought up to date.
pub struct SizeUpdate {
    pub points: bool,
    pub offset: Variable,
    pub size: Variable,
    pub reaches: bool,
    pub starts: bool,
}

/// A store may touch the numeric bytes behind a pointer: it does not start behind them, and does not
/// end before them.
pub open spec fn store_reaches(addr: LinearExpression, u: SizeUpdate) -> Lin {
    numeric_steps::at_most(numeric_steps::sum_of(&addr), numeric_steps::plus(numeric_steps::just_var(u.offset.id), numeric_steps::just_var(u.size.id)))
}

pub open spec fn store_starts(addr: LinearExpression, width: int, u: SizeUpdate) -> Lin {
    numeric_steps::at_most(numeric_steps::just_var(u.offset.id), numeric_steps::plus(numeric_steps::sum_of(&addr), numeric_steps::just_num(width)))
}

/// What happens to one pointer after a store.
pub open spec fn size_update_acts(addr: LinearExpression, width: int, is_num: bool, v: Variable, u: SizeUpdate) -> Seq<Act> {
    seq![Act::MayPoint(v, u.points)] + (if !u.points { seq![] } else {
        seq![
            Act::KindVar(DataKind::StackOffsets, v, u.offset),
            Act::KindVar(DataKind::StackNumericSizes, v, u.size),
            Act::Meets(store_reaches(addr, u), u.reaches),
        ] + (if !u.reaches { seq![] } else {
            seq![Act::Meets(store_starts(addr, width, u), u.starts)] + (if !u.starts { seq![] } else {
                (if is_num { seq![] } else { seq![ebpf_memory::numbers(seq![Step::Forget(u.size.id)])] }) + seq![Act::NumericSize(v)]
            })
        })
    })
}

/// What happens to the first `n` pointers after a store.
pub open spec fn size_updates_acts(addr: LinearExpression, width: int, is_num: bool, vars: Seq<Variable>, us: Seq<SizeUpdate>, n: nat) -> Seq<Act>
    decreases n,
{
    if n == 0 {
        seq![Act::TypeVars(vars)]
    } else {
        size_updates_acts(addr, width, is_num, vars, us, (n - 1) as nat) + size_update_acts(addr, width, is_num, vars[n - 1], us[n - 1])
    }
}

proof fn lemma_size_updates_same(addr: LinearExpression, width: int, is_num: bool, vars: Seq<Variable>, a: Seq<SizeUpdate>, b: Seq<SizeUpdate>, n: nat)
    requires n <= a.len(), n <= b.len(), forall|i: int| 0 <= i < n ==> a[i] == b[i],
    ensures size_updates_acts(addr, width, is_num, vars, a, n) == size_updates_acts(addr, width, is_num, vars, b, n),
    decreases n,
{
    if n > 0 { lemma_size_updates_same(addr, width, is_num, vars, a, b, (n - 1) as nat); }
}

proof fn lemma_known_later(r: RegistryView, later: RegistryView, e: LinearExpression)
    requires later.extends(r), zone_domain::knows_terms(r, e.terms@),
    ensures zone_domain::knows_terms(later, e.terms@),
{
}

fn update_one_size(dom: &mut EbpfDomain, symb_addr: &LinearExpression, exact_width: i32, must_be_num: bool, v: Variable, registry: &mut VariableRegistry, trace: &mut Trace) -> (u: Ghost<SizeUpdate>)
    requires
        old(trace).leads_to(old(dom), old(registry)@),
        old(registry)@.knows(v),
        old(registry)@.meta(v).kind == Some(DataKind::Types),
        zone_domain::knows_terms(old(registry)@, symb_addr.terms@),
    ensures
        final(trace).leads_to(final(dom), final(registry)@),
        final(registry)@.extends(old(registry)@),
        final(trace).grew(old(trace), size_update_acts(*symb_addr, exact_width as int, must_be_num, v, u@)),
{
    let ghost t0 = trace.acts@;
    let ghost r0 = registry@;
    proof { numeric_steps::extends_itself(r0); }
    if !acts::test_may_point(dom, v, registry, trace) {
        let ghost u = SizeUpdate { points: false, offset: v, size: v, reaches: false, starts: false };
        assert(trace.acts@ =~= t0 + size_update_acts(*symb_addr, exact_width as int, must_be_num, v, u));
        return Ghost(u);
    }
    let offset = acts::kind_variable(dom, DataKind::StackOffsets, v, registry, trace);
    let ghost r1 = registry@;
    let size = acts::kind_variable(dom, DataKind::StackNumericSizes, v, registry, trace);
    let ghost r2 = registry@;
    proof {
        r2.extending_is_transitive(r1, r0);
        lemma_known_later(r0, r2, *symb_addr);
    }
    let end = LinearExpression::from_variable(offset).plus(&LinearExpression::from_variable(size));
    let ghost u0 = SizeUpdate { points: true, offset, size, reaches: false, starts: false };
    proof {
        numeric_ops::combination_is_known(r2, numeric_steps::just_var(offset.id).terms, 1, numeric_steps::just_var(size.id).terms);
        numeric_ops::combination_is_known(r2, symb_addr.terms@, -1, end.terms@);
    }
    let cst1 = leq(symb_addr.copy(), end);
    assert(numeric_steps::lin_of(&cst1) == store_reaches(*symb_addr, u0));
    if !acts::test_meets(dom, &cst1, registry, trace) {
        assert(trace.acts@ =~= t0 + size_update_acts(*symb_addr, exact_width as int, must_be_num, v, u0));
        return Ghost(u0);
    }
    let wide = LinearExpression::from_i64(exact_width as i64);
    let stop = symb_addr.plus(&wide);
    let start = LinearExpression::from_variable(offset);
    proof {
        numeric_ops::combination_is_known(r2, symb_addr.terms@, 1, wide.terms@);
        numeric_ops::combination_is_known(r2, start.terms@, -1, stop.terms@);
    }
    let cst2 = geq(stop, start);
    let ghost u1 = SizeUpdate { points: true, offset, size, reaches: true, starts: false };
    assert(numeric_steps::lin_of(&cst2) == store_starts(*symb_addr, exact_width as int, u1));
    if !acts::test_meets(dom, &cst2, registry, trace) {
        assert(trace.acts@ =~= t0 + size_update_acts(*symb_addr, exact_width as int, must_be_num, v, u1));
        return Ghost(u1);
    }
    let ghost u2 = SizeUpdate { points: true, offset, size, reaches: true, starts: true };
    if !must_be_num {
        let ghost before: Place = (*dom, registry@);
        let mut log = Log::new(&dom.state.values, registry);
        numeric_ops::forget(&mut dom.state.values, size, registry, &mut log);
        assert(log.done@ =~= seq![Step::Forget(size.id)]);
        trace.numbers(&log, Ghost(before), dom, registry);
    }
    assert(registry@.meta(v) == r0.meta(v)) by { assert(r2.metas[v.id as int] == r0.metas[v.id as int]); }
    acts::recompute_numeric_size(dom, v, registry, trace);
    proof { registry@.extending_is_transitive(r2, r0); }
    assert(trace.acts@ =~= t0 + size_update_acts(*symb_addr, exact_width as int, must_be_num, v, u2));
    Ghost(u2)
}

/// The bytes that a pointer may see as numbers, after a store.
pub open spec fn sizes_after_store_acts(addr: LinearExpression, width: int, is_num: bool, vars: Seq<Variable>, us: Seq<SizeUpdate>) -> Seq<Act> {
    size_updates_acts(addr, width, is_num, vars, us, vars.len())
}

fn update_stack_numeric_size_after_store(dom: &mut EbpfDomain, symb_addr: &LinearExpression, exact_width: i32, must_be_num: bool, registry: &mut VariableRegistry, trace: &mut Trace) -> (r: Ghost<(Seq<Variable>, Seq<SizeUpdate>)>)
    requires
        old(trace).leads_to(old(dom), old(registry)@),
        zone_domain::knows_terms(old(registry)@, symb_addr.terms@),
    ensures
        final(trace).leads_to(final(dom), final(registry)@),
        final(trace).grew(old(trace), sizes_after_store_acts(*symb_addr, exact_width as int, must_be_num, r@.0, r@.1)),
{
    let ghost trace0 = *trace;
    let ghost r0 = registry@;
    let vars = acts::list_type_variables(dom, registry, trace);
    let ghost mut us: Seq<SizeUpdate> = seq![];
    let mut i: usize = 0;
    proof { numeric_steps::extends_itself(r0); }
    assert(trace.acts@ =~= trace0.acts@ + size_updates_acts(*symb_addr, exact_width as int, must_be_num, vars@, us, 0));
    while i < vars.len()
        invariant
            i <= vars.len(),
            us.len() == i,
            registry@.extends(r0),
            zone_domain::knows_terms(r0, symb_addr.terms@),
            forall|j: int| 0 <= j < vars@.len() ==> r0.knows(#[trigger] vars@[j]) && r0.meta(vars@[j]).kind == Some(DataKind::Types),
            r0.wf(),
            trace.leads_to(dom, registry@),
            trace.grew(&trace0, size_updates_acts(*symb_addr, exact_width as int, must_be_num, vars@, us, i as nat)),
        decreases vars.len() - i,
    {
        let v: Variable = vars[i];
        let ghost r1 = registry@;
        proof {
            lemma_known_later(r0, r1, *symb_addr);
            assert(r1.metas[v.id as int] == r0.metas[v.id as int]);
        }
        let u = update_one_size(dom, symb_addr, exact_width, must_be_num, v, registry, trace);
        proof {
            registry@.extending_is_transitive(r1, r0);
            let before = us;
            us = us.push(u@);
            lemma_size_updates_same(*symb_addr, exact_width as int, must_be_num, vars@, before, us, i as nat);
            assert(trace.acts@ =~= trace0.acts@ + size_updates_acts(*symb_addr, exact_width as int, must_be_num, vars@, us, (i + 1) as nat));
        }
        i = i + 1;
    }
    Ghost((vars@, us))
}

// ---------------------------------------------------------------------------------------------
// The store itself
// ---------------------------------------------------------------------------------------------

/// What the tests and writes of a store to the stack gave.
pub struct StackStore {
    /// The address.
    pub iv: Interval,
    /// Whether the stored register is initialized, and whether it is a number.
    pub initialized: bool,
    pub is_num: bool,
    /// The variables of the cells for the type and the two values, and what the type is.
    pub type_var: Option<Variable>,
    pub typed: LinearExpression,
    pub svalue: Option<Variable>,
    pub uvalue: Option<Variable>,
    /// The types of the stored register, and the variables of the cells for their kinds.
    pub tes: Seq<TypeEncoding>,
    pub kinds: Seq<Option<Variable>>,
    /// The pointers to the stack.
    pub vars: Seq<Variable>,
    pub updates: Seq<SizeUpdate>,
}

/// What a store writes.
pub struct Stored {
    pub addr: LinearExpression,
    pub width: i32,
    pub svalue: LinearExpression,
    pub uvalue: LinearExpression,
    pub reg: Option<Reg>,
}

/// The interval of a width.
pub open spec fn wide(width: int) -> Interval {
    Interval::point(Number { n: width as i128 })
}

/// What was there before is forgotten, but for plain values.
pub open spec fn store_clear_acts(s: Stored, w: StackStore) -> Seq<Act> {
    seq![Act::Value(s.addr, w.iv), Act::HavocType(w.iv, wide(s.width as int))]
        + havoc_acts(value_kinds(), w.iv, wide(s.width as int), true, value_kinds().len())
}

/// The plain values in the range are forgotten.
pub open spec fn drop_values_acts(s: Stored, w: StackStore) -> Seq<Act> {
    seq![Act::Havoc(DataKind::Svalues, w.iv, wide(s.width as int)), Act::Havoc(DataKind::Uvalues, w.iv, wide(s.width as int))]
}

/// The type is written.
pub open spec fn store_type_acts(s: Stored, w: StackStore) -> Seq<Act> {
    seq![Act::StoreType(w.iv, wide(s.width as int), w.is_num, w.type_var)]
        + (match w.type_var { Some(v) => seq![Act::TypeBy(v.id, Some(w.typed))], None => seq![] })
}

/// A value is written, and cut to a width where it is narrow. Where the place is not known the
/// range is forgotten.
pub open spec fn store_value_acts(kind: DataKind, s: Stored, iv: Interval, e: LinearExpression, narrow: bool, v: Option<Variable>) -> Seq<Act> {
    seq![Act::Store(kind, iv, wide(s.width as int), v)] + (match v {
        Some(x) => seq![ebpf_memory::numbers(if narrow {
            seq![Step::Assign(x.id, e), Step::WrapOne(x.id, s.width * 8, kind == DataKind::Svalues)]
        } else {
            seq![Step::Assign(x.id, e)]
        })],
        None => if narrow { seq![Act::Havoc(kind, iv, wide(s.width as int))] } else { seq![] },
    })
}

/// The offsets of a pointer are written.
pub open spec fn store_kinds_acts(s: Stored, iv: Interval, reg: Reg, kinds: Seq<DataKind>, xs: Seq<Option<Variable>>, n: nat) -> Seq<Act>
    decreases n,
{
    if n == 0 {
        seq![]
    } else {
        store_kinds_acts(s, iv, reg, kinds, xs, (n - 1) as nat) + seq![Act::Store(kinds[n - 1], iv, wide(s.width as int), xs[n - 1])] + (match xs[n - 1] {
            Some(x) => seq![ebpf_memory::numbers(seq![Step::Copy(x.id, rcp::id_of(kinds[n - 1], reg))])],
            None => seq![],
        })
    }
}

/// The values are written: all of a whole cell, and the value of a narrow number.
pub open spec fn store_values_acts(s: Stored, w: StackStore) -> Seq<Act> {
    if s.width == 8 {
        drop_values_acts(s, w)
            + store_value_acts(DataKind::Svalues, s, w.iv, s.svalue, false, w.svalue)
            + store_value_acts(DataKind::Uvalues, s, w.iv, s.uvalue, false, w.uvalue)
            + (if w.is_num || s.reg is None { seq![] } else {
                seq![Act::Iterated(s.reg->Some_0, w.tes)]
                    + store_kinds_acts(s, w.iv, s.reg->Some_0, ebpf_memory::all_kinds(w.tes), w.kinds, ebpf_memory::all_kinds(w.tes).len())
            })
    } else if (s.width == 1 || s.width == 2 || s.width == 4) && w.is_num {
        store_value_acts(DataKind::Svalues, s, w.iv, s.svalue, true, w.svalue) + store_value_acts(DataKind::Uvalues, s, w.iv, s.uvalue, true, w.uvalue)
    } else {
        drop_values_acts(s, w)
    }
}

/// The test of what is stored.
pub open spec fn store_test_acts(s: Stored, w: StackStore) -> Seq<Act> {
    match s.reg {
        Some(r) => seq![Act::Initialized(r, w.initialized)]
            + (if w.initialized { seq![Act::InGroup(r, TypeSet::just(TypeEncoding::TNum), w.is_num)] } else { seq![] }),
        None => seq![],
    }
}

/// What a store to the stack does.
pub open spec fn stack_store_acts(s: Stored, w: StackStore) -> Seq<Act> {
    store_clear_acts(s, w) + store_test_acts(s, w) + (if s.reg is Some && !w.initialized {
        drop_values_acts(s, w) + sizes_after_store_acts(s.addr, s.width as int, false, w.vars, w.updates)
    } else {
        store_type_acts(s, w) + store_values_acts(s, w) + sizes_after_store_acts(s.addr, s.width as int, w.is_num, w.vars, w.updates)
    })
}

/// What is stored has the type of the register, or is a number.
pub open spec fn store_is_typed(s: Stored, w: StackStore) -> bool {
    &&& s.reg is None ==> w.is_num
    &&& w.is_num ==> finite_assume::is_constant(&w.typed, TypeEncoding::TNum.code())
    &&& !w.is_num && s.reg is Some && w.initialized ==> zone_domain::is_variable(&w.typed, rcp::type_id(s.reg->Some_0))
}

/// Writes a value.
fn store_value(dom: &mut EbpfDomain, kind: DataKind, addr: &Interval, exact_width: i32, e: &LinearExpression, narrow: bool, big_endian: bool, registry: &mut VariableRegistry, trace: &mut Trace, Ghost(s): Ghost<Stored>) -> (r: Option<Variable>)
    requires
        old(trace).leads_to(old(dom), old(registry)@),
        big_endian == old(trace).be@,
        1 <= exact_width <= 8,
        s.width == exact_width,
        kind == DataKind::Svalues || kind == DataKind::Uvalues,
        zone_domain::knows_terms(old(registry)@, e.terms@),
    ensures
        final(trace).leads_to(final(dom), final(registry)@),
        final(registry)@.extends(old(registry)@),
        final(trace).grew(old(trace), store_value_acts(kind, s, *addr, *e, narrow, r)),
{
    let ghost t0 = trace.acts@;
    let ghost r0 = registry@;
    let width = Interval::from_i64(exact_width as i64);
    assert(width == wide(s.width as int));
    let r = acts::store_range(dom, kind, addr, &width, big_endian, registry, trace);
    let ghost r1 = registry@;
    proof { lemma_known_later(r0, r1, *e); }
    match r {
        Some(x) => {
            let ghost before: Place = (*dom, registry@);
            let mut log = Log::new(&dom.state.values, registry);
            numeric_ops::assign(&mut dom.state.values, x, e, registry, &mut log);
            if narrow {
                numeric_ops::wrap(&mut dom.state.values, x, exact_width * 8, kind == DataKind::Svalues, registry, &mut log);
            }
            assert(log.done@ =~= if narrow {
                seq![Step::Assign(x.id, *e), Step::WrapOne(x.id, s.width * 8, kind == DataKind::Svalues)]
            } else {
                seq![Step::Assign(x.id, *e)]
            });
            trace.numbers(&log, Ghost(before), dom, registry);
        }
        None => {
            if narrow {
                acts::havoc_range(dom, kind, addr, &width, big_endian, registry, trace);
                proof { registry@.extending_is_transitive(r1, r0); }
            }
        }
    }
    assert(trace.acts@ =~= t0 + store_value_acts(kind, s, *addr, *e, narrow, r));
    r
}

fn drop_values(dom: &mut EbpfDomain, addr: &Interval, width: &Interval, big_endian: bool, registry: &mut VariableRegistry, trace: &mut Trace, Ghost(s): Ghost<Stored>, Ghost(w): Ghost<StackStore>)
    requires
        old(trace).leads_to(old(dom), old(registry)@),
        big_endian == old(trace).be@,
        *addr == w.iv,
        *width == wide(s.width as int),
    ensures
        final(trace).leads_to(final(dom), final(registry)@),
        final(registry)@.extends(old(registry)@),
        final(trace).grew(old(trace), drop_values_acts(s, w)),
{
    let ghost t0 = trace.acts@;
    let ghost r0 = registry@;
    acts::havoc_range(dom, DataKind::Svalues, addr, width, big_endian, registry, trace);
    let ghost r1 = registry@;
    acts::havoc_range(dom, DataKind::Uvalues, addr, width, big_endian, registry, trace);
    proof { registry@.extending_is_transitive(r1, r0); }
    assert(trace.acts@ =~= t0 + drop_values_acts(s, w));
}

proof fn lemma_store_kinds_same(s: Stored, iv: Interval, reg: Reg, kinds: Seq<DataKind>, a: Seq<Option<Variable>>, b: Seq<Option<Variable>>, n: nat)
    requires n <= a.len(), n <= b.len(), forall|i: int| 0 <= i < n ==> a[i] == b[i],
    ensures store_kinds_acts(s, iv, reg, kinds, a, n) == store_kinds_acts(s, iv, reg, kinds, b, n),
    decreases n,
{
    if n > 0 { lemma_store_kinds_same(s, iv, reg, kinds, a, b, (n - 1) as nat); }
}

fn store_kinds(dom: &mut EbpfDomain, addr: &Interval, val_reg: &Reg, kinds: &Vec<DataKind>, big_endian: bool, registry: &mut VariableRegistry, trace: &mut Trace, Ghost(s): Ghost<Stored>) -> (xs: Ghost<Seq<Option<Variable>>>)
    requires
        old(trace).leads_to(old(dom), old(registry)@),
        big_endian == old(trace).be@,
        s.width == 8,
        val_reg.ok(),
    ensures
        final(trace).leads_to(final(dom), final(registry)@),
        final(registry)@.extends(old(registry)@),
        final(trace).grew(old(trace), store_kinds_acts(s, *addr, *val_reg, kinds@, xs@, kinds@.len())),
{
    let ghost trace0 = *trace;
    let ghost r0 = registry@;
    let width = Interval::from_i64(8);
    assert(width == wide(s.width as int));
    let ghost mut xs: Seq<Option<Variable>> = seq![];
    let mut i: usize = 0;
    proof { numeric_steps::extends_itself(r0); }
    assert(trace.acts@ =~= trace0.acts@ + store_kinds_acts(s, *addr, *val_reg, kinds@, xs, 0));
    while i < kinds.len()
        invariant
            i <= kinds.len(),
            val_reg.ok(),
            s.width == 8,
            width == wide(s.width as int),
            big_endian == trace.be@,
            xs.len() == i,
            registry@.extends(r0),
            trace.leads_to(dom, registry@),
            trace.grew(&trace0, store_kinds_acts(s, *addr, *val_reg, kinds@, xs, i as nat)),
        decreases kinds.len() - i,
    {
        let kind: DataKind = kinds[i];
        let ghost r1 = registry@;
        let r = acts::store_range(dom, kind, addr, &width, big_endian, registry, trace);
        proof {
            registry@.extending_is_transitive(r1, r0);
            registry@.register_variable(kind, val_reg.v as int);
            registry@.register_is_there(kind, val_reg.v as int, var_registry::kind_meta(kind, false));
        }
        let src = registry.reg(kind, val_reg.v as i32);
        if let Some(x) = r {
            let ghost before: Place = (*dom, registry@);
            let mut log = Log::new(&dom.state.values, registry);
            numeric_ops::copy_var(&mut dom.state.values, x, src, registry, &mut log);
            assert(log.done@ =~= seq![Step::Copy(x.id, rcp::id_of(kind, *val_reg))]);
            trace.numbers(&log, Ghost(before), dom, registry);
        }
        proof {
            let before = xs;
            xs = xs.push(r);
            lemma_store_kinds_same(s, *addr, *val_reg, kinds@, before, xs, i as nat);
            assert(trace.acts@ =~= trace0.acts@ + store_kinds_acts(s, *addr, *val_reg, kinds@, xs, (i + 1) as nat));
        }
        i = i + 1;
    }
    Ghost(xs)
}

/// Writes the two plain values.
fn store_both(dom: &mut EbpfDomain, addr: &Interval, exact_width: i32, val_svalue: &LinearExpression, val_uvalue: &LinearExpression, narrow: bool, big_endian: bool, registry: &mut VariableRegistry, trace: &mut Trace, Ghost(s): Ghost<Stored>, Ghost(w): Ghost<StackStore>) -> (r: Ghost<StackStore>)
    requires
        old(trace).leads_to(old(dom), old(registry)@),
        big_endian == old(trace).be@,
        s.width == exact_width && s.svalue == *val_svalue && s.uvalue == *val_uvalue,
        w.iv == *addr,
        1 <= exact_width <= 8,
        zone_domain::knows_terms(old(registry)@, val_svalue.terms@),
        zone_domain::knows_terms(old(registry)@, val_uvalue.terms@),
    ensures
        final(trace).leads_to(final(dom), final(registry)@),
        final(registry)@.extends(old(registry)@),
        final(trace).grew(old(trace), store_value_acts(DataKind::Svalues, s, w.iv, s.svalue, narrow, r@.svalue) + store_value_acts(DataKind::Uvalues, s, w.iv, s.uvalue, narrow, r@.uvalue)),
        r@ == (StackStore { svalue: r@.svalue, uvalue: r@.uvalue, ..w }),
{
    let ghost t0 = trace.acts@;
    let ghost r0 = registry@;
    let sv = store_value(dom, DataKind::Svalues, addr, exact_width, val_svalue, narrow, big_endian, registry, trace, Ghost(s));
    let ghost r1 = registry@;
    proof { lemma_known_later(r0, r1, *val_uvalue); }
    let uv = store_value(dom, DataKind::Uvalues, addr, exact_width, val_uvalue, narrow, big_endian, registry, trace, Ghost(s));
    proof { registry@.extending_is_transitive(r1, r0); }
    assert(trace.acts@ =~= t0 + (store_value_acts(DataKind::Svalues, s, w.iv, s.svalue, narrow, sv) + store_value_acts(DataKind::Uvalues, s, w.iv, s.uvalue, narrow, uv)));
    Ghost(StackStore { svalue: sv, uvalue: uv, ..w })
}

/// Writes the offsets of a pointer.
fn store_offsets(dom: &mut EbpfDomain, addr: &Interval, val_reg: &Reg, big_endian: bool, registry: &mut VariableRegistry, trace: &mut Trace, Ghost(s): Ghost<Stored>, Ghost(w): Ghost<StackStore>) -> (r: Ghost<StackStore>)
    requires
        old(trace).leads_to(old(dom), old(registry)@),
        big_endian == old(trace).be@,
        s.width == 8,
        w.iv == *addr,
        val_reg.ok(),
    ensures
        final(trace).leads_to(final(dom), final(registry)@),
        final(registry)@.extends(old(registry)@),
        final(trace).grew(old(trace), seq![Act::Iterated(*val_reg, r@.tes)]
            + store_kinds_acts(s, w.iv, *val_reg, ebpf_memory::all_kinds(r@.tes), r@.kinds, ebpf_memory::all_kinds(r@.tes).len())),
        r@ == (StackStore { tes: r@.tes, kinds: r@.kinds, ..w }),
{
    let ghost t0 = trace.acts@;
    let tes = acts::list_types(dom, val_reg, registry, trace);
    let kinds = ebpf_memory::list_kinds(&tes);
    let xs = store_kinds(dom, addr, val_reg, &kinds, big_endian, registry, trace, Ghost(s));
    assert(trace.acts@ =~= t0 + (seq![Act::Iterated(*val_reg, tes@)]
            + store_kinds_acts(s, w.iv, *val_reg, ebpf_memory::all_kinds(tes@), xs@, ebpf_memory::all_kinds(tes@).len())));
    Ghost(StackStore { tes: tes@, kinds: xs@, ..w })
}

/// Writes the values.
fn store_values(dom: &mut EbpfDomain, addr: &Interval, exact_width: i32, val_svalue: &LinearExpression, val_uvalue: &LinearExpression, opt_val_reg: &Option<Reg>, must_be_num: bool, big_endian: bool, registry: &mut VariableRegistry, trace: &mut Trace, Ghost(s): Ghost<Stored>, Ghost(w): Ghost<StackStore>) -> (r: Ghost<StackStore>)
    requires
        old(trace).leads_to(old(dom), old(registry)@),
        big_endian == old(trace).be@,
        s.width == exact_width && s.svalue == *val_svalue && s.uvalue == *val_uvalue && s.reg == *opt_val_reg,
        w.iv == *addr,
        w.is_num == must_be_num,
        opt_val_reg matches Some(q) ==> q.ok(),
        zone_domain::knows_terms(old(registry)@, val_svalue.terms@),
        zone_domain::knows_terms(old(registry)@, val_uvalue.terms@),
    ensures
        final(trace).leads_to(final(dom), final(registry)@),
        final(registry)@.extends(old(registry)@),
        final(trace).grew(old(trace), store_values_acts(s, r@)),
        r@ == (StackStore { svalue: r@.svalue, uvalue: r@.uvalue, tes: r@.tes, kinds: r@.kinds, ..w }),
{
    let ghost t0 = trace.acts@;
    let ghost r0 = registry@;
    let width = Interval::from_i64(exact_width as i64);
    assert(width == wide(s.width as int));
    if exact_width == 8 {
        drop_values(dom, addr, &width, big_endian, registry, trace, Ghost(s), Ghost(w));
        let ghost r1 = registry@;
        let ghost t1 = trace.acts@;
        proof { lemma_known_later(r0, r1, *val_svalue); lemma_known_later(r0, r1, *val_uvalue); }
        let both = store_both(dom, addr, exact_width, val_svalue, val_uvalue, false, big_endian, registry, trace, Ghost(s), Ghost(w));
        let ghost w2 = both@;
        let ghost r2 = registry@;
        let ghost t2 = trace.acts@;
        proof { r2.extending_is_transitive(r1, r0); }
        if !must_be_num && opt_val_reg.is_some() {
            let val_reg: Reg = opt_val_reg.unwrap();
            let all = store_offsets(dom, addr, &val_reg, big_endian, registry, trace, Ghost(s), Ghost(w2));
            let ghost w3 = all@;
            proof {
                registry@.extending_is_transitive(r2, r0);
                assert(t1 == t0 + drop_values_acts(s, w3));
                assert(trace.acts@ =~= t0 + store_values_acts(s, w3));
            }
            return Ghost(w3);
        }
        proof {
            assert(t1 == t0 + drop_values_acts(s, w2));
            assert(trace.acts@ =~= t0 + store_values_acts(s, w2));
        }
        both
    } else if (exact_width == 1 || exact_width == 2 || exact_width == 4) && must_be_num {
        let both = store_both(dom, addr, exact_width, val_svalue, val_uvalue, true, big_endian, registry, trace, Ghost(s), Ghost(w));
        assert(trace.acts@ =~= t0 + store_values_acts(s, both@));
        both
    } else {
        drop_values(dom, addr, &width, big_endian, registry, trace, Ghost(s), Ghost(w));
        assert(trace.acts@ =~= t0 + store_values_acts(s, w));
        Ghost(w)
    }
}

/// Writes the type.
fn store_type(dom: &mut EbpfDomain, addr: &Interval, exact_width: i32, opt_val_reg: &Option<Reg>, must_be_num: bool, registry: &mut VariableRegistry, trace: &mut Trace, Ghost(s): Ghost<Stored>, Ghost(w): Ghost<StackStore>) -> (r: Ghost<StackStore>)
    requires
        old(trace).leads_to(old(dom), old(registry)@),
        s.width == exact_width && s.reg == *opt_val_reg,
        w.iv == *addr,
        w.is_num == must_be_num,
        opt_val_reg is None ==> must_be_num,
        opt_val_reg matches Some(q) ==> q.ok() && w.initialized,
    ensures
        final(trace).leads_to(final(dom), final(registry)@),
        final(registry)@.extends(old(registry)@),
        final(trace).grew(old(trace), store_type_acts(s, r@)),
        r@ == (StackStore { type_var: r@.type_var, typed: r@.typed, ..w }),
        store_is_typed(s, r@),
{
    let ghost t0 = trace.acts@;
    let ghost r0 = registry@;
    let width = Interval::from_i64(exact_width as i64);
    assert(width == wide(s.width as int));
    let typed: LinearExpression = match opt_val_reg {
        Some(val_reg) => {
            if must_be_num {
                LinearExpression::from_i64(TypeEncoding::TNum.to_i32() as i64)
            } else {
                proof {
                    registry@.register_variable(DataKind::Types, val_reg.v as int);
                    registry@.register_is_there(DataKind::Types, val_reg.v as int, var_registry::kind_meta(DataKind::Types, false));
                }
                let v = registry.type_reg(val_reg.v as i32);
                LinearExpression::from_variable(v)
            }
        }
        None => LinearExpression::from_i64(TypeEncoding::TNum.to_i32() as i64),
    };
    let type_var = acts::store_type_range(dom, addr, &width, must_be_num, registry, trace);
    let ghost w2 = StackStore { type_var, typed, ..w };
    match type_var {
        Some(v) => { acts::type_variable_by(dom, v, typed, registry, trace); }
        None => {}
    }
    assert(trace.acts@ =~= t0 + store_type_acts(s, w2));
    Ghost(w2)
}

/// Clears the range, but for plain values.
fn store_clear(dom: &mut EbpfDomain, symb_addr: &LinearExpression, exact_width: i32, big_endian: bool, registry: &mut VariableRegistry, trace: &mut Trace, Ghost(s): Ghost<Stored>, Ghost(w): Ghost<StackStore>) -> (r: (Interval, Ghost<StackStore>))
    requires
        old(trace).leads_to(old(dom), old(registry)@),
        big_endian == old(trace).be@,
        s.width == exact_width && s.addr == *symb_addr,
    ensures
        final(trace).leads_to(final(dom), final(registry)@),
        final(registry)@.extends(old(registry)@),
        final(trace).grew(old(trace), store_clear_acts(s, r.1@)),
        r.1@ == (StackStore { iv: r.0, ..w }),
{
    let ghost t0 = trace.acts@;
    let ghost r0 = registry@;
    let addr = acts::evaluate(dom, symb_addr, registry, trace);
    let width = Interval::from_i64(exact_width as i64);
    assert(width == wide(s.width as int));
    acts::havoc_type_range(dom, &addr, &width, registry, trace);
    let ghost r1 = registry@;
    havoc_kinds(dom, &addr, &width, true, big_endian, registry, trace);
    proof { registry@.extending_is_transitive(r1, r0); }
    let ghost w2 = StackStore { iv: addr, ..w };
    assert(trace.acts@ =~= t0 + store_clear_acts(s, w2));
    (addr, Ghost(w2))
}

/// Tests what is stored: whether it is initialized, and whether it is a number.
fn store_test(dom: &EbpfDomain, opt_val_reg: &Option<Reg>, registry: &mut VariableRegistry, trace: &mut Trace, Ghost(s): Ghost<Stored>, Ghost(w): Ghost<StackStore>) -> (r: (bool, bool, Ghost<StackStore>))
    requires old(trace).leads_to(dom, old(registry)@), s.reg == *opt_val_reg, opt_val_reg matches Some(q) ==> q.ok(),
    ensures
        final(registry)@ == old(registry)@,
        final(trace).leads_to(dom, final(registry)@),
        final(trace).grew(old(trace), store_test_acts(s, r.2@)),
        r.2@ == (StackStore { initialized: r.0, is_num: r.1, ..w }),
        opt_val_reg is None ==> r.0 && r.1,
        !r.0 ==> !r.1,
{
    let ghost t0 = trace.acts@;
    match opt_val_reg {
        Some(val_reg) => {
            if !acts::test_initialized(dom, val_reg, registry, trace) {
                let ghost w2 = StackStore { initialized: false, is_num: false, ..w };
                assert(trace.acts@ =~= t0 + store_test_acts(s, w2));
                return (false, false, Ghost(w2));
            }
            let is_num: bool = acts::test_in_group(dom, val_reg, TypeSet::singleton(TypeEncoding::TNum), registry, trace);
            let ghost w2 = StackStore { initialized: true, is_num, ..w };
            assert(trace.acts@ =~= t0 + store_test_acts(s, w2));
            (true, is_num, Ghost(w2))
        }
        None => {
            let ghost w2 = StackStore { initialized: true, is_num: true, ..w };
            assert(trace.acts@ =~= t0 + store_test_acts(s, w2));
            (true, true, Ghost(w2))
        }
    }
}

/// Stores a register or a number to the stack.
pub(crate) fn do_store_stack(dom: &mut EbpfDomain, symb_addr: &LinearExpression, exact_width: i32, val_svalue: &LinearExpression, val_uvalue: &LinearExpression, opt_val_reg: &Option<Reg>, big_endian: bool, registry: &mut VariableRegistry, trace: &mut Trace)
    requires
        old(trace).leads_to(old(dom), old(registry)@),
        big_endian == old(trace).be@,
        opt_val_reg matches Some(q) ==> q.ok(),
        zone_domain::knows_terms(old(registry)@, symb_addr.terms@),
        zone_domain::knows_terms(old(registry)@, val_svalue.terms@),
        zone_domain::knows_terms(old(registry)@, val_uvalue.terms@),
    ensures
        final(trace).leads_to(final(dom), final(registry)@),
        exists|w: StackStore| final(trace).grew(old(trace), #[trigger] stack_store_acts(
            (Stored { addr: *symb_addr, width: exact_width, svalue: *val_svalue, uvalue: *val_uvalue, reg: *opt_val_reg }), w))
            && store_is_typed((Stored { addr: *symb_addr, width: exact_width, svalue: *val_svalue, uvalue: *val_uvalue, reg: *opt_val_reg }), w),
{
    let ghost t0 = trace.acts@;
    let ghost r0 = registry@;
    let ghost s = Stored { addr: *symb_addr, width: exact_width, svalue: *val_svalue, uvalue: *val_uvalue, reg: *opt_val_reg };
    let ghost w0 = StackStore {
        iv: Interval::all(), initialized: false, is_num: false, type_var: None, typed: *symb_addr, svalue: None, uvalue: None,
        tes: seq![], kinds: seq![], vars: seq![], updates: seq![],
    };
    let (addr, seen) = store_clear(dom, symb_addr, exact_width, big_endian, registry, trace, Ghost(s), Ghost(w0));
    let ghost r1 = registry@;
    let (initialized, must_be_num, tested) = store_test(dom, opt_val_reg, registry, trace, Ghost(s), seen);
    let ghost w1 = tested@;
    let ghost t1 = trace.acts@;
    proof {
        assert(store_clear_acts(s, w1) == store_clear_acts(s, seen@));
        assert(t1 =~= t0 + (store_clear_acts(s, w1) + store_test_acts(s, w1)));
        lemma_known_later(r0, r1, *symb_addr);
        lemma_known_later(r0, r1, *val_svalue);
        lemma_known_later(r0, r1, *val_uvalue);
    }
    if !initialized {
        let width = Interval::from_i64(exact_width as i64);
        drop_values(dom, &addr, &width, big_endian, registry, trace, Ghost(s), Ghost(w1));
        proof { lemma_known_later(r1, registry@, *symb_addr); }
        let sizes = update_stack_numeric_size_after_store(dom, symb_addr, exact_width, false, registry, trace);
        proof {
            let w2 = StackStore { vars: sizes@.0, updates: sizes@.1, ..w1 };
            lemma_store_parts(s, w1, w2);
            assert(trace.acts@ =~= t0 + stack_store_acts(s, w2));
            assert(store_is_typed(s, w2));
        }
        return;
    }
    let rest = store_rest(dom, &addr, symb_addr, exact_width, val_svalue, val_uvalue, opt_val_reg, must_be_num, big_endian, registry, trace, Ghost(s), Ghost(w1));
    proof {
        let w2 = rest@;
        lemma_store_parts(s, w1, w2);
        assert(trace.acts@ =~= t0 + stack_store_acts(s, w2));
    }
}

/// Writes the type and the values, and brings the pointers up to date.
fn store_rest(dom: &mut EbpfDomain, addr: &Interval, symb_addr: &LinearExpression, exact_width: i32, val_svalue: &LinearExpression, val_uvalue: &LinearExpression, opt_val_reg: &Option<Reg>, must_be_num: bool, big_endian: bool, registry: &mut VariableRegistry, trace: &mut Trace, Ghost(s): Ghost<Stored>, Ghost(w1): Ghost<StackStore>) -> (r: Ghost<StackStore>)
    requires
        old(trace).leads_to(old(dom), old(registry)@),
        big_endian == old(trace).be@,
        s == (Stored { addr: *symb_addr, width: exact_width, svalue: *val_svalue, uvalue: *val_uvalue, reg: *opt_val_reg }),
        w1.iv == *addr,
        w1.is_num == must_be_num,
        opt_val_reg is None ==> must_be_num,
        opt_val_reg matches Some(q) ==> q.ok() && w1.initialized,
        zone_domain::knows_terms(old(registry)@, symb_addr.terms@),
        zone_domain::knows_terms(old(registry)@, val_svalue.terms@),
        zone_domain::knows_terms(old(registry)@, val_uvalue.terms@),
    ensures
        final(trace).leads_to(final(dom), final(registry)@),
        final(trace).grew(old(trace), store_type_acts(s, r@) + store_values_acts(s, r@) + sizes_after_store_acts(s.addr, s.width as int, r@.is_num, r@.vars, r@.updates)),
        r@.iv == w1.iv && r@.initialized == w1.initialized && r@.is_num == w1.is_num,
        store_is_typed(s, r@),
{
    let ghost t0 = trace.acts@;
    let ghost r1 = registry@;
    let typed = store_type(dom, addr, exact_width, opt_val_reg, must_be_num, registry, trace, Ghost(s), Ghost(w1));
    let ghost w2 = typed@;
    let ghost r2 = registry@;
    proof {
        lemma_known_later(r1, r2, *symb_addr);
        lemma_known_later(r1, r2, *val_svalue);
        lemma_known_later(r1, r2, *val_uvalue);
    }
    let valued = store_values(dom, addr, exact_width, val_svalue, val_uvalue, opt_val_reg, must_be_num, big_endian, registry, trace, Ghost(s), Ghost(w2));
    let ghost w3 = valued@;
    proof { lemma_known_later(r2, registry@, *symb_addr); }
    let sizes = update_stack_numeric_size_after_store(dom, symb_addr, exact_width, must_be_num, registry, trace);
    let ghost w4 = StackStore { vars: sizes@.0, updates: sizes@.1, ..w3 };
    proof {
        lemma_rest_parts(s, w2, w3, w4);
        assert(trace.acts@ =~= t0 + (store_type_acts(s, w4) + store_values_acts(s, w4) + sizes_after_store_acts(s.addr, s.width as int, w4.is_num, w4.vars, w4.updates)));
    }
    Ghost(w4)
}

proof fn lemma_rest_parts(s: Stored, w2: StackStore, w3: StackStore, w4: StackStore)
    requires
        w3 == (StackStore { svalue: w3.svalue, uvalue: w3.uvalue, tes: w3.tes, kinds: w3.kinds, ..w2 }),
        w4 == (StackStore { vars: w4.vars, updates: w4.updates, ..w3 }),
        store_is_typed(s, w2),
    ensures
        store_type_acts(s, w4) == store_type_acts(s, w2),
        store_values_acts(s, w4) == store_values_acts(s, w3),
        store_is_typed(s, w4),
{
}

proof fn lemma_store_parts(s: Stored, a: StackStore, b: StackStore)
    requires a.iv == b.iv, a.initialized == b.initialized, a.is_num == b.is_num,
    ensures store_clear_acts(s, a) == store_clear_acts(s, b), store_test_acts(s, a) == store_test_acts(s, b), drop_values_acts(s, a) == drop_values_acts(s, b),
{
}

}
