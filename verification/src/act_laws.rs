//! What the acts of an instruction do to the values of variables.
use vstd::prelude::*;
use crate::acts;
use crate::acts::{Act, Place};
use crate::arith::linear_expression::Env;
use crate::arith::variable::Variable;
use crate::array_domain;
use crate::branching;
use crate::branching::{Acc, Transition};
use crate::demands;
use crate::ebpf_memory;
use crate::interval_laws;
use crate::numeric_ops;
use crate::numeric_steps;
use crate::numeric_steps::{Num, Step};
use crate::rcp;
use crate::step_laws;
use crate::syntax::Reg;
use crate::type_domain::State;
use crate::type_encoding::{DataKind, TypeEncoding, TypeSet};
use crate::var_registry;
use crate::var_registry::RegistryView;
use crate::zone_model;

verus! {

/// A valuation that a place admits.
pub open spec fn admits(p: Place, e: Env) -> bool {
    p.0.num() is Some && zone_model::proper(p.0.num()->Some_0) && zone_model::zholds(p.0.num()->Some_0, e) && interval_laws::modest(e)
}

/// A well-formed state admits what it describes.
pub proof fn lemma_admits(p: Place, e: Env)
    requires p.0.wf(), demands::describes(&p.0, e),
    ensures admits(p, e),
{
    p.0.state.values.dom->Some_0.dom.constraints_are_proper();
}

/// What an act makes of the values of the variables.
pub open spec fn act_moves(act: Act, e: Env, f: Env) -> bool {
    match act {
        Act::Update(_, ops) => step_laws::reaches(ops, e, f),
        Act::TypeBy(_, _) | Act::StoreNumbers(_, _) | Act::InGroup(_, _, _) | Act::MayHave(_, _, _) | Act::SameType(_, _, _) | Act::HasType(_, _, _) | Act::Initialized(_, _)
        | Act::Entails(_, _) | Act::Meets(_, _) | Act::IsNothing(_) | Act::MayPoint(_, _) | Act::Value(_, _) | Act::ValueOf(_, _) | Act::OffsetOf(_, _)
        | Act::Iterated(_, _) | Act::TypeVars(_) | Act::Named(_, _) | Act::KindVar(_, _, _) | Act::AssumeImm(_, _, _, _, _, _) | Act::AssumeReg(_, _, _, _, _, _, _)
        | Act::Load(_, _, _, _) | Act::LoadType(_, _, _) | Act::HavocType(_, _) | Act::StoreType(_, _, _, _) => f == e,
        _ => false,
    }
}

/// An act is sound.
pub proof fn act_is_sound(be: bool, a: Place, act: Act, b: Place, e: Env, f: Env)
    requires acts::acted(be, a, act, b), admits(a, e), act_moves(act, e, f),
    ensures admits(b, f),
{
    reveal(acts::acted);
    if let Act::Update(c, ops) = act {
        step_laws::operations_are_sound(a.0.num(), a.1, a.1, ops, b.0.num(), e, f);
    }
}

/// The acts lead from one valuation to another.
pub open spec fn leads(acts: Seq<Act>, e: Env, f: Env) -> bool {
    exists|path: Seq<Env>| path.len() == acts.len() + 1 && path[0] == e && path[acts.len() as int] == f && #[trigger] is_route(acts, path)
}

pub open spec fn is_route(acts: Seq<Act>, path: Seq<Env>) -> bool {
    forall|i: int| 0 <= i < acts.len() ==> #[trigger] route_step(acts, path, i)
}

pub open spec fn route_step(acts: Seq<Act>, path: Seq<Env>, i: int) -> bool {
    act_moves(acts[i], path[i], path[i + 1])
}

pub proof fn leads_nowhere(e: Env)
    ensures leads(seq![], e, e),
{
    assert(is_route(seq![], seq![e]));
}

pub proof fn leads_next(acts: Seq<Act>, e: Env, f: Env, act: Act, g: Env)
    requires leads(acts, e, f), act_moves(act, f, g),
    ensures leads(acts.push(act), e, g),
{
    let path = choose|path: Seq<Env>| path.len() == acts.len() + 1 && path[0] == e && path[acts.len() as int] == f && #[trigger] is_route(acts, path);
    let more = path.push(g);
    let all = acts.push(act);
    assert forall|i: int| 0 <= i < all.len() implies #[trigger] route_step(all, more, i) by {
        if i < acts.len() { assert(route_step(acts, path, i)); }
    }
    assert(is_route(all, more));
}

/// Acts are sound, one after the other.
pub proof fn acts_are_sound(be: bool, a: Place, acts: Seq<Act>, b: Place, e: Env, f: Env)
    requires acts::follows(be, a, acts, b), admits(a, e), leads(acts, e, f),
    ensures admits(b, f),
{
    let places = choose|places: Seq<Place>| places.len() == acts.len() + 1 && places[0] == a && places[acts.len() as int] == b && #[trigger] acts::is_walk(be, places, acts);
    let path = choose|path: Seq<Env>| path.len() == acts.len() + 1 && path[0] == e && path[acts.len() as int] == f && #[trigger] is_route(acts, path);
    lemma_route(be, places, acts, path, acts.len() as int);
}

proof fn lemma_route(be: bool, places: Seq<Place>, acts: Seq<Act>, path: Seq<Env>, n: int)
    requires
        places.len() == acts.len() + 1,
        path.len() == acts.len() + 1,
        acts::is_walk(be, places, acts),
        is_route(acts, path),
        admits(places[0], path[0]),
        0 <= n <= acts.len(),
    ensures admits(places[n], path[n]),
    decreases n,
{
    if n > 0 {
        let i = n - 1;
        lemma_route(be, places, acts, path, i);
        assert(acts::acted(be, places[i], acts[i], places[i + 1]));
        assert(route_step(acts, path, i));
        act_is_sound(be, places[i], acts[i], places[i + 1], path[i], path[i + 1]);
    }
}

/// Two parts of the acts.
pub proof fn lemma_split(be: bool, a: Place, first: Seq<Act>, second: Seq<Act>, b: Place) -> (mid: Place)
    requires acts::follows(be, a, first + second, b),
    ensures acts::follows(be, a, first, mid), acts::follows(be, mid, second, b),
{
    let all = first + second;
    let n = first.len() as int;
    let path = choose|path: Seq<Place>| path.len() == all.len() + 1 && path[0] == a && path[all.len() as int] == b && #[trigger] acts::is_walk(be, path, all);
    let p = path.take(n + 1);
    let q = path.skip(n);
    assert forall|i: int| 0 <= i < first.len() implies #[trigger] acts::acted(be, p[i], first[i], p[i + 1]) by {
        assert(acts::acted(be, path[i], all[i], path[i + 1]));
    }
    assert forall|i: int| 0 <= i < second.len() implies #[trigger] acts::acted(be, q[i], second[i], q[i + 1]) by {
        assert(acts::acted(be, path[n + i], all[n + i], path[n + i + 1]));
    }
    assert(acts::is_walk(be, p, first));
    assert(acts::is_walk(be, q, second));
    path[n]
}

/// A sequence of one act.
pub proof fn lemma_one(be: bool, a: Place, act: Act, b: Place)
    requires acts::follows(be, a, seq![act], b),
    ensures acts::acted(be, a, act, b),
{
    let one = seq![act];
    let path = choose|path: Seq<Place>| path.len() == 2 && path[0] == a && path[1] == b && #[trigger] acts::is_walk(be, path, one);
    let i: int = 0;
    assert(acts::acted(be, path[i], one[i], path[i + 1]));
}

/// No acts.
pub proof fn lemma_none(be: bool, a: Place, b: Place)
    requires acts::follows(be, a, seq![], b),
    ensures a == b,
{
    let path = choose|path: Seq<Place>| path.len() == 1 && path[0] == a && path[0] == b && #[trigger] acts::is_walk(be, path, seq![]);
}

/// The number of numeric bytes behind a register's pointer may change; nothing else does.
pub proof fn sizes_are_sound(be: bool, a: Place, reg: Reg, b: Place, last: RegistryView, e: Env) -> (f: Env)
    requires
        acts::acted(be, a, Act::NumericSize(var_registry::reg_var(DataKind::Types, reg.v as int)), b),
        admits(a, e),
        a.1.ready(),
        last.wf(),
        last.extends(b.1),
        reg.v <= 11,
    ensures
        admits(b, f),
        b.0.stack == a.0.stack,
        forall|k: u64| k != rcp::id_of(DataKind::StackNumericSizes, reg) ==> #[trigger] f(k) == e(k),
        f(rcp::id_of(DataKind::StackNumericSizes, reg)) == e(rcp::id_of(DataKind::StackNumericSizes, reg))
            || array_domain::numeric_from(a.0.stack.bits(), e(rcp::id_of(DataKind::StackOffsets, reg)), f(rcp::id_of(DataKind::StackNumericSizes, reg))),
{
    reveal(acts::acted);
    let v = var_registry::reg_var(DataKind::Types, reg.v as int);
    let (size, offset) = choose|size: Variable, offset: Variable| #[trigger] acts::size_set(a, v, size, offset, b);
    a.1.register_variable(DataKind::Types, reg.v as int);
    var_registry::register_rekinding(DataKind::Types, DataKind::StackNumericSizes, reg.v as int);
    last.extending_is_transitive(b.1, a.1);
    last.readiness_lasts(a.1);
    last.register_variable(DataKind::StackNumericSizes, reg.v as int);
    let name = var_registry::reg_name(DataKind::StackNumericSizes, reg.v as int);
    assert(rcp::is_named(b.1, size, name));
    assert(last.names[size.id as int] == b.1.names[size.id as int]);
    last.var_is_unique(name, size.id as int);
    assert(size.id == rcp::id_of(DataKind::StackNumericSizes, reg));
    let ops = acts::size_steps(&a.0, v, size, offset);
    let n = array_domain::least_numbers(a.0.stack.bits(), a.0.state.values.interval(offset.id));
    step_laws::reaches_nothing(e);
    if ops.len() == 0 {
        assert(ops =~= seq![]);
        step_laws::operations_are_sound(a.0.num(), a.1, b.1, ops, b.0.num(), e, e);
        e
    } else {
        var_registry::register_rekinding(DataKind::Types, DataKind::StackOffsets, reg.v as int);
        last.register_variable(DataKind::StackOffsets, reg.v as int);
        let other = var_registry::reg_name(DataKind::StackOffsets, reg.v as int);
        assert(rcp::is_named(b.1, offset, other));
        assert(last.names[offset.id as int] == b.1.names[offset.id as int]);
        last.var_is_unique(other, offset.id as int);
        step_laws::lemma_modest(e);
        zone_model::interval_is_sound(a.0.num()->Some_0, offset.id, e);
        array_domain::counted_bytes_are_numbers(a.0.stack.bits(), a.0.state.values.interval(offset.id), e(offset.id));
        let f = zone_model::env_with(e, size.id, n as i128 as int);
        assert(ops =~= seq![numeric_ops::set_number(size.id, n as int)]);
        assert(f =~= zone_model::env_with(e, size.id, f(size.id)));
        assert(interval_laws::modest(f)) by {
            assert forall|k: u64| -interval_laws::MODEST <= #[trigger] f(k) <= interval_laws::MODEST by {
                assert(-interval_laws::MODEST <= e(k) <= interval_laws::MODEST);
            }
        }
        step_laws::reaches_next(seq![], e, e, numeric_ops::set_number(size.id, n as int), f);
        assert(Seq::<Step>::empty().push(numeric_ops::set_number(size.id, n as int)) =~= ops);
        step_laws::operations_are_sound(a.0.num(), a.1, b.1, ops, b.0.num(), e, f);
        f
    }
}

// ---------------------------------------------------------------------------------------------
// Registers of one type
// ---------------------------------------------------------------------------------------------

/// A register has one type.
pub open spec fn has_type(p: Place, reg: Reg, te: TypeEncoding) -> bool {
    p.0.state.types.state is Some && p.0.state.types.s().types_of(rcp::type_id(reg)).is_just(te)
}

pub proof fn lemma_one_type(p: Place, reg: Reg, te: TypeEncoding)
    requires has_type(p, reg, te), !(te is TUninit),
    ensures rcp::initialized(&p.0.state, reg), p.0.state.types.iterated(rcp::type_id(reg)) == seq![te],
{
    let ts = p.0.state.types.s().types_of(rcp::type_id(reg));
    let rest = ts.less(TypeEncoding::TUninit);
    assert(rest.is_just(te)) by {
        assert forall|u: TypeEncoding| #[trigger] rest.has(u) <==> u == te by {
            ts.algebra(ts, TypeEncoding::TUninit, u);
        }
    }
    assert(!ts.has(TypeEncoding::TUninit));
    rest.lone_member(te);
    assert(rest.members() =~= seq![te]);
}

/// Where a register has one type, going through its types is one transition.
pub proof fn lemma_single(a: Place, reg: Reg, rel: Transition, b: Place, te: TypeEncoding) -> (r: (Place, Place))
    requires branching::over_types(a, reg, rel, b), has_type(a, reg, te), !(te is TUninit),
    ensures
        rcp::is_branch(&a.0.state, reg, a.1, seq![te], te, &r.0.0.state),
        r.0.1 == a.1,
        r.0.0.stack == a.0.stack,
        rel(r.0, te, r.1),
        b.0.state.same(&r.1.0.state),
        b.0.stack == r.1.0.stack,
        b.1.extends(r.1.1),
{
    lemma_one_type(a, reg, te);
    let tes = a.0.state.types.iterated(rcp::type_id(reg));
    let (ins, outs, accs) = choose|ins: Seq<Place>, outs: Seq<Place>, accs: Seq<Acc>| #[trigger] branching::branched(a, reg, rel, ins, outs, accs, 1)
        && b.0.state == accs[1].0 && b.1 == accs[1].1 && b.0.stack == outs[0].0.stack;
    let i: int = 0;
    assert(branching::branch_step(a, reg, rel, tes, ins, outs, accs, i));
    (ins[0], outs[0])
}

/// The branch of the one type admits what the place admits.
pub proof fn lemma_branch_admits(a: Place, reg: Reg, te: TypeEncoding, inp: Place, e: Env)
    requires rcp::is_branch(&a.0.state, reg, a.1, seq![te], te, &inp.0.state), admits(a, e), has_type(a, reg, te),
    ensures admits(inp, e), has_type(inp, reg, te), inp.0.state.types.state is Some,
{
    let one = seq![te];
    assert(one.drop_last() =~= seq![]);
    assert(rcp::other_kind_ids(reg.v as int, one.drop_last(), Some(te)) =~= seq![]);
    assert(rcp::other_kind_ids(reg.v as int, one, Some(te)) =~= seq![]);
    assert(rcp::forget_steps(rcp::other_kind_ids(reg.v as int, one, Some(te))) =~= seq![]);
    step_laws::reaches_nothing(e);
    step_laws::operations_are_sound(a.0.num(), a.1, a.1, seq![], inp.0.num(), e, e);
    let ts = a.0.state.types.s().types_of(rcp::type_id(reg));
    assert(ts.common(TypeSet::just(te)).has(te)) by { ts.algebra(TypeSet::just(te), te, te); assert(ts.has(te)); }
    assert(ts.common(TypeSet::just(te)).inhabited());
    assert forall|u: TypeEncoding| #[trigger] inp.0.state.types.s().types_of(rcp::type_id(reg)).has(u) <==> u == te by {
        ts.algebra(TypeSet::just(te), te, u);
    }
}

/// The same numeric state admits the same valuations.
pub proof fn lemma_same_admits(a: Place, b: Place, e: Env)
    requires admits(a, e), b.0.num() == a.0.num(),
    ensures admits(b, e),
{
}

/// A variable with one type is one that something is known of.
pub proof fn lemma_known(s: State, v: u64, te: TypeEncoding)
    requires s.wf(), s.types_of(v).is_just(te),
    ensures s.known(v),
{
    s.classes(v, v, v);
    if !s.known(v) {
        let other = if te is TNum { TypeEncoding::TCtx } else { TypeEncoding::TNum };
        TypeSet::full().algebra(TypeSet::full(), te, other);
        assert(s.types_of(v).has(other));
    }
}

/// The branch of the one type has the numeric state of the place.
pub proof fn lemma_branch_same(a: Place, reg: Reg, te: TypeEncoding, inp: Place)
    requires rcp::is_branch(&a.0.state, reg, a.1, seq![te], te, &inp.0.state),
    ensures inp.0.num() == a.0.num(),
{
    let one = seq![te];
    assert(one.drop_last() =~= seq![]);
    assert(rcp::other_kind_ids(reg.v as int, one.drop_last(), Some(te)) =~= seq![]);
    assert(rcp::other_kind_ids(reg.v as int, one, Some(te)) =~= seq![]);
    let ops = rcp::forget_steps(rcp::other_kind_ids(reg.v as int, one, Some(te)));
    assert(ops =~= seq![]);
    let states = choose|states: Seq<Num>| states.len() == 1 && states[0] == a.0.num() && states[0] == inp.0.num() && #[trigger] numeric_steps::is_path(states, a.1, a.1, ops);
}

/// One numeric operation.
pub proof fn lemma_step(be: bool, a: Place, op: Step, b: Place, e: Env, f: Env)
    requires
        acts::follows(be, a, seq![ebpf_memory::numbers(seq![op])], b),
        admits(a, e),
        step_laws::moves(op, e, f),
        step_laws::operand_fits(op),
        interval_laws::modest(f),
    ensures admits(b, f),
{
    lemma_reach(op, e, f);
    lemma_one(be, a, ebpf_memory::numbers(seq![op]), b);
    act_is_sound(be, a, ebpf_memory::numbers(seq![op]), b, e, f);
}

pub proof fn lemma_reach(op: Step, e: Env, f: Env)
    requires step_laws::moves(op, e, f), step_laws::operand_fits(op), interval_laws::modest(e), interval_laws::modest(f),
    ensures step_laws::reaches(seq![op], e, f),
{
    step_laws::reaches_nothing(e);
    step_laws::reaches_next(seq![], e, e, op, f);
    assert(Seq::<Step>::empty().push(op) =~= seq![op]);
}

/// An act that leaves the values of the variables as they are.
pub proof fn lemma_still(be: bool, a: Place, act: Act, b: Place, e: Env)
    requires acts::follows(be, a, seq![act], b), admits(a, e), act_moves(act, e, e),
    ensures admits(b, e),
{
    lemma_one(be, a, act, b);
    act_is_sound(be, a, act, b, e, e);
}

/// Forgetting variables leaves the valuation, and others that differ there.
pub proof fn lemma_forgets(be: bool, a: Place, c: acts::TypeChange, ids: Seq<u64>, b: Place, e: Env, f: Env)
    requires
        acts::follows(be, a, seq![Act::Update(c, rcp::forget_steps(ids))], b),
        admits(a, e),
        interval_laws::modest(f),
        forall|k: u64| !ids.contains(k) ==> #[trigger] f(k) == e(k),
    ensures admits(b, f),
{
    lemma_one(be, a, Act::Update(c, rcp::forget_steps(ids)), b);
    lemma_reach_forgets(ids, e, f);
    act_is_sound(be, a, Act::Update(c, rcp::forget_steps(ids)), b, e, f);
}

pub proof fn lemma_reach_forgets(ids: Seq<u64>, e: Env, f: Env)
    requires interval_laws::modest(e), interval_laws::modest(f), forall|k: u64| !ids.contains(k) ==> #[trigger] f(k) == e(k),
    ensures step_laws::reaches(rcp::forget_steps(ids), e, f),
    decreases ids.len(),
{
    if ids.len() == 0 {
        assert(f =~= e);
        step_laws::reaches_nothing(e);
        assert(rcp::forget_steps(ids) =~= seq![]);
    } else {
        let head = ids.drop_last();
        let v = ids.last();
        let g: Env = |k: u64| if head.contains(k) { f(k) } else { e(k) };
        assert(interval_laws::modest(g)) by {
            assert forall|k: u64| -interval_laws::MODEST <= #[trigger] g(k) <= interval_laws::MODEST by {
                assert(-interval_laws::MODEST <= e(k) <= interval_laws::MODEST && -interval_laws::MODEST <= f(k) <= interval_laws::MODEST);
            }
        }
        lemma_reach_forgets(head, e, g);
        assert(f =~= zone_model::env_with(g, v, f(v))) by {
            let h = zone_model::env_with(g, v, f(v));
            assert forall|k: u64| #[trigger] f(k) == h(k) by {
                if k != v && !head.contains(k) {
                    assert(!ids.contains(k)) by {
                        if ids.contains(k) {
                            let i = choose|i: int| 0 <= i < ids.len() && ids[i] == k;
                            if i < head.len() { assert(head[i] == k); }
                        }
                    }
                }
            }
        }
        step_laws::reaches_next(rcp::forget_steps(head), e, g, Step::Forget(v), f);
        assert(rcp::forget_steps(head).push(Step::Forget(v)) =~= rcp::forget_steps(ids));
    }
}

}
