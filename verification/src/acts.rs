//! A vocabulary for what instructions do to a state, and operations that keep a record in it.
use vstd::prelude::*;
use crate::arith::linear_constraint::LinearConstraint;
use crate::arith::linear_expression::LinearExpression;
use crate::arith::number::Number;
use crate::arith::variable::Variable;
use crate::array_domain;
use crate::array_domain::{ArrayMap, Cell, LoadedType};
use crate::bitset_domain;
use crate::ebpf_domain::EbpfDomain;
use crate::finite_assume;
use crate::interval::Interval;
use crate::numeric_ops;
use crate::numeric_ops::Log;
use crate::numeric_steps;
use crate::numeric_steps::{Lin, Step};
use crate::rcp;
use crate::syntax::{ConditionOp, Reg};
use crate::type_domain;
use crate::type_domain::{reg_type, TypeDomain};
use crate::type_encoding::{DataKind, TypeEncoding, TypeSet};
use crate::var_registry;
use crate::var_registry::{RegistryView, VariableRegistry};
use crate::zone_domain;
use crate::zone_model;

verus! {

/// What happens to the types of variables.
pub enum TypeChange {
    Same,
    Given(u64, TypeEncoding),
    Forgot(u64),
    Copied(u64, u64),
}

/// One thing that happens to a state, or a test of it with the answer.
pub enum Act {
    /// A change of types and a sequence of numeric operations.
    Update(TypeChange, Seq<Step>),
    /// One register is copied to another.
    CopyReg(Reg, Reg),
    /// A type variable takes the type that an expression stands for; any type where there is none.
    TypeBy(u64, Option<LinearExpression>),
    /// Types are renamed.
    RenameTypes(Seq<(Variable, Variable)>),
    /// No values are possible any more.
    Nothing,
    /// The locations that may have a type are forgotten.
    ForgetLocations(TypeEncoding),
    /// The types, or the values of a kind, of a range of the stack are forgotten.
    HavocType(Interval, Interval),
    Havoc(DataKind, Interval, Interval),
    /// A range is cleared for a value or a type. The variable of its cell comes out.
    Store(DataKind, Interval, Interval, Option<Variable>),
    StoreType(Interval, Interval, bool, Option<Variable>),
    /// A value or a type is read.
    Load(DataKind, Interval, i32, Option<LinearExpression>),
    LoadType(Interval, i32, Option<LinearExpression>),
    /// Bytes become numbers.
    StoreNumbers(Interval, Interval),
    /// The number of numeric bytes that a pointer points to is found again.
    NumericSize(Variable),
    /// Tests.
    InGroup(Reg, TypeSet, bool),
    MayHave(Reg, TypeEncoding, bool),
    SameType(Reg, Reg, bool),
    HasType(Reg, TypeEncoding, bool),
    Initialized(Reg, bool),
    Entails(Lin, bool),
    Meets(Lin, bool),
    /// Whether no values are possible.
    IsNothing(bool),
    /// Whether a type variable is initialized and may point to the stack.
    MayPoint(Variable, bool),
    /// What an expression or a variable evaluates to.
    Value(LinearExpression, Interval),
    ValueOf(u64, Interval),
    /// The offset of a register that has one type.
    OffsetOf(Reg, Option<Variable>),
    /// The types that a register may have.
    Iterated(Reg, Seq<TypeEncoding>),
    /// The variables of types.
    TypeVars(Seq<Variable>),
    /// The variable with a name, or the variable of a kind of the owner of a type.
    Named(Seq<char>, Variable),
    KindVar(DataKind, Variable, Variable),
    /// The constraints that follow from a comparison.
    AssumeImm(ConditionOp, bool, u64, u64, i64, Seq<LinearConstraint>),
    AssumeReg(ConditionOp, bool, u64, u64, u64, u64, Seq<LinearConstraint>),
}

/// A state with the registry that names its variables.
pub type Place = (EbpfDomain, RegistryView);

/// A change of types.
pub open spec fn types_changed(a: TypeDomain, c: TypeChange, b: TypeDomain) -> bool {
    match c {
        TypeChange::Same => b == a,
        TypeChange::Given(v, te) => (a.state is Some <==> b.state is Some) && (a.state is Some ==> type_domain::given(a.s(), v, te, b.s())),
        TypeChange::Forgot(v) => (a.state is Some <==> b.state is Some) && (a.state is Some ==> type_domain::forgot(a.s(), v, b.s())),
        TypeChange::Copied(v, w) => (a.state is Some <==> b.state is Some) && (a.state is Some ==> type_domain::copied(a.s(), v, w, b.s())),
    }
}

/// A type variable takes the type of an expression.
pub open spec fn type_by(a: TypeDomain, v: u64, e: Option<LinearExpression>, b: TypeDomain) -> bool {
    &&& b.state is Some <==> a.state is Some
            && !(e matches Some(x) && x.terms.entries().len() == 0 && !(-7 <= type_domain::type_number(x.constant, -7) <= 0))
    &&& b.state is Some ==> match e {
        Some(x) => type_domain::assigned_expr(a.s(), v, &x, b.s()),
        None => type_domain::forgot(a.s(), v, b.s()),
    }
}

/// A constraint that certainly holds, or whose negation leaves a solution.
pub open spec fn entail_answer(d: &EbpfDomain, r: RegistryView, l: Lin, answer: bool) -> bool {
    if answer {
        d.num() is None || exists|c: LinearConstraint| l == #[trigger] numeric_steps::lin_of(&c) && c.expression.orderly() && zone_domain::entailed(d.state.values.z(), &c, zone_domain::min_only_of(r))
    } else {
        d.num() is Some && exists|c: LinearConstraint| l == #[trigger] numeric_steps::lin_of(&c) && c.expression.orderly() && !c.is_tautology_spec()
            && (c.is_contradiction_spec() || !zone_domain::interval_proves(zone_model::zeval(d.state.values.z(), &c.expression), c.kind))
            && zone_domain::doubted(d.state.values.z(), &c, zone_domain::min_only_of(r))
    }
}

/// A constraint that leaves a solution, or is certainly impossible.
pub open spec fn meet_answer(d: &EbpfDomain, r: RegistryView, l: Lin, answer: bool) -> bool {
    if answer {
        d.num() is Some && exists|c: LinearConstraint| l == #[trigger] numeric_steps::lin_of(&c) && c.expression.orderly() && !c.is_contradiction_spec()
            && (d.state.values.z() == zone_model::ZEdges::empty() || zone_domain::addable(d.state.values.z(), &c, zone_domain::min_only_of(r)))
    } else {
        d.num() is None || exists|c: LinearConstraint| l == #[trigger] numeric_steps::lin_of(&c) && c.expression.orderly() && zone_domain::constraint_refuted(d.state.values.z(), &c, zone_domain::min_only_of(r))
    }
}

/// The numeric operations that set the number of numeric bytes behind a pointer.
pub open spec fn size_steps(d: &EbpfDomain, v: Variable, size: Variable, offset: Variable) -> Seq<Step> {
    let n = array_domain::least_numbers(d.stack.bits(), d.state.values.interval(offset.id));
    if d.state.types.may_have(v.id, TypeEncoding::TStack) && n > 0 { seq![numeric_ops::set_number(size.id, n)] } else { seq![] }
}

/// The number of numeric bytes behind a pointer is set, by the variables of its size and offset.
pub open spec fn size_set(a: Place, v: Variable, size: Variable, offset: Variable, b: Place) -> bool {
    &&& rcp::is_named(b.1, size, var_registry::rekinded(a.1.name(v), DataKind::StackNumericSizes))
    &&& a.0.state.types.may_have(v.id, TypeEncoding::TStack) ==> rcp::is_named(b.1, offset, var_registry::rekinded(a.1.name(v), DataKind::StackOffsets))
    &&& numeric_steps::performs(a.0.num(), a.1, b.1, size_steps(&a.0, v, size, offset), b.0.num())
}

/// The number of numeric bytes that a pointer points to is found again.
pub open spec fn numeric_size_found(a: Place, v: Variable, b: Place) -> bool {
    &&& b.0.stack == a.0.stack
    &&& b.0.state.types == a.0.state.types
    &&& b.1.extends(a.1)
    &&& exists|size: Variable, offset: Variable| #[trigger] size_set(a, v, size, offset, b)
}

/// The types of a range are forgotten.
pub open spec fn type_range_forgotten(a: Place, addr: Interval, width: Interval, b: Place) -> bool {
    &&& b.0.state.values == a.0.state.values
    &&& b.1.extends(a.1)
    &&& b.0.stack.map().total() == a.0.stack.map().total()
    &&& b.0.stack.bits() == (match array_domain::target(addr, width) {
        Some(t) => bitset_domain::filled(a.0.stack.bits(), t.offset as int,
            t.offset + bitset_domain::clipped(t.offset as int, crate::arith::number::wrap_signed(t.size as int, 32), a.0.stack.bits().len() as int), true),
        None => a.0.stack.bits(),
    })
    &&& exists|cells: Seq<Cell>| #[trigger] array_domain::lists_struck(cells, &a.0.stack.map(), DataKind::Types, addr, width)
            && array_domain::types_killed(&a.0.state.types, b.1, cells, &b.0.state.types)
    &&& array_domain::without_struck(&a.0.stack.map(), DataKind::Types, addr, width, &b.0.stack.map())
}

/// A range is cleared for a type.
pub open spec fn type_stored(a: Place, addr: Interval, width: Interval, is_num: bool, r: Option<Variable>, b: Place) -> bool {
    &&& b.0.state.values == a.0.state.values
    &&& b.1.extends(a.1)
    &&& b.0.stack.map().total() == a.0.stack.map().total()
    &&& b.0.stack.bits() == array_domain::bits_after_type(a.0.stack.bits(), addr, width, is_num)
    &&& exists|cells: Seq<Cell>| #[trigger] array_domain::lists_struck(cells, &a.0.stack.map(), DataKind::Types, addr, width)
            && array_domain::types_killed(&a.0.state.types, b.1, cells, &b.0.state.types)
    &&& match array_domain::target(addr, width) {
        Some(t) => r is Some && rcp::is_named(b.1, r->Some_0, t.name(DataKind::Types))
            && exists|m: ArrayMap| #[trigger] array_domain::without_struck(&a.0.stack.map(), DataKind::Types, addr, width, &m)
                && array_domain::with_cell(&m, DataKind::Types, t, &b.0.stack.map()),
        None => r is None && array_domain::without_struck(&a.0.stack.map(), DataKind::Types, addr, width, &b.0.stack.map()),
    }
}

/// A value is read from the stack.
pub open spec fn value_loaded(be: bool, a: Place, kind: DataKind, addr: Interval, width: i32, e: Option<LinearExpression>, b: Place) -> bool {
    &&& b.0.state == a.0.state
    &&& b.1.extends(a.1)
    &&& b.0.stack.bits() == a.0.stack.bits()
    &&& match array_domain::known_offset(addr) {
        None => e is None && array_domain::same_cells(&a.0.stack.map(), &b.0.stack.map()),
        Some(o) => {
            let c = Cell { offset: o, size: width as u32 };
            let made = array_domain::makes_cell(a.0.num(), b.1, &a.0.stack.map(), kind, c, be);
            &&& array_domain::loads_as(a.0.num(), b.1, &a.0.stack.map(), kind, c, be, e)
            &&& made ==> array_domain::with_cell(&a.0.stack.map(), kind, c, &b.0.stack.map())
            &&& !made ==> array_domain::same_cells(&a.0.stack.map(), &b.0.stack.map())
        },
    }
}

/// A type is read from the stack.
pub open spec fn type_loaded(a: Place, addr: Interval, width: i32, e: Option<LinearExpression>, b: Place) -> bool {
    &&& b.0.state == a.0.state
    &&& b.1.extends(a.1)
    &&& b.0.stack.bits() == a.0.stack.bits()
    &&& match array_domain::loaded_type(a.0.stack.bits(), &a.0.stack.map(), addr, width as int) {
        LoadedType::Number => e is Some && finite_assume::is_constant(&e->Some_0, TypeEncoding::TNum.code()) && array_domain::same_cells(&a.0.stack.map(), &b.0.stack.map()),
        LoadedType::Cell(c) => array_domain::reads_cell(b.1, DataKind::Types, c, e) && array_domain::with_cell(&a.0.stack.map(), DataKind::Types, c, &b.0.stack.map()),
        LoadedType::Nothing => e is None && array_domain::same_cells(&a.0.stack.map(), &b.0.stack.map()),
    }
}

/// A type variable is initialized and may point to the stack.
pub open spec fn may_point(d: &EbpfDomain, v: Variable) -> bool {
    d.state.types.state is Some && !d.state.types.s().types_of(v.id).has(TypeEncoding::TUninit) && d.state.types.s().types_of(v.id).has(TypeEncoding::TStack)
}

/// The offset of a register that has one type, where the type has an offset.
pub open spec fn offset_answer(d: &EbpfDomain, reg: Reg, v: Option<Variable>) -> bool {
    &&& v is Some <==> d.state.types.state is Some
            && exists|te: TypeEncoding| #[trigger] d.state.types.s().types_of(rcp::type_id(reg)).is_just(te) && rcp::offset_kind(te) is Some
    &&& v matches Some(x) ==> exists|te: TypeEncoding| #[trigger] d.state.types.s().types_of(rcp::type_id(reg)).is_just(te)
            && rcp::offset_kind(te) is Some && x == var_registry::reg_var(rcp::offset_kind(te)->Some_0, reg.v as int)
}

/// The constraints that follow from a comparison with an immediate.
pub open spec fn immediate_constraints(d: &EbpfDomain, op: ConditionOp, is64: bool, s: u64, u: u64, imm: i64, cs: Seq<LinearConstraint>) -> bool {
    &&& d.num() is None ==> cs.len() == 0
    &&& d.num() is Some ==> exists|rs: LinearExpression, ru: LinearExpression|
            #![trigger finite_assume::is_constant(&rs, imm as int), finite_assume::is_constant(&ru, imm as u64 as int)]
            finite_assume::is_constant(&rs, imm as int) && finite_assume::is_constant(&ru, imm as u64 as int)
            && finite_assume::states(cs, finite_assume::immediate_claims(d.state.values.z(), op, is64, s, u, imm, &rs, &ru))
}

/// The constraints that follow from a comparison of two registers.
pub open spec fn register_constraints(d: &EbpfDomain, op: ConditionOp, is64: bool, s: u64, u: u64, rsv: u64, ruv: u64, cs: Seq<LinearConstraint>) -> bool {
    &&& d.num() is None ==> cs.len() == 0
    &&& d.num() is Some ==> exists|rs: LinearExpression, ru: LinearExpression|
            #![trigger zone_domain::is_variable(&rs, rsv), zone_domain::is_variable(&ru, ruv)]
            zone_domain::is_variable(&rs, rsv) && zone_domain::is_variable(&ru, ruv)
            && finite_assume::states(cs, finite_assume::register_claims(d.state.values.z(), op, is64, s, u, rsv, ruv, &rs, &ru))
}

/// What one act does.
#[verifier::opaque]
pub open spec fn acted(be: bool, a: Place, act: Act, b: Place) -> bool {
    match act {
        Act::Update(c, ops) => {
            &&& b.1 == a.1
            &&& b.0.stack == a.0.stack
            &&& types_changed(a.0.state.types, c, b.0.state.types)
            &&& numeric_steps::performs(a.0.num(), a.1, a.1, ops, b.0.num())
        },
        Act::CopyReg(l, r) => {
            &&& b.1 == a.1
            &&& b.0.stack == a.0.stack
            &&& l.v == r.v ==> b.0.state == a.0.state
            &&& l.v != r.v ==> types_changed(a.0.state.types, TypeChange::Copied(rcp::type_id(l), rcp::type_id(r)), b.0.state.types)
                    && numeric_steps::performs(a.0.num(), a.1, a.1,
                        rcp::register_copy_steps(l, r, b.0.state.types.iterated(rcp::type_id(l)), b.0.state.types.iterated(rcp::type_id(r))), b.0.num())
        },
        Act::TypeBy(v, e) => b.1 == a.1 && b.0.stack == a.0.stack && b.0.state.values == a.0.state.values && type_by(a.0.state.types, v, e, b.0.state.types),
        Act::RenameTypes(pairs) => {
            &&& b.1 == a.1
            &&& b.0.stack == a.0.stack
            &&& b.0.state.values == a.0.state.values
            &&& a.0.state.types.state is Some <==> b.0.state.types.state is Some
            &&& a.0.state.types.state is Some ==> type_domain::relabeled_all(a.0.state.types.s(), pairs, b.0.state.types.s())
        },
        Act::Nothing => b.1 == a.1 && b.0.stack == a.0.stack && b.0.state.types == a.0.state.types && b.0.num() is None,
        Act::ForgetLocations(te) => {
            let n = a.1.type_variables().len();
            &&& b.0.stack == a.0.stack
            &&& b.1.extends(a.1)
            &&& a.0.state.types.state is Some <==> b.0.state.types.state is Some
            &&& a.0.state.types.state is Some ==> rcp::types_forgotten(a.0.state.types.s(), te, a.1, n, b.0.state.types.s())
            &&& exists|vars: Seq<Variable>| rcp::named_all(b.1, vars, rcp::forgotten_names(&a.0.state.types, te, a.1, n))
                    && #[trigger] numeric_steps::performs(a.0.num(), a.1, b.1, rcp::forget_steps(rcp::ids_of(vars)), b.0.num())
        },
        Act::HavocType(addr, width) => type_range_forgotten(a, addr, width, b),
        Act::Havoc(kind, addr, width) => {
            &&& b.0.state.types == a.0.state.types
            &&& b.0.stack.bits() == a.0.stack.bits()
            &&& b.1.extends(a.1)
            &&& array_domain::cleared(a.0.stack.bits(), a.0.num(), &a.0.stack.map(), a.1, b.1, kind, addr, width, be, b.0.num(), &b.0.stack.map())
        },
        Act::Store(kind, addr, width, r) => {
            &&& b.0.state.types == a.0.state.types
            &&& b.0.stack.bits() == a.0.stack.bits()
            &&& b.1.extends(a.1)
            &&& array_domain::stored(a.0.stack.bits(), a.0.num(), &a.0.stack.map(), a.1, b.1, kind, addr, width, be, b.0.num(), &b.0.stack.map(), r)
        },
        Act::StoreType(addr, width, is_num, r) => type_stored(a, addr, width, is_num, r, b),
        Act::Load(kind, addr, width, e) => value_loaded(be, a, kind, addr, width, e, b),
        Act::LoadType(addr, width, e) => type_loaded(a, addr, width, e, b),
        Act::StoreNumbers(addr, width) => {
            &&& b.1 == a.1
            &&& b.0.state == a.0.state
            &&& b.0.stack.map() == a.0.stack.map()
            &&& b.0.stack.bits() == array_domain::numbers_stored(a.0.stack.bits(), addr, width)
        },
        Act::NumericSize(v) => numeric_size_found(a, v, b),
        Act::InGroup(r, ts, y) => a == b && y == (a.0.state.types.state is None || a.0.state.types.s().types_of(rcp::type_id(r)).subset(ts)),
        Act::MayHave(r, te, y) => a == b && y == a.0.state.types.may_have(rcp::type_id(r), te),
        Act::SameType(r, q, y) => a == b && y == (a.0.state.types.state is None || a.0.state.types.s().linked(rcp::type_id(r), rcp::type_id(q))),
        Act::HasType(r, te, y) => a == b && y == (a.0.state.types.state is None || a.0.state.types.s().types_of(rcp::type_id(r)) == TypeSet::just(te)),
        Act::Initialized(r, y) => a == b && y == rcp::initialized(&a.0.state, r),
        Act::Entails(l, y) => a == b && entail_answer(&a.0, a.1, l, y),
        Act::Meets(l, y) => a == b && meet_answer(&a.0, a.1, l, y),
        Act::IsNothing(y) => a == b && y == (a.0.num() is None),
        Act::MayPoint(v, y) => a == b && y == may_point(&a.0, v),
        Act::OffsetOf(r, v) => a == b && offset_answer(&a.0, r, v),
        Act::Iterated(r, tes) => a == b && tes == a.0.state.types.iterated(rcp::type_id(r)),
        Act::TypeVars(vars) => a == b && vars == a.1.type_variables(),
        Act::Named(name, x) => b.0 == a.0 && b.1.extends(a.1) && rcp::is_named(b.1, x, name),
        Act::KindVar(kind, v, x) => b.0 == a.0 && b.1.extends(a.1) && rcp::is_named(b.1, x, var_registry::rekinded(a.1.name(v), kind)),
        Act::AssumeImm(op, is64, s, u, imm, cs) => a == b && immediate_constraints(&a.0, op, is64, s, u, imm, cs),
        Act::AssumeReg(op, is64, s, u, rs, ru, cs) => a == b && register_constraints(&a.0, op, is64, s, u, rs, ru, cs),
        Act::Value(e, iv) => a == b && iv == a.0.state.values.value_of(&e),
        Act::ValueOf(v, iv) => a == b && iv == a.0.state.values.interval(v),
    }
}

/// The acts lead from one place to another.
pub open spec fn follows(be: bool, a: Place, acts: Seq<Act>, b: Place) -> bool {
    exists|path: Seq<Place>| path.len() == acts.len() + 1 && path[0] == a && path[acts.len() as int] == b && #[trigger] is_walk(be, path, acts)
}

/// Each place follows from the one before by the act between them.
pub open spec fn is_walk(be: bool, path: Seq<Place>, acts: Seq<Act>) -> bool {
    forall|i: int| 0 <= i < acts.len() ==> #[trigger] acted(be, path[i], acts[i], path[i + 1])
}

/// No act changes nothing.
pub proof fn follows_nothing(be: bool, a: Place)
    ensures follows(be, a, seq![], a),
{
    assert(is_walk(be, seq![a], seq![]));
}

/// One act more.
pub proof fn follows_next(be: bool, a: Place, acts: Seq<Act>, b: Place, act: Act, c: Place)
    requires follows(be, a, acts, b), acted(be, b, act, c),
    ensures follows(be, a, acts.push(act), c),
{
    let path = choose|path: Seq<Place>| path.len() == acts.len() + 1 && path[0] == a && path[acts.len() as int] == b && #[trigger] is_walk(be, path, acts);
    let more = path.push(c);
    let all = acts.push(act);
    assert forall|i: int| 0 <= i < all.len() implies #[trigger] acted(be, more[i], all[i], more[i + 1]) by {
        if i < acts.len() { assert(acted(be, path[i], acts[i], path[i + 1])); }
    }
    assert(is_walk(be, more, all));
}

/// Two sequences of acts one after the other.
pub proof fn follows_both(be: bool, a: Place, first: Seq<Act>, b: Place, second: Seq<Act>, c: Place)
    requires follows(be, a, first, b), follows(be, b, second, c),
    ensures follows(be, a, first + second, c),
{
    let p = choose|path: Seq<Place>| path.len() == first.len() + 1 && path[0] == a && path[first.len() as int] == b && #[trigger] is_walk(be, path, first);
    let q = choose|path: Seq<Place>| path.len() == second.len() + 1 && path[0] == b && path[second.len() as int] == c && #[trigger] is_walk(be, path, second);
    let all = p + q.skip(1);
    let acts = first + second;
    let n = first.len() as int;
    assert forall|i: int| 0 <= i < acts.len() implies #[trigger] acted(be, all[i], acts[i], all[i + 1]) by {
        if i < n {
            assert(all[i] == p[i] && all[i + 1] == p[i + 1]);
            assert(acted(be, p[i], first[i], p[i + 1]));
        } else {
            let j = i - n;
            assert(all[i] == q[j]) by { if j == 0 { assert(all[i] == p[n]); } else { assert(all[i] == q.skip(1)[j - 1]); } }
            assert(all[i + 1] == q.skip(1)[j]);
            assert(acted(be, q[j], second[j], q[j + 1]));
        }
    }
    assert(is_walk(be, all, acts));
    assert(all[acts.len() as int] == c) by {
        if second.len() == 0 { assert(all[n] == p[n]); } else { assert(all[acts.len() as int] == q.skip(1)[second.len() - 1]); }
    }
}

/// No act takes a name away.
pub proof fn following_extends(be: bool, a: Place, acts: Seq<Act>, b: Place)
    requires follows(be, a, acts, b),
    ensures b.1.extends(a.1),
{
    let path = choose|path: Seq<Place>| path.len() == acts.len() + 1 && path[0] == a && path[acts.len() as int] == b && #[trigger] is_walk(be, path, acts);
    lemma_walk_extends(be, path, acts, acts.len());
}

proof fn lemma_walk_extends(be: bool, path: Seq<Place>, acts: Seq<Act>, n: nat)
    requires is_walk(be, path, acts), path.len() == acts.len() + 1, n <= acts.len(),
    ensures path[n as int].1.extends(path[0].1),
    decreases n,
{
    if n == 0 {
        numeric_steps::extends_itself(path[0].1);
    } else {
        lemma_walk_extends(be, path, acts, (n - 1) as nat);
        let i = n - 1;
        assert(acted(be, path[i], acts[i], path[i + 1]));
        numeric_steps::extends_itself(path[i].1);
        assert(path[i + 1].1.extends(path[i].1)) by { reveal(acted); }
        path[n as int].1.extending_is_transitive(path[i].1, path[0].1);
    }
}

/// The acts since a place. Nothing of it remains when the program runs.
pub struct Trace {
    pub be: Ghost<bool>,
    pub start: Ghost<Place>,
    pub acts: Ghost<Seq<Act>>,
}

impl Trace {
    /// The recorded acts lead from the start to a state, which is in order.
    pub open spec fn leads_to(&self, dom: &EbpfDomain, r: RegistryView) -> bool {
        dom.wf() && r.ready() && follows(self.be@, self.start@, self.acts@, (*dom, r))
    }

    /// The same record with some acts more.
    pub open spec fn grew(&self, before: &Trace, acts: Seq<Act>) -> bool {
        self.be@ == before.be@ && self.start@ == before.start@ && self.acts@ == before.acts@ + acts
    }

    /// The same record with one act more.
    pub open spec fn with(&self, act: Act, before: &Trace) -> bool {
        self.be@ == before.be@ && self.start@ == before.start@ && self.acts@ == before.acts@.push(act)
    }

    pub fn new(Ghost(be): Ghost<bool>, dom: &EbpfDomain, registry: &VariableRegistry) -> (r: Trace)
        requires dom.wf(), registry@.ready(),
        ensures r.leads_to(dom, registry@), r.be@ == be, r.start@ == (*dom, registry@), r.acts@ == Seq::<Act>::empty(),
    {
        proof { follows_nothing(be, (*dom, registry@)); }
        Trace { be: Ghost(be), start: Ghost((*dom, registry@)), acts: Ghost(Seq::<Act>::empty()) }
    }

    /// Records one act.
    pub fn push(&mut self, Ghost(act): Ghost<Act>, Ghost(before): Ghost<Place>, dom: &EbpfDomain, registry: &VariableRegistry)
        requires
            old(self).leads_to(&before.0, before.1),
            acted(old(self).be@, before, act, (*dom, registry@)),
            dom.wf(),
            registry@.ready(),
        ensures final(self).with(act, old(self)), final(self).leads_to(dom, registry@),
    {
        proof {
            follows_next(self.be@, self.start@, self.acts@, before, act, (*dom, registry@));
            self.acts = Ghost(self.acts@.push(act));
        }
    }

    /// Records what another record holds.
    pub fn append(&mut self, other: &Trace, dom: &EbpfDomain, registry: &VariableRegistry)
        requires
            old(self).leads_to(&other.start@.0, other.start@.1),
            other.leads_to(dom, registry@),
            other.be@ == old(self).be@,
        ensures
            final(self).be@ == old(self).be@,
            final(self).start@ == old(self).start@,
            final(self).acts@ == old(self).acts@ + other.acts@,
            final(self).leads_to(dom, registry@),
    {
        proof {
            follows_both(self.be@, self.start@, self.acts@, other.start@, other.acts@, (*dom, registry@));
            self.acts = Ghost(self.acts@ + other.acts@);
        }
    }

    /// Records numeric operations that a log holds.
    pub fn numbers(&mut self, log: &Log, Ghost(before): Ghost<Place>, dom: &EbpfDomain, registry: &VariableRegistry)
        requires
            old(self).leads_to(&before.0, before.1),
            before.1 == registry@,
            before.0.stack == dom.stack,
            before.0.state.types == dom.state.types,
            dom.wf(),
            log.leads_to(&dom.state.values, registry@),
            log.start@ == before.0.num(),
            log.older@ == registry@,
        ensures final(self).with(Act::Update(TypeChange::Same, log.done@), old(self)), final(self).leads_to(dom, registry@),
    {
        proof { reveal(acted); }
        self.push(Ghost(Act::Update(TypeChange::Same, log.done@)), Ghost(before), dom, registry);
    }
}

/// The variable of a register's type is registered.
proof fn lemma_type_var(r: RegistryView, reg: Reg)
    requires r.ready(), reg.ok(),
    ensures
        type_domain::type_var_of(r, reg).id == rcp::type_id(reg),
        type_domain::with_type_var(r, reg) == r,
        r.knows(var_registry::reg_var(DataKind::Types, reg.v as int)),
{
    r.register_variable(DataKind::Types, reg.v as int);
    r.register_is_there(DataKind::Types, reg.v as int, var_registry::kind_meta(DataKind::Types, false));
}

/// Forgets a register.
pub fn forget_register(dom: &mut EbpfDomain, reg: &Reg, registry: &mut VariableRegistry, trace: &mut Trace)
    requires old(trace).leads_to(old(dom), old(registry)@), reg.ok(),
    ensures
        final(registry)@ == old(registry)@,
        final(trace).leads_to(final(dom), final(registry)@),
        final(trace).with(Act::Update(TypeChange::Forgot(rcp::type_id(*reg)), rcp::forget_steps(rcp::value_ids(*reg))), old(trace)),
{
    let ghost before = (*dom, registry@);
    dom.state.havoc_register(reg, registry);
    proof { reveal(acted); }
    trace.push(Ghost(Act::Update(TypeChange::Forgot(rcp::type_id(*reg)), rcp::forget_steps(rcp::value_ids(*reg)))), Ghost(before), dom, registry);
}

/// Forgets the values of a register.
pub fn forget_values(dom: &mut EbpfDomain, reg: &Reg, registry: &VariableRegistry, trace: &mut Trace)
    requires old(trace).leads_to(old(dom), registry@), reg.ok(),
    ensures
        final(trace).leads_to(final(dom), registry@),
        final(trace).with(Act::Update(TypeChange::Same, rcp::forget_steps(rcp::value_ids(*reg))), old(trace)),
{
    let ghost before = (*dom, registry@);
    dom.state.havoc_register_except_type(reg, registry);
    proof { reveal(acted); }
    trace.push(Ghost(Act::Update(TypeChange::Same, rcp::forget_steps(rcp::value_ids(*reg)))), Ghost(before), dom, registry);
}

/// Forgets the offsets of a register.
pub fn forget_offsets(dom: &mut EbpfDomain, reg: &Reg, registry: &VariableRegistry, trace: &mut Trace)
    requires old(trace).leads_to(old(dom), registry@), reg.ok(),
    ensures
        final(trace).leads_to(final(dom), registry@),
        final(trace).with(Act::Update(TypeChange::Same, rcp::forget_steps(rcp::offset_ids(*reg))), old(trace)),
{
    let ghost before = (*dom, registry@);
    dom.state.havoc_offsets(reg, registry);
    proof { reveal(acted); }
    trace.push(Ghost(Act::Update(TypeChange::Same, rcp::forget_steps(rcp::offset_ids(*reg)))), Ghost(before), dom, registry);
}

/// Gives a register a type.
pub fn give_type(dom: &mut EbpfDomain, reg: &Reg, te: TypeEncoding, registry: &mut VariableRegistry, trace: &mut Trace)
    requires old(trace).leads_to(old(dom), old(registry)@), reg.ok(),
    ensures
        final(registry)@ == old(registry)@,
        final(trace).leads_to(final(dom), final(registry)@),
        final(trace).with(Act::Update(TypeChange::Given(rcp::type_id(*reg), te), seq![]), old(trace)),
{
    let ghost before = (*dom, registry@);
    dom.state.assign_type_encoding(reg, te, registry);
    proof {
        numeric_steps::performs_nothing(before.0.num(), before.1, before.1);
        reveal(acted);
    }
    trace.push(Ghost(Act::Update(TypeChange::Given(rcp::type_id(*reg), te), seq![])), Ghost(before), dom, registry);
}

/// Forgets the type of a register.
pub fn forget_type(dom: &mut EbpfDomain, reg: &Reg, registry: &mut VariableRegistry, trace: &mut Trace)
    requires old(trace).leads_to(old(dom), old(registry)@), reg.ok(),
    ensures
        final(registry)@ == old(registry)@,
        final(trace).leads_to(final(dom), final(registry)@),
        final(trace).with(Act::Update(TypeChange::Forgot(rcp::type_id(*reg)), seq![]), old(trace)),
{
    let ghost before = (*dom, registry@);
    proof { lemma_type_var(registry@, *reg); }
    dom.state.types.havoc_type_reg(reg, registry);
    proof {
        numeric_steps::performs_nothing(before.0.num(), before.1, before.1);
        reveal(acted);
    }
    trace.push(Ghost(Act::Update(TypeChange::Forgot(rcp::type_id(*reg)), seq![])), Ghost(before), dom, registry);
}

/// Copies a type variable.
pub fn copy_type(dom: &mut EbpfDomain, to: Variable, from: Variable, registry: &mut VariableRegistry, trace: &mut Trace)
    requires old(trace).leads_to(old(dom), old(registry)@),
    ensures
        final(registry)@ == old(registry)@,
        final(trace).leads_to(final(dom), final(registry)@),
        final(trace).with(Act::Update(TypeChange::Copied(to.id, from.id), seq![]), old(trace)),
{
    let ghost before = (*dom, registry@);
    dom.state.types.assign_type_var(to, from, registry);
    proof {
        numeric_steps::performs_nothing(before.0.num(), before.1, before.1);
        reveal(acted);
    }
    trace.push(Ghost(Act::Update(TypeChange::Copied(to.id, from.id), seq![])), Ghost(before), dom, registry);
}

/// Copies a register.
pub fn copy_register(dom: &mut EbpfDomain, to: &Reg, from: &Reg, registry: &mut VariableRegistry, trace: &mut Trace)
    requires old(trace).leads_to(old(dom), old(registry)@), to.ok(), from.ok(),
    ensures
        final(registry)@ == old(registry)@,
        final(trace).leads_to(final(dom), final(registry)@),
        final(trace).with(Act::CopyReg(*to, *from), old(trace)),
{
    let ghost before = (*dom, registry@);
    dom.state.assign_reg(to, from, registry);
    proof { reveal(acted); }
    trace.push(Ghost(Act::CopyReg(*to, *from)), Ghost(before), dom, registry);
}

/// Gives a register the type that an expression stands for.
pub fn type_register_by(dom: &mut EbpfDomain, reg: &Reg, e: &Option<LinearExpression>, registry: &mut VariableRegistry, trace: &mut Trace)
    requires old(trace).leads_to(old(dom), old(registry)@), reg.ok(),
    ensures
        final(registry)@ == old(registry)@,
        final(trace).leads_to(final(dom), final(registry)@),
        final(trace).with(Act::TypeBy(rcp::type_id(*reg), *e), old(trace)),
{
    let ghost before = (*dom, registry@);
    dom.state.assign_type_opt_expr(reg, e, registry);
    proof { reveal(acted); }
    trace.push(Ghost(Act::TypeBy(rcp::type_id(*reg), *e)), Ghost(before), dom, registry);
}

/// Gives a type variable the type that an expression stands for.
pub fn type_variable_by(dom: &mut EbpfDomain, v: Variable, e: LinearExpression, registry: &mut VariableRegistry, trace: &mut Trace)
    requires old(trace).leads_to(old(dom), old(registry)@),
    ensures
        final(registry)@ == old(registry)@,
        final(trace).leads_to(final(dom), final(registry)@),
        final(trace).with(Act::TypeBy(v.id, Some(e)), old(trace)),
{
    let ghost before = (*dom, registry@);
    dom.state.assign_type_var_expr(Some(v), &e, registry);
    proof { reveal(acted); }
    trace.push(Ghost(Act::TypeBy(v.id, Some(e))), Ghost(before), dom, registry);
}

/// Renames types.
pub fn rename_types(dom: &mut EbpfDomain, pairs: &[(Variable, Variable)], registry: &VariableRegistry, trace: &mut Trace)
    requires old(trace).leads_to(old(dom), registry@),
    ensures final(trace).leads_to(final(dom), registry@), final(trace).with(Act::RenameTypes(pairs@), old(trace)),
{
    let ghost before = (*dom, registry@);
    dom.state.types.rename(pairs);
    proof { reveal(acted); }
    trace.push(Ghost(Act::RenameTypes(pairs@)), Ghost(before), dom, registry);
}

/// Rules every value out.
pub fn rule_out(dom: &mut EbpfDomain, registry: &VariableRegistry, trace: &mut Trace)
    requires old(trace).leads_to(old(dom), registry@),
    ensures final(trace).leads_to(final(dom), registry@), final(trace).with(Act::Nothing, old(trace)), final(dom).num() is None,
{
    let ghost before = (*dom, registry@);
    dom.state.set_to_bottom();
    proof { reveal(acted); }
    trace.push(Ghost(Act::Nothing), Ghost(before), dom, registry);
}

/// Forgets the locations that may have a type.
pub fn forget_locations(dom: &mut EbpfDomain, te: TypeEncoding, registry: &mut VariableRegistry, trace: &mut Trace)
    requires old(trace).leads_to(old(dom), old(registry)@),
    ensures
        final(trace).leads_to(final(dom), final(registry)@),
        final(trace).with(Act::ForgetLocations(te), old(trace)),
        final(registry)@.extends(old(registry)@),
{
    let ghost before = (*dom, registry@);
    dom.state.havoc_all_locations_having_type(te, registry);
    proof {
        registry@.readiness_lasts(before.1);
        reveal(acted);
    }
    trace.push(Ghost(Act::ForgetLocations(te)), Ghost(before), dom, registry);
}

/// Forgets the types of a range.
pub fn havoc_type_range(dom: &mut EbpfDomain, addr: &Interval, width: &Interval, registry: &mut VariableRegistry, trace: &mut Trace)
    requires old(trace).leads_to(old(dom), old(registry)@),
    ensures
        final(trace).leads_to(final(dom), final(registry)@),
        final(trace).with(Act::HavocType(*addr, *width), old(trace)),
        final(registry)@.extends(old(registry)@),
{
    let ghost before = (*dom, registry@);
    dom.stack.havoc_type(&mut dom.state.types, addr, width, registry);
    proof {
        registry@.readiness_lasts(before.1);
        reveal(acted);
    }
    trace.push(Ghost(Act::HavocType(*addr, *width)), Ghost(before), dom, registry);
}

/// Forgets the values of a range.
pub fn havoc_range(dom: &mut EbpfDomain, kind: DataKind, addr: &Interval, width: &Interval, big_endian: bool, registry: &mut VariableRegistry, trace: &mut Trace)
    requires old(trace).leads_to(old(dom), old(registry)@), big_endian == old(trace).be@,
    ensures
        final(trace).leads_to(final(dom), final(registry)@),
        final(trace).with(Act::Havoc(kind, *addr, *width), old(trace)),
        final(registry)@.extends(old(registry)@),
{
    let ghost before = (*dom, registry@);
    dom.stack.havoc(&mut dom.state.values, kind, addr, width, registry, big_endian);
    proof {
        registry@.readiness_lasts(before.1);
        reveal(acted);
    }
    trace.push(Ghost(Act::Havoc(kind, *addr, *width)), Ghost(before), dom, registry);
}

/// Clears a range for a value.
pub fn store_range(dom: &mut EbpfDomain, kind: DataKind, addr: &Interval, width: &Interval, big_endian: bool, registry: &mut VariableRegistry, trace: &mut Trace) -> (r: Option<Variable>)
    requires old(trace).leads_to(old(dom), old(registry)@), big_endian == old(trace).be@,
    ensures
        final(trace).leads_to(final(dom), final(registry)@),
        final(trace).with(Act::Store(kind, *addr, *width, r), old(trace)),
        final(registry)@.extends(old(registry)@),
        r matches Some(v) ==> final(registry)@.knows(v),
{
    let ghost before = (*dom, registry@);
    let r = dom.stack.store(&mut dom.state.values, kind, addr, width, registry, big_endian);
    proof {
        registry@.readiness_lasts(before.1);
        reveal(acted);
    }
    trace.push(Ghost(Act::Store(kind, *addr, *width, r)), Ghost(before), dom, registry);
    r
}

/// Clears a range for a type.
pub fn store_type_range(dom: &mut EbpfDomain, addr: &Interval, width: &Interval, is_num: bool, registry: &mut VariableRegistry, trace: &mut Trace) -> (r: Option<Variable>)
    requires old(trace).leads_to(old(dom), old(registry)@),
    ensures
        final(trace).leads_to(final(dom), final(registry)@),
        final(trace).with(Act::StoreType(*addr, *width, is_num, r), old(trace)),
        final(registry)@.extends(old(registry)@),
        r matches Some(v) ==> final(registry)@.knows(v),
{
    let ghost before = (*dom, registry@);
    let r = dom.stack.store_type(&mut dom.state.types, addr, width, is_num, registry);
    proof {
        registry@.readiness_lasts(before.1);
        reveal(acted);
    }
    trace.push(Ghost(Act::StoreType(*addr, *width, is_num, r)), Ghost(before), dom, registry);
    r
}

/// Reads a value.
pub fn load_value(dom: &mut EbpfDomain, kind: DataKind, addr: &Interval, width: i32, big_endian: bool, registry: &mut VariableRegistry, trace: &mut Trace) -> (r: Option<LinearExpression>)
    requires old(trace).leads_to(old(dom), old(registry)@), big_endian == old(trace).be@, width >= 0,
    ensures
        final(trace).leads_to(final(dom), final(registry)@),
        final(trace).with(Act::Load(kind, *addr, width, r), old(trace)),
        final(registry)@.extends(old(registry)@),
        r matches Some(e) ==> zone_domain::knows_terms(final(registry)@, e.terms@),
{
    let ghost before = (*dom, registry@);
    let r = dom.stack.load(&dom.state.values, kind, addr, width, registry, big_endian);
    proof {
        registry@.readiness_lasts(before.1);
        reveal(acted);
    }
    trace.push(Ghost(Act::Load(kind, *addr, width, r)), Ghost(before), dom, registry);
    r
}

/// Reads a type.
pub fn load_type_range(dom: &mut EbpfDomain, addr: &Interval, width: i32, registry: &mut VariableRegistry, trace: &mut Trace) -> (r: Option<LinearExpression>)
    requires old(trace).leads_to(old(dom), old(registry)@), width >= 0,
    ensures
        final(trace).leads_to(final(dom), final(registry)@),
        final(trace).with(Act::LoadType(*addr, width, r), old(trace)),
        final(registry)@.extends(old(registry)@),
{
    let ghost before = (*dom, registry@);
    let r = dom.stack.load_type(addr, width, registry);
    proof {
        registry@.readiness_lasts(before.1);
        reveal(acted);
    }
    trace.push(Ghost(Act::LoadType(*addr, width, r)), Ghost(before), dom, registry);
    r
}

/// Marks bytes as numbers.
pub fn store_numbers(dom: &mut EbpfDomain, addr: &Interval, width: &Interval, registry: &VariableRegistry, trace: &mut Trace)
    requires old(trace).leads_to(old(dom), registry@),
    ensures final(trace).leads_to(final(dom), registry@), final(trace).with(Act::StoreNumbers(*addr, *width), old(trace)),
{
    let ghost before = (*dom, registry@);
    dom.stack.store_numbers(addr, width);
    proof { reveal(acted); }
    trace.push(Ghost(Act::StoreNumbers(*addr, *width)), Ghost(before), dom, registry);
}

/// Finds the number of numeric bytes again that a pointer points to.
pub fn recompute_numeric_size(dom: &mut EbpfDomain, v: Variable, registry: &mut VariableRegistry, trace: &mut Trace)
    requires old(trace).leads_to(old(dom), old(registry)@), old(registry)@.knows(v), old(registry)@.meta(v).kind == Some(DataKind::Types),
    ensures
        final(trace).leads_to(final(dom), final(registry)@),
        final(trace).with(Act::NumericSize(v), old(trace)),
        final(registry)@.extends(old(registry)@),
{
    let ghost before = (*dom, registry@);
    let ghost r0 = registry@;
    let ghost name = registry@.name(v);
    let ghost cell = registry@.meta(v).is_stack_cell;
    let size = registry.kind_var(DataKind::StackNumericSizes, v);
    let ghost r1 = registry@;
    proof { rcp::lemma_var_named(r0, r1, size, var_registry::rekinded(name, DataKind::StackNumericSizes), var_registry::kind_meta(DataKind::StackNumericSizes, cell)); }
    let ghost mut offset: Variable = v;
    let ghost mut ops: Seq<Step> = seq![];
    let ghost n0 = dom.num();
    proof { numeric_steps::performs_nothing(n0, r0, r1); }
    if dom.state.types.may_have_type_var(v, TypeEncoding::TStack, registry) {
        let stack_offset = registry.kind_var(DataKind::StackOffsets, v);
        let ghost r2 = registry@;
        proof {
            offset = stack_offset;
            rcp::lemma_var_named(r1, r2, stack_offset, var_registry::rekinded(name, DataKind::StackOffsets), var_registry::kind_meta(DataKind::StackOffsets, cell));
            r2.extending_is_transitive(r1, r0);
            numeric_steps::performs_nothing(n0, r0, r2);
        }
        let n: i32 = dom.stack.min_all_num_size(&dom.state.values, stack_offset, registry);
        if n > 0 {
            dom.state.values.assign_i64(size, n as i64, registry);
            proof {
                let op = numeric_ops::set_number(size.id, n as int);
                numeric_steps::step_put(n0, r2, size.id, Interval::point(Number { n: n as i128 }), dom.num());
                numeric_steps::performs_one(n0, r0, r2, seq![], n0, op, dom.num());
                ops = seq![op];
                assert(seq![].push(op) =~= ops);
            }
        }
    }
    proof {
        let after = (*dom, registry@);
        registry@.readiness_lasts(r0);
        assert(size_steps(&before.0, v, size, offset) =~= ops);
        assert(size_set(before, v, size, offset, after));
        reveal(acted);
    }
    trace.push(Ghost(Act::NumericSize(v)), Ghost(before), dom, registry);
}

/// Whether a register has one of some types.
pub fn test_in_group(dom: &EbpfDomain, reg: &Reg, ts: TypeSet, registry: &mut VariableRegistry, trace: &mut Trace) -> (y: bool)
    requires old(trace).leads_to(dom, old(registry)@), reg.ok(),
    ensures
        final(registry)@ == old(registry)@,
        final(trace).leads_to(dom, final(registry)@),
        final(trace).with(Act::InGroup(*reg, ts, y), old(trace)),
{
    proof { lemma_type_var(registry@, *reg); }
    let y: bool = dom.state.types.is_in_group(reg, ts, registry);
    proof { reveal(acted); }
    trace.push(Ghost(Act::InGroup(*reg, ts, y)), Ghost((*dom, registry@)), dom, registry);
    y
}

/// Whether a register may have a type.
pub fn test_may_have(dom: &EbpfDomain, reg: &Reg, te: TypeEncoding, registry: &mut VariableRegistry, trace: &mut Trace) -> (y: bool)
    requires old(trace).leads_to(dom, old(registry)@), reg.ok(),
    ensures
        final(registry)@ == old(registry)@,
        final(trace).leads_to(dom, final(registry)@),
        final(trace).with(Act::MayHave(*reg, te, y), old(trace)),
{
    proof { lemma_type_var(registry@, *reg); }
    let y: bool = dom.state.types.may_have_type_reg(reg, te, registry);
    proof { reveal(acted); }
    trace.push(Ghost(Act::MayHave(*reg, te, y)), Ghost((*dom, registry@)), dom, registry);
    y
}

/// Whether two registers have the same type.
pub fn test_same_type(dom: &EbpfDomain, a: &Reg, b: &Reg, registry: &mut VariableRegistry, trace: &mut Trace) -> (y: bool)
    requires old(trace).leads_to(dom, old(registry)@), a.ok(), b.ok(),
    ensures
        final(registry)@ == old(registry)@,
        final(trace).leads_to(dom, final(registry)@),
        final(trace).with(Act::SameType(*a, *b, y), old(trace)),
{
    proof { lemma_type_var(registry@, *a); lemma_type_var(registry@, *b); }
    let y: bool = dom.state.types.same_type(a, b, registry);
    proof { reveal(acted); }
    trace.push(Ghost(Act::SameType(*a, *b, y)), Ghost((*dom, registry@)), dom, registry);
    y
}

/// Whether a register certainly has a type.
pub fn test_has_type(dom: &EbpfDomain, reg: &Reg, te: TypeEncoding, registry: &mut VariableRegistry, trace: &mut Trace) -> (y: bool)
    requires old(trace).leads_to(dom, old(registry)@), reg.ok(),
    ensures
        final(registry)@ == old(registry)@,
        final(trace).leads_to(dom, final(registry)@),
        final(trace).with(Act::HasType(*reg, te, y), old(trace)),
{
    proof { lemma_type_var(registry@, *reg); }
    let v = reg_type(reg, registry);
    let y: bool = dom.state.types.entail_type(v, te);
    proof { reveal(acted); }
    trace.push(Ghost(Act::HasType(*reg, te, y)), Ghost((*dom, registry@)), dom, registry);
    y
}

/// Whether a register is initialized.
pub fn test_initialized(dom: &EbpfDomain, reg: &Reg, registry: &mut VariableRegistry, trace: &mut Trace) -> (y: bool)
    requires old(trace).leads_to(dom, old(registry)@), reg.ok(),
    ensures
        final(registry)@ == old(registry)@,
        y == rcp::initialized(&dom.state, *reg),
        final(trace).leads_to(dom, final(registry)@),
        final(trace).with(Act::Initialized(*reg, y), old(trace)),
{
    proof { lemma_type_var(registry@, *reg); }
    let y: bool = dom.state.types.is_initialized_reg(reg, registry);
    proof { reveal(acted); }
    trace.push(Ghost(Act::Initialized(*reg, y)), Ghost((*dom, registry@)), dom, registry);
    y
}

/// Whether a constraint certainly holds.
pub fn test_entails(dom: &EbpfDomain, c: &LinearConstraint, registry: &VariableRegistry, trace: &mut Trace) -> (y: bool)
    requires old(trace).leads_to(dom, registry@), zone_domain::knows_terms(registry@, c.expression.terms@),
    ensures
        final(trace).leads_to(dom, registry@),
        final(trace).with(Act::Entails(numeric_steps::lin_of(c), y), old(trace)),
{
    let y: bool = dom.state.values.entail(c, registry);
    c.expression.order_holds();
    proof {
        assert(entail_answer(dom, registry@, numeric_steps::lin_of(c), y));
        reveal(acted);
    }
    trace.push(Ghost(Act::Entails(numeric_steps::lin_of(c), y)), Ghost((*dom, registry@)), dom, registry);
    y
}

/// Whether a constraint may hold.
pub fn test_meets(dom: &EbpfDomain, c: &LinearConstraint, registry: &VariableRegistry, trace: &mut Trace) -> (y: bool)
    requires old(trace).leads_to(dom, registry@), zone_domain::knows_terms(registry@, c.expression.terms@),
    ensures
        final(trace).leads_to(dom, registry@),
        final(trace).with(Act::Meets(numeric_steps::lin_of(c), y), old(trace)),
{
    let y: bool = dom.state.values.intersect(c, registry);
    c.expression.order_holds();
    proof {
        assert(meet_answer(dom, registry@, numeric_steps::lin_of(c), y));
        reveal(acted);
    }
    trace.push(Ghost(Act::Meets(numeric_steps::lin_of(c), y)), Ghost((*dom, registry@)), dom, registry);
    y
}

/// Evaluates an expression.
pub fn evaluate(dom: &EbpfDomain, e: &LinearExpression, registry: &VariableRegistry, trace: &mut Trace) -> (r: Interval)
    requires old(trace).leads_to(dom, registry@),
    ensures
        final(trace).leads_to(dom, registry@),
        final(trace).with(Act::Value(*e, r), old(trace)),
{
    let r = dom.state.values.eval_interval(e, registry);
    proof { reveal(acted); }
    trace.push(Ghost(Act::Value(*e, r)), Ghost((*dom, registry@)), dom, registry);
    r
}

/// Evaluates a variable.
pub fn evaluate_var(dom: &EbpfDomain, v: Variable, registry: &VariableRegistry, trace: &mut Trace) -> (r: Interval)
    requires old(trace).leads_to(dom, registry@),
    ensures
        final(trace).leads_to(dom, registry@),
        final(trace).with(Act::ValueOf(v.id, r), old(trace)),
        r == dom.state.values.interval(v.id),
{
    let r = dom.state.values.eval_interval_var(v, registry);
    proof { reveal(acted); }
    trace.push(Ghost(Act::ValueOf(v.id, r)), Ghost((*dom, registry@)), dom, registry);
    r
}

/// Whether no values are possible.
pub fn test_nothing(dom: &EbpfDomain, registry: &VariableRegistry, trace: &mut Trace) -> (y: bool)
    requires old(trace).leads_to(dom, registry@),
    ensures final(trace).leads_to(dom, registry@), final(trace).with(Act::IsNothing(y), old(trace)), y == (dom.num() is None),
{
    let y: bool = dom.is_bottom();
    proof { reveal(acted); }
    trace.push(Ghost(Act::IsNothing(y)), Ghost((*dom, registry@)), dom, registry);
    y
}

/// Whether a type variable may point to the stack.
pub fn test_may_point(dom: &EbpfDomain, v: Variable, registry: &mut VariableRegistry, trace: &mut Trace) -> (y: bool)
    requires old(trace).leads_to(dom, old(registry)@),
    ensures
        final(registry)@ == old(registry)@,
        final(trace).leads_to(dom, final(registry)@),
        final(trace).with(Act::MayPoint(v, y), old(trace)),
{
    let y: bool = dom.state.types.is_initialized_var(v, registry) && dom.state.types.may_have_type_var(v, TypeEncoding::TStack, registry);
    proof { reveal(acted); }
    trace.push(Ghost(Act::MayPoint(v, y)), Ghost((*dom, registry@)), dom, registry);
    y
}

/// The types that a register may have.
pub fn list_types(dom: &EbpfDomain, reg: &Reg, registry: &mut VariableRegistry, trace: &mut Trace) -> (r: Vec<TypeEncoding>)
    requires old(trace).leads_to(dom, old(registry)@), reg.ok(),
    ensures
        final(registry)@ == old(registry)@,
        final(trace).leads_to(dom, final(registry)@),
        final(trace).with(Act::Iterated(*reg, r@), old(trace)),
{
    proof { lemma_type_var(registry@, *reg); }
    let r = dom.state.types.iterate_types(reg, registry);
    proof { reveal(acted); }
    trace.push(Ghost(Act::Iterated(*reg, r@)), Ghost((*dom, registry@)), dom, registry);
    r
}

/// The variables of types.
pub fn list_type_variables(dom: &EbpfDomain, registry: &VariableRegistry, trace: &mut Trace) -> (r: Vec<Variable>)
    requires old(trace).leads_to(dom, registry@),
    ensures
        final(trace).leads_to(dom, registry@),
        final(trace).with(Act::TypeVars(r@), old(trace)),
        forall|i: int| 0 <= i < r.len() ==> registry@.knows(#[trigger] r@[i]) && registry@.meta(r@[i]).kind == Some(DataKind::Types),
{
    let r = registry.get_type_variables();
    proof { reveal(acted); }
    trace.push(Ghost(Act::TypeVars(r@)), Ghost((*dom, registry@)), dom, registry);
    r
}

/// The variable of a kind of the owner of a type.
pub fn kind_variable(dom: &EbpfDomain, kind: DataKind, v: Variable, registry: &mut VariableRegistry, trace: &mut Trace) -> (r: Variable)
    requires old(trace).leads_to(dom, old(registry)@), old(registry)@.knows(v), old(registry)@.meta(v).kind == Some(DataKind::Types),
    ensures
        final(trace).leads_to(dom, final(registry)@),
        final(trace).with(Act::KindVar(kind, v, r), old(trace)),
        final(registry)@.extends(old(registry)@),
        final(registry)@.knows(r),
{
    let ghost before = (*dom, registry@);
    let ghost cell = registry@.meta(v).is_stack_cell;
    let r = registry.kind_var(kind, v);
    proof {
        rcp::lemma_var_named(before.1, registry@, r, var_registry::rekinded(before.1.name(v), kind), var_registry::kind_meta(kind, cell));
        registry@.readiness_lasts(before.1);
        reveal(acted);
    }
    trace.push(Ghost(Act::KindVar(kind, v, r)), Ghost(before), dom, registry);
    r
}

/// The variable of a register in a stack frame.
pub fn frame_variable(dom: &EbpfDomain, kind: DataKind, i: i32, prefix: &str, registry: &mut VariableRegistry, trace: &mut Trace) -> (r: Variable)
    requires old(trace).leads_to(dom, old(registry)@),
    ensures
        final(trace).leads_to(dom, final(registry)@),
        final(trace).with(Act::Named(var_registry::frame_name(kind, i as int, prefix@), r), old(trace)),
        final(registry)@.extends(old(registry)@),
        final(registry)@.knows(r),
{
    let ghost before = (*dom, registry@);
    let r = registry.stack_frame_var(kind, i, prefix);
    proof {
        rcp::lemma_var_named(before.1, registry@, r, var_registry::frame_name(kind, i as int, prefix@), var_registry::kind_meta(kind, false));
        registry@.readiness_lasts(before.1);
        reveal(acted);
    }
    trace.push(Ghost(Act::Named(var_registry::frame_name(kind, i as int, prefix@), r)), Ghost(before), dom, registry);
    r
}

/// The counter of a loop.
pub fn counter_variable(dom: &EbpfDomain, label: &str, registry: &mut VariableRegistry, trace: &mut Trace) -> (r: Variable)
    requires old(trace).leads_to(dom, old(registry)@),
    ensures
        final(trace).leads_to(dom, final(registry)@),
        final(trace).with(Act::Named(var_registry::counter_name(label@), r), old(trace)),
        final(registry)@.knows(r),
{
    let ghost before = (*dom, registry@);
    let r = registry.loop_counter(label);
    proof {
        rcp::lemma_var_named(before.1, registry@, r, var_registry::counter_name(label@), var_registry::counter_meta());
        registry@.readiness_lasts(before.1);
        reveal(acted);
    }
    trace.push(Ghost(Act::Named(var_registry::counter_name(label@), r)), Ghost(before), dom, registry);
    r
}

/// The constraints that follow from a comparison with an immediate.
pub fn list_immediate(dom: &EbpfDomain, op: ConditionOp, is64: bool, s: Variable, u: Variable, imm: i64, registry: &VariableRegistry, trace: &mut Trace) -> (r: Vec<LinearConstraint>)
    requires old(trace).leads_to(dom, registry@), registry@.knows(s), registry@.knows(u),
    ensures
        final(trace).leads_to(dom, registry@),
        final(trace).with(Act::AssumeImm(op, is64, s.id, u.id, imm, r@), old(trace)),
        finite_assume::all_known(registry@, r@),
{
    let r = dom.state.values.assume_cst_imm(op, is64, s, u, imm, registry);
    proof { reveal(acted); }
    trace.push(Ghost(Act::AssumeImm(op, is64, s.id, u.id, imm, r@)), Ghost((*dom, registry@)), dom, registry);
    r
}

/// The constraints that follow from a comparison of two registers.
pub fn list_register(dom: &EbpfDomain, op: ConditionOp, is64: bool, s: Variable, u: Variable, rs: Variable, ru: Variable, registry: &VariableRegistry, trace: &mut Trace) -> (r: Vec<LinearConstraint>)
    requires old(trace).leads_to(dom, registry@), registry@.knows(s), registry@.knows(u), registry@.knows(rs), registry@.knows(ru),
    ensures
        final(trace).leads_to(dom, registry@),
        final(trace).with(Act::AssumeReg(op, is64, s.id, u.id, rs.id, ru.id, r@), old(trace)),
        finite_assume::all_known(registry@, r@),
{
    let r = dom.state.values.assume_cst_reg(op, is64, s, u, rs, ru, registry);
    proof { reveal(acted); }
    trace.push(Ghost(Act::AssumeReg(op, is64, s.id, u.id, rs.id, ru.id, r@)), Ghost((*dom, registry@)), dom, registry);
    r
}

/// The offset of a register that has one type.
pub fn offset_of(dom: &EbpfDomain, reg: &Reg, registry: &mut VariableRegistry, trace: &mut Trace) -> (r: Option<Variable>)
    requires old(trace).leads_to(dom, old(registry)@), reg.ok(),
    ensures
        final(registry)@ == old(registry)@,
        final(trace).leads_to(dom, final(registry)@),
        final(trace).with(Act::OffsetOf(*reg, r), old(trace)),
        r matches Some(v) ==> final(registry)@.knows(v),
{
    let r = dom.state.get_type_offset_variable(reg, registry);
    proof {
        if let Some(v) = r {
            let te = choose|te: TypeEncoding| #[trigger] dom.state.types.s().types_of(rcp::type_id(*reg)).is_just(te)
                && rcp::offset_kind(te) is Some && v == var_registry::reg_var(rcp::offset_kind(te)->Some_0, reg.v as int);
            registry@.register_variable(rcp::offset_kind(te)->Some_0, reg.v as int);
        }
        reveal(acted);
    }
    trace.push(Ghost(Act::OffsetOf(*reg, r)), Ghost((*dom, registry@)), dom, registry);
    r
}

/// Whether a register is initialized.
pub fn is_initialized(dom: &EbpfDomain, reg: &Reg, registry: &mut VariableRegistry) -> (y: bool)
    requires dom.wf(), old(registry)@.ready(), reg.ok(),
    ensures final(registry)@ == old(registry)@, y == rcp::initialized(&dom.state, *reg),
{
    proof { lemma_type_var(registry@, *reg); }
    dom.state.types.is_initialized_reg(reg, registry)
}

}
