//! The product of the type domain and the numeric domain.
//!
//! Which numeric variables of a register mean anything depends on the types that it may have.
use vstd::prelude::*;
use vstd::string::*;
use crate::add_bottom::NumAbsDomain;
use crate::arith::linear_expression::LinearExpression;
use crate::arith::variable::Variable;
use crate::interval::Interval;
use crate::numeric_steps;
use crate::numeric_steps::{Num, Step};
use crate::string_constraints::StringInvariant;
use crate::syntax::Reg;
use crate::type_domain;
use crate::type_domain::{reg_type, State, TypeDomain};
use crate::type_encoding::{DataKind, TypeEncoding, TypeSet, T_UNINIT};
use crate::var_registry;
use crate::var_registry::{RegistryView, VariableRegistry};
use crate::zone_model;
use crate::zone_model::ZEdges;
use crate::zone_text;

verus! {

/// The numeric variables of a register.
#[derive(Clone, Copy, Debug)]
pub struct RegPack {
    pub svalue: Variable,
    pub uvalue: Variable,
    pub ctx_offset: Variable,
    pub map_fd: Variable,
    pub map_fd_programs: Variable,
    pub packet_offset: Variable,
    pub shared_offset: Variable,
    pub stack_offset: Variable,
    pub shared_region_size: Variable,
    pub stack_numeric_size: Variable,
}

/// The kinds of the variables in a pack.
pub open spec fn packed(kind: DataKind) -> bool {
    1 <= kind.rank() <= 10
}

impl RegPack {
    /// The pack is that of a register.
    pub open spec fn of(self, i: int) -> bool {
        &&& self.svalue == var_registry::reg_var(DataKind::Svalues, i)
        &&& self.uvalue == var_registry::reg_var(DataKind::Uvalues, i)
        &&& self.ctx_offset == var_registry::reg_var(DataKind::CtxOffsets, i)
        &&& self.map_fd == var_registry::reg_var(DataKind::MapFds, i)
        &&& self.map_fd_programs == var_registry::reg_var(DataKind::MapFdPrograms, i)
        &&& self.packet_offset == var_registry::reg_var(DataKind::PacketOffsets, i)
        &&& self.shared_offset == var_registry::reg_var(DataKind::SharedOffsets, i)
        &&& self.stack_offset == var_registry::reg_var(DataKind::StackOffsets, i)
        &&& self.shared_region_size == var_registry::reg_var(DataKind::SharedRegionSizes, i)
        &&& self.stack_numeric_size == var_registry::reg_var(DataKind::StackNumericSizes, i)
    }

    /// Every variable of the pack is registered.
    pub open spec fn known(self, r: RegistryView) -> bool {
        &&& r.knows(self.svalue)
        &&& r.knows(self.uvalue)
        &&& r.knows(self.ctx_offset)
        &&& r.knows(self.map_fd)
        &&& r.knows(self.map_fd_programs)
        &&& r.knows(self.packet_offset)
        &&& r.knows(self.shared_offset)
        &&& r.knows(self.stack_offset)
        &&& r.knows(self.shared_region_size)
        &&& r.knows(self.stack_numeric_size)
    }

    /// The variable of a kind.
    pub open spec fn at(self, kind: DataKind) -> Variable {
        match kind {
            DataKind::Uvalues => self.uvalue,
            DataKind::CtxOffsets => self.ctx_offset,
            DataKind::MapFds => self.map_fd,
            DataKind::MapFdPrograms => self.map_fd_programs,
            DataKind::PacketOffsets => self.packet_offset,
            DataKind::SharedOffsets => self.shared_offset,
            DataKind::StackOffsets => self.stack_offset,
            DataKind::SharedRegionSizes => self.shared_region_size,
            DataKind::StackNumericSizes => self.stack_numeric_size,
            _ => self.svalue,
        }
    }

    /// The variable of a kind.
    pub fn get(&self, kind: DataKind) -> (r: Variable)
        requires packed(kind),
        ensures r == self.at(kind),
    {
        match kind {
            DataKind::Uvalues => self.uvalue,
            DataKind::CtxOffsets => self.ctx_offset,
            DataKind::MapFds => self.map_fd,
            DataKind::MapFdPrograms => self.map_fd_programs,
            DataKind::PacketOffsets => self.packet_offset,
            DataKind::SharedOffsets => self.shared_offset,
            DataKind::StackOffsets => self.stack_offset,
            DataKind::SharedRegionSizes => self.shared_region_size,
            DataKind::StackNumericSizes => self.stack_numeric_size,
            _ => self.svalue,
        }
    }
}

/// The variables of one of the twelve registers.
pub fn reg_pack(r: &Reg, registry: &VariableRegistry) -> (p: RegPack)
    requires registry@.ready(), r.v <= 11,
    ensures p.of(r.v as int), p.known(registry@),
{
    let i: i32 = r.v as i32;
    proof {
        registry@.register_variable(DataKind::Svalues, i as int);
        registry@.register_variable(DataKind::Uvalues, i as int);
        registry@.register_variable(DataKind::CtxOffsets, i as int);
        registry@.register_variable(DataKind::MapFds, i as int);
        registry@.register_variable(DataKind::MapFdPrograms, i as int);
        registry@.register_variable(DataKind::PacketOffsets, i as int);
        registry@.register_variable(DataKind::SharedOffsets, i as int);
        registry@.register_variable(DataKind::StackOffsets, i as int);
        registry@.register_variable(DataKind::SharedRegionSizes, i as int);
        registry@.register_variable(DataKind::StackNumericSizes, i as int);
    }
    RegPack {
        svalue: registry.reg_ref(DataKind::Svalues, i),
        uvalue: registry.reg_ref(DataKind::Uvalues, i),
        ctx_offset: registry.reg_ref(DataKind::CtxOffsets, i),
        map_fd: registry.reg_ref(DataKind::MapFds, i),
        map_fd_programs: registry.reg_ref(DataKind::MapFdPrograms, i),
        packet_offset: registry.reg_ref(DataKind::PacketOffsets, i),
        shared_offset: registry.reg_ref(DataKind::SharedOffsets, i),
        stack_offset: registry.reg_ref(DataKind::StackOffsets, i),
        shared_region_size: registry.reg_ref(DataKind::SharedRegionSizes, i),
        stack_numeric_size: registry.reg_ref(DataKind::StackNumericSizes, i),
    }
}

/// The kinds that mean something for a type.
pub open spec fn kinds_of(te: TypeEncoding) -> Seq<DataKind> {
    match te {
        TypeEncoding::TCtx => seq![DataKind::CtxOffsets],
        TypeEncoding::TMap => seq![DataKind::MapFds],
        TypeEncoding::TMapPrograms => seq![DataKind::MapFdPrograms],
        TypeEncoding::TPacket => seq![DataKind::PacketOffsets],
        TypeEncoding::TShared => seq![DataKind::SharedOffsets, DataKind::SharedRegionSizes],
        TypeEncoding::TStack => seq![DataKind::StackOffsets, DataKind::StackNumericSizes],
        TypeEncoding::TNum => seq![],
        TypeEncoding::TUninit => seq![],
    }
}

/// The kinds that mean something for a type.
pub fn type_to_kinds(te: TypeEncoding) -> (r: Vec<DataKind>)
    ensures r@ == kinds_of(te),
{
    let mut r: Vec<DataKind> = Vec::new();
    match te {
        TypeEncoding::TCtx => { r.push(DataKind::CtxOffsets); }
        TypeEncoding::TMap => { r.push(DataKind::MapFds); }
        TypeEncoding::TMapPrograms => { r.push(DataKind::MapFdPrograms); }
        TypeEncoding::TPacket => { r.push(DataKind::PacketOffsets); }
        TypeEncoding::TShared => { r.push(DataKind::SharedOffsets); r.push(DataKind::SharedRegionSizes); }
        TypeEncoding::TStack => { r.push(DataKind::StackOffsets); r.push(DataKind::StackNumericSizes); }
        TypeEncoding::TNum => {}
        TypeEncoding::TUninit => {}
    }
    assert(r@ =~= kinds_of(te));
    r
}

/// The kind of a type's offset.
pub open spec fn offset_kind(te: TypeEncoding) -> Option<DataKind> {
    match te {
        TypeEncoding::TCtx => Some(DataKind::CtxOffsets),
        TypeEncoding::TMap => Some(DataKind::MapFds),
        TypeEncoding::TMapPrograms => Some(DataKind::MapFdPrograms),
        TypeEncoding::TPacket => Some(DataKind::PacketOffsets),
        TypeEncoding::TShared => Some(DataKind::SharedOffsets),
        TypeEncoding::TStack => Some(DataKind::StackOffsets),
        _ => None,
    }
}

/// The kind of a type's offset, if it has one.
pub fn type_to_offset_kind(te: TypeEncoding) -> (r: Option<DataKind>)
    ensures r == offset_kind(te),
{
    match te {
        TypeEncoding::TCtx => Some(DataKind::CtxOffsets),
        TypeEncoding::TMap => Some(DataKind::MapFds),
        TypeEncoding::TMapPrograms => Some(DataKind::MapFdPrograms),
        TypeEncoding::TPacket => Some(DataKind::PacketOffsets),
        TypeEncoding::TShared => Some(DataKind::SharedOffsets),
        TypeEncoding::TStack => Some(DataKind::StackOffsets),
        _ => None,
    }
}

/// The offset of a register that has a type.
pub fn get_type_offset_variable(reg: &Reg, type_val: TypeEncoding, registry: &VariableRegistry) -> (r: Option<Variable>)
    requires registry@.ready(), reg.v <= 11,
    ensures
        r == (match offset_kind(type_val) {
            Some(k) => Some(var_registry::reg_var(k, reg.v as int)),
            None => None,
        }),
{
    match type_to_offset_kind(type_val) {
        Some(kind) => Some(reg_pack(reg, registry).get(kind)),
        None => None,
    }
}

/// The variable of a register's type, where the registry holds the default names.
pub proof fn register_type(r: RegistryView, reg: Reg)
    requires r.ready(), reg.v <= 11,
    ensures
        type_domain::type_var_of(r, reg) == var_registry::reg_var(DataKind::Types, reg.v as int),
        type_domain::with_type_var(r, reg) == r,
        r.knows(var_registry::reg_var(DataKind::Types, reg.v as int)),
{
    r.register_variable(DataKind::Types, reg.v as int);
}

/// The number of the variable of a register's type.
pub open spec fn type_id(reg: Reg) -> u64 {
    var_registry::reg_var(DataKind::Types, reg.v as int).id
}

/// The number of a register's variable.
pub open spec fn id_of(kind: DataKind, reg: Reg) -> u64 {
    var_registry::reg_var(kind, reg.v as int).id
}

/// Forgetting some variables, in turn.
pub open spec fn forget_steps(ids: Seq<u64>) -> Seq<Step> {
    ids.map_values(|k: u64| Step::Forget(k))
}

/// A registered variable with a name.
pub open spec fn is_named(r: RegistryView, x: Variable, name: Seq<char>) -> bool {
    r.knows(x) && r.name(x) == name
}

/// The types and numeric values of registers.
pub struct TypeToNumDomain {
    pub types: TypeDomain,
    pub values: NumAbsDomain,
}

/// The numbers of the variables of a register for the kinds of a type.
pub open spec fn kind_ids(i: int, te: TypeEncoding) -> Seq<u64> {
    kinds_of(te).map_values(|k: DataKind| var_registry::reg_var(k, i).id)
}

/// The numbers of the variables of a register for the kinds of some types, but one.
pub open spec fn other_kind_ids(i: int, tes: Seq<TypeEncoding>, but: Option<TypeEncoding>) -> Seq<u64>
    decreases tes.len(),
{
    if tes.len() == 0 {
        seq![]
    } else {
        other_kind_ids(i, tes.drop_last(), but) + (if Some(tes.last()) == but { seq![] } else { kind_ids(i, tes.last()) })
    }
}

/// Copying the variables of one register to another's for the kinds of some types.
pub open spec fn kind_copies(lhs: int, rhs: int, tes: Seq<TypeEncoding>) -> Seq<Step>
    decreases tes.len(),
{
    if tes.len() == 0 {
        seq![]
    } else {
        kind_copies(lhs, rhs, tes.drop_last())
            + kinds_of(tes.last()).map_values(|k: DataKind| Step::Copy(var_registry::reg_var(k, lhs).id, var_registry::reg_var(k, rhs).id))
    }
}

/// The operations of a register copy, after its type is copied.
pub open spec fn register_copy_steps(lhs: Reg, rhs: Reg, lhs_types: Seq<TypeEncoding>, rhs_types: Seq<TypeEncoding>) -> Seq<Step> {
    seq![
        Step::Copy(id_of(DataKind::Svalues, lhs), id_of(DataKind::Svalues, rhs)),
        Step::Copy(id_of(DataKind::Uvalues, lhs), id_of(DataKind::Uvalues, rhs)),
    ] + forget_steps(other_kind_ids(lhs.v as int, lhs_types, None)) + kind_copies(lhs.v as int, rhs.v as int, rhs_types)
}

/// The offsets of a register.
pub open spec fn offset_ids(reg: Reg) -> Seq<u64> {
    seq![
        id_of(DataKind::CtxOffsets, reg),
        id_of(DataKind::MapFds, reg),
        id_of(DataKind::MapFdPrograms, reg),
        id_of(DataKind::PacketOffsets, reg),
        id_of(DataKind::SharedOffsets, reg),
        id_of(DataKind::SharedRegionSizes, reg),
        id_of(DataKind::StackOffsets, reg),
        id_of(DataKind::StackNumericSizes, reg),
    ]
}

/// The offsets and values of a register.
pub open spec fn value_ids(reg: Reg) -> Seq<u64> {
    offset_ids(reg).push(id_of(DataKind::Svalues, reg)).push(id_of(DataKind::Uvalues, reg))
}

/// The types with kinds of their own.
pub open spec fn kinded(i: int) -> TypeEncoding {
    if i == 0 { TypeEncoding::TCtx }
    else if i == 1 { TypeEncoding::TMap }
    else if i == 2 { TypeEncoding::TMapPrograms }
    else if i == 3 { TypeEncoding::TPacket }
    else if i == 4 { TypeEncoding::TShared }
    else { TypeEncoding::TStack }
}

fn type_with_kinds(i: usize) -> (r: TypeEncoding)
    ensures r == kinded(i as int),
{
    if i == 0 { TypeEncoding::TCtx }
    else if i == 1 { TypeEncoding::TMap }
    else if i == 2 { TypeEncoding::TMapPrograms }
    else if i == 3 { TypeEncoding::TPacket }
    else if i == 4 { TypeEncoding::TShared }
    else { TypeEncoding::TStack }
}

/// The names of the variables of an owner for the kinds of a type.
pub open spec fn kind_names(name: Seq<char>, te: TypeEncoding) -> Seq<Seq<char>> {
    kinds_of(te).map_values(|k: DataKind| var_registry::rekinded(name, k))
}

/// The variables carry the names, one for one.
pub open spec fn named_all(r: RegistryView, xs: Seq<Variable>, names: Seq<Seq<char>>) -> bool {
    xs.len() == names.len() && forall|i: int| 0 <= i < xs.len() ==> is_named(r, #[trigger] xs[i], names[i])
}

/// The names of kind variables of one owner that mean nothing, for the first `p` types with kinds.
pub open spec fn missing_names_of(types: &TypeDomain, v: u64, name: Seq<char>, p: nat) -> Seq<Seq<char>>
    decreases p,
{
    if p == 0 {
        seq![]
    } else {
        missing_names_of(types, v, name, (p - 1) as nat)
            + (if types.may_have(v, kinded(p - 1)) { seq![] } else { kind_names(name, kinded(p - 1)) })
    }
}

/// The names of kind variables that mean nothing, because their owner cannot have the type.
pub open spec fn missing_names(types: &TypeDomain, r: RegistryView, n: nat) -> Seq<Seq<char>>
    decreases n,
{
    if n == 0 {
        seq![]
    } else {
        let v = r.type_variables()[n - 1];
        missing_names(types, r, (n - 1) as nat) + missing_names_of(types, v.id, r.name(v), 6)
    }
}

/// The names of kind variables of one owner that mean something on one side only, and whether that
/// is the left side.
pub open spec fn sided_names_of(l: &TypeDomain, r: &TypeDomain, v: u64, name: Seq<char>, p: nat) -> Seq<(Seq<char>, bool)>
    decreases p,
{
    if p == 0 {
        seq![]
    } else {
        let te = kinded(p - 1);
        sided_names_of(l, r, v, name, (p - 1) as nat) + (if l.may_have(v, te) == r.may_have(v, te) {
            seq![]
        } else {
            kind_names(name, te).map_values(|s: Seq<char>| (s, l.may_have(v, te)))
        })
    }
}

/// The names of kind variables that mean something on one side only.
pub open spec fn sided_names(l: &TypeDomain, r: &TypeDomain, reg: RegistryView, n: nat) -> Seq<(Seq<char>, bool)>
    decreases n,
{
    if n == 0 {
        seq![]
    } else {
        let v = reg.type_variables()[n - 1];
        sided_names(l, r, reg, (n - 1) as nat) + sided_names_of(l, r, v.id, reg.name(v), 6)
    }
}

/// The intervals of the variables on the sides where they mean something, where they are bounded.
pub open spec fn sided_intervals(l: &NumAbsDomain, r: &NumAbsDomain, xs: Seq<Variable>, names: Seq<(Seq<char>, bool)>, n: nat) -> Seq<(Variable, Interval)>
    decreases n,
{
    if n == 0 {
        seq![]
    } else {
        let iv = if names[n - 1].1 { l.interval(xs[n - 1].id) } else { r.interval(xs[n - 1].id) };
        let before = sided_intervals(l, r, xs, names, (n - 1) as nat);
        if iv.is_top_spec() { before } else { before.push((xs[n - 1], iv)) }
    }
}

/// The names of a list without the sides.
pub open spec fn bare_names(names: Seq<(Seq<char>, bool)>) -> Seq<Seq<char>> {
    names.map_values(|p: (Seq<char>, bool)| p.0)
}

/// The list holds the kind variables that mean something on one side only, with their intervals.
pub open spec fn type_dependent(l: &TypeToNumDomain, r: &TypeToNumDomain, before: RegistryView, after: RegistryView, list: Seq<(Variable, Interval)>) -> bool {
    let names = sided_names(&l.types, &r.types, before, before.type_variables().len());
    exists|xs: Seq<Variable>| #[trigger] named_all(after, xs, bare_names(names))
        && list == sided_intervals(&l.values, &r.values, xs, names, names.len())
}

/// Setting variables to intervals, in turn.
pub open spec fn put_steps(extra: Seq<(Variable, Interval)>) -> Seq<Step> {
    extra.map_values(|p: (Variable, Interval)| Step::Put(p.0.id, p.1))
}

/// The names of the variables that are forgotten with a location of a type.
pub open spec fn location_names(name: Seq<char>, te: TypeEncoding) -> Seq<Seq<char>> {
    seq![var_registry::rekinded(name, DataKind::Svalues), var_registry::rekinded(name, DataKind::Uvalues)] + kind_names(name, te)
}

/// The names of the variables that are forgotten with all locations that may have a type.
pub open spec fn forgotten_names(types: &TypeDomain, te: TypeEncoding, r: RegistryView, n: nat) -> Seq<Seq<char>>
    decreases n,
{
    if n == 0 {
        seq![]
    } else {
        let v = r.type_variables()[n - 1];
        forgotten_names(types, te, r, (n - 1) as nat) + (if types.may_have(v.id, te) { location_names(r.name(v), te) } else { seq![] })
    }
}

/// The types of the first `n` type variables that may have a type are forgotten.
pub open spec fn types_forgotten(s: State, te: TypeEncoding, r: RegistryView, n: nat, t: State) -> bool {
    let tv = r.type_variables().take(n as int);
    &&& forall|w: u64| #[trigger] t.types_of(w) == (if tv.contains(Variable { id: w }) && s.types_of(w).has(te) { TypeSet::full() } else { s.types_of(w) })
    &&& forall|a: u64, b: u64| #[trigger] t.linked(a, b) <==> (a == b && t.known(a)) || (s.linked(a, b)
            && !(tv.contains(Variable { id: a }) && s.types_of(a).has(te)) && !(tv.contains(Variable { id: b }) && s.types_of(b).has(te)))
    &&& forall|w: u64| #[trigger] t.known(w) <==> s.known(w) || (tv.contains(Variable { id: w }) && s.types_of(w).has(te))
}

proof fn lemma_named_later(mid: RegistryView, later: RegistryView, xs: Seq<Variable>, names: Seq<Seq<char>>)
    requires later.extends(mid), named_all(mid, xs, names),
    ensures named_all(later, xs, names),
{
    assert forall|i: int| 0 <= i < xs.len() implies is_named(later, #[trigger] xs[i], names[i]) by {
        assert(is_named(mid, xs[i], names[i]));
        assert(later.names[xs[i].id as int] == mid.names[xs[i].id as int]);
    }
}

proof fn lemma_named_both(r: RegistryView, xs: Seq<Variable>, a: Seq<Seq<char>>, ys: Seq<Variable>, b: Seq<Seq<char>>)
    requires named_all(r, xs, a), named_all(r, ys, b),
    ensures named_all(r, xs + ys, a + b),
{
    let zs = xs + ys;
    assert forall|i: int| 0 <= i < zs.len() implies is_named(r, #[trigger] zs[i], (a + b)[i]) by {
        if i < xs.len() { assert(is_named(r, xs[i], a[i])); } else { assert(is_named(r, ys[i - xs.len()], b[i - xs.len()])); }
    }
}

/// The variables of a type variable's owner for the kinds of a type.
fn kind_variables(v: Variable, te: TypeEncoding, registry: &mut VariableRegistry) -> (r: Vec<Variable>)
    requires old(registry)@.knows(v), old(registry)@.name(v).contains('.'), old(registry)@.wf(),
    ensures
        final(registry)@.wf(),
        final(registry)@.extends(old(registry)@),
        named_all(final(registry)@, r@, kind_names(old(registry)@.name(v), te)),
{
    let kinds = type_to_kinds(te);
    let mut r: Vec<Variable> = Vec::new();
    let mut i: usize = 0;
    let ghost name = registry@.name(v);
    while i < kinds.len()
        invariant
            kinds@ == kinds_of(te),
            i <= kinds.len(),
            r.len() == i,
            registry@.wf(),
            registry@.extends(old(registry)@),
            registry@.knows(v),
            registry@.name(v) == name,
            name == old(registry)@.name(v),
            name.contains('.'),
            forall|j: int| 0 <= j < i ==> is_named(registry@, #[trigger] r@[j], var_registry::rekinded(name, kinds_of(te)[j])),
        decreases kinds.len() - i,
    {
        let ghost before = registry@;
        let x = registry.kind_var(kinds[i], v);
        proof {
            registry@.extending_is_transitive(before, old(registry)@);
            lemma_var_named(before, registry@, x, var_registry::rekinded(name, kinds_of(te)[i as int]),
                var_registry::kind_meta(kinds_of(te)[i as int], before.meta(v).is_stack_cell));
        }
        r.push(x);
        i = i + 1;
    }
    r
}

/// The variable that registering a name gives carries that name.
pub proof fn lemma_var_named(before: RegistryView, after: RegistryView, x: Variable, name: Seq<char>, meta: var_registry::VarMetadata)
    requires
        before.wf(),
        after.wf(),
        after == before.interned(name, meta),
        x == before.var(name),
        after.knows(x),
    ensures is_named(after, x, name),
{
    if before.has(name) {
        let i = choose|i: int| 0 <= i < before.names.len() && before.names[i] == name;
        assert(before.names[i] == name);
    } else {
        assert(after.names[before.names.len() as int] == name);
        assert(before.names.len() + 1 == after.names.len());
    }
}

/// The numbers of some variables.
pub open spec fn ids_of(vars: Seq<Variable>) -> Seq<u64> {
    vars.map_values(|v: Variable| v.id)
}

pub proof fn lemma_push_to_set(s: Seq<u64>, v: u64)
    ensures s.push(v).to_set() == s.to_set().insert(v),
{
    let t = s.push(v);
    assert forall|x: u64| t.to_set().contains(x) == s.to_set().insert(v).contains(x) by {
        if s.contains(x) {
            let i = choose|i: int| 0 <= i < s.len() && s[i] == x;
            assert(t[i] == x);
        }
        if x == v { assert(t[s.len() as int] == v); }
        if t.contains(x) && x != v {
            let i = choose|i: int| 0 <= i < t.len() && t[i] == x;
            assert(s[i] == x);
        }
    }
    assert(t.to_set() =~= s.to_set().insert(v));
}

/// Forgets some variables, in turn.
fn forget_all(values: &mut NumAbsDomain, vars: &Vec<Variable>, registry: &VariableRegistry)
    requires old(values).wf(),
    ensures
        final(values).wf(),
        numeric_steps::performs(numeric_steps::num(old(values)), registry@, registry@, forget_steps(ids_of(vars@)), numeric_steps::num(final(values))),
        final(values).dom is Some <==> old(values).dom is Some,
        old(values).dom is Some ==> final(values).z() == zone_model::zwithout_all(old(values).z(), ids_of(vars@).to_set())
            && final(values).held() == old(values).held().difference(ids_of(vars@).to_set()),
{
    let ghost a = numeric_steps::num(values);
    let ghost mut ops: Seq<Step> = seq![];
    let mut i: usize = 0;
    proof {
        numeric_steps::performs_nothing(a, registry@, registry@);
        numeric_steps::extends_itself(registry@);
        if values.dom is Some {
            assert(ids_of(vars@.take(0)).to_set() =~= Set::<u64>::empty());
            assert(zone_model::zwithout_all(values.z(), Set::<u64>::empty()) =~= values.z());
            assert(values.held().difference(Set::<u64>::empty()) =~= values.held());
        }
    }
    while i < vars.len()
        invariant
            values.wf(),
            i <= vars.len(),
            registry@.extends(registry@),
            a == numeric_steps::num(old(values)),
            ops == forget_steps(ids_of(vars@.take(i as int))),
            numeric_steps::performs(a, registry@, registry@, ops, numeric_steps::num(values)),
            values.dom is Some <==> old(values).dom is Some,
            old(values).dom is Some ==> values.z() == zone_model::zwithout_all(old(values).z(), ids_of(vars@.take(i as int)).to_set())
                && values.held() == old(values).held().difference(ids_of(vars@.take(i as int)).to_set()),
        decreases vars.len() - i,
    {
        let ghost b = numeric_steps::num(values);
        values.havoc(vars[i]);
        proof {
            if old(values).dom is Some {
                let gone = ids_of(vars@.take(i as int));
                let v = vars@[i as int].id;
                assert(ids_of(vars@.take(i + 1)) =~= gone.push(v));
                lemma_push_to_set(gone, v);
                zone_model::lemma_without_more(old(values).z(), gone.to_set(), v);
                assert(values.held() =~= old(values).held().difference(gone.push(v).to_set()));
            }
            let op = Step::Forget(vars@[i as int].id);
            numeric_steps::step_forget(b, registry@, vars@[i as int].id, numeric_steps::num(values));
            numeric_steps::performs_one(a, registry@, registry@, ops, b, op, numeric_steps::num(values));
            ops = ops.push(op);
            assert(ops =~= forget_steps(ids_of(vars@.take(i + 1))));
        }
        i = i + 1;
    }
    assert(vars@.take(vars@.len() as int) =~= vars@);
}

impl TypeToNumDomain {
    pub open spec fn wf(&self) -> bool {
        self.types.wf() && self.values.wf()
    }

    /// The numeric state.
    pub open spec fn num(&self) -> Num {
        numeric_steps::num(&self.values)
    }

    pub fn new() -> (r: Self)
        ensures r.wf(), r.types.state is Some, r.num() == Some(ZEdges::empty()), forall|v: u64| !(#[trigger] r.types.s().known(v)),
    {
        TypeToNumDomain { types: TypeDomain::top(), values: NumAbsDomain::top() }
    }

    pub fn bottom() -> (r: Self)
        ensures r.wf(), r.types.state is Some, r.num() is None, forall|v: u64| !(#[trigger] r.types.s().known(v)),
    {
        TypeToNumDomain { types: TypeDomain::top(), values: NumAbsDomain::bottom() }
    }

    pub fn top() -> (r: Self)
        ensures r.wf(), r.types.state is Some, r.num() == Some(ZEdges::empty()), forall|v: u64| !(#[trigger] r.types.s().known(v)),
    {
        Self::new()
    }

    /// Whether no state is possible.
    pub fn is_bottom(&self) -> (r: bool)
        ensures r == (self.num() is None),
    {
        self.values.is_bottom()
    }

    /// Whether there are no numeric constraints.
    pub fn is_top(&self) -> (r: bool)
        requires self.wf(),
        ensures r == (self.num() == Some(ZEdges::empty())),
    {
        self.values.is_top()
    }

    pub fn set_to_top(&mut self)
        ensures
            final(self).wf(),
            final(self).types.state is Some,
            final(self).num() == Some(ZEdges::empty()),
            forall|v: u64| !(#[trigger] final(self).types.s().known(v)),
    {
        self.types.set_to_top();
        self.values.set_to_top();
    }

    pub fn set_to_bottom(&mut self)
        requires old(self).wf(),
        ensures final(self).wf(), final(self).types == old(self).types, final(self).num() is None,
    {
        self.values.set_to_bottom();
    }

    /// Both say the same.
    pub open spec fn same(&self, o: &TypeToNumDomain) -> bool {
        &&& self.num() == o.num()
        &&& self.types.state is Some <==> o.types.state is Some
        &&& self.types.state is Some ==> type_domain::same_state(o.types.s(), self.types.s())
    }

    /// A copy of the domain.
    pub fn copy(&self) -> (r: Self)
        requires self.wf(),
        ensures r.wf(), r.same(self), self.num() is Some ==> r.values.held() == self.values.held(),
    {
        TypeToNumDomain { types: self.types.copy(), values: self.values.copy() }
    }

    /// Whether this domain says at least as much as another. Kind variables that mean nothing here
    /// are left out of the comparison.
    pub fn is_included_in(&self, other: &TypeToNumDomain, registry: &mut VariableRegistry) -> (r: bool)
        requires self.wf(), other.wf(), old(registry)@.wf(),
        ensures
            final(registry)@.wf(),
            final(registry)@.extends(old(registry)@),
            self.num() is None ==> r,
            self.num() is Some && other.num() is None ==> !r,
            self.num() is Some && other.num() is Some ==> exists|vars: Seq<Variable>|
                #[trigger] included_up_to(self, other, old(registry)@, final(registry)@, vars, r),
            r && self.num() is Some ==> exists|vars: Set<u64>| zone_model::zentails(self.values.z(), #[trigger] zone_model::zwithout_all(other.values.z(), vars)),
    {
        proof { numeric_steps::extends_itself(registry@); }
        if self.is_bottom() {
            return true;
        }
        if other.is_bottom() {
            return false;
        }
        let types_in: bool = self.types.is_included_in(&other.types);
        let vars = self.get_nonexistent_kind_variables(registry);
        let mut tmp = other.copy();
        forget_all(&mut tmp.values, &vars, registry);
        let values_in: bool = self.values.is_included_in(&tmp.values);
        proof {
            assert(included_up_to(self, other, old(registry)@, registry@, vars@, types_in && values_in));
            assert(tmp.values.z() == zone_model::zwithout_all(other.values.z(), ids_of(vars@).to_set()));
        }
        types_in && values_in
    }

    /// Lists the kind variables that mean nothing, because their owner cannot have the type.
    pub fn get_nonexistent_kind_variables(&self, registry: &mut VariableRegistry) -> (r: Vec<Variable>)
        requires self.wf(), old(registry)@.wf(),
        ensures
            final(registry)@.wf(),
            final(registry)@.extends(old(registry)@),
            named_all(final(registry)@, r@, missing_names(&self.types, old(registry)@, old(registry)@.type_variables().len())),
    {
        let ghost r0 = registry@;
        let mut out: Vec<Variable> = Vec::new();
        let tv = registry.get_type_variables();
        let mut i: usize = 0;
        proof { numeric_steps::extends_itself(r0); }
        while i < tv.len()
            invariant
                self.wf(),
                r0 == old(registry)@,
                registry@.wf(),
                r0.wf(),
                registry@.extends(r0),
                i <= tv.len(),
                tv@ == r0.type_variables(),
                forall|j: int| 0 <= j < tv.len() ==> r0.knows(#[trigger] tv@[j]) && r0.meta(tv@[j]).kind == Some(DataKind::Types),
                named_all(registry@, out@, missing_names(&self.types, r0, i as nat)),
            decreases tv.len() - i,
        {
            let v: Variable = tv[i];
            let ghost name = r0.name(v);
            let mut p: usize = 0;
            assert(r0.knows(v) && r0.meta(v).kind == Some(DataKind::Types));
            assert(r0.metas[v.id as int].kind is Some);
            let ghost done = missing_names(&self.types, r0, i as nat);
            assert(done + missing_names_of(&self.types, v.id, name, 0) =~= done);
            while p < 6
                invariant
                    self.wf(),
                    registry@.wf(),
                    r0.wf(),
                    registry@.extends(r0),
                    p <= 6,
                    r0.knows(v),
                    name == r0.name(v),
                    name.contains('.'),
                    named_all(registry@, out@, done + missing_names_of(&self.types, v.id, name, p as nat)),
                decreases 6 - p,
            {
                let te = type_with_kinds(p);
                let ghost mid = registry@;
                let ghost have = done + missing_names_of(&self.types, v.id, name, p as nat);
                if !self.types.may_have_type_var(v, te, registry) {
                    assert(registry@.names[v.id as int] == r0.names[v.id as int]);
                    let mut kv = kind_variables(v, te, registry);
                    proof {
                        registry@.extending_is_transitive(mid, r0);
                        lemma_named_later(mid, registry@, out@, have);
                        lemma_named_both(registry@, out@, have, kv@, kind_names(name, te));
                        assert(have + kind_names(name, te) =~= done + missing_names_of(&self.types, v.id, name, (p + 1) as nat));
                    }
                    out.append(&mut kv);
                } else {
                    assert(done + missing_names_of(&self.types, v.id, name, (p + 1) as nat) =~= have);
                }
                p = p + 1;
            }
            i = i + 1;
        }
        out
    }

    /// Lists the kind variables that mean something on one side only, with their intervals there.
    pub fn collect_type_dependent_constraints(&self, right: &TypeToNumDomain, registry: &mut VariableRegistry) -> (r: Vec<(Variable, Interval)>)
        requires self.wf(), right.wf(), old(registry)@.wf(),
        ensures
            final(registry)@.wf(),
            final(registry)@.extends(old(registry)@),
            type_dependent(self, right, old(registry)@, final(registry)@, r@),
            forall|i: int| 0 <= i < r.len() ==> final(registry)@.knows((#[trigger] r@[i]).0),
    {
        let ghost r0 = registry@;
        let ghost mut xs: Seq<Variable> = seq![];
        let mut out: Vec<(Variable, Interval)> = Vec::new();
        let tv = registry.get_type_variables();
        let mut i: usize = 0;
        proof { numeric_steps::extends_itself(r0); }
        assert(bare_names(sided_names(&self.types, &right.types, r0, 0)) =~= seq![]);
        while i < tv.len()
            invariant
                self.wf(),
                right.wf(),
                r0 == old(registry)@,
                registry@.wf(),
                r0.wf(),
                registry@.extends(r0),
                i <= tv.len(),
                tv@ == r0.type_variables(),
                forall|j: int| 0 <= j < tv.len() ==> r0.knows(#[trigger] tv@[j]) && r0.meta(tv@[j]).kind == Some(DataKind::Types),
                collected(self, right, registry@, xs, sided_names(&self.types, &right.types, r0, i as nat), out@),
            decreases tv.len() - i,
        {
            let v: Variable = tv[i];
            let ghost name = r0.name(v);
            let mut p: usize = 0;
            assert(r0.knows(v) && r0.meta(v).kind == Some(DataKind::Types));
            assert(r0.metas[v.id as int].kind is Some);
            let ghost done = sided_names(&self.types, &right.types, r0, i as nat);
            assert(done + sided_names_of(&self.types, &right.types, v.id, name, 0) =~= done);
            while p < 6
                invariant
                    self.wf(),
                    right.wf(),
                    registry@.wf(),
                    r0.wf(),
                    registry@.extends(r0),
                    p <= 6,
                    r0.knows(v),
                    name == r0.name(v),
                    name.contains('.'),
                    collected(self, right, registry@, xs, done + sided_names_of(&self.types, &right.types, v.id, name, p as nat), out@),
                decreases 6 - p,
            {
                let te = type_with_kinds(p);
                let ghost mid = registry@;
                let ghost have = done + sided_names_of(&self.types, &right.types, v.id, name, p as nat);
                let in_left: bool = self.types.may_have_type_var(v, te, registry);
                let in_right: bool = right.types.may_have_type_var(v, te, registry);
                if in_left != in_right {
                    assert(registry@.names[v.id as int] == r0.names[v.id as int]);
                    let kv = kind_variables(v, te, registry);
                    let ghost more = kind_names(name, te).map_values(|s: Seq<char>| (s, in_left));
                    proof {
                        registry@.extending_is_transitive(mid, r0);
                        lemma_collected_later(self, right, mid, registry@, xs, have, out@);
                    }
                    let mut k: usize = 0;
                    assert(have + more.take(0) =~= have);
                    while k < kv.len()
                        invariant
                            self.wf(),
                            right.wf(),
                            k <= kv.len(),
                            more == kind_names(name, te).map_values(|s: Seq<char>| (s, in_left)),
                            named_all(registry@, kv@, kind_names(name, te)),
                            collected(self, right, registry@, xs, have + more.take(k as int), out@),
                        decreases kv.len() - k,
                    {
                        let x: Variable = kv[k];
                        let value = if in_left { self.values.eval_interval_var(x, registry) } else { right.values.eval_interval_var(x, registry) };
                        let ghost before = out@;
                        if !value.is_top() {
                            out.push((x, value));
                        }
                        proof {
                            assert(is_named(registry@, kv@[k as int], kind_names(name, te)[k as int]));
                            lemma_collected_one(self, right, registry@, xs, have + more.take(k as int), before, x, more[k as int], out@);
                            xs = xs.push(x);
                            assert((have + more.take(k as int)).push(more[k as int]) =~= have + more.take(k + 1));
                        }
                        k = k + 1;
                    }
                    assert(more.take(more.len() as int) =~= more);
                    assert(have + more =~= done + sided_names_of(&self.types, &right.types, v.id, name, (p + 1) as nat));
                } else {
                    assert(done + sided_names_of(&self.types, &right.types, v.id, name, (p + 1) as nat) =~= have);
                }
                p = p + 1;
            }
            i = i + 1;
        }
        out
    }
}

/// The list holds the bounded intervals of the variables with the given names.
spec fn collected(l: &TypeToNumDomain, r: &TypeToNumDomain, now: RegistryView, xs: Seq<Variable>, names: Seq<(Seq<char>, bool)>, out: Seq<(Variable, Interval)>) -> bool {
    &&& named_all(now, xs, bare_names(names))
    &&& out == sided_intervals(&l.values, &r.values, xs, names, names.len())
    &&& forall|i: int| 0 <= i < out.len() ==> now.knows((#[trigger] out[i]).0)
}

proof fn lemma_collected_later(l: &TypeToNumDomain, r: &TypeToNumDomain, mid: RegistryView, later: RegistryView, xs: Seq<Variable>, names: Seq<(Seq<char>, bool)>, out: Seq<(Variable, Interval)>)
    requires later.extends(mid), collected(l, r, mid, xs, names, out),
    ensures collected(l, r, later, xs, names, out),
{
    lemma_named_later(mid, later, xs, bare_names(names));
}

proof fn lemma_intervals_prefix(l: &NumAbsDomain, r: &NumAbsDomain, xs: Seq<Variable>, names: Seq<(Seq<char>, bool)>, x: Variable, name: (Seq<char>, bool), n: nat)
    requires n <= xs.len(), xs.len() == names.len(),
    ensures sided_intervals(l, r, xs.push(x), names.push(name), n) == sided_intervals(l, r, xs, names, n),
    decreases n,
{
    if n > 0 {
        lemma_intervals_prefix(l, r, xs, names, x, name, (n - 1) as nat);
    }
}

proof fn lemma_collected_one(l: &TypeToNumDomain, r: &TypeToNumDomain, now: RegistryView, xs: Seq<Variable>, names: Seq<(Seq<char>, bool)>, before: Seq<(Variable, Interval)>, x: Variable, name: (Seq<char>, bool), out: Seq<(Variable, Interval)>)
    requires
        collected(l, r, now, xs, names, before),
        is_named(now, x, name.0),
        ({
            let iv = if name.1 { l.values.interval(x.id) } else { r.values.interval(x.id) };
            out == (if iv.is_top_spec() { before } else { before.push((x, iv)) })
        }),
    ensures collected(l, r, now, xs.push(x), names.push(name), out),
{
    let plain = bare_names(names);
    let more = bare_names(names.push(name));
    assert(more =~= plain.push(name.0));
    let ys = xs.push(x);
    assert forall|i: int| 0 <= i < ys.len() implies is_named(now, #[trigger] ys[i], more[i]) by {
        if i < xs.len() { assert(is_named(now, xs[i], plain[i])); }
    }
    lemma_intervals_prefix(&l.values, &r.values, xs, names, x, name, names.len());
}

/// The comparison of two domains up to the kind variables that mean nothing in the first: the types
/// are included, and so is the zone, once the other one has forgotten these variables.
pub open spec fn included_up_to(a: &TypeToNumDomain, b: &TypeToNumDomain, before: RegistryView, after: RegistryView, vars: Seq<Variable>, r: bool) -> bool {
    let types_in = a.types.state is None || (b.types.state is Some && type_domain::refines(a.types.s(), b.types.s()));
    let gone = ids_of(vars).to_set();
    &&& named_all(after, vars, missing_names(&a.types, before, before.type_variables().len()))
    &&& r == (types_in && zone_model::zincluded(a.values.z(), a.values.held(), zone_model::zwithout_all(b.values.z(), gone), b.values.held().difference(gone)))
}

/// A domain lies in itself, whatever the registry holds.
pub proof fn inclusion_is_reflexive(a: &TypeToNumDomain, before: RegistryView, after: RegistryView, vars: Seq<Variable>, r: bool)
    requires a.wf(), a.num() is Some, included_up_to(a, a, before, after, vars, r),
    ensures r,
{
    a.values.dom->Some_0.dom.touched_are_held();
    zone_model::inclusion_is_reflexive(a.values.z(), a.values.held(), ids_of(vars).to_set());
    if a.types.state is Some {
        type_domain::refinement_is_reflexive(a.types.s());
    }
}

/// Sets variables to intervals, in turn.
fn put_all(values: &mut NumAbsDomain, extra: &Vec<(Variable, Interval)>, registry: &VariableRegistry)
    requires old(values).wf(), forall|i: int| 0 <= i < extra.len() ==> registry@.knows((#[trigger] extra@[i]).0),
    ensures
        final(values).wf(),
        numeric_steps::performs(numeric_steps::num(old(values)), registry@, registry@, put_steps(extra@), numeric_steps::num(final(values))),
{
    let ghost a = numeric_steps::num(values);
    let ghost mut ops: Seq<Step> = seq![];
    let mut i: usize = 0;
    proof { numeric_steps::performs_nothing(a, registry@, registry@); numeric_steps::extends_itself(registry@); }
    while i < extra.len()
        invariant
            values.wf(),
            i <= extra.len(),
            forall|i: int| 0 <= i < extra.len() ==> registry@.knows((#[trigger] extra@[i]).0),
            registry@.extends(registry@),
            a == numeric_steps::num(old(values)),
            ops == put_steps(extra@.take(i as int)),
            numeric_steps::performs(a, registry@, registry@, ops, numeric_steps::num(values)),
        decreases extra.len() - i,
    {
        let ghost b = numeric_steps::num(values);
        let (x, iv) = extra[i];
        assert(registry@.knows(extra@[i as int].0));
        values.set(x, &iv, registry);
        proof {
            let op = Step::Put(x.id, iv);
            numeric_steps::step_put(b, registry@, x.id, iv, numeric_steps::num(values));
            numeric_steps::performs_one(a, registry@, registry@, ops, b, op, numeric_steps::num(values));
            ops = ops.push(op);
            assert(ops =~= put_steps(extra@.take(i + 1)));
        }
        i = i + 1;
    }
    assert(extra@.take(extra@.len() as int) =~= extra@);
}

/// The numeric part of a join: the joined constraints, and then the intervals of the variables
/// that mean something on one side only.
pub open spec fn joined_values(l: &TypeToNumDomain, r: &TypeToNumDomain, before: RegistryView, after: RegistryView, n: Num) -> bool {
    exists|extra: Seq<(Variable, Interval)>, mid: ZEdges| type_dependent(l, r, before, after, extra)
        && zone_model::zjoined(l.values.z(), r.values.z(), mid)
        && #[trigger] numeric_steps::performs(Some(mid), after, after, put_steps(extra), n)
}

/// The widening of numeric values, of which either may be nothing.
pub open spec fn widened_numbers(l: Num, r: Num, m: Num) -> bool {
    match (l, r) {
        (None, _) => m == r,
        (_, None) => m == l,
        (Some(x), Some(y)) => m matches Some(z) && zone_model::zwidened(x, y, z),
    }
}

/// The widening of values, and what only one side says of a type.
pub open spec fn widened_values(l: &TypeToNumDomain, r: &TypeToNumDomain, before: RegistryView, after: RegistryView, n: Num) -> bool {
    exists|extra: Seq<(Variable, Interval)>, mid: Num| type_dependent(l, r, before, after, extra)
        && widened_numbers(l.num(), r.num(), mid)
        && #[trigger] numeric_steps::performs(mid, after, after, put_steps(extra), n)
}

/// The widening of types, of which either may be nothing.
pub open spec fn widened_types(l: &TypeDomain, r: &TypeDomain, t: &TypeDomain) -> bool {
    &&& t.state is None <==> l.state is None && r.state is None
    &&& l.state is None && r.state is Some ==> type_domain::same_state(r.s(), t.s())
    &&& l.state is Some && r.state is None ==> type_domain::same_state(l.s(), t.s())
    &&& l.state is Some && r.state is Some ==> type_domain::joined(l.s(), r.s(), t.s())
}

/// What each branch of a split by type holds: the register has that type alone, and the variables
/// of the other types are forgotten.
pub open spec fn is_branch(d: &TypeToNumDomain, reg: Reg, r: RegistryView, tes: Seq<TypeEncoding>, te: TypeEncoding, b: &TypeToNumDomain) -> bool {
    &&& d.types.s().types_of(type_id(reg)).common(TypeSet::just(te)).inhabited() <==> b.types.state is Some
    &&& b.types.state is Some ==> type_domain::narrowed(d.types.s(), type_id(reg), d.types.s().types_of(type_id(reg)).common(TypeSet::just(te)), b.types.s())
    &&& numeric_steps::performs(d.num(), r, r, forget_steps(other_kind_ids(reg.v as int, tes, Some(te))), b.num())
}

/// Whether a register is initialized.
pub open spec fn initialized(d: &TypeToNumDomain, reg: Reg) -> bool {
    d.types.state is Some && !d.types.s().types_of(type_id(reg)).has(TypeEncoding::TUninit)
}

impl TypeToNumDomain {
    /// Joins the numeric part of another domain into this one, keeping what is known of variables
    /// that mean something on one side only. The types stay.
    pub fn join_selective(&mut self, right: &TypeToNumDomain, registry: &mut VariableRegistry)
        requires old(self).wf(), right.wf(), old(registry)@.wf(),
        ensures
            final(self).wf(),
            final(registry)@.wf(),
            final(registry)@.extends(old(registry)@),
            old(self).num() is None ==> final(self).same(right),
            right.num() is None && old(self).num() is Some ==> *final(self) == *old(self),
            old(self).num() is Some && right.num() is Some ==> final(self).types == old(self).types
                && joined_values(old(self), right, old(registry)@, final(registry)@, final(self).num()),
    {
        proof { numeric_steps::extends_itself(registry@); }
        if self.is_bottom() {
            *self = right.copy();
            return;
        }
        if right.is_bottom() {
            return;
        }
        let extra = self.collect_type_dependent_constraints(right, registry);
        self.values.join_assign(&right.values);
        let ghost mid = self.values.z();
        put_all(&mut self.values, &extra, registry);
        assert(numeric_steps::performs(Some(mid), registry@, registry@, put_steps(extra@), self.num()));
    }

    /// Joins another domain into this one.
    pub fn join_assign(&mut self, other: &TypeToNumDomain, registry: &mut VariableRegistry)
        requires old(self).wf(), other.wf(), old(registry)@.wf(),
        ensures
            final(self).wf(),
            final(registry)@.wf(),
            final(registry)@.extends(old(registry)@),
            old(self).num() is None ==> final(self).same(other),
            other.num() is None && old(self).num() is Some ==> *final(self) == *old(self),
            old(self).num() is Some && other.num() is Some ==> {
                &&& joined_values(old(self), other, old(registry)@, final(registry)@, final(self).num())
                &&& final(self).types.state is None <==> old(self).types.state is None && other.types.state is None
                &&& old(self).types.state is Some && other.types.state is Some ==> type_domain::joined(old(self).types.s(), other.types.s(), final(self).types.s())
                &&& old(self).types.state is None && other.types.state is Some ==> type_domain::same_state(other.types.s(), final(self).types.s())
                &&& old(self).types.state is Some && other.types.state is None ==> final(self).types == old(self).types
            },
    {
        proof { numeric_steps::extends_itself(registry@); }
        if self.is_bottom() {
            *self = other.copy();
            return;
        }
        if other.is_bottom() {
            return;
        }
        self.join_selective(other, registry);
        self.types.join_assign(&other.types);
    }

    /// What both domains say.
    pub fn meet(&self, other: &TypeToNumDomain) -> (r: TypeToNumDomain)
        requires self.wf(), other.wf(),
        ensures
            r.wf(),
            r.types.state is Some,
            r.num() is Some ==> self.num() is Some && other.num() is Some && self.types.state is Some && other.types.state is Some
                && zone_model::zmet(self.values.z(), other.values.z(), r.values.z()) && type_domain::met(self.types.s(), other.types.s(), r.types.s()),
            r.num() is None ==> self.num() is None || other.num() is None || self.types.state is None || other.types.state is None
                || zone_model::zdisjoint(self.values.z(), other.values.z())
                || forall|typing: type_domain::Typing| !(#[trigger] type_domain::admits(self.types.s(), typing) && type_domain::admits(other.types.s(), typing)),
    {
        match self.types.meet(&other.types) {
            Some(types) => TypeToNumDomain { types, values: self.values.meet(&other.values) },
            None => TypeToNumDomain::bottom(),
        }
    }

    /// The widening of two domains.
    pub fn widen(&self, other: &TypeToNumDomain, registry: &mut VariableRegistry) -> (r: TypeToNumDomain)
        requires self.wf(), other.wf(), old(registry)@.wf(),
        ensures
            r.wf(),
            final(registry)@.wf(),
            final(registry)@.extends(old(registry)@),
            widened_values(self, other, old(registry)@, final(registry)@, r.num()),
            widened_types(&self.types, &other.types, &r.types),
    {
        let extra = self.collect_type_dependent_constraints(other, registry);
        let mut res = TypeToNumDomain { types: self.types.widen(&other.types), values: self.values.widen(&other.values) };
        let ghost mid = res.num();
        assert(widened_numbers(self.num(), other.num(), mid));
        put_all(&mut res.values, &extra, registry);
        assert(numeric_steps::performs(mid, registry@, registry@, put_steps(extra@), res.num()));
        res
    }

    /// The narrowing of two domains.
    pub fn narrow(&self, other: &TypeToNumDomain) -> (r: TypeToNumDomain)
        requires self.wf(), other.wf(),
        ensures
            r.wf(),
            r.num() is Some <==> self.num() is Some && other.num() is Some,
            r.num() is Some ==> r.values.z() == (if self.values.z() == ZEdges::empty() { other.values.z() } else { self.values.z() }),
            r.types.state is Some ==> self.types.state is Some && other.types.state is Some && type_domain::met(self.types.s(), other.types.s(), r.types.s()),
            r.types.state is None && self.types.state is Some && other.types.state is Some ==>
                forall|typing: type_domain::Typing| !(#[trigger] type_domain::admits(self.types.s(), typing) && type_domain::admits(other.types.s(), typing)),
    {
        TypeToNumDomain { types: self.types.narrow(&other.types), values: self.values.narrow(&other.values) }
    }

    /// The offset of a register that has one type.
    pub fn get_type_offset_variable(&self, reg: &Reg, registry: &mut VariableRegistry) -> (r: Option<Variable>)
        requires self.wf(), old(registry)@.ready(), reg.v <= 11,
        ensures
            final(registry)@ == old(registry)@,
            r is Some <==> self.types.state is Some && exists|te: TypeEncoding| #[trigger] self.types.s().types_of(type_id(*reg)).is_just(te) && offset_kind(te) is Some,
            r matches Some(v) ==> exists|te: TypeEncoding| #[trigger] self.types.s().types_of(type_id(*reg)).is_just(te)
                && offset_kind(te) is Some && v == var_registry::reg_var(offset_kind(te)->Some_0, reg.v as int),
    {
        proof { register_type(registry@, *reg); }
        match self.types.get_type(reg, registry) {
            Some(te) => {
                proof {
                    let ts = self.types.s().types_of(type_id(*reg));
                    assert forall|x: TypeEncoding| #[trigger] ts.is_just(x) implies x == te by { assert(ts.has(x)); }
                }
                get_type_offset_variable(reg, te, registry)
            }
            None => None,
        }
    }

    /// Lists the possible types of a register; uninitialized alone where it may be uninitialized.
    pub fn enumerate_types(&self, reg: &Reg, registry: &mut VariableRegistry) -> (r: Vec<TypeEncoding>)
        requires self.wf(), old(registry)@.ready(), reg.v <= 11,
        ensures
            final(registry)@ == old(registry)@,
            r@ == (if initialized(self, *reg) { self.types.iterated(type_id(*reg)) } else { seq![TypeEncoding::TUninit] }),
    {
        proof { register_type(registry@, *reg); }
        if !self.types.is_initialized_reg(reg, registry) {
            let mut r: Vec<TypeEncoding> = Vec::new();
            r.push(T_UNINIT);
            assert(r@ =~= seq![TypeEncoding::TUninit]);
            return r;
        }
        self.types.iterate_types(reg, registry)
    }

    /// Splits the domain by the types of a register: for each possible type the domain in which
    /// the register has it, without the variables of its other types. A register that may be
    /// uninitialized is not split.
    pub fn type_branches(&self, reg: &Reg, registry: &mut VariableRegistry) -> (r: Vec<(TypeEncoding, TypeToNumDomain)>)
        requires self.wf(), old(registry)@.ready(), reg.v <= 11,
        ensures
            final(registry)@ == old(registry)@,
            forall|i: int| 0 <= i < r.len() ==> (#[trigger] r@[i]).1.wf(),
            !initialized(self, *reg) ==> r.len() == 1 && r@[0].0 is TUninit && r@[0].1.same(self),
            initialized(self, *reg) ==> ({
                let tes = self.types.iterated(type_id(*reg));
                r.len() == tes.len() && forall|i: int| 0 <= i < r.len() ==>
                    (#[trigger] r@[i]).0 == tes[i] && is_branch(self, *reg, old(registry)@, tes, tes[i], &r@[i].1)
            }),
    {
        proof { register_type(registry@, *reg); }
        let mut out: Vec<(TypeEncoding, TypeToNumDomain)> = Vec::new();
        if !self.types.is_initialized_reg(reg, registry) {
            out.push((T_UNINIT, self.copy()));
            return out;
        }
        let tes = self.types.iterate_types(reg, registry);
        let type_var = reg_type(reg, registry);
        let mut i: usize = 0;
        while i < tes.len()
            invariant
                self.wf(),
                registry@ == old(registry)@,
                registry@.ready(),
                reg.v <= 11,
                type_var.id == type_id(*reg),
                initialized(self, *reg),
                tes@ == self.types.iterated(type_id(*reg)),
                i <= tes.len(),
                out.len() == i,
                forall|j: int| 0 <= j < i ==> (#[trigger] out@[j]).1.wf() && out@[j].0 == tes@[j] && is_branch(self, *reg, registry@, tes@, tes@[j], &out@[j].1),
            decreases tes.len() - i,
        {
            let te = tes[i];
            let mut tmp = self.copy();
            let ghost before = tmp;
            tmp.types.restrict_to(type_var, TypeSet::singleton(te));
            proof {
                assert(before.types.s().types_of(type_id(*reg)) == self.types.s().types_of(type_id(*reg)));
                if tmp.types.state is Some {
                    lemma_narrowed_same(self.types.s(), before.types.s(), tmp.types.s(), type_id(*reg), self.types.s().types_of(type_id(*reg)).common(TypeSet::just(te)));
                }
            }
            let others = register_kinds(reg, &tes, Some(te), registry);
            forget_all(&mut tmp.values, &others, registry);
            out.push((te, tmp));
            i = i + 1;
        }
        out
    }

    /// Forgets all locations that may have a type: their types, their values and the variables of
    /// the type.
    pub fn havoc_all_locations_having_type(&mut self, te: TypeEncoding, registry: &mut VariableRegistry)
        requires old(self).wf(), old(registry)@.wf(),
        ensures
            final(self).wf(),
            final(registry)@.wf(),
            final(registry)@.extends(old(registry)@),
            final(self).types.state is Some <==> old(self).types.state is Some,
            old(self).types.state is Some ==> types_forgotten(old(self).types.s(), te, old(registry)@, old(registry)@.type_variables().len(), final(self).types.s()),
            exists|vars: Seq<Variable>| named_all(final(registry)@, vars, forgotten_names(&old(self).types, te, old(registry)@, old(registry)@.type_variables().len()))
                && #[trigger] numeric_steps::performs(old(self).num(), old(registry)@, final(registry)@, forget_steps(ids_of(vars)), final(self).num()),
    {
        let ghost d0 = *self;
        let ghost r0 = registry@;
        let tv = registry.get_type_variables();
        let ghost mut vars: Seq<Variable> = seq![];
        let mut i: usize = 0;
        proof {
            numeric_steps::extends_itself(r0);
            numeric_steps::performs_nothing(d0.num(), r0, r0);
            assert(forget_steps(ids_of(vars)) =~= seq![]);
            if d0.types.state is Some {
                assert forall|a: u64, b: u64| d0.types.s().linked(a, b) implies d0.types.s().known(a) by { d0.types.s().classes(a, b, b); }
                assert forall|a: u64| #[trigger] d0.types.s().known(a) implies d0.types.s().linked(a, a) by { d0.types.s().classes(a, a, a); }
            }
        }
        while i < tv.len()
            invariant
                self.wf(),
                d0.wf(),
                d0 == *old(self),
                r0 == old(registry)@,
                r0.wf(),
                registry@.wf(),
                registry@.extends(r0),
                tv@ == r0.type_variables(),
                i <= tv.len(),
                forall|j: int| 0 <= j < tv.len() ==> r0.knows(#[trigger] tv@[j]) && r0.meta(tv@[j]).kind == Some(DataKind::Types),
                forall|a: int, b: int| 0 <= a < b < tv.len() ==> (#[trigger] tv@[a]).id < (#[trigger] tv@[b]).id,
                self.types.state is Some <==> d0.types.state is Some,
                d0.types.state is Some ==> types_forgotten(d0.types.s(), te, r0, i as nat, self.types.s()),
                named_all(registry@, vars, forgotten_names(&d0.types, te, r0, i as nat)),
                numeric_steps::performs(d0.num(), r0, registry@, forget_steps(ids_of(vars)), self.num()),
            decreases tv.len() - i,
        {
            let v: Variable = tv[i];
            let ghost mid = registry@;
            let ghost done = forgotten_names(&d0.types, te, r0, i as nat);
            assert(r0.knows(v) && r0.meta(v).kind == Some(DataKind::Types));
            assert(r0.metas[v.id as int].kind is Some);
            assert(mid.names[v.id as int] == r0.names[v.id as int]);
            proof {
                assert(!tv@.take(i as int).contains(v)) by {
                    if tv@.take(i as int).contains(v) {
                        let q = choose|q: int| 0 <= q < i && tv@.take(i as int)[q] == v;
                        assert(tv@[q].id < tv@[i as int].id);
                    }
                }
                if d0.types.state is Some { assert(self.types.s().types_of(v.id) == d0.types.s().types_of(v.id)); }
            }
            if self.types.may_have_type_var(v, te, registry) {
                let ghost was = self.types.s();
                self.types.havoc_type_var(v);
                let ghost name = r0.name(v);
                let sv = registry.kind_var(DataKind::Svalues, v);
                let ghost r1 = registry@;
                proof {
                    lemma_var_named(mid, r1, sv, var_registry::rekinded(name, DataKind::Svalues), var_registry::kind_meta(DataKind::Svalues, mid.meta(v).is_stack_cell));
                    assert(r1.names[v.id as int] == mid.names[v.id as int]);
                }
                let uv = registry.kind_var(DataKind::Uvalues, v);
                let ghost r2 = registry@;
                proof {
                    lemma_var_named(r1, r2, uv, var_registry::rekinded(name, DataKind::Uvalues), var_registry::kind_meta(DataKind::Uvalues, r1.meta(v).is_stack_cell));
                    assert(r2.names[v.id as int] == r1.names[v.id as int]);
                }
                let mut kv = kind_variables(v, te, registry);
                let mut list: Vec<Variable> = Vec::new();
                list.push(sv);
                list.push(uv);
                let ghost two = list@;
                proof {
                    let r3 = registry@;
                    r2.extending_is_transitive(r1, mid);
                    r3.extending_is_transitive(r2, mid);
                    r3.extending_is_transitive(mid, r0);
                    r3.extending_is_transitive(r2, r1);
                    let two_names = seq![var_registry::rekinded(name, DataKind::Svalues), var_registry::rekinded(name, DataKind::Uvalues)];
                    assert(r3.names[sv.id as int] == r1.names[sv.id as int]);
                    assert(r3.names[uv.id as int] == r2.names[uv.id as int]);
                    assert(named_all(r3, two, two_names));
                    lemma_named_both(r3, two, two_names, kv@, kind_names(name, te));
                    lemma_named_later(mid, r3, vars, done);
                    lemma_named_both(r3, vars, done, two + kv@, location_names(name, te));
                }
                list.append(&mut kv);
                let ghost b = self.num();
                forget_all(&mut self.values, &list, registry);
                proof {
                    let prev = vars;
                    numeric_steps::extends_itself(registry@);
                    numeric_steps::performs_later(d0.num(), r0, mid, registry@, forget_steps(ids_of(prev)), b);
                    numeric_steps::performs_both(d0.num(), r0, registry@, registry@, forget_steps(ids_of(prev)), b, forget_steps(ids_of(list@)), self.num());
                    vars = prev + list@;
                    assert(forget_steps(ids_of(vars)) =~= forget_steps(ids_of(prev)) + forget_steps(ids_of(list@)));
                    assert(done + location_names(name, te) =~= forgotten_names(&d0.types, te, r0, (i + 1) as nat));
                    lemma_types_forgotten_next(d0.types.s(), te, r0, i as nat, was, self.types.s());
                }
            } else {
                proof {
                    assert(done =~= forgotten_names(&d0.types, te, r0, (i + 1) as nat));
                    if d0.types.state is Some {
                        lemma_types_forgotten_next(d0.types.s(), te, r0, i as nat, self.types.s(), self.types.s());
                    }
                }
            }
            i = i + 1;
        }
        assert(tv@.take(tv@.len() as int) =~= tv@);
    }
}

/// One type variable more.
proof fn lemma_types_forgotten_next(s: State, te: TypeEncoding, r: RegistryView, n: nat, was: State, now: State)
    requires
        s.wf(),
        n < r.type_variables().len(),
        types_forgotten(s, te, r, n, was),
        !r.type_variables().take(n as int).contains(r.type_variables()[n as int]),
        ({
            let v = r.type_variables()[n as int];
            if s.types_of(v.id).has(te) { type_domain::forgot(was, v.id, now) } else { now == was }
        }),
    ensures types_forgotten(s, te, r, n + 1, now),
{
    let v = r.type_variables()[n as int];
    let p = r.type_variables().take(n as int);
    let q = r.type_variables().take((n + 1) as int);
    assert(q =~= p.push(v));
    assert forall|w: u64| #[trigger] q.contains(Variable { id: w }) <==> p.contains(Variable { id: w }) || w == v.id by {
        let x = Variable { id: w };
        if p.contains(x) {
            let k = choose|k: int| 0 <= k < p.len() && p[k] == x;
            assert(q[k] == x);
        }
        if w == v.id { assert(q[n as int] == x); }
        if q.contains(x) && w != v.id {
            let k = choose|k: int| 0 <= k < q.len() && q[k] == x;
            assert(p[k] == x);
        }
    }
    assert forall|a: u64, b: u64| #[trigger] now.linked(a, b) <==> (a == b && now.known(a)) || (s.linked(a, b)
        && !(q.contains(Variable { id: a }) && s.types_of(a).has(te)) && !(q.contains(Variable { id: b }) && s.types_of(b).has(te))) by {
        assert(was.linked(a, b) <==> (a == b && was.known(a)) || (s.linked(a, b)
            && !(p.contains(Variable { id: a }) && s.types_of(a).has(te)) && !(p.contains(Variable { id: b }) && s.types_of(b).has(te))));
        assert(was.known(a) <==> s.known(a) || (p.contains(Variable { id: a }) && s.types_of(a).has(te)));
    }
    assert forall|w: u64| #[trigger] now.types_of(w) == (if q.contains(Variable { id: w }) && s.types_of(w).has(te) { TypeSet::full() } else { s.types_of(w) }) by {
        assert(was.types_of(w) == (if p.contains(Variable { id: w }) && s.types_of(w).has(te) { TypeSet::full() } else { s.types_of(w) }));
    }
    assert forall|w: u64| #[trigger] now.known(w) <==> s.known(w) || (q.contains(Variable { id: w }) && s.types_of(w).has(te)) by {
        assert(was.known(w) <==> s.known(w) || (p.contains(Variable { id: w }) && s.types_of(w).has(te)));
    }
}

/// A copy is narrowed as what it was copied from.
proof fn lemma_narrowed_same(s: State, c: State, t: State, v: u64, ts: TypeSet)
    requires type_domain::same_state(s, c), type_domain::narrowed(c, v, ts, t),
    ensures type_domain::narrowed(s, v, ts, t),
{
    assert forall|w: u64| #[trigger] t.types_of(w) == (if w == v || s.linked(v, w) { ts } else { s.types_of(w) }) by {
        assert(c.types_of(w) == s.types_of(w));
        assert(c.linked(v, w) == s.linked(v, w));
    }
    assert forall|a: u64, b: u64| #[trigger] t.linked(a, b) <==> t.known(a) && t.known(b)
        && (a == b || s.linked(a, b) || type_domain::same_lone_type(t.types_of(a), t.types_of(b))) by {
        assert(c.linked(a, b) == s.linked(a, b));
    }
    assert forall|w: u64| #[trigger] t.known(w) <==> s.known(w) || w == v by { assert(c.known(w) == s.known(w)); }
}

proof fn lemma_path_nothing(path: Seq<Num>, r: RegistryView, ops: Seq<Step>, n: int)
    requires
        path.len() == ops.len() + 1,
        path[0] is None,
        numeric_steps::is_path(path, r, r, ops),
        0 <= n <= ops.len(),
    ensures path[n] is None,
    decreases n,
{
    if n > 0 {
        lemma_path_nothing(path, r, ops, n - 1);
        assert(numeric_steps::step_between(path[n - 1], r, r, ops[n - 1], path[(n - 1) + 1]));
        let q = choose|q: RegistryView| q.extends(r) && r.extends(q) && #[trigger] numeric_steps::step(path[n - 1], q, ops[n - 1], path[n]);
        numeric_steps::step_from_nothing(q, ops[n - 1], path[n]);
    }
}

/// The variables of a register for the kinds of some types, but one.
fn register_kinds(reg: &Reg, tes: &Vec<TypeEncoding>, but: Option<TypeEncoding>, registry: &VariableRegistry) -> (r: Vec<Variable>)
    requires registry@.ready(), reg.v <= 11,
    ensures
        ids_of(r@) == other_kind_ids(reg.v as int, tes@, but),
        forall|i: int| 0 <= i < r.len() ==> registry@.knows(#[trigger] r@[i]),
{
    let pack = reg_pack(reg, registry);
    let mut r: Vec<Variable> = Vec::new();
    let mut i: usize = 0;
    assert(ids_of(r@) =~= other_kind_ids(reg.v as int, tes@.take(0), but));
    while i < tes.len()
        invariant
            registry@.ready(),
            reg.v <= 11,
            pack.of(reg.v as int),
            pack.known(registry@),
            i <= tes.len(),
            ids_of(r@) == other_kind_ids(reg.v as int, tes@.take(i as int), but),
            forall|i: int| 0 <= i < r.len() ==> registry@.knows(#[trigger] r@[i]),
        decreases tes.len() - i,
    {
        let te = tes[i];
        let skip: bool = match but {
            Some(b) => b == te,
            None => false,
        };
        let ghost have = ids_of(r@);
        proof {
            let next = tes@.take(i + 1);
            assert(next.drop_last() =~= tes@.take(i as int));
            assert(next.last() == te);
        }
        if !skip {
            let kinds = type_to_kinds(te);
            let mut k: usize = 0;
            assert(have + kind_ids(reg.v as int, te).take(0) =~= have);
            while k < kinds.len()
                invariant
                    pack.of(reg.v as int),
                    pack.known(registry@),
                    k <= kinds.len(),
                    kinds@ == kinds_of(te),
                    ids_of(r@) == have + kind_ids(reg.v as int, te).take(k as int),
                    forall|i: int| 0 <= i < r.len() ==> registry@.knows(#[trigger] r@[i]),
                decreases kinds.len() - k,
            {
                let kind = kinds[k];
                assert(packed(kind));
                let ghost before = r@;
                let x = pack.get(kind);
                r.push(x);
                proof {
                    let ids = kind_ids(reg.v as int, te);
                    assert(ids[k as int] == x.id);
                    assert(ids.take(k + 1) =~= ids.take(k as int).push(x.id));
                    assert(ids_of(r@) =~= ids_of(before).push(x.id));
                    assert(ids_of(before).push(x.id) =~= have + ids.take(k + 1));
                }
                k = k + 1;
            }
            assert(kind_ids(reg.v as int, te).take(kinds@.len() as int) =~= kind_ids(reg.v as int, te));
        } else {
            assert(have + Seq::<u64>::empty() =~= have);
        }
        i = i + 1;
    }
    assert(tes@.take(tes@.len() as int) =~= tes@);
    r
}

impl TypeToNumDomain {
    /// Copies one register to another: its type, its values and the variables of its types.
    pub fn assign_reg(&mut self, lhs: &Reg, rhs: &Reg, registry: &mut VariableRegistry)
        requires old(self).wf(), old(registry)@.ready(), lhs.v <= 11, rhs.v <= 11,
        ensures
            final(self).wf(),
            final(registry)@ == old(registry)@,
            lhs.v == rhs.v ==> *final(self) == *old(self),
            lhs.v != rhs.v ==> {
                &&& final(self).types.state is Some <==> old(self).types.state is Some
                &&& old(self).types.state is Some ==> type_domain::copied(old(self).types.s(), type_id(*lhs), type_id(*rhs), final(self).types.s())
                &&& numeric_steps::performs(old(self).num(), final(registry)@, final(registry)@,
                        register_copy_steps(*lhs, *rhs, final(self).types.iterated(type_id(*lhs)), final(self).types.iterated(type_id(*rhs))), final(self).num())
            },
    {
        if lhs.v == rhs.v {
            return;
        }
        proof {
            register_type(registry@, *lhs);
            register_type(registry@, *rhs);
        }
        let ghost r = registry@;
        let ghost a = self.num();
        self.types.assign_type_from_reg(lhs, rhs, registry);
        assert(registry@ == r);
        let lp = reg_pack(lhs, registry);
        let rp = reg_pack(rhs, registry);
        proof { numeric_steps::performs_nothing(a, r, r); numeric_steps::extends_itself(r); }
        let ghost mut ops: Seq<Step> = seq![];
        self.values.assign_var(lp.svalue, rp.svalue, registry);
        proof {
            let op = Step::Copy(lp.svalue.id, rp.svalue.id);
            numeric_steps::step_copy(a, r, lp.svalue.id, rp.svalue.id, self.num());
            numeric_steps::performs_one(a, r, r, ops, a, op, self.num());
            ops = ops.push(op);
        }
        let ghost b = self.num();
        self.values.assign_var(lp.uvalue, rp.uvalue, registry);
        proof {
            let op = Step::Copy(lp.uvalue.id, rp.uvalue.id);
            numeric_steps::step_copy(b, r, lp.uvalue.id, rp.uvalue.id, self.num());
            numeric_steps::performs_one(a, r, r, ops, b, op, self.num());
            ops = ops.push(op);
        }
        let lt = self.types.iterate_types(lhs, registry);
        let others = register_kinds(lhs, &lt, None, registry);
        let ghost c = self.num();
        forget_all(&mut self.values, &others, registry);
        proof {
            numeric_steps::performs_both(a, r, r, r, ops, c, forget_steps(ids_of(others@)), self.num());
            ops = ops + forget_steps(ids_of(others@));
        }
        let rt = self.types.iterate_types(rhs, registry);
        let ghost d = self.num();
        copy_kinds(&mut self.values, lhs, rhs, &rt, registry);
        proof {
            numeric_steps::performs_both(a, r, r, r, ops, d, kind_copies(lhs.v as int, rhs.v as int, rt@), self.num());
            assert(ops + kind_copies(lhs.v as int, rhs.v as int, rt@) =~= register_copy_steps(*lhs, *rhs, lt@, rt@));
        }
    }

    /// Gives a register one type.
    pub fn assign_type_encoding(&mut self, reg: &Reg, encoding: TypeEncoding, registry: &mut VariableRegistry)
        requires old(self).wf(), old(registry)@.ready(), reg.v <= 11,
        ensures
            final(self).wf(),
            final(registry)@ == old(registry)@,
            final(self).values == old(self).values,
            final(self).types.state is Some <==> old(self).types.state is Some,
            old(self).types.state is Some ==> type_domain::given(old(self).types.s(), type_id(*reg), encoding, final(self).types.s()),
    {
        proof { register_type(registry@, *reg); }
        self.types.assign_type_encoding(reg, encoding, registry);
    }

    /// Gives a register the type of another.
    pub fn assign_type_from_reg(&mut self, lhs: &Reg, rhs: &Reg, registry: &mut VariableRegistry)
        requires old(self).wf(), old(registry)@.ready(), lhs.v <= 11, rhs.v <= 11,
        ensures
            final(self).wf(),
            final(registry)@ == old(registry)@,
            final(self).values == old(self).values,
            final(self).types.state is Some <==> old(self).types.state is Some,
            old(self).types.state is Some ==> type_domain::copied(old(self).types.s(), type_id(*lhs), type_id(*rhs), final(self).types.s()),
    {
        proof {
            register_type(registry@, *lhs);
            register_type(registry@, *rhs);
        }
        self.types.assign_type_from_reg(lhs, rhs, registry);
    }

    /// Assigns an expression to a type variable, if there is one.
    pub fn assign_type_var_expr(&mut self, lhs: Option<Variable>, expr: &LinearExpression, registry: &mut VariableRegistry)
        requires old(self).wf(),
        ensures
            final(self).wf(),
            *final(registry) == *old(registry),
            final(self).values == old(self).values,
            lhs is None ==> final(self).types == old(self).types,
            lhs is Some ==> (final(self).types.state is Some <==> old(self).types.state is Some
                && !(expr.terms.entries().len() == 0 && !(-7 <= type_domain::type_number(expr.constant, -7) <= 0))),
            lhs is Some && final(self).types.state is Some ==> type_domain::assigned_expr(old(self).types.s(), lhs->Some_0.id, expr, final(self).types.s()),
    {
        self.types.assign_type_var_expr(lhs, expr, registry);
    }

    /// Gives a register the type of a variable.
    pub fn assign_type_from_var(&mut self, reg: &Reg, type_var: Variable, registry: &mut VariableRegistry)
        requires old(self).wf(), old(registry)@.ready(), reg.v <= 11,
        ensures
            final(self).wf(),
            final(registry)@ == old(registry)@,
            final(self).values == old(self).values,
            final(self).types.state is Some <==> old(self).types.state is Some,
            old(self).types.state is Some ==> type_domain::copied(old(self).types.s(), type_id(*reg), type_var.id, final(self).types.s()),
    {
        proof { register_type(registry@, *reg); }
        let lhs = reg_type(reg, registry);
        self.types.assign_type_var(lhs, type_var, registry);
    }

    /// Assigns an expression to a register's type, or forgets the type.
    pub fn assign_type_opt_expr(&mut self, lhs: &Reg, rhs: &Option<LinearExpression>, registry: &mut VariableRegistry)
        requires old(self).wf(), old(registry)@.ready(), lhs.v <= 11,
        ensures
            final(self).wf(),
            final(registry)@ == old(registry)@,
            final(self).values == old(self).values,
            final(self).types.state is Some <==> old(self).types.state is Some
                && !(rhs matches Some(e) && e.terms.entries().len() == 0 && !(-7 <= type_domain::type_number(e.constant, -7) <= 0)),
            final(self).types.state is Some ==> match rhs {
                Some(e) => type_domain::assigned_expr(old(self).types.s(), type_id(*lhs), e, final(self).types.s()),
                None => type_domain::forgot(old(self).types.s(), type_id(*lhs), final(self).types.s()),
            },
    {
        proof { register_type(registry@, *lhs); }
        self.types.assign_type_opt_expr(lhs, rhs, registry);
    }

    /// Forgets the offsets of a register.
    pub fn havoc_offsets(&mut self, reg: &Reg, registry: &VariableRegistry)
        requires old(self).wf(), registry@.ready(), reg.v <= 11,
        ensures
            final(self).wf(),
            final(self).types == old(self).types,
            numeric_steps::performs(old(self).num(), registry@, registry@, forget_steps(offset_ids(*reg)), final(self).num()),
    {
        let r = reg_pack(reg, registry);
        let mut list: Vec<Variable> = Vec::new();
        list.push(r.ctx_offset);
        list.push(r.map_fd);
        list.push(r.map_fd_programs);
        list.push(r.packet_offset);
        list.push(r.shared_offset);
        list.push(r.shared_region_size);
        list.push(r.stack_offset);
        list.push(r.stack_numeric_size);
        assert(ids_of(list@) =~= offset_ids(*reg));
        forget_all(&mut self.values, &list, registry);
    }

    /// Forgets everything of a register but its type.
    pub fn havoc_register_except_type(&mut self, reg: &Reg, registry: &VariableRegistry)
        requires old(self).wf(), registry@.ready(), reg.v <= 11,
        ensures
            final(self).wf(),
            final(self).types == old(self).types,
            numeric_steps::performs(old(self).num(), registry@, registry@, forget_steps(value_ids(*reg)), final(self).num()),
    {
        let r = reg_pack(reg, registry);
        let ghost a = self.num();
        self.havoc_offsets(reg, registry);
        let ghost b = self.num();
        let mut list: Vec<Variable> = Vec::new();
        list.push(r.svalue);
        list.push(r.uvalue);
        forget_all(&mut self.values, &list, registry);
        proof {
            numeric_steps::extends_itself(registry@);
            numeric_steps::performs_both(a, registry@, registry@, registry@, forget_steps(offset_ids(*reg)), b, forget_steps(ids_of(list@)), self.num());
            assert(forget_steps(offset_ids(*reg)) + forget_steps(ids_of(list@)) =~= forget_steps(value_ids(*reg)));
        }
    }

    /// Forgets everything of a register.
    pub fn havoc_register(&mut self, reg: &Reg, registry: &mut VariableRegistry)
        requires old(self).wf(), old(registry)@.ready(), reg.v <= 11,
        ensures
            final(self).wf(),
            final(registry)@ == old(registry)@,
            final(self).types.state is Some <==> old(self).types.state is Some,
            old(self).types.state is Some ==> type_domain::forgot(old(self).types.s(), type_id(*reg), final(self).types.s()),
            numeric_steps::performs(old(self).num(), final(registry)@, final(registry)@, forget_steps(value_ids(*reg)), final(self).num()),
    {
        proof { register_type(registry@, *reg); }
        self.types.havoc_type_reg(reg, registry);
        self.havoc_register_except_type(reg, registry);
    }

    /// The facts as lines of text.
    pub fn to_set(&self, reg: &VariableRegistry) -> (r: StringInvariant)
        requires
            self.wf(),
            self.types.state matches Some(s) ==> forall|v: u64| #[trigger] s.known(v) ==> v < reg@.size(),
            self.values.dom matches Some(d) ==> forall|k: u64| #[trigger] d.dom.held().contains(k) ==> k < reg@.size(),
        ensures
            r.content() is None <==> self.num() is None,
            forall|l: Seq<char>| #[trigger] r.has(l) <==> self.num() is Some && (zone_text::zone_line(self.values.z(), reg@, l)
                || (self.types.state is Some && exists|v: u64| #[trigger] type_domain::type_line(self.types.s(), reg@, v, l))),
    {
        if self.is_bottom() {
            return StringInvariant::bottom();
        }
        self.types.to_set(reg).union(&self.values.to_set(reg))
    }

    /// A placeholder text; `to_set` renders the facts.
    pub fn to_string(&self) -> (r: String)
        ensures
            r@ == (if self.num() is None { "_|_"@ } else {
                (if self.types.state is None { "_|_"@ } else { "TypeDomain"@ }) + "<finite_domain>"@
            }),
    {
        if self.is_bottom() {
            return String::from_str("_|_");
        }
        let mut s = self.types.to_string();
        let v = self.values.to_string();
        s.append(v.as_str());
        s
    }
}

/// Copies the variables of one register to another's for the kinds of some types.
fn copy_kinds(values: &mut NumAbsDomain, lhs: &Reg, rhs: &Reg, tes: &Vec<TypeEncoding>, registry: &VariableRegistry)
    requires old(values).wf(), registry@.ready(), lhs.v <= 11, rhs.v <= 11,
    ensures
        final(values).wf(),
        numeric_steps::performs(numeric_steps::num(old(values)), registry@, registry@, kind_copies(lhs.v as int, rhs.v as int, tes@), numeric_steps::num(final(values))),
{
    let lp = reg_pack(lhs, registry);
    let rp = reg_pack(rhs, registry);
    let ghost r = registry@;
    let ghost a = numeric_steps::num(values);
    let ghost mut ops: Seq<Step> = seq![];
    let mut i: usize = 0;
    proof {
        numeric_steps::performs_nothing(a, r, r);
        numeric_steps::extends_itself(r);
        assert(kind_copies(lhs.v as int, rhs.v as int, tes@.take(0)) =~= seq![]);
    }
    while i < tes.len()
        invariant
            values.wf(),
            r == registry@,
            r.ready(),
            r.extends(r),
            lp.of(lhs.v as int),
            rp.of(rhs.v as int),
            lp.known(r),
            rp.known(r),
            i <= tes.len(),
            a == numeric_steps::num(old(values)),
            ops == kind_copies(lhs.v as int, rhs.v as int, tes@.take(i as int)),
            numeric_steps::performs(a, r, r, ops, numeric_steps::num(values)),
        decreases tes.len() - i,
    {
        let te = tes[i];
        let kinds = type_to_kinds(te);
        let ghost have = ops;
        let ghost all = kinds_of(te).map_values(|k: DataKind| Step::Copy(var_registry::reg_var(k, lhs.v as int).id, var_registry::reg_var(k, rhs.v as int).id));
        proof {
            let next = tes@.take(i + 1);
            assert(next.drop_last() =~= tes@.take(i as int));
            assert(next.last() == te);
            assert(have + all.take(0) =~= have);
        }
        let mut k: usize = 0;
        while k < kinds.len()
            invariant
                values.wf(),
                r == registry@,
                r.extends(r),
                lp.of(lhs.v as int),
                rp.of(rhs.v as int),
                lp.known(r),
                rp.known(r),
                k <= kinds.len(),
                kinds@ == kinds_of(te),
                all == kinds_of(te).map_values(|k: DataKind| Step::Copy(var_registry::reg_var(k, lhs.v as int).id, var_registry::reg_var(k, rhs.v as int).id)),
                ops == have + all.take(k as int),
                a == numeric_steps::num(old(values)),
                numeric_steps::performs(a, r, r, ops, numeric_steps::num(values)),
            decreases kinds.len() - k,
        {
            let kind = kinds[k];
            assert(packed(kind));
            let x = lp.get(kind);
            let y = rp.get(kind);
            let ghost b = numeric_steps::num(values);
            values.assign_var(x, y, registry);
            proof {
                let op = Step::Copy(x.id, y.id);
                assert(all[k as int] == op);
                numeric_steps::step_copy(b, r, x.id, y.id, numeric_steps::num(values));
                numeric_steps::performs_one(a, r, r, ops, b, op, numeric_steps::num(values));
                ops = ops.push(op);
                assert(ops =~= have + all.take(k + 1));
            }
            k = k + 1;
        }
        assert(all.take(kinds@.len() as int) =~= all);
        i = i + 1;
    }
    assert(tes@.take(tes@.len() as int) =~= tes@);
}

impl Default for TypeToNumDomain {
    fn default() -> (r: Self)
        ensures r.wf(), r.types.state is Some, r.num() == Some(ZEdges::empty()), forall|v: u64| !(#[trigger] r.types.s().known(v)),
    {
        Self::new()
    }
}

}
