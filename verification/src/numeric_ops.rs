//! Numeric operations that keep a record of what has been done.
use vstd::prelude::*;
use crate::add_bottom::NumAbsDomain;
use crate::arith::linear_constraint::{leq, lt, LinearConstraint};
use crate::arith::linear_expression;
use crate::arith::linear_expression::LinearExpression;
use crate::arith::number::Number;
use crate::arith::variable::Variable;
use crate::finite_domain;
use crate::finite_domain::{FiniteBinOp, Operand};
use crate::interval::Interval;
use crate::numeric_steps;
use crate::numeric_steps::{Num, Step};
use crate::var_registry::{RegistryView, VariableRegistry};
use crate::zone_domain;

verus! {

/// The operations since a state. Nothing of it remains when the program runs.
pub struct Log {
    pub start: Ghost<Num>,
    pub older: Ghost<RegistryView>,
    pub done: Ghost<Seq<Step>>,
}

impl Log {
    /// The recorded operations lead from the start to the values.
    pub open spec fn leads_to(&self, values: &NumAbsDomain, r: RegistryView) -> bool {
        r.extends(self.older@) && numeric_steps::performs(self.start@, self.older@, r, self.done@, numeric_steps::num(values))
    }

    /// The same record with one operation more.
    pub open spec fn with(&self, op: Step, before: &Log) -> bool {
        self.start@ == before.start@ && self.older@ == before.older@ && self.done@ == before.done@.push(op)
    }

    /// The same record with some operations more.
    pub open spec fn with_all(&self, ops: Seq<Step>, before: &Log) -> bool {
        self.start@ == before.start@ && self.older@ == before.older@ && self.done@ == before.done@ + ops
    }

    pub fn new(values: &NumAbsDomain, registry: &VariableRegistry) -> (r: Log)
        ensures
            r.leads_to(values, registry@),
            r.start@ == numeric_steps::num(values),
            r.older@ == registry@,
            r.done@ == Seq::<Step>::empty(),
    {
        proof {
            numeric_steps::performs_nothing(numeric_steps::num(values), registry@, registry@);
            numeric_steps::extends_itself(registry@);
        }
        Log { start: Ghost(numeric_steps::num(values)), older: Ghost(registry@), done: Ghost(Seq::<Step>::empty()) }
    }

    /// Records one operation.
    pub fn took(&mut self, Ghost(op): Ghost<Step>, Ghost(before): Ghost<Num>, values: &NumAbsDomain, registry: &VariableRegistry)
        requires
            registry@.extends(old(self).older@),
            numeric_steps::performs(old(self).start@, old(self).older@, registry@, old(self).done@, before),
            numeric_steps::step(before, registry@, op, numeric_steps::num(values)),
        ensures final(self).with(op, old(self)), final(self).leads_to(values, registry@),
    {
        proof {
            numeric_steps::performs_one(self.start@, self.older@, registry@, self.done@, before, op, numeric_steps::num(values));
            self.done = Ghost(self.done@.push(op));
        }
    }

    /// Records some operations.
    pub fn took_all(&mut self, Ghost(ops): Ghost<Seq<Step>>, Ghost(mid): Ghost<RegistryView>, Ghost(before): Ghost<Num>, values: &NumAbsDomain, registry: &VariableRegistry)
        requires
            mid.extends(old(self).older@),
            registry@.extends(mid),
            numeric_steps::performs(old(self).start@, old(self).older@, mid, old(self).done@, before),
            numeric_steps::performs(before, mid, registry@, ops, numeric_steps::num(values)),
        ensures final(self).with_all(ops, old(self)), final(self).leads_to(values, registry@),
    {
        proof {
            registry@.extending_is_transitive(mid, self.older@);
            numeric_steps::performs_both(self.start@, self.older@, mid, registry@, self.done@, before, ops, numeric_steps::num(values));
            self.done = Ghost(self.done@ + ops);
        }
    }

    /// The record holds with a longer registry.
    pub proof fn later(&self, values: &NumAbsDomain, mid: RegistryView, r: RegistryView)
        requires self.leads_to(values, mid), r.extends(mid),
        ensures self.leads_to(values, r),
    {
        r.extending_is_transitive(mid, self.older@);
        numeric_steps::performs_later(self.start@, self.older@, mid, r, self.done@, numeric_steps::num(values));
    }
}

/// Forgets a variable.
pub fn forget(values: &mut NumAbsDomain, v: Variable, registry: &VariableRegistry, log: &mut Log)
    requires old(values).wf(), old(log).leads_to(old(values), registry@),
    ensures final(values).wf(), final(log).leads_to(final(values), registry@), final(log).with(Step::Forget(v.id), old(log)),
{
    let ghost a = numeric_steps::num(values);
    values.havoc(v);
    proof { numeric_steps::step_forget(a, registry@, v.id, numeric_steps::num(values)); }
    log.took(Ghost(Step::Forget(v.id)), Ghost(a), values, registry);
}

/// `x := v`.
pub fn copy_var(values: &mut NumAbsDomain, x: Variable, v: Variable, registry: &VariableRegistry, log: &mut Log)
    requires old(values).wf(), old(log).leads_to(old(values), registry@), registry@.knows(x), registry@.knows(v),
    ensures final(values).wf(), final(log).leads_to(final(values), registry@), final(log).with(Step::Copy(x.id, v.id), old(log)),
{
    let ghost a = numeric_steps::num(values);
    values.assign_var(x, v, registry);
    proof { numeric_steps::step_copy(a, registry@, x.id, v.id, numeric_steps::num(values)); }
    log.took(Ghost(Step::Copy(x.id, v.id)), Ghost(a), values, registry);
}

/// `x := e`.
pub fn assign(values: &mut NumAbsDomain, x: Variable, e: &LinearExpression, registry: &VariableRegistry, log: &mut Log)
    requires old(values).wf(), old(log).leads_to(old(values), registry@), registry@.knows(x), zone_domain::knows_terms(registry@, e.terms@),
    ensures final(values).wf(), final(log).leads_to(final(values), registry@), final(log).with(Step::Assign(x.id, *e), old(log)),
{
    let ghost a = numeric_steps::num(values);
    values.assign_expr(x, e, registry);
    proof { numeric_steps::step_assign(a, registry@, x.id, *e, numeric_steps::num(values)); }
    log.took(Ghost(Step::Assign(x.id, *e)), Ghost(a), values, registry);
}

/// Sets a variable to an interval.
pub fn put(values: &mut NumAbsDomain, x: Variable, iv: &Interval, registry: &VariableRegistry, log: &mut Log)
    requires old(values).wf(), old(log).leads_to(old(values), registry@), registry@.knows(x),
    ensures final(values).wf(), final(log).leads_to(final(values), registry@), final(log).with(Step::Put(x.id, *iv), old(log)),
{
    let ghost a = numeric_steps::num(values);
    values.set(x, iv, registry);
    proof { numeric_steps::step_put(a, registry@, x.id, *iv, numeric_steps::num(values)); }
    log.took(Ghost(Step::Put(x.id, *iv)), Ghost(a), values, registry);
}

/// The operation that sets a variable to a number.
pub open spec fn set_number(x: u64, n: int) -> Step {
    Step::Put(x, Interval::point(Number { n: n as i128 }))
}

/// Sets a variable to a number.
pub fn number(values: &mut NumAbsDomain, x: Variable, n: i64, registry: &VariableRegistry, log: &mut Log)
    requires old(values).wf(), old(log).leads_to(old(values), registry@), registry@.knows(x),
    ensures final(values).wf(), final(log).leads_to(final(values), registry@), final(log).with(set_number(x.id, n as int), old(log)),
{
    let ghost a = numeric_steps::num(values);
    values.assign_i64(x, n, registry);
    proof { numeric_steps::step_put(a, registry@, x.id, Interval::point(Number { n: n as i128 }), numeric_steps::num(values)); }
    log.took(Ghost(set_number(x.id, n as int)), Ghost(a), values, registry);
}

/// Adds a constraint.
pub fn say(values: &mut NumAbsDomain, c: &LinearConstraint, registry: &VariableRegistry, log: &mut Log)
    requires old(values).wf(), old(log).leads_to(old(values), registry@), zone_domain::knows_terms(registry@, c.expression.terms@),
    ensures final(values).wf(), final(log).leads_to(final(values), registry@), final(log).with(Step::Say(numeric_steps::lin_of(c)), old(log)),
{
    let ghost a = numeric_steps::num(values);
    values.add_constraint(c, registry);
    c.expression.order_holds();
    proof { numeric_steps::step_say(a, registry@, *c, numeric_steps::num(values)); }
    log.took(Ghost(Step::Say(numeric_steps::lin_of(c))), Ghost(a), values, registry);
}

/// A variable that an operand names is registered.
pub open spec fn knows_operand(r: RegistryView, o: Operand) -> bool {
    o matches Operand::Var(k) ==> k < r.size()
}

/// A signed operation.
pub fn signed(values: &mut NumAbsDomain, op: FiniteBinOp, s: Variable, u: Variable, v: Variable, o: Operand, width: i32, registry: &VariableRegistry, log: &mut Log)
    requires
        old(values).wf(), old(log).leads_to(old(values), registry@), registry@.knows(s), registry@.knows(u), registry@.knows(v),
        knows_operand(registry@, o), finite_domain::width_ok(width as int),
    ensures
        final(values).wf(), final(log).leads_to(final(values), registry@),
        final(log).with(Step::Signed(op, s.id, u.id, v.id, o, width as int), old(log)),
{
    let ghost a = numeric_steps::num(values);
    if let Some(d) = &mut values.dom {
        match o {
            Operand::Var(k) => { d.apply_signed_var_var(op, s, u, v, Variable { id: k }, width, registry); }
            Operand::Num(n) => { d.apply_signed_var_num(op, s, u, v, &n, width, registry); }
        }
    }
    proof { reveal(numeric_steps::step); }
    log.took(Ghost(Step::Signed(op, s.id, u.id, v.id, o, width as int)), Ghost(a), values, registry);
}

/// An unsigned operation.
pub fn unsigned(values: &mut NumAbsDomain, op: FiniteBinOp, s: Variable, u: Variable, v: Variable, o: Operand, width: i32, registry: &VariableRegistry, log: &mut Log)
    requires
        old(values).wf(), old(log).leads_to(old(values), registry@), registry@.knows(s), registry@.knows(u), registry@.knows(v),
        knows_operand(registry@, o), finite_domain::width_ok(width as int),
    ensures
        final(values).wf(), final(log).leads_to(final(values), registry@),
        final(log).with(Step::Unsigned(op, s.id, u.id, v.id, o, width as int), old(log)),
{
    let ghost a = numeric_steps::num(values);
    if let Some(d) = &mut values.dom {
        match o {
            Operand::Var(k) => { d.apply_unsigned_var_var(op, s, u, v, Variable { id: k }, width, registry); }
            Operand::Num(n) => { d.apply_unsigned_var_num(op, s, u, v, &n, width, registry); }
        }
    }
    proof { reveal(numeric_steps::step); }
    log.took(Ghost(Step::Unsigned(op, s.id, u.id, v.id, o, width as int)), Ghost(a), values, registry);
}

/// An operation without regard to overflow.
pub fn plain(values: &mut NumAbsDomain, op: FiniteBinOp, x: Variable, y: Variable, z: Variable, registry: &VariableRegistry, log: &mut Log)
    requires old(values).wf(), old(log).leads_to(old(values), registry@), registry@.knows(x), registry@.knows(y), registry@.knows(z),
    ensures
        final(values).wf(), final(log).leads_to(final(values), registry@),
        final(log).with(Step::Plain(op, x.id, y.id, Operand::Var(z.id), 0), old(log)),
{
    let ghost a = numeric_steps::num(values);
    values.apply_binop_var_var(op, x, y, z, 0, registry);
    proof { reveal(numeric_steps::step); }
    log.took(Ghost(Step::Plain(op, x.id, y.id, Operand::Var(z.id), 0)), Ghost(a), values, registry);
}

/// Adds to a register.
pub fn add_overflow(values: &mut NumAbsDomain, s: Variable, u: Variable, o: Operand, width: i32, registry: &VariableRegistry, log: &mut Log)
    requires
        old(values).wf(), old(log).leads_to(old(values), registry@), registry@.knows(s), registry@.knows(u),
        knows_operand(registry@, o), finite_domain::width_ok(width as int),
    ensures
        final(values).wf(), final(log).leads_to(final(values), registry@),
        final(log).with(Step::Overflow(FiniteBinOp::Arith(zone_domain::ArithBinOp::ADD), s.id, u.id, o, width as int), old(log)),
{
    let ghost a = numeric_steps::num(values);
    if let Some(d) = &mut values.dom {
        match o {
            Operand::Var(k) => { d.add_overflow_var(s, u, Variable { id: k }, width, registry); }
            Operand::Num(n) => { d.add_overflow_num(s, u, &n, width, registry); }
        }
    }
    proof { reveal(numeric_steps::step); }
    log.took(Ghost(Step::Overflow(FiniteBinOp::Arith(zone_domain::ArithBinOp::ADD), s.id, u.id, o, width as int)), Ghost(a), values, registry);
}

/// Subtracts from a register.
pub fn sub_overflow(values: &mut NumAbsDomain, s: Variable, u: Variable, v: Variable, width: i32, registry: &VariableRegistry, log: &mut Log)
    requires
        old(values).wf(), old(log).leads_to(old(values), registry@), registry@.knows(s), registry@.knows(u), registry@.knows(v),
        finite_domain::width_ok(width as int),
    ensures
        final(values).wf(), final(log).leads_to(final(values), registry@),
        final(log).with(Step::Overflow(FiniteBinOp::Arith(zone_domain::ArithBinOp::SUB), s.id, u.id, Operand::Var(v.id), width as int), old(log)),
{
    let ghost a = numeric_steps::num(values);
    if let Some(d) = &mut values.dom {
        d.sub_overflow_var(s, u, v, width, registry);
    }
    proof { reveal(numeric_steps::step); }
    log.took(Ghost(Step::Overflow(FiniteBinOp::Arith(zone_domain::ArithBinOp::SUB), s.id, u.id, Operand::Var(v.id), width as int)), Ghost(a), values, registry);
}

/// Keeps the bits of a mask.
pub fn mask(values: &mut NumAbsDomain, s: Variable, u: Variable, n: Number, registry: &VariableRegistry, log: &mut Log)
    requires old(values).wf(), old(log).leads_to(old(values), registry@), registry@.knows(s), registry@.knows(u),
    ensures
        final(values).wf(), final(log).leads_to(final(values), registry@),
        final(log).with(Step::Mask(s.id, u.id, n), old(log)),
{
    let ghost a = numeric_steps::num(values);
    if let Some(d) = &mut values.dom {
        d.bitwise_and_num(s, u, &n, registry);
    }
    proof { reveal(numeric_steps::step); }
    log.took(Ghost(Step::Mask(s.id, u.id, n)), Ghost(a), values, registry);
}

/// Shifts left.
pub fn shl(values: &mut NumAbsDomain, s: Variable, u: Variable, imm: i32, width: i32, registry: &VariableRegistry, log: &mut Log)
    requires old(values).wf(), old(log).leads_to(old(values), registry@), registry@.knows(s), registry@.knows(u), width == 32 || width == 64,
    ensures
        final(values).wf(), final(log).leads_to(final(values), registry@),
        final(log).with(Step::Shl(s.id, u.id, imm, width as int), old(log)),
{
    let ghost a = numeric_steps::num(values);
    if let Some(d) = &mut values.dom {
        d.shl(s, u, imm, width, registry);
    }
    proof { reveal(numeric_steps::step); }
    log.took(Ghost(Step::Shl(s.id, u.id, imm, width as int)), Ghost(a), values, registry);
}

/// Shifts right.
pub fn lshr(values: &mut NumAbsDomain, s: Variable, u: Variable, imm: i32, width: i32, registry: &VariableRegistry, log: &mut Log)
    requires
        old(values).wf(), old(log).leads_to(old(values), registry@), registry@.knows(s), registry@.knows(u),
        width == 32 || width == 64, 0 <= imm < 64,
    ensures
        final(values).wf(), final(log).leads_to(final(values), registry@),
        final(log).with(Step::Lshr(s.id, u.id, imm as int, width as int), old(log)),
{
    let ghost a = numeric_steps::num(values);
    if let Some(d) = &mut values.dom {
        d.lshr(s, u, imm, width, registry);
    }
    proof { reveal(numeric_steps::step); }
    log.took(Ghost(Step::Lshr(s.id, u.id, imm as int, width as int)), Ghost(a), values, registry);
}

/// Shifts right with the sign.
pub fn ashr(values: &mut NumAbsDomain, s: Variable, u: Variable, e: &LinearExpression, width: i32, registry: &VariableRegistry, log: &mut Log)
    requires old(values).wf(), old(log).leads_to(old(values), registry@), registry@.knows(s), registry@.knows(u), width == 32 || width == 64,
    ensures
        final(values).wf(), final(log).leads_to(final(values), registry@),
        final(log).with(Step::Ashr(s.id, u.id, *e, width as int), old(log)),
{
    let ghost a = numeric_steps::num(values);
    if let Some(d) = &mut values.dom {
        d.ashr(s, u, e, width, registry);
    }
    proof { reveal(numeric_steps::step); }
    log.took(Ghost(Step::Ashr(s.id, u.id, *e, width as int)), Ghost(a), values, registry);
}

/// Extends the sign.
pub fn extend(values: &mut NumAbsDomain, s: Variable, u: Variable, e: &LinearExpression, target: i32, source: i32, registry: &VariableRegistry, log: &mut Log)
    requires
        old(values).wf(), old(log).leads_to(old(values), registry@), registry@.knows(s), registry@.knows(u),
        1 <= target <= 64, 1 <= source <= 64,
    ensures
        final(values).wf(), final(log).leads_to(final(values), registry@),
        final(log).with(Step::Extend(s.id, u.id, *e, target as int, source as int), old(log)),
{
    let ghost a = numeric_steps::num(values);
    if let Some(d) = &mut values.dom {
        d.sign_extend(s, u, e, target, source, registry);
    }
    proof { reveal(numeric_steps::step); }
    log.took(Ghost(Step::Extend(s.id, u.id, *e, target as int, source as int)), Ghost(a), values, registry);
}

/// Wraps a variable to a width.
pub fn wrap(values: &mut NumAbsDomain, v: Variable, width: i32, is_signed: bool, registry: &VariableRegistry, log: &mut Log)
    requires old(values).wf(), old(log).leads_to(old(values), registry@), registry@.knows(v), 1 <= width <= 64,
    ensures
        final(values).wf(), final(log).leads_to(final(values), registry@),
        final(log).with(Step::WrapOne(v.id, width as int, is_signed), old(log)),
{
    let ghost a = numeric_steps::num(values);
    if let Some(d) = &mut values.dom {
        d.overflow_bounds(v, width, is_signed, registry);
    }
    proof { reveal(numeric_steps::step); }
    log.took(Ghost(Step::WrapOne(v.id, width as int, is_signed)), Ghost(a), values, registry);
}

/// Renames variables.
pub fn rename(values: &mut NumAbsDomain, pairs: &[(Variable, Variable)], registry: &VariableRegistry, log: &mut Log)
    requires old(values).wf(), old(log).leads_to(old(values), registry@),
    ensures
        final(values).wf(), final(log).leads_to(final(values), registry@),
        final(log).with(Step::Rename(pairs@), old(log)),
{
    let ghost a = numeric_steps::num(values);
    values.rename(pairs);
    proof { reveal(numeric_steps::step); }
    log.took(Ghost(Step::Rename(pairs@)), Ghost(a), values, registry);
}

/// The variables of a combination are those of its parts.
pub proof fn combination_is_known(r: RegistryView, a: Map<u64, Number>, sign: int, b: Map<u64, Number>)
    requires zone_domain::knows_terms(r, a), zone_domain::knows_terms(r, b),
    ensures zone_domain::knows_terms(r, linear_expression::combined(a, sign, b)),
{
    assert forall|k: u64| #[trigger] linear_expression::combined(a, sign, b).contains_key(k) implies k < r.size() by {
        assert(a.contains_key(k) || b.contains_key(k));
    }
}

/// Adds `a <= b`.
pub fn say_at_most(values: &mut NumAbsDomain, a: LinearExpression, b: LinearExpression, registry: &VariableRegistry, log: &mut Log)
    requires
        old(values).wf(), old(log).leads_to(old(values), registry@),
        zone_domain::knows_terms(registry@, a.terms@), zone_domain::knows_terms(registry@, b.terms@),
    ensures
        final(values).wf(), final(log).leads_to(final(values), registry@),
        final(log).with(Step::Say(numeric_steps::at_most(numeric_steps::sum_of(&a), numeric_steps::sum_of(&b))), old(log)),
{
    proof { combination_is_known(registry@, a.terms@, -1, b.terms@); }
    let ghost l = numeric_steps::at_most(numeric_steps::sum_of(&a), numeric_steps::sum_of(&b));
    let c = leq(a, b);
    assert(numeric_steps::lin_of(&c) == l);
    say(values, &c, registry, log);
}

/// Adds `a < b`.
pub fn say_below(values: &mut NumAbsDomain, a: LinearExpression, b: LinearExpression, registry: &VariableRegistry, log: &mut Log)
    requires
        old(values).wf(), old(log).leads_to(old(values), registry@),
        zone_domain::knows_terms(registry@, a.terms@), zone_domain::knows_terms(registry@, b.terms@),
    ensures
        final(values).wf(), final(log).leads_to(final(values), registry@),
        final(log).with(Step::Say(numeric_steps::below(numeric_steps::sum_of(&a), numeric_steps::sum_of(&b))), old(log)),
{
    proof { combination_is_known(registry@, a.terms@, -1, b.terms@); }
    let ghost l = numeric_steps::below(numeric_steps::sum_of(&a), numeric_steps::sum_of(&b));
    let c = lt(a, b);
    assert(numeric_steps::lin_of(&c) == l);
    say(values, &c, registry, log);
}

/// The constraints on one variable: an upper and a lower bound.
pub open spec fn var_at_most(v: u64, n: int) -> Step {
    Step::Say(numeric_steps::at_most(numeric_steps::just_var(v), numeric_steps::just_num(n)))
}

pub open spec fn var_at_least(v: u64, n: int) -> Step {
    Step::Say(numeric_steps::at_most(numeric_steps::just_num(n), numeric_steps::just_var(v)))
}

pub open spec fn var_below(v: u64, n: int) -> Step {
    Step::Say(numeric_steps::below(numeric_steps::just_var(v), numeric_steps::just_num(n)))
}

pub open spec fn var_above(v: u64, n: int) -> Step {
    Step::Say(numeric_steps::below(numeric_steps::just_num(n), numeric_steps::just_var(v)))
}

/// One variable is at most another.
pub open spec fn var_at_most_var(v: u64, w: u64) -> Step {
    Step::Say(numeric_steps::at_most(numeric_steps::just_var(v), numeric_steps::just_var(w)))
}

/// Adds `v <= n`.
pub fn say_var_at_most(values: &mut NumAbsDomain, v: Variable, n: i64, registry: &VariableRegistry, log: &mut Log)
    requires old(values).wf(), old(log).leads_to(old(values), registry@), registry@.knows(v),
    ensures final(values).wf(), final(log).leads_to(final(values), registry@), final(log).with(var_at_most(v.id, n as int), old(log)),
{
    say_at_most(values, LinearExpression::from_variable(v), LinearExpression::from_i64(n), registry, log);
}

/// Adds `v >= n`.
pub fn say_var_at_least(values: &mut NumAbsDomain, v: Variable, n: i64, registry: &VariableRegistry, log: &mut Log)
    requires old(values).wf(), old(log).leads_to(old(values), registry@), registry@.knows(v),
    ensures final(values).wf(), final(log).leads_to(final(values), registry@), final(log).with(var_at_least(v.id, n as int), old(log)),
{
    say_at_most(values, LinearExpression::from_i64(n), LinearExpression::from_variable(v), registry, log);
}

/// Adds `v < n`.
pub fn say_var_below(values: &mut NumAbsDomain, v: Variable, n: i64, registry: &VariableRegistry, log: &mut Log)
    requires old(values).wf(), old(log).leads_to(old(values), registry@), registry@.knows(v),
    ensures final(values).wf(), final(log).leads_to(final(values), registry@), final(log).with(var_below(v.id, n as int), old(log)),
{
    say_below(values, LinearExpression::from_variable(v), LinearExpression::from_i64(n), registry, log);
}

/// Adds `v > n`.
pub fn say_var_above(values: &mut NumAbsDomain, v: Variable, n: i64, registry: &VariableRegistry, log: &mut Log)
    requires old(values).wf(), old(log).leads_to(old(values), registry@), registry@.knows(v),
    ensures final(values).wf(), final(log).leads_to(final(values), registry@), final(log).with(var_above(v.id, n as int), old(log)),
{
    say_below(values, LinearExpression::from_i64(n), LinearExpression::from_variable(v), registry, log);
}

/// Adds `v <= w`.
pub fn say_var_at_most_var(values: &mut NumAbsDomain, v: Variable, w: Variable, registry: &VariableRegistry, log: &mut Log)
    requires old(values).wf(), old(log).leads_to(old(values), registry@), registry@.knows(v), registry@.knows(w),
    ensures final(values).wf(), final(log).leads_to(final(values), registry@), final(log).with(var_at_most_var(v.id, w.id), old(log)),
{
    say_at_most(values, LinearExpression::from_variable(v), LinearExpression::from_variable(w), registry, log);
}

}
