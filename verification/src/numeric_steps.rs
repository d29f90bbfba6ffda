//! Sequences of numeric operations, as a vocabulary for what composite operations do.
use vstd::prelude::*;
use crate::add_bottom::AddBottom;
use crate::arith::linear_constraint::{ConstraintKind, LinearConstraint};
use crate::arith::linear_expression;
use crate::arith::linear_expression::LinearExpression;
use crate::arith::number;
use crate::arith::number::Number;
use crate::arith::variable::Variable;
use crate::finite_domain;
use crate::finite_domain::{FiniteBinOp, Operand};
use crate::interval::Interval;
use crate::var_registry::RegistryView;
use crate::zone_domain;
use crate::zone_model;
use crate::zone_model::ZEdges;

verus! {

/// One numeric operation.
pub enum Step {
    /// Forget a variable.
    Forget(u64),
    /// Assign the second variable to the first.
    Copy(u64, u64),
    /// Assign an expression to a variable.
    Assign(u64, LinearExpression),
    /// Replace the bounds of a variable by an interval; nothing is possible where it is empty.
    Put(u64, Interval),
    /// Add a constraint.
    Add(LinearConstraint),
    /// Add a constraint with the given terms.
    Say(Lin),
    /// An operation on one variable, without regard to overflow.
    Plain(FiniteBinOp, u64, u64, Operand, int),
    /// A signed operation on the first value of a register that is known.
    Overflow(FiniteBinOp, u64, u64, Operand, int),
    /// A variable wraps to a width.
    WrapOne(u64, int, bool),
    /// A signed operation on the values `0` and `1` of a register.
    Signed(FiniteBinOp, u64, u64, u64, Operand, int),
    /// An unsigned operation on the values of a register.
    Unsigned(FiniteBinOp, u64, u64, u64, Operand, int),
    /// Conjunction with a number.
    Mask(u64, u64, Number),
    /// Shifts by constants and expressions.
    Shl(u64, u64, i32, int),
    Lshr(u64, u64, int, int),
    Ashr(u64, u64, LinearExpression, int),
    /// Sign extension to a width from a width.
    Extend(u64, u64, LinearExpression, int, int),
    /// Both values of a register wrap to a width.
    Wrap(u64, u64, int),
    /// Variables are renamed in turn.
    Rename(Seq<(Variable, Variable)>),
}

/// A linear constraint: the sum of the terms and the constant, compared with zero.
pub struct Lin {
    pub terms: Map<u64, Number>,
    pub constant: int,
    pub kind: ConstraintKind,
}

/// The constraint that an object states.
pub open spec fn lin_of(c: &LinearConstraint) -> Lin {
    Lin { terms: c.expression.terms@, constant: c.expression.constant@, kind: c.kind }
}

/// A linear expression.
pub struct Sum {
    pub terms: Map<u64, Number>,
    pub constant: int,
}

/// The expression that an object states.
pub open spec fn sum_of(e: &LinearExpression) -> Sum {
    Sum { terms: e.terms@, constant: e.constant@ }
}

/// A variable.
pub open spec fn just_var(v: u64) -> Sum {
    Sum { terms: Map::<u64, Number>::empty().insert(v, Number { n: 1 }), constant: 0 }
}

/// A number.
pub open spec fn just_num(n: int) -> Sum {
    Sum { terms: Map::<u64, Number>::empty(), constant: n }
}

/// The sum of two expressions.
pub open spec fn plus(a: Sum, b: Sum) -> Sum {
    Sum { terms: linear_expression::combined(a.terms, 1, b.terms), constant: number::saturate(a.constant + b.constant) }
}

/// The difference of two expressions.
pub open spec fn minus(a: Sum, b: Sum) -> Sum {
    Sum { terms: linear_expression::combined(a.terms, -1, b.terms), constant: number::saturate(a.constant - b.constant) }
}

/// `a <= b`, `a < b` and `a == b`.
pub open spec fn at_most(a: Sum, b: Sum) -> Lin {
    Lin { terms: minus(a, b).terms, constant: minus(a, b).constant, kind: ConstraintKind::LessThanOrEqualsZero }
}

pub open spec fn below(a: Sum, b: Sum) -> Lin {
    Lin { terms: minus(a, b).terms, constant: minus(a, b).constant, kind: ConstraintKind::LessThanZero }
}

pub open spec fn equal(a: Sum, b: Sum) -> Lin {
    Lin { terms: minus(a, b).terms, constant: minus(a, b).constant, kind: ConstraintKind::EqualsZero }
}

/// A numeric state: constraints, or nothing where no state is possible.
pub type Num = Option<ZEdges>;

/// The numeric state of a domain.
pub open spec fn num(d: &AddBottom) -> Num {
    if d.dom is Some { Some(d.z()) } else { None }
}

/// What one operation does to the constraints. Where nothing was possible, nothing is.
#[verifier::opaque]
pub open spec fn step(a: Num, r: RegistryView, op: Step, b: Num) -> bool {
    match (a, b) {
        (None, _) => b is None,
        (Some(x), None) => match op {
            Step::Put(v, iv) => iv.is_empty_spec(),
            Step::Add(c) => zone_domain::constraint_refuted(x, &c, zone_domain::min_only_of(r)) && !c.is_tautology_spec(),
            Step::Say(l) => exists|c: LinearConstraint| l == #[trigger] lin_of(&c) && c.expression.orderly()
                && zone_domain::constraint_refuted(x, &c, zone_domain::min_only_of(r)) && !c.is_tautology_spec(),
            _ => false,
        },
        (Some(x), Some(y)) => match op {
            Step::Forget(v) => y == zone_model::zwithout(x, zone_model::node(v)),
            Step::Copy(v, w) => zone_domain::variable_assigned(x, v, w, zone_domain::min_only_of(r), y),
            Step::Assign(v, e) => zone_model::assigned(x, v, &e, zone_domain::min_only_of(r), y),
            Step::Put(v, iv) => !iv.is_empty_spec() && y == zone_model::zput(x, v, iv, r.metas[v as int].is_min_only),
            Step::Add(c) => zone_domain::constraint_added(x, &c, zone_domain::min_only_of(r), y) && !c.is_contradiction_spec(),
            Step::Say(l) => exists|c: LinearConstraint| l == #[trigger] lin_of(&c) && c.expression.orderly()
                && zone_domain::constraint_added(x, &c, zone_domain::min_only_of(r), y) && !c.is_contradiction_spec(),
            Step::Plain(op, v, w, o, width) => finite_domain::applied(x, r, op, v, w, o, width, y),
            Step::Overflow(op, s, u, o, w) => finite_domain::signed_applied(x, r, op, s, u,
                if zone_model::zinterval(x, s).is_top_spec() { u } else { s }, o, w, y),
            Step::WrapOne(v, w, signed) => y == finite_domain::zoverflow(x, v, w, signed, r.metas[v as int].is_min_only),
            Step::Signed(op, s, u, v, o, w) => finite_domain::signed_applied(x, r, op, s, u, v, o, w, y),
            Step::Unsigned(op, s, u, v, o, w) => finite_domain::unsigned_applied(x, r, op, s, u, v, o, w, y),
            Step::Mask(s, u, n) => finite_domain::masked(x, r, s, u, n, y),
            Step::Shl(s, u, imm, w) => match finite_domain::shl_interval(zone_model::zinterval(x, u), imm, w) {
                None => finite_domain::unsigned_applied(x, r, FiniteBinOp::Bitwise(finite_domain::BitwiseBinOp::SHL), s, u, u, Operand::Num(Number { n: imm as i128 }), 64, y),
                Some(iv) => finite_domain::mirrored(zone_model::zput(x, u, iv, r.metas[u as int].is_min_only), r, u, s, s, u, w, y),
            },
            Step::Lshr(s, u, imm, w) => finite_domain::mirrored(
                zone_model::zput(x, u, finite_domain::lshr_interval(zone_model::zinterval(x, u), imm, w), r.metas[u as int].is_min_only), r, u, s, s, u, w, y),
            Step::Ashr(s, u, e, w) => {
                let sp = finite_domain::signed_split(x, w == 64, s, u, zone_model::zeval(x, &e));
                match sp.right.singleton_spec() {
                    Some(n) => finite_domain::mirrored(
                        zone_model::zput(x, s, finite_domain::ashr_interval(sp.left, crate::arith::number::wrap_signed(n@, 64) % w, w), r.metas[s as int].is_min_only),
                        r, s, u, s, u, w, y),
                    None => y == zone_model::zwithout(zone_model::zwithout(x, zone_model::node(s)), zone_model::node(u)),
                }
            },
            Step::Extend(s, u, e, target, source) => finite_domain::mirrored(
                zone_model::zput(x, s, zone_model::zeval(x, &e).sign_extend_spec(source), r.metas[s as int].is_min_only), r, s, u, s, u, target, y),
            Step::Wrap(s, u, w) => y == finite_domain::zoverflow_pair(x, r, s, u, w),
            Step::Rename(pairs) => y == zone_model::zrenamed_all(x, pairs, pairs.len()),
        },
    }
}

/// One operation, with a registry between two others.
pub open spec fn step_between(a: Num, older: RegistryView, newer: RegistryView, op: Step, b: Num) -> bool {
    exists|r: RegistryView| r.extends(older) && newer.extends(r) && #[trigger] step(a, r, op, b)
}

/// The operations lead from one state to another.
pub open spec fn performs(a: Num, older: RegistryView, newer: RegistryView, ops: Seq<Step>, b: Num) -> bool {
    exists|path: Seq<Num>| path.len() == ops.len() + 1 && path[0] == a && path[ops.len() as int] == b && #[trigger] is_path(path, older, newer, ops)
}

/// Each state follows from the one before by the operation between them.
pub open spec fn is_path(path: Seq<Num>, older: RegistryView, newer: RegistryView, ops: Seq<Step>) -> bool {
    forall|i: int| 0 <= i < ops.len() ==> #[trigger] step_between(path[i], older, newer, ops[i], path[i + 1])
}

/// No operation changes nothing.
pub proof fn performs_nothing(a: Num, older: RegistryView, newer: RegistryView)
    ensures performs(a, older, newer, seq![], a),
{
    assert(is_path(seq![a], older, newer, seq![]));
}

/// One operation more.
pub proof fn performs_next(a: Num, older: RegistryView, mid: RegistryView, newer: RegistryView, ops: Seq<Step>, b: Num, op: Step, c: Num)
    requires
        performs(a, older, mid, ops, b),
        step_between(b, mid, newer, op, c) || step_between(b, older, newer, op, c),
        mid.extends(older),
        newer.extends(mid),
    ensures performs(a, older, newer, ops.push(op), c),
{
    let path = choose|path: Seq<Num>| path.len() == ops.len() + 1 && path[0] == a && path[ops.len() as int] == b && #[trigger] is_path(path, older, mid, ops);
    let more = path.push(c);
    let all = ops.push(op);
    assert forall|i: int| 0 <= i < all.len() implies #[trigger] step_between(more[i], older, newer, all[i], more[i + 1]) by {
        if i < ops.len() {
            assert(step_between(path[i], older, mid, ops[i], path[i + 1]));
            let r = choose|r: RegistryView| r.extends(older) && mid.extends(r) && #[trigger] step(path[i], r, ops[i], path[i + 1]);
            newer.extending_is_transitive(mid, r);
            assert(step(more[i], r, all[i], more[i + 1]));
        } else {
            if step_between(b, mid, newer, op, c) {
                let r = choose|r: RegistryView| r.extends(mid) && newer.extends(r) && #[trigger] step(b, r, op, c);
                r.extending_is_transitive(mid, older);
                assert(step(more[i], r, all[i], more[i + 1]));
            }
        }
    }
    assert(is_path(more, older, newer, all));
}

/// A registry that has not changed extends itself.
pub proof fn extends_itself(r: RegistryView)
    ensures r.extends(r),
{
}

/// One operation, with a registry that does not change.
pub proof fn performs_one(a: Num, older: RegistryView, r: RegistryView, ops: Seq<Step>, b: Num, op: Step, c: Num)
    requires performs(a, older, r, ops, b), r.extends(older), step(b, r, op, c),
    ensures performs(a, older, r, ops.push(op), c),
{
    extends_itself(r);
    assert(step_between(b, r, r, op, c));
    performs_next(a, older, r, r, ops, b, op, c);
}

/// A longer registry serves as well.
pub proof fn performs_later(a: Num, older: RegistryView, mid: RegistryView, newer: RegistryView, ops: Seq<Step>, b: Num)
    requires performs(a, older, mid, ops, b), newer.extends(mid),
    ensures performs(a, older, newer, ops, b),
{
    let path = choose|path: Seq<Num>| path.len() == ops.len() + 1 && path[0] == a && path[ops.len() as int] == b && #[trigger] is_path(path, older, mid, ops);
    assert forall|i: int| 0 <= i < ops.len() implies #[trigger] step_between(path[i], older, newer, ops[i], path[i + 1]) by {
        assert(step_between(path[i], older, mid, ops[i], path[i + 1]));
        let r = choose|r: RegistryView| r.extends(older) && mid.extends(r) && #[trigger] step(path[i], r, ops[i], path[i + 1]);
        newer.extending_is_transitive(mid, r);
        assert(step(path[i], r, ops[i], path[i + 1]));
    }
    assert(is_path(path, older, newer, ops));
}

/// Two sequences one after the other.
pub proof fn performs_both(a: Num, older: RegistryView, mid: RegistryView, newer: RegistryView, first: Seq<Step>, b: Num, second: Seq<Step>, c: Num)
    requires
        performs(a, older, mid, first, b),
        performs(b, mid, newer, second, c),
        mid.extends(older),
        newer.extends(mid),
    ensures performs(a, older, newer, first + second, c),
{
    let p = choose|path: Seq<Num>| path.len() == first.len() + 1 && path[0] == a && path[first.len() as int] == b && #[trigger] is_path(path, older, mid, first);
    let q = choose|path: Seq<Num>| path.len() == second.len() + 1 && path[0] == b && path[second.len() as int] == c && #[trigger] is_path(path, mid, newer, second);
    let all = p + q.skip(1);
    let ops = first + second;
    let n = first.len() as int;
    assert forall|i: int| 0 <= i < ops.len() implies #[trigger] step_between(all[i], older, newer, ops[i], all[i + 1]) by {
        if i < n {
            assert(all[i] == p[i] && all[i + 1] == p[i + 1]);
            assert(step_between(p[i], older, mid, first[i], p[i + 1]));
            let r = choose|r: RegistryView| r.extends(older) && mid.extends(r) && #[trigger] step(p[i], r, first[i], p[i + 1]);
            newer.extending_is_transitive(mid, r);
            assert(step(all[i], r, ops[i], all[i + 1]));
        } else {
            let j = i - n;
            assert(all[i] == q[j]) by { if j == 0 { assert(all[i] == p[n]); } else { assert(all[i] == q.skip(1)[j - 1]); } }
            assert(all[i + 1] == q.skip(1)[j]);
            assert(step_between(q[j], mid, newer, second[j], q[j + 1]));
            let r = choose|r: RegistryView| r.extends(mid) && newer.extends(r) && #[trigger] step(q[j], r, second[j], q[j + 1]);
            r.extending_is_transitive(mid, older);
            assert(step(all[i], r, ops[i], all[i + 1]));
        }
    }
    assert(is_path(all, older, newer, ops));
    assert(all[ops.len() as int] == c) by {
        if second.len() == 0 { assert(all[n] == p[n]); } else { assert(all[ops.len() as int] == q.skip(1)[second.len() - 1]); }
    }
}

/// Forgetting a variable.
pub proof fn step_forget(a: Num, r: RegistryView, v: u64, b: Num)
    requires a is Some <==> b is Some, a is Some ==> b->Some_0 == zone_model::zwithout(a->Some_0, zone_model::node(v)),
    ensures step(a, r, Step::Forget(v), b),
{
    reveal(step);
}

/// Assigning a variable.
pub proof fn step_copy(a: Num, r: RegistryView, x: u64, v: u64, b: Num)
    requires a is Some <==> b is Some, a is Some ==> zone_domain::variable_assigned(a->Some_0, x, v, zone_domain::min_only_of(r), b->Some_0),
    ensures step(a, r, Step::Copy(x, v), b),
{
    reveal(step);
}

/// Assigning an expression.
pub proof fn step_assign(a: Num, r: RegistryView, x: u64, e: LinearExpression, b: Num)
    requires a is Some <==> b is Some, a is Some ==> zone_model::assigned(a->Some_0, x, &e, zone_domain::min_only_of(r), b->Some_0),
    ensures step(a, r, Step::Assign(x, e), b),
{
    reveal(step);
}

/// Setting an interval.
pub proof fn step_put(a: Num, r: RegistryView, x: u64, iv: Interval, b: Num)
    requires
        b is Some <==> a is Some && !iv.is_empty_spec(),
        b is Some ==> b->Some_0 == zone_model::zput(a->Some_0, x, iv, r.metas[x as int].is_min_only),
    ensures step(a, r, Step::Put(x, iv), b),
{
    reveal(step);
}

/// Adding a constraint by its terms.
pub proof fn step_say(a: Num, r: RegistryView, c: LinearConstraint, b: Num)
    requires
        c.expression.orderly(),
        a is None ==> b is None,
        a is Some && b is Some ==> zone_domain::constraint_added(a->Some_0, &c, zone_domain::min_only_of(r), b->Some_0),
        a is Some && b is None ==> zone_domain::constraint_refuted(a->Some_0, &c, zone_domain::min_only_of(r)),
        a is Some && c.is_tautology_spec() ==> b is Some,
        c.is_contradiction_spec() ==> b is None,
    ensures step(a, r, Step::Say(lin_of(&c)), b),
{
    reveal(step);
}

/// A step that leaves a state, or forgets a variable, does not come from nothing.
pub proof fn step_from_nothing(r: RegistryView, op: Step, b: Num)
    requires step(None, r, op, b),
    ensures b is None,
{
    reveal(step);
}

}
