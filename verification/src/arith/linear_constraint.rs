//! Linear constraints.
use vstd::prelude::*;
use crate::arith::linear_expression;
use crate::arith::linear_expression::{Env, LinearExpression};
use crate::arith::number;
use crate::arith::number::Number;
use crate::arith::variable::Variable;

verus! {

/// How a linear expression is compared with zero.
#[derive(Clone, Copy, Debug, PartialEq, Eq, Structural)]
pub enum ConstraintKind {
    EqualsZero,
    LessThanOrEqualsZero,
    LessThanZero,
    NotZero,
}

/// Truth of a comparison with zero.
pub open spec fn kind_holds(k: ConstraintKind, x: int) -> bool {
    match k {
        ConstraintKind::EqualsZero => x == 0,
        ConstraintKind::LessThanOrEqualsZero => x <= 0,
        ConstraintKind::LessThanZero => x < 0,
        ConstraintKind::NotZero => x != 0,
    }
}

/// A comparison of a linear expression with zero.
#[derive(Debug)]
pub struct LinearConstraint {
    pub expression: LinearExpression,
    pub kind: ConstraintKind,
}

impl LinearConstraint {
    /// Truth under a valuation.
    pub open spec fn holds(&self, env: Env) -> bool {
        kind_holds(self.kind, self.expression.eval(env))
    }

    pub open spec fn is_constant_spec(&self) -> bool {
        self.expression.terms.entries().len() == 0
    }

    /// A constant expression that meets the comparison.
    pub open spec fn is_tautology_spec(&self) -> bool {
        self.is_constant_spec() && kind_holds(self.kind, self.expression.constant@)
    }

    /// A constant expression that fails the comparison.
    pub open spec fn is_contradiction_spec(&self) -> bool {
        self.is_constant_spec() && !kind_holds(self.kind, self.expression.constant@)
    }

    pub fn new(expression: LinearExpression, kind: ConstraintKind) -> (r: LinearConstraint)
        ensures r.expression == expression, r.kind == kind,
    {
        LinearConstraint { expression, kind }
    }

    pub fn kind(&self) -> (r: ConstraintKind)
        ensures r == self.kind,
    {
        self.kind
    }

    pub fn expression(&self) -> (r: &LinearExpression)
        ensures *r == self.expression,
    {
        &self.expression
    }

    fn decide(&self) -> (r: bool)
        ensures r == kind_holds(self.kind, self.expression.constant@),
    {
        match self.kind {
            ConstraintKind::EqualsZero => self.expression.constant.n == 0,
            ConstraintKind::LessThanOrEqualsZero => self.expression.constant.n <= 0,
            ConstraintKind::LessThanZero => self.expression.constant.n < 0,
            ConstraintKind::NotZero => self.expression.constant.n != 0,
        }
    }

    /// Holds under every valuation because no variable occurs.
    pub fn is_tautology(&self) -> (r: bool)
        ensures
            r == self.is_tautology_spec(),
            r ==> forall|env: Env| #[trigger] self.holds(env),
    {
        self.expression.is_constant() && self.decide()
    }

    /// Fails under every valuation because no variable occurs.
    pub fn is_contradiction(&self) -> (r: bool)
        ensures
            r == self.is_contradiction_spec(),
            r ==> forall|env: Env| !(#[trigger] self.holds(env)),
    {
        self.expression.is_constant() && !self.decide()
    }

    /// The opposite constraint.
    pub fn negate(&self) -> (r: LinearConstraint)
        ensures
            r.kind == (match self.kind {
                ConstraintKind::EqualsZero => ConstraintKind::NotZero,
                ConstraintKind::NotZero => ConstraintKind::EqualsZero,
                ConstraintKind::LessThanZero => ConstraintKind::LessThanOrEqualsZero,
                ConstraintKind::LessThanOrEqualsZero => ConstraintKind::LessThanZero,
            }),
            r.expression.constant@ == (if self.kind is EqualsZero || self.kind is NotZero { self.expression.constant@ } else { number::saturate(-self.expression.constant@) }),
            r.expression.terms@ == (if self.kind is EqualsZero || self.kind is NotZero { self.expression.terms@ }
                else { linear_expression::combined(Map::<u64, Number>::empty(), -1, self.expression.terms@) }),
            self.expression.negation_fits() ==> forall|env: Env| #[trigger] r.holds(env) == !self.holds(env),
    {
        match self.kind {
            ConstraintKind::EqualsZero =>
                LinearConstraint { expression: self.expression.copy(), kind: ConstraintKind::NotZero },
            ConstraintKind::NotZero =>
                LinearConstraint { expression: self.expression.copy(), kind: ConstraintKind::EqualsZero },
            ConstraintKind::LessThanZero => {
                let expression = self.expression.negate();
                let r = LinearConstraint { expression, kind: ConstraintKind::LessThanOrEqualsZero };
                proof {
                    if self.expression.negation_fits() {
                        assert forall|env: Env| #[trigger] r.holds(env) == !self.holds(env) by {
                            assert(r.expression.eval(env) == -self.expression.eval(env));
                        }
                    }
                }
                r
            },
            ConstraintKind::LessThanOrEqualsZero => {
                let expression = self.expression.negate();
                let r = LinearConstraint { expression, kind: ConstraintKind::LessThanZero };
                proof {
                    if self.expression.negation_fits() {
                        assert forall|env: Env| #[trigger] r.holds(env) == !self.holds(env) by {
                            assert(r.expression.eval(env) == -self.expression.eval(env));
                        }
                    }
                }
                r
            },
        }
    }

    /// A constraint that always holds.
    pub fn true_const() -> (r: LinearConstraint)
        ensures
            r.is_tautology_spec(),
            r.kind is EqualsZero,
            r.expression.constant@ == 0,
            r.expression.terms@ == Map::<u64, Number>::empty(),
            forall|env: Env| #[trigger] r.holds(env),
    {
        LinearConstraint { expression: LinearExpression::from_i64(0), kind: ConstraintKind::EqualsZero }
    }

    /// A constraint that never holds.
    pub fn false_const() -> (r: LinearConstraint)
        ensures
            r.is_contradiction_spec(),
            r.kind is NotZero,
            r.expression.constant@ == 0,
            r.expression.terms@ == Map::<u64, Number>::empty(),
            forall|env: Env| !(#[trigger] r.holds(env)),
    {
        LinearConstraint { expression: LinearExpression::from_i64(0), kind: ConstraintKind::NotZero }
    }

    pub fn copy(&self) -> (r: LinearConstraint)
        ensures
            r.kind == self.kind,
            r.expression.same(&self.expression),
            forall|env: Env| #[trigger] r.holds(env) == self.holds(env),
    {
        let expression = self.expression.copy();
        let r = LinearConstraint { expression, kind: self.kind };
        assert forall|env: Env| #[trigger] r.holds(env) == self.holds(env) by {
            assert(r.expression.eval(env) == self.expression.eval(env));
        }
        r
    }
}

fn compare_difference(a: &LinearExpression, b: &LinearExpression, kind: ConstraintKind) -> (r: LinearConstraint)
    ensures
        r.kind == kind,
        r.expression.constant@ == number::saturate(a.constant@ - b.constant@),
        a.sum_fits(-1, b) ==> forall|k: u64| #[trigger] r.expression.coeff(k) == a.coeff(k) - b.coeff(k),
        a.sum_fits(-1, b) ==> forall|env: Env| #[trigger] r.holds(env) == kind_holds(kind, a.eval(env) - b.eval(env)),
        r.expression.terms@ == linear_expression::combined(a.terms@, -1, b.terms@),
{
    let expression = a.subtract(b);
    let r = LinearConstraint { expression, kind };
    proof {
        if a.sum_fits(-1, b) {
            assert forall|env: Env| #[trigger] r.holds(env) == kind_holds(kind, a.eval(env) - b.eval(env)) by {
                assert(r.expression.eval(env) == a.eval(env) - b.eval(env));
            }
        }
    }
    r
}

/// `a <= b`.
pub fn leq(a: LinearExpression, b: LinearExpression) -> (r: LinearConstraint)
    ensures
        r.kind == ConstraintKind::LessThanOrEqualsZero,
        r.expression.constant@ == number::saturate(a.constant@ - b.constant@),
        a.sum_fits(-1, &b) ==> forall|k: u64| #[trigger] r.expression.coeff(k) == a.coeff(k) - b.coeff(k),
        a.sum_fits(-1, &b) ==> forall|env: Env| #[trigger] r.holds(env) == (a.eval(env) <= b.eval(env)),
        r.expression.terms@ == linear_expression::combined(a.terms@, -1, b.terms@),
{
    compare_difference(&a, &b, ConstraintKind::LessThanOrEqualsZero)
}

/// `a < b`.
pub fn lt(a: LinearExpression, b: LinearExpression) -> (r: LinearConstraint)
    ensures
        r.kind == ConstraintKind::LessThanZero,
        r.expression.constant@ == number::saturate(a.constant@ - b.constant@),
        a.sum_fits(-1, &b) ==> forall|k: u64| #[trigger] r.expression.coeff(k) == a.coeff(k) - b.coeff(k),
        a.sum_fits(-1, &b) ==> forall|env: Env| #[trigger] r.holds(env) == (a.eval(env) < b.eval(env)),
        r.expression.terms@ == linear_expression::combined(a.terms@, -1, b.terms@),
{
    compare_difference(&a, &b, ConstraintKind::LessThanZero)
}

/// `a >= b`.
pub fn geq(a: LinearExpression, b: LinearExpression) -> (r: LinearConstraint)
    ensures
        r.kind == ConstraintKind::LessThanOrEqualsZero,
        r.expression.constant@ == number::saturate(b.constant@ - a.constant@),
        b.sum_fits(-1, &a) ==> forall|k: u64| #[trigger] r.expression.coeff(k) == b.coeff(k) - a.coeff(k),
        b.sum_fits(-1, &a) ==> forall|env: Env| #[trigger] r.holds(env) == (a.eval(env) >= b.eval(env)),
        r.expression.terms@ == linear_expression::combined(b.terms@, -1, a.terms@),
{
    compare_difference(&b, &a, ConstraintKind::LessThanOrEqualsZero)
}

/// `a > b`.
pub fn gt(a: LinearExpression, b: LinearExpression) -> (r: LinearConstraint)
    ensures
        r.kind == ConstraintKind::LessThanZero,
        r.expression.constant@ == number::saturate(b.constant@ - a.constant@),
        b.sum_fits(-1, &a) ==> forall|k: u64| #[trigger] r.expression.coeff(k) == b.coeff(k) - a.coeff(k),
        b.sum_fits(-1, &a) ==> forall|env: Env| #[trigger] r.holds(env) == (a.eval(env) > b.eval(env)),
        r.expression.terms@ == linear_expression::combined(b.terms@, -1, a.terms@),
{
    compare_difference(&b, &a, ConstraintKind::LessThanZero)
}

/// `a == b`.
pub fn expr_eq(a: LinearExpression, b: LinearExpression) -> (r: LinearConstraint)
    ensures
        r.kind == ConstraintKind::EqualsZero,
        r.expression.constant@ == number::saturate(a.constant@ - b.constant@),
        a.sum_fits(-1, &b) ==> forall|k: u64| #[trigger] r.expression.coeff(k) == a.coeff(k) - b.coeff(k),
        a.sum_fits(-1, &b) ==> forall|env: Env| #[trigger] r.holds(env) == (a.eval(env) == b.eval(env)),
        r.expression.terms@ == linear_expression::combined(a.terms@, -1, b.terms@),
{
    compare_difference(&a, &b, ConstraintKind::EqualsZero)
}

/// Equality of two variables.
pub fn eq(a: Variable, b: Variable) -> (r: LinearConstraint)
    ensures
        r.kind == ConstraintKind::EqualsZero,
        r.expression.constant@ == 0,
        forall|env: Env| #[trigger] r.holds(env) == (env(a.id) == env(b.id)),
        r.expression.terms@ == linear_expression::combined(
            Map::<u64, Number>::empty().insert(a.id, Number { n: 1 }), -1, Map::<u64, Number>::empty().insert(b.id, Number { n: 1 })),
{
    let x = LinearExpression::from_variable(a);
    let y = LinearExpression::from_variable(b);
    proof { linear_expression::lemma_small_difference(&x, &y); }
    let r = compare_difference(&x, &y, ConstraintKind::EqualsZero);
    proof {
        assert forall|env: Env| #[trigger] r.holds(env) == (env(a.id) == env(b.id)) by {
            assert(x.eval(env) == env(a.id));
            assert(y.eval(env) == env(b.id));
        }
    }
    r
}

/// Difference of two variables.
pub fn neq(a: Variable, b: Variable) -> (r: LinearConstraint)
    ensures
        r.kind == ConstraintKind::NotZero,
        r.expression.constant@ == 0,
        forall|env: Env| #[trigger] r.holds(env) == (env(a.id) != env(b.id)),
        r.expression.terms@ == linear_expression::combined(
            Map::<u64, Number>::empty().insert(a.id, Number { n: 1 }), -1, Map::<u64, Number>::empty().insert(b.id, Number { n: 1 })),
{
    let x = LinearExpression::from_variable(a);
    let y = LinearExpression::from_variable(b);
    proof { linear_expression::lemma_small_difference(&x, &y); }
    let r = compare_difference(&x, &y, ConstraintKind::NotZero);
    proof {
        assert forall|env: Env| #[trigger] r.holds(env) == (env(a.id) != env(b.id)) by {
            assert(x.eval(env) == env(a.id));
            assert(y.eval(env) == env(b.id));
        }
    }
    r
}

}
