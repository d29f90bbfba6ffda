//! The constraints that follow from a comparison of two registers, or of a register and a number.
use vstd::prelude::*;
use vstd::arithmetic::power2::*;
use crate::arith::extended_number::ExtendedNumber;
use crate::arith::linear_constraint;
use crate::arith::linear_constraint::{ConstraintKind, LinearConstraint};
use crate::arith::linear_expression;
use crate::arith::linear_expression::{Env, LinearExpression};
use crate::arith::number;
use crate::arith::number::Number;
use crate::arith::variable::Variable;
use crate::finite_domain;
use crate::finite_domain::FiniteDomain;
use crate::interval::Interval;
use crate::numeric_steps;
use crate::numeric_steps::Lin;
use crate::ord_map;
use crate::splitdbm::constraints;
use crate::syntax::ConditionOp;
use crate::var_registry::{RegistryView, VariableRegistry};
use crate::zone_domain;
use crate::zone_model;
use crate::zone_model::ZEdges;

verus! {

/// A constraint, by its terms, its constant and its kind, with what it says of a valuation. It says
/// so where it is exact: no coefficient and no constant was cut off at the range of numbers.
pub struct Claim {
    pub lin: Lin,
    pub says: spec_fn(Env) -> bool,
    pub exact: bool,
}

/// The terms of a variable.
pub open spec fn unit(v: u64) -> Map<u64, Number> {
    Map::<u64, Number>::empty().insert(v, Number { n: 1 })
}

/// The difference of two expressions, compared with zero.
pub open spec fn difference(a: Map<u64, Number>, m: int, b: Map<u64, Number>, n: int, kind: ConstraintKind) -> Lin {
    Lin { terms: linear_expression::combined(a, -1, b), constant: number::saturate(m - n), kind }
}

/// The constraint that orders two expressions.
pub open spec fn ordering(strict: bool, is_lt: bool, a: Map<u64, Number>, m: int, b: Map<u64, Number>, n: int) -> Lin {
    let kind = if strict { ConstraintKind::LessThanZero } else { ConstraintKind::LessThanOrEqualsZero };
    if is_lt { difference(a, m, b, n, kind) } else { difference(b, n, a, m, kind) }
}

/// The differences of an expression and a variable stay within the range of numbers.
pub open spec fn exact_operand(e: &LinearExpression) -> bool {
    e.constant@ > i128::MIN && forall|k: u64| #[trigger] e.coeff(k) >= -constraints::REACH
}

/// `a < b`, `a <= b`, `a > b` or `a >= b`.
pub open spec fn ordered(strict: bool, is_lt: bool, a: int, b: int) -> bool {
    if is_lt { if strict { a < b } else { a <= b } } else { if strict { a > b } else { a >= b } }
}

/// The variable is ordered against an expression.
pub open spec fn against(strict: bool, is_lt: bool, v: u64, e: &LinearExpression) -> Claim {
    Claim {
        lin: ordering(strict, is_lt, unit(v), 0, e.terms@, e.constant@),
        says: |env: Env| ordered(strict, is_lt, env(v), e.eval(env)),
        exact: exact_operand(e),
    }
}

/// The variable is ordered against a number.
pub open spec fn bounded(strict: bool, is_lt: bool, v: u64, n: int) -> Claim {
    Claim {
        lin: ordering(strict, is_lt, unit(v), 0, Map::empty(), n),
        says: |env: Env| ordered(strict, is_lt, env(v), n),
        exact: true,
    }
}

/// Two variables are ordered.
pub open spec fn related(strict: bool, is_lt: bool, a: u64, b: u64) -> Claim {
    Claim {
        lin: ordering(strict, is_lt, unit(a), 0, unit(b), 0),
        says: |env: Env| ordered(strict, is_lt, env(a), env(b)),
        exact: true,
    }
}

/// The variable equals an expression.
pub open spec fn equals(v: u64, e: &LinearExpression) -> Claim {
    Claim {
        lin: difference(unit(v), 0, e.terms@, e.constant@, ConstraintKind::EqualsZero),
        says: |env: Env| env(v) == e.eval(env),
        exact: exact_operand(e),
    }
}

/// The variable equals a number.
pub open spec fn is_number(v: u64, n: int) -> Claim {
    Claim {
        lin: difference(unit(v), 0, Map::empty(), n, ConstraintKind::EqualsZero),
        says: |env: Env| env(v) == n,
        exact: true,
    }
}

/// Two variables are equal.
pub open spec fn same_value(a: u64, b: u64) -> Claim {
    Claim {
        lin: difference(unit(a), 0, unit(b), 0, ConstraintKind::EqualsZero),
        says: |env: Env| env(a) == env(b),
        exact: true,
    }
}

/// Two variables differ.
pub open spec fn differ(a: u64, b: u64) -> Claim {
    Claim {
        lin: difference(unit(a), 0, unit(b), 0, ConstraintKind::NotZero),
        says: |env: Env| env(a) != env(b),
        exact: true,
    }
}

/// The constant constraint that holds always, or never.
pub open spec fn constantly(b: bool) -> Claim {
    Claim {
        lin: Lin { terms: Map::empty(), constant: 0, kind: if b { ConstraintKind::EqualsZero } else { ConstraintKind::NotZero } },
        says: |env: Env| b,
        exact: true,
    }
}

/// The constraints state the claims, one for one.
pub open spec fn states(r: Seq<LinearConstraint>, cs: Seq<Claim>) -> bool {
    &&& r.len() == cs.len()
    &&& forall|i: int| #![trigger r[i]] 0 <= i < r.len() ==> numeric_steps::lin_of(&r[i]) == cs[i].lin && r[i].expression.orderly()
    &&& forall|i: int, env: Env| #![trigger r[i].holds(env)] 0 <= i < r.len() && cs[i].exact ==> r[i].holds(env) == (cs[i].says)(env)
}

/// A constant constraint is a tautology or a contradiction.
pub proof fn constants_are_decided(r: Seq<LinearConstraint>, b: bool)
    requires states(r, seq![constantly(b)]),
    ensures
        r.len() == 1,
        b ==> r[0].is_tautology_spec(),
        !b ==> r[0].is_contradiction_spec(),
{
    let s = r[0].expression.terms.entries();
    assert(numeric_steps::lin_of(&r[0]) == constantly(b).lin);
    if s.len() > 0 {
        ord_map::lemma_entry(s, 0);
    }
}

/// The constraints speak of registered variables only.
pub open spec fn all_known(reg: RegistryView, r: Seq<LinearConstraint>) -> bool {
    forall|i: int| 0 <= i < r.len() ==> zone_domain::knows_terms(reg, (#[trigger] r[i]).expression.terms@)
}

/// A number within the range in which sums of expressions are exact.
pub open spec fn small_number(n: int) -> bool {
    -linear_expression::SMALL < n < linear_expression::SMALL
}

/// A list of constraints under construction, with what they state.
struct Claims {
    list: Vec<LinearConstraint>,
    said: Ghost<Seq<Claim>>,
}

impl Claims {
    spec fn good(&self, reg: RegistryView) -> bool {
        states(self.list@, self.said@) && all_known(reg, self.list@)
    }

    fn new(reg: &VariableRegistry) -> (r: Claims)
        ensures r.good(reg@), r.said@ == Seq::<Claim>::empty(),
    {
        Claims { list: Vec::new(), said: Ghost(Seq::empty()) }
    }

    fn push(&mut self, c: LinearConstraint, claim: Ghost<Claim>, reg: &VariableRegistry)
        requires
            old(self).good(reg@),
            zone_domain::knows_terms(reg@, c.expression.terms@),
            numeric_steps::lin_of(&c) == claim@.lin,
            claim@.exact ==> forall|env: Env| #[trigger] c.holds(env) == (claim@.says)(env),
        ensures
            final(self).good(reg@),
            final(self).said@ == old(self).said@.push(claim@),
    {
        let ghost before = self.list@;
        c.expression.order_holds();
        self.list.push(c);
        self.said = Ghost(self.said@.push(claim@));
        proof {
            assert forall|i: int| #![trigger self.list@[i]] 0 <= i < self.list@.len() implies
                numeric_steps::lin_of(&self.list@[i]) == self.said@[i].lin && self.list@[i].expression.orderly() by {
                if i < before.len() {
                    assert(numeric_steps::lin_of(&before[i]) == old(self).said@[i].lin);
                }
            }
            assert forall|i: int, env: Env| #![trigger self.list@[i].holds(env)] 0 <= i < self.list@.len() && self.said@[i].exact implies
                self.list@[i].holds(env) == (self.said@[i].says)(env) by {
                if i < before.len() {
                    assert(before[i].holds(env) == (old(self).said@[i].says)(env));
                }
            }
        }
    }

    fn order(&mut self, strict: bool, is_lt: bool, v: Variable, e: &LinearExpression, reg: &VariableRegistry)
        requires old(self).good(reg@), reg@.knows(v), zone_domain::knows_terms(reg@, e.terms@),
        ensures final(self).good(reg@), final(self).said@ == old(self).said@.push(against(strict, is_lt, v.id, e)),
    {
        let a = LinearExpression::from_variable(v);
        let b = e.copy();
        proof {
            if exact_operand(e) { lemma_operand(&a, v.id, &b, e); }
        }
        let ghost ga = a;
        let ghost gb = b;
        let c = strict_cmp(strict, is_lt, a, b);
        let ghost f = against(strict, is_lt, v.id, e);
        assert forall|env: Env| f.exact implies #[trigger] c.holds(env) == (f.says)(env) by {
            assert(ga.eval(env) == env(v.id));
            assert(gb.eval(env) == e.eval(env));
        }
        self.push(c, Ghost(f), reg);
    }

    fn bound(&mut self, strict: bool, is_lt: bool, v: Variable, n: Number, reg: &VariableRegistry)
        requires old(self).good(reg@), reg@.knows(v), small_number(n@),
        ensures final(self).good(reg@), final(self).said@ == old(self).said@.push(bounded(strict, is_lt, v.id, n@)),
    {
        let a = LinearExpression::from_variable(v);
        let b = LinearExpression::from_number(n);
        proof {
            assert(b.small());
            linear_expression::lemma_small_difference(&a, &b);
            linear_expression::lemma_small_difference(&b, &a);
        }
        let ghost ga = a;
        let ghost gb = b;
        let c = strict_cmp(strict, is_lt, a, b);
        let ghost f = bounded(strict, is_lt, v.id, n@);
        assert forall|env: Env| f.exact implies #[trigger] c.holds(env) == (f.says)(env) by {
            assert(ga.eval(env) == env(v.id));
            assert(gb.eval(env) == n@);
        }
        self.push(c, Ghost(f), reg);
    }

    /// An upper bound of any size. The smallest number has no opposite and counts as the next one.
    fn at_most(&mut self, v: Variable, n: Number, reg: &VariableRegistry)
        requires old(self).good(reg@), reg@.knows(v),
        ensures final(self).good(reg@), final(self).said@ == old(self).said@.push(bounded(false, true, v.id, -number::saturate(-n@))),
    {
        let m: Number = if n.n == i128::MIN { Number::of(-i128::MAX) } else { n };
        let a = LinearExpression::from_variable(v);
        let b = LinearExpression::from_number(m);
        proof {
            assert(a.sum_fits(-1, &b)) by {
                assert forall|k: u64| #![trigger b.coeff(k)] i128::MIN < b.coeff(k) && i128::MIN <= a.coeff(k) - b.coeff(k) <= i128::MAX by {
                    assert(-linear_expression::SMALL < a.coeff(k) < linear_expression::SMALL);
                }
            }
        }
        let ghost ga = a;
        let ghost gb = b;
        let c = linear_constraint::leq(a, b);
        let ghost f = bounded(false, true, v.id, -number::saturate(-n@));
        assert forall|env: Env| f.exact implies #[trigger] c.holds(env) == (f.says)(env) by {
            assert(ga.eval(env) == env(v.id));
            assert(gb.eval(env) == m@);
        }
        self.push(c, Ghost(f), reg);
    }

    fn order_variables(&mut self, strict: bool, is_lt: bool, x: Variable, y: Variable, reg: &VariableRegistry)
        requires old(self).good(reg@), reg@.knows(x), reg@.knows(y),
        ensures final(self).good(reg@), final(self).said@ == old(self).said@.push(related(strict, is_lt, x.id, y.id)),
    {
        let a = LinearExpression::from_variable(x);
        let b = LinearExpression::from_variable(y);
        proof {
            linear_expression::lemma_small_difference(&a, &b);
            linear_expression::lemma_small_difference(&b, &a);
        }
        let ghost ga = a;
        let ghost gb = b;
        let c = strict_cmp(strict, is_lt, a, b);
        let ghost f = related(strict, is_lt, x.id, y.id);
        assert forall|env: Env| f.exact implies #[trigger] c.holds(env) == (f.says)(env) by {
            assert(ga.eval(env) == env(x.id));
            assert(gb.eval(env) == env(y.id));
        }
        self.push(c, Ghost(f), reg);
    }

    fn equate(&mut self, v: Variable, e: &LinearExpression, reg: &VariableRegistry)
        requires old(self).good(reg@), reg@.knows(v), zone_domain::knows_terms(reg@, e.terms@),
        ensures final(self).good(reg@), final(self).said@ == old(self).said@.push(equals(v.id, e)),
    {
        let a = LinearExpression::from_variable(v);
        let b = e.copy();
        proof {
            if exact_operand(e) { lemma_operand(&a, v.id, &b, e); }
        }
        let ghost ga = a;
        let ghost gb = b;
        let c = linear_constraint::expr_eq(a, b);
        let ghost f = equals(v.id, e);
        assert forall|env: Env| f.exact implies #[trigger] c.holds(env) == (f.says)(env) by {
            assert(ga.eval(env) == env(v.id));
            assert(gb.eval(env) == e.eval(env));
        }
        self.push(c, Ghost(f), reg);
    }

    fn equate_number(&mut self, v: Variable, n: Number, reg: &VariableRegistry)
        requires old(self).good(reg@), reg@.knows(v), small_number(n@),
        ensures final(self).good(reg@), final(self).said@ == old(self).said@.push(is_number(v.id, n@)),
    {
        let a = LinearExpression::from_variable(v);
        let b = LinearExpression::from_number(n);
        proof {
            assert(b.small());
            linear_expression::lemma_small_difference(&a, &b);
        }
        let ghost ga = a;
        let ghost gb = b;
        let c = linear_constraint::expr_eq(a, b);
        let ghost f = is_number(v.id, n@);
        assert forall|env: Env| f.exact implies #[trigger] c.holds(env) == (f.says)(env) by {
            assert(ga.eval(env) == env(v.id));
            assert(gb.eval(env) == n@);
        }
        self.push(c, Ghost(f), reg);
    }

    fn equate_variables(&mut self, x: Variable, y: Variable, reg: &VariableRegistry)
        requires old(self).good(reg@), reg@.knows(x), reg@.knows(y),
        ensures final(self).good(reg@), final(self).said@ == old(self).said@.push(same_value(x.id, y.id)),
    {
        let c = linear_constraint::eq(x, y);
        let ghost f = same_value(x.id, y.id);
        assert forall|env: Env| f.exact implies #[trigger] c.holds(env) == (f.says)(env) by {}
        self.push(c, Ghost(f), reg);
    }

    fn distinguish(&mut self, x: Variable, y: Variable, reg: &VariableRegistry)
        requires old(self).good(reg@), reg@.knows(x), reg@.knows(y),
        ensures final(self).good(reg@), final(self).said@ == old(self).said@.push(differ(x.id, y.id)),
    {
        let c = linear_constraint::neq(x, y);
        let ghost f = differ(x.id, y.id);
        assert forall|env: Env| f.exact implies #[trigger] c.holds(env) == (f.says)(env) by {}
        self.push(c, Ghost(f), reg);
    }

    fn decide(&mut self, b: bool, reg: &VariableRegistry)
        requires old(self).good(reg@),
        ensures final(self).good(reg@), final(self).said@ == old(self).said@.push(constantly(b)),
    {
        let c = if b { LinearConstraint::true_const() } else { LinearConstraint::false_const() };
        let ghost f = constantly(b);
        assert forall|env: Env| f.exact implies #[trigger] c.holds(env) == (f.says)(env) by {}
        assert(c.expression.terms.entries().len() == 0);
        c.expression.terms.reveal_entries();
        assert forall|k: u64| #[trigger] c.expression.terms@.contains_key(k) implies k < reg@.size() by {
            let i = ord_map::lemma_key(c.expression.terms.entries(), k);
        }
        self.push(c, Ghost(f), reg);
    }
}

/// A variable and an expression can be subtracted from each other.
proof fn lemma_operand(a: &LinearExpression, v: u64, b: &LinearExpression, e: &LinearExpression)
    requires a.terms@ == unit(v), a.constant@ == 0, b.same(e), exact_operand(e),
    ensures a.sum_fits(-1, b), b.sum_fits(-1, a),
{
    assert forall|k: u64| #![trigger b.coeff(k)] i128::MIN < b.coeff(k) && i128::MIN <= a.coeff(k) - b.coeff(k) <= i128::MAX by {
        assert(b.coeff(k) == e.coeff(k));
    }
    assert forall|k: u64| #![trigger a.coeff(k)] i128::MIN < a.coeff(k) && i128::MIN <= b.coeff(k) - a.coeff(k) <= i128::MAX by {
        assert(b.coeff(k) == e.coeff(k));
    }
}

/// A strict or non-strict comparison of two expressions.
fn strict_cmp(strict: bool, is_lt: bool, left: LinearExpression, right: LinearExpression) -> (r: LinearConstraint)
    ensures
        numeric_steps::lin_of(&r) == ordering(strict, is_lt, left.terms@, left.constant@, right.terms@, right.constant@),
        left.sum_fits(-1, &right) && right.sum_fits(-1, &left) ==>
            forall|env: Env| #[trigger] r.holds(env) == ordered(strict, is_lt, left.eval(env), right.eval(env)),
        forall|k: u64| #[trigger] r.expression.terms@.contains_key(k) ==> left.terms@.contains_key(k) || right.terms@.contains_key(k),
{
    match (is_lt, strict) {
        (true, true) => linear_constraint::lt(left, right),
        (true, false) => linear_constraint::leq(left, right),
        (false, true) => linear_constraint::gt(left, right),
        (false, false) => linear_constraint::geq(left, right),
    }
}

proof fn lemma_extended_small(iv: Interval, width: int)
    requires width == 32 || width == 64,
    ensures
        iv.sign_extend_spec(width).lb matches ExtendedNumber::Finite(n) && -0x1_0000_0000_0000_0000 <= n@ <= 0x1_0000_0000_0000_0000,
        iv.sign_extend_spec(width).ub matches ExtendedNumber::Finite(n) && -0x1_0000_0000_0000_0000 <= n@ <= 0x1_0000_0000_0000_0000,
        iv.zero_extend_spec(width).lb matches ExtendedNumber::Finite(n) && -0x1_0000_0000_0000_0000 <= n@ <= 0x1_0000_0000_0000_0000,
        iv.zero_extend_spec(width).ub matches ExtendedNumber::Finite(n) && -0x1_0000_0000_0000_0000 <= n@ <= 0x1_0000_0000_0000_0000,
{
    number::lemma_pow2_127();
    match (iv.lb, iv.ub) {
        (ExtendedNumber::Finite(l), ExtendedNumber::Finite(u)) => {
            number::lemma_wrap_range(l@, width);
            number::lemma_wrap_range(u@, width);
        },
        _ => {},
    }
}

/// Both ends are numbers of about sixty-four bits.
spec fn ends_small(iv: Interval) -> bool {
    &&& iv.lb matches ExtendedNumber::Finite(n) && -0x1_0000_0000_0000_0000 <= n@ <= 0x1_0000_0000_0000_0000
    &&& iv.ub matches ExtendedNumber::Finite(n) && -0x1_0000_0000_0000_0000 <= n@ <= 0x1_0000_0000_0000_0000
}

/// The number at the upper end of an interval.
pub open spec fn upper_number(iv: Interval) -> int {
    match iv.ub {
        ExtendedNumber::Finite(n) => n@,
        _ => 0,
    }
}

/// The number at the lower end of an interval.
pub open spec fn lower_number(iv: Interval) -> int {
    match iv.lb {
        ExtendedNumber::Finite(n) => n@,
        _ => 0,
    }
}

// ---------------------------------------------------------------------------------------------
// Bit tests
// ---------------------------------------------------------------------------------------------

/// A number that a register of sixty-four bits can hold.
pub open spec fn fits_register(n: int) -> bool {
    i64::MIN <= n <= u64::MAX
}

/// What a bit test of two known values says.
pub open spec fn bit_test_claims(op: ConditionOp, is64: bool, dst: Interval, src: Interval) -> Seq<Claim> {
    match (dst.singleton_spec(), src.singleton_spec()) {
        (Some(d), Some(s)) if fits_register(d@) && fits_register(s@) => {
            let a = number::wrap_unsigned(d@, 64) as u64;
            let b = number::wrap_unsigned(number::wrap_unsigned(s@, 64), if is64 { 64 } else { 32 }) as u64;
            seq![constantly((a & b != 0) == (op is SET))]
        },
        _ => seq![],
    }
}

/// The outcome of a bit test of two known values.
fn assume_bit_cst_interval(op: ConditionOp, is64: bool, dst_interval: &Interval, src_interval: &Interval, reg: &VariableRegistry) -> (r: Vec<LinearConstraint>)
    requires op is SET || op is NSET,
    ensures states(r@, bit_test_claims(op, is64, *dst_interval, *src_interval)), all_known(reg@, r@),
{
    let mut out = Claims::new(reg);
    if let Some(d) = dst_interval.singleton() {
        if let Some(s) = src_interval.singleton() {
            if (d.to_i64().is_some() || d.to_u64().is_some()) && (s.to_i64().is_some() || s.to_u64().is_some()) {
                proof {
                    number::lemma_wrap_range(d@, 64);
                    number::lemma_wrap_range(s@, 64);
                    number::lemma_wrap_range(number::wrap_unsigned(s@, 64), if is64 { 64 } else { 32 });
                    number::lemma_pow2_127();
                }
                let a: u64 = d.cast_to_unsigned_width(64).narrow_to_u64();
                let b: u64 = s.cast_to_unsigned_width(64).cast_to_unsigned_width(if is64 { 64 } else { 32 }).narrow_to_u64();
                let set: bool = a & b != 0;
                out.decide(set == matches!(op, ConditionOp::SET), reg);
                assert(out.said@ =~= bit_test_claims(op, is64, *dst_interval, *src_interval));
                return out.list;
            }
        }
    }
    out.list
}

// ---------------------------------------------------------------------------------------------
// Signed comparisons
// ---------------------------------------------------------------------------------------------

/// Equality with sixty-four bits.
pub open spec fn eq64_claims(s: u64, u: u64, right: Interval, rs: &LinearExpression, ru: &LinearExpression) -> Seq<Claim> {
    if right.included_spec(Interval::nonnegative_spec(64)) && right.lb != right.ub {
        seq![equals(s, rs), equals(u, ru), same_value(s, u)]
    } else {
        seq![equals(s, rs), equals(u, ru)]
    }
}

/// The number with the high bits of `base` and the low thirty-two bits of `low`.
pub open spec fn low_match(base: int, low: int) -> int {
    base - number::wrap_unsigned(base, 32) + number::wrap_unsigned(low, 32)
}

/// The smallest number from `lb` on with the low bits of `n`.
pub open spec fn match_above(lb: int, n: int) -> int {
    let m = low_match(lb, n);
    if m < lb { m + 0x1_0000_0000 } else { m }
}

/// The largest number up to `ub` with the low bits of `n`.
pub open spec fn match_below(ub: int, n: int) -> int {
    let m = low_match(ub, n);
    if m > ub { m - 0x1_0000_0000 } else { m }
}

/// Equality of the low thirty-two bits with a known value: the signed value lies between the first
/// and the last number of its interval with these bits.
pub open spec fn eq32_claims(s: u64, u: u64, left: Interval, right: Interval) -> Seq<Claim> {
    match (right.singleton_spec(), left.lb, left.ub) {
        (Some(rn), ExtendedNumber::Finite(l), ExtendedNumber::Finite(h)) => {
            let n = number::wrap_signed(rn@, 64);
            let a = match_above(l@, n);
            let b = match_below(h@, n);
            if !(i64::MIN <= l@ <= i64::MAX && i64::MIN <= h@ <= i64::MAX) || a > i64::MAX || b < i64::MIN {
                seq![]
            } else if number::wrap_unsigned(a, 64) <= number::wrap_unsigned(b, 64) {
                seq![
                    bounded(false, false, s, a), bounded(false, true, s, b),
                    bounded(false, false, u, number::wrap_unsigned(a, 64)), bounded(false, true, u, number::wrap_unsigned(b, 64)),
                ]
            } else {
                seq![bounded(false, false, s, a), bounded(false, true, s, b)]
            }
        },
        _ => seq![],
    }
}

/// The claims of an order on numbers that agree as signed and unsigned numbers, up to `top_end`.
pub open spec fn nonnegative_claims(strict: bool, is_lt: bool, s: u64, u: u64, rs: &LinearExpression, ru: &LinearExpression, top_end: int) -> Seq<Claim> {
    seq![
        bounded(false, false, s, 0),
        against(strict, is_lt, s, rs),
        related(false, true, s, u),
        related(false, false, s, u),
        bounded(false, false, u, 0),
        against(strict, is_lt, u, ru),
        bounded(false, true, u, top_end),
    ]
}

pub open spec fn slt64_claims(strict: bool, s: u64, u: u64, low: Interval, high: Interval, rs: &LinearExpression, ru: &LinearExpression, right: Interval) -> Seq<Claim> {
    if right.included_spec(Interval::negative_spec(64))
        || (high.join_spec(low).included_spec(Interval::nonnegative_spec(64)) && right.included_spec(Interval::nonnegative_spec(64))) {
        seq![against(strict, true, s, rs), bounded(false, false, u, 0), against(strict, true, u, ru)]
    } else {
        seq![against(strict, true, s, rs)]
    }
}

pub open spec fn slt32_claims(z: ZEdges, strict: bool, s: u64, u: u64, low: Interval, rs: &LinearExpression, ru: &LinearExpression) -> Seq<Claim> {
    let l = zone_model::zinterval(z, s);
    let r = zone_model::zeval(z, rs);
    if l.included_spec(Interval::signed_int_spec(32)) && r.included_spec(Interval::negative_spec(32)) {
        seq![bounded(true, false, u, i32::MAX as int), against(strict, true, u, ru), against(strict, true, s, rs)]
    } else if l.included_spec(Interval::nonnegative_spec(32)) && r.included_spec(Interval::nonnegative_spec(32)) {
        nonnegative_claims(strict, true, s, u, rs, ru, upper_number(low.sign_extend_spec(32)))
    } else if l.included_spec(Interval::signed_int_spec(32)) && r.included_spec(Interval::signed_int_spec(32)) {
        seq![against(strict, true, s, rs)]
    } else {
        seq![]
    }
}

pub open spec fn sgt64_claims(strict: bool, s: u64, u: u64, low: Interval, high: Interval, rs: &LinearExpression, ru: &LinearExpression, right: Interval) -> Seq<Claim> {
    if right.included_spec(Interval::nonnegative_spec(64)) {
        nonnegative_claims(strict, false, s, u, rs, ru, upper_number(low.sign_extend_spec(64)))
    } else if high.join_spec(low).included_spec(Interval::negative_spec(64)) && right.included_spec(Interval::negative_spec(64)) {
        seq![bounded(true, false, u, i64::MAX as int), against(strict, false, u, ru), against(strict, false, s, rs)]
    } else {
        seq![against(strict, false, s, rs)]
    }
}

pub open spec fn sgt32_claims(z: ZEdges, strict: bool, s: u64, u: u64, low: Interval, rs: &LinearExpression, ru: &LinearExpression) -> Seq<Claim> {
    let l = zone_model::zinterval(z, s);
    let r = zone_model::zeval(z, rs);
    if l.included_spec(Interval::signed_int_spec(32)) && r.included_spec(Interval::nonnegative_spec(32)) {
        nonnegative_claims(strict, false, s, u, rs, ru, upper_number(low.sign_extend_spec(32)))
    } else if l.included_spec(Interval::negative_spec(32)) && r.included_spec(Interval::negative_spec(32)) {
        seq![bounded(false, false, u, i32::MAX + 1), against(strict, false, u, ru), against(strict, false, s, rs)]
    } else if l.included_spec(Interval::signed_int_spec(32)) && r.included_spec(Interval::signed_int_spec(32)) {
        seq![against(strict, false, s, rs)]
    } else {
        seq![]
    }
}

/// No value of the left interval is ordered so against any of the right.
pub open spec fn order_fails(strict: bool, is_lt: bool, l: Interval, r: Interval) -> bool {
    if is_lt {
        if strict { r.ub.le_spec(l.lb) } else { r.ub.lt_spec(l.lb) }
    } else {
        if strict { l.ub.le_spec(r.lb) } else { l.ub.lt_spec(r.lb) }
    }
}

/// Every value of the left interval is ordered so against any of the right.
pub open spec fn order_certain(strict: bool, is_lt: bool, l: Interval, r: Interval) -> bool {
    if is_lt {
        if strict { l.ub.lt_spec(r.lb) } else { l.ub.le_spec(r.lb) }
    } else {
        if strict { r.ub.lt_spec(l.lb) } else { r.ub.le_spec(l.lb) }
    }
}

/// What a signed comparison says.
pub open spec fn signed_claims(z: ZEdges, op: ConditionOp, is64: bool, s: u64, u: u64, rs: &LinearExpression, ru: &LinearExpression) -> Seq<Claim> {
    let sp = finite_domain::signed_split(z, is64, s, u, zone_model::zeval(z, rs));
    let is_lt = op is SLT || op is SLE;
    let strict = op is SLT || op is SGT;
    if op is EQ {
        if is64 { eq64_claims(s, u, sp.right, rs, ru) } else { eq32_claims(s, u, zone_model::zinterval(z, s), sp.right) }
    } else if order_fails(strict, is_lt, sp.left, sp.right) {
        seq![constantly(false)]
    } else if order_certain(strict, is_lt, sp.left, sp.right) {
        seq![constantly(true)]
    } else if is64 {
        if is_lt { slt64_claims(strict, s, u, sp.low, sp.high, rs, ru, sp.right) } else { sgt64_claims(strict, s, u, sp.low, sp.high, rs, ru, sp.right) }
    } else {
        if is_lt { slt32_claims(z, strict, s, u, sp.low, rs, ru) } else { sgt32_claims(z, strict, s, u, sp.low, rs, ru) }
    }
}

fn fails(strict: bool, is_lt: bool, l: &Interval, r: &Interval) -> (b: bool)
    ensures b == order_fails(strict, is_lt, *l, *r),
{
    if is_lt {
        if strict { r.ub.le(&l.lb) } else { r.ub.lt(&l.lb) }
    } else {
        if strict { l.ub.le(&r.lb) } else { l.ub.lt(&r.lb) }
    }
}

fn certain(strict: bool, is_lt: bool, l: &Interval, r: &Interval) -> (b: bool)
    ensures b == order_certain(strict, is_lt, *l, *r),
{
    if is_lt {
        if strict { l.ub.lt(&r.lb) } else { l.ub.le(&r.lb) }
    } else {
        if strict { r.ub.lt(&l.lb) } else { r.ub.le(&l.lb) }
    }
}

/// What a comparison of registers needs: registered variables.
pub open spec fn comparable(reg: RegistryView, s: Variable, u: Variable, rs: &LinearExpression, ru: &LinearExpression) -> bool {
    &&& reg.knows(s)
    &&& reg.knows(u)
    &&& zone_domain::knows_terms(reg, rs.terms@)
    &&& zone_domain::knows_terms(reg, ru.terms@)
}

impl FiniteDomain {
    fn assume_signed_64bit_eq(&self, s: Variable, u: Variable, right: &Interval, rs: &LinearExpression, ru: &LinearExpression, reg: &VariableRegistry) -> (r: Vec<LinearConstraint>)
        requires comparable(reg@, s, u, rs, ru),
        ensures states(r@, eq64_claims(s.id, u.id, *right, rs, ru)), all_known(reg@, r@),
    {
        let mut out = Claims::new(reg);
        out.equate(s, rs, reg);
        out.equate(u, ru, reg);
        if right.is_included_in(&Interval::nonnegative(64)) && !right.is_singleton() {
            out.equate_variables(s, u, reg);
        }
        assert(out.said@ =~= eq64_claims(s.id, u.id, *right, rs, ru));
        out.list
    }

    fn assume_signed_32bit_eq(&self, s: Variable, u: Variable, right: &Interval, reg: &VariableRegistry) -> (r: Vec<LinearConstraint>)
        requires self.wf(), reg@.knows(s), reg@.knows(u),
        ensures states(r@, eq32_claims(s.id, u.id, zone_model::zinterval(self.z(), s.id), *right)), all_known(reg@, r@),
    {
        let mut out = Claims::new(reg);
        let left = self.eval_interval(s, reg);
        if let Some(rn) = right.singleton() {
            if let (ExtendedNumber::Finite(l), ExtendedNumber::Finite(h)) = (left.lb, left.ub) {
                if l.to_i64().is_some() && h.to_i64().is_some() {
                    let n: Number = rn.cast_to_signed_width(64);
                    proof {
                        number::lemma_pow2_127();
                        number::lemma_wrap_range(l@, 32);
                        number::lemma_wrap_range(h@, 32);
                        number::lemma_wrap_range(n@, 32);
                    }
                    let low: i128 = n.cast_to_unsigned_width(32).n;
                    let mut a: i128 = l.n - l.cast_to_unsigned_width(32).n + low;
                    if a < l.n {
                        a = a + 0x1_0000_0000;
                    }
                    let mut b: i128 = h.n - h.cast_to_unsigned_width(32).n + low;
                    if b > h.n {
                        b = b - 0x1_0000_0000;
                    }
                    if a > i64::MAX as i128 || b < i64::MIN as i128 {
                        return out.list;
                    }
                    let au: Number = Number::of(a).cast_to_unsigned_width(64);
                    let bu: Number = Number::of(b).cast_to_unsigned_width(64);
                    proof {
                        number::lemma_wrap_range(a as int, 64);
                        number::lemma_wrap_range(b as int, 64);
                    }
                    out.bound(false, false, s, Number::of(a), reg);
                    out.bound(false, true, s, Number::of(b), reg);
                    if au.le(bu) {
                        out.bound(false, false, u, au, reg);
                        out.bound(false, true, u, bu, reg);
                    }
                    assert(out.said@ =~= eq32_claims(s.id, u.id, zone_model::zinterval(self.z(), s.id), *right));
                    return out.list;
                }
            }
        }
        out.list
    }

    fn assume_signed_64bit_lt(&self, strict: bool, s: Variable, u: Variable, low: &Interval, high: &Interval, rs: &LinearExpression, ru: &LinearExpression, right: &Interval, reg: &VariableRegistry) -> (r: Vec<LinearConstraint>)
        requires comparable(reg@, s, u, rs, ru),
        ensures states(r@, slt64_claims(strict, s.id, u.id, *low, *high, rs, ru, *right)), all_known(reg@, r@),
    {
        let mut out = Claims::new(reg);
        out.order(strict, true, s, rs, reg);
        if right.is_included_in(&Interval::negative(64))
            || (high.join(low).is_included_in(&Interval::nonnegative(64)) && right.is_included_in(&Interval::nonnegative(64)))
        {
            out.bound(false, false, u, Number::of(0), reg);
            out.order(strict, true, u, ru, reg);
        }
        assert(out.said@ =~= slt64_claims(strict, s.id, u.id, *low, *high, rs, ru, *right));
        out.list
    }

    fn nonnegative_list(&self, strict: bool, is_lt: bool, s: Variable, u: Variable, rs: &LinearExpression, ru: &LinearExpression, top_end: Number, reg: &VariableRegistry) -> (r: Vec<LinearConstraint>)
        requires comparable(reg@, s, u, rs, ru), small_number(top_end@),
        ensures states(r@, nonnegative_claims(strict, is_lt, s.id, u.id, rs, ru, top_end@)), all_known(reg@, r@),
    {
        let mut out = Claims::new(reg);
        out.bound(false, false, s, Number::of(0), reg);
        out.order(strict, is_lt, s, rs, reg);
        out.order_variables(false, true, s, u, reg);
        out.order_variables(false, false, s, u, reg);
        out.bound(false, false, u, Number::of(0), reg);
        out.order(strict, is_lt, u, ru, reg);
        out.bound(false, true, u, top_end, reg);
        assert(out.said@ =~= nonnegative_claims(strict, is_lt, s.id, u.id, rs, ru, top_end@));
        out.list
    }

    fn assume_signed_32bit_lt(&self, strict: bool, s: Variable, u: Variable, low: &Interval, rs: &LinearExpression, ru: &LinearExpression, reg: &VariableRegistry) -> (r: Vec<LinearConstraint>)
        requires self.wf(), comparable(reg@, s, u, rs, ru),
        ensures states(r@, slt32_claims(self.z(), strict, s.id, u.id, *low, rs, ru)), all_known(reg@, r@),
    {
        let l = self.eval_interval(s, reg);
        let r = self.eval_interval_expr(rs, reg);
        let mut out = Claims::new(reg);
        if l.is_included_in(&Interval::signed_int(32)) && r.is_included_in(&Interval::negative(32)) {
            out.bound(true, false, u, Number::of(i32::MAX as i128), reg);
            out.order(strict, true, u, ru, reg);
            out.order(strict, true, s, rs, reg);
        } else if l.is_included_in(&Interval::nonnegative(32)) && r.is_included_in(&Interval::nonnegative(32)) {
            let t = low.truncate_to_signed(32);
            proof { lemma_extended_small(*low, 32); }
            let top_end: Number = t.ub.number().unwrap();
            return self.nonnegative_list(strict, true, s, u, rs, ru, top_end, reg);
        } else if l.is_included_in(&Interval::signed_int(32)) && r.is_included_in(&Interval::signed_int(32)) {
            out.order(strict, true, s, rs, reg);
        }
        assert(out.said@ =~= slt32_claims(self.z(), strict, s.id, u.id, *low, rs, ru));
        out.list
    }

    fn assume_signed_64bit_gt(&self, strict: bool, s: Variable, u: Variable, low: &Interval, high: &Interval, rs: &LinearExpression, ru: &LinearExpression, right: &Interval, reg: &VariableRegistry) -> (r: Vec<LinearConstraint>)
        requires comparable(reg@, s, u, rs, ru),
        ensures states(r@, sgt64_claims(strict, s.id, u.id, *low, *high, rs, ru, *right)), all_known(reg@, r@),
    {
        let mut out = Claims::new(reg);
        if right.is_included_in(&Interval::nonnegative(64)) {
            let t = low.truncate_to_signed(64);
            proof { lemma_extended_small(*low, 64); }
            let top_end: Number = t.ub.number().unwrap();
            return self.nonnegative_list(strict, false, s, u, rs, ru, top_end, reg);
        }
        if high.join(low).is_included_in(&Interval::negative(64)) && right.is_included_in(&Interval::negative(64)) {
            out.bound(true, false, u, Number::of(i64::MAX as i128), reg);
            out.order(strict, false, u, ru, reg);
        }
        out.order(strict, false, s, rs, reg);
        assert(out.said@ =~= sgt64_claims(strict, s.id, u.id, *low, *high, rs, ru, *right));
        out.list
    }

    fn assume_signed_32bit_gt(&self, strict: bool, s: Variable, u: Variable, low: &Interval, rs: &LinearExpression, ru: &LinearExpression, reg: &VariableRegistry) -> (r: Vec<LinearConstraint>)
        requires self.wf(), comparable(reg@, s, u, rs, ru),
        ensures states(r@, sgt32_claims(self.z(), strict, s.id, u.id, *low, rs, ru)), all_known(reg@, r@),
    {
        let l = self.eval_interval(s, reg);
        let r = self.eval_interval_expr(rs, reg);
        let mut out = Claims::new(reg);
        if l.is_included_in(&Interval::signed_int(32)) && r.is_included_in(&Interval::nonnegative(32)) {
            let t = low.truncate_to_signed(32);
            proof { lemma_extended_small(*low, 32); }
            let top_end: Number = t.ub.number().unwrap();
            return self.nonnegative_list(strict, false, s, u, rs, ru, top_end, reg);
        } else if l.is_included_in(&Interval::negative(32)) && r.is_included_in(&Interval::negative(32)) {
            out.bound(false, false, u, Number::of(i32::MAX as i128 + 1), reg);
            out.order(strict, false, u, ru, reg);
            out.order(strict, false, s, rs, reg);
        } else if l.is_included_in(&Interval::signed_int(32)) && r.is_included_in(&Interval::signed_int(32)) {
            out.order(strict, false, s, rs, reg);
        }
        assert(out.said@ =~= sgt32_claims(self.z(), strict, s.id, u.id, *low, rs, ru));
        out.list
    }

    /// The constraints that follow from a signed comparison or an equality.
    pub fn assume_signed_cst_interval(&self, op: ConditionOp, is64: bool, left_svalue: Variable, left_uvalue: Variable, right_svalue: &LinearExpression, right_uvalue: &LinearExpression, reg: &VariableRegistry) -> (r: Vec<LinearConstraint>)
        requires self.wf(), comparable(reg@, left_svalue, left_uvalue, right_svalue, right_uvalue),
        ensures
            states(r@, signed_claims(self.z(), op, is64, left_svalue.id, left_uvalue.id, right_svalue, right_uvalue)),
            all_known(reg@, r@),
    {
        let (left, right, low, high) = self.get_signed_intervals(is64, left_svalue, left_uvalue, right_svalue, reg);
        if matches!(op, ConditionOp::EQ) {
            return if is64 {
                self.assume_signed_64bit_eq(left_svalue, left_uvalue, &right, right_svalue, right_uvalue, reg)
            } else {
                self.assume_signed_32bit_eq(left_svalue, left_uvalue, &right, reg)
            };
        }
        let is_lt: bool = matches!(op, ConditionOp::SLT | ConditionOp::SLE);
        let strict: bool = matches!(op, ConditionOp::SLT | ConditionOp::SGT);
        let mut out = Claims::new(reg);
        if fails(strict, is_lt, &left, &right) {
            out.decide(false, reg);
            assert(out.said@ =~= seq![constantly(false)]);
            return out.list;
        }
        if certain(strict, is_lt, &left, &right) {
            out.decide(true, reg);
            assert(out.said@ =~= seq![constantly(true)]);
            return out.list;
        }
        if is64 {
            if is_lt {
                self.assume_signed_64bit_lt(strict, left_svalue, left_uvalue, &low, &high, right_svalue, right_uvalue, &right, reg)
            } else {
                self.assume_signed_64bit_gt(strict, left_svalue, left_uvalue, &low, &high, right_svalue, right_uvalue, &right, reg)
            }
        } else if is_lt {
            self.assume_signed_32bit_lt(strict, left_svalue, left_uvalue, &low, right_svalue, right_uvalue, reg)
        } else {
            self.assume_signed_32bit_gt(strict, left_svalue, left_uvalue, &low, right_svalue, right_uvalue, reg)
        }
    }
}

// ---------------------------------------------------------------------------------------------
// Unsigned comparisons
// ---------------------------------------------------------------------------------------------

/// The claims that the left value is a nonnegative signed number, `order` being how it compares.
pub open spec fn low_half_claims(order: Claim, s: u64, u: u64, left_s: Interval) -> Seq<Claim> {
    match left_s.ub {
        ExtendedNumber::Finite(n) => seq![bounded(false, false, u, 0), order, bounded(false, true, u, -number::saturate(-n@)), bounded(false, false, s, 0)],
        _ => seq![bounded(false, false, u, 0), order, bounded(false, false, s, 0)],
    }
}

pub open spec fn ult64_claims(z: ZEdges, strict: bool, s: u64, u: u64, low: Interval, high: Interval, rs: &LinearExpression, ru: &LinearExpression, right: Interval) -> Seq<Claim> {
    let left_s = zone_model::zinterval(z, s);
    if right.included_spec(Interval::nonnegative_spec(64)) && order_fails(strict, true, low.zero_extend_spec(64), right) {
        low_half_claims(against(strict, true, u, ru), s, u, left_s)
    } else if right.included_spec(Interval::unsigned_high_spec(64)) && order_fails(strict, true, high.zero_extend_spec(64), right) {
        low_half_claims(bounded(strict, true, u, upper_number(right)), s, u, left_s)
    } else if right.included_spec(Interval::signed_int_spec(64)) {
        seq![
            bounded(false, false, u, 0), against(strict, true, u, ru), bounded(false, true, u, upper_number(low.zero_extend_spec(64))),
            bounded(false, false, s, 0), against(strict, true, s, rs),
        ]
    } else if low.is_empty_spec() && right.included_spec(Interval::unsigned_high_spec(64)) {
        seq![bounded(false, false, u, 0), against(strict, true, u, ru), against(strict, true, s, rs)]
    } else if low.join_spec(high).same(Interval::unsigned_int_spec(64)) {
        seq![against(strict, true, u, ru)]
    } else {
        seq![bounded(false, false, u, 0), against(strict, true, u, ru)]
    }
}

pub open spec fn ult32_claims(z: ZEdges, strict: bool, s: u64, u: u64, rs: &LinearExpression, ru: &LinearExpression) -> Seq<Claim> {
    let both = seq![bounded(false, false, u, 0), against(strict, true, u, ru), against(strict, true, s, rs)];
    if zone_model::zinterval(z, u).included_spec(Interval::nonnegative_spec(32)) && zone_model::zeval(z, ru).included_spec(Interval::nonnegative_spec(32)) {
        both
    } else if zone_model::zinterval(z, s).included_spec(Interval::negative_spec(32)) && zone_model::zeval(z, rs).included_spec(Interval::negative_spec(32)) {
        both
    } else if zone_model::zinterval(z, u).included_spec(Interval::unsigned_int_spec(32)) && zone_model::zeval(z, ru).included_spec(Interval::unsigned_int_spec(32)) {
        seq![bounded(false, false, u, 0), against(strict, true, u, ru)]
    } else {
        seq![]
    }
}

pub open spec fn ugt64_claims(strict: bool, s: u64, u: u64, low: Interval, high: Interval, rs: &LinearExpression, ru: &LinearExpression, right: Interval) -> Seq<Claim> {
    let first_high = lower_number(high.zero_extend_spec(64));
    if right.included_spec(Interval::nonnegative_spec(64)) && order_fails(strict, false, low.zero_extend_spec(64), right) {
        seq![
            against(strict, false, u, ru),
            if first_high == u64::MAX { is_number(u, first_high) } else { bounded(false, false, u, first_high) },
            bounded(true, true, s, 0),
        ]
    } else if right.included_spec(Interval::unsigned_high_spec(64))
        || (low.join_spec(high).included_spec(Interval::nonnegative_spec(64)) && right.included_spec(Interval::nonnegative_spec(64))) {
        seq![bounded(false, false, u, 0), against(strict, false, u, ru), against(strict, false, s, rs)]
    } else {
        seq![bounded(false, false, u, 0), against(strict, false, u, ru)]
    }
}

pub open spec fn ugt32_claims(z: ZEdges, strict: bool, s: u64, u: u64, rs: &LinearExpression, ru: &LinearExpression) -> Seq<Claim> {
    if zone_model::zinterval(z, s).included_spec(Interval::signed_int_spec(32)) && zone_model::zeval(z, rs).included_spec(Interval::negative_spec(32)) {
        seq![bounded(false, false, u, 0), against(strict, false, u, ru), against(strict, false, s, rs)]
    } else if zone_model::zinterval(z, u).included_spec(Interval::unsigned_int_spec(32)) && zone_model::zeval(z, ru).included_spec(Interval::unsigned_int_spec(32)) {
        seq![bounded(false, false, u, 0), against(strict, false, u, ru)]
    } else {
        seq![]
    }
}

/// What an unsigned order with a right interval says.
pub open spec fn unsigned_order_claims(z: ZEdges, strict: bool, is_lt: bool, is64: bool, s: u64, u: u64, sp: finite_domain::Split, right: Interval, rs: &LinearExpression, ru: &LinearExpression) -> Seq<Claim> {
    if order_fails(strict, is_lt, sp.left, right) {
        seq![constantly(false)]
    } else if order_certain(strict, is_lt, sp.left, right) {
        if is64 { seq![against(strict, is_lt, u, ru)] } else { seq![] }
    } else if is64 {
        if is_lt { ult64_claims(z, strict, s, u, sp.low, sp.high, rs, ru, right) } else { ugt64_claims(strict, s, u, sp.low, sp.high, rs, ru, right) }
    } else {
        if is_lt { ult32_claims(z, strict, s, u, rs, ru) } else { ugt32_claims(z, strict, s, u, rs, ru) }
    }
}

/// What an unsigned comparison or a disequality says. A disequality says something only where the
/// right value is known and an end of the left interval: it is then a strict order.
pub open spec fn unsigned_claims(z: ZEdges, op: ConditionOp, is64: bool, s: u64, u: u64, rs: &LinearExpression, ru: &LinearExpression) -> Seq<Claim> {
    let sp = finite_domain::unsigned_split(z, is64, s, u, zone_model::zeval(z, ru));
    if op is NE {
        match sp.right.singleton_spec() {
            Some(n) =>
                if sp.left.zero_extend_spec(if is64 { 64 } else { 32 }).lb == ExtendedNumber::Finite(n) {
                    unsigned_order_claims(z, true, false, is64, s, u, sp, Interval::of_bounds(sp.left.lb, sp.left.lb), rs, ru)
                } else if sp.left.ub == ExtendedNumber::Finite(n) {
                    unsigned_order_claims(z, true, true, is64, s, u, sp, Interval::of_bounds(sp.left.ub, sp.left.ub), rs, ru)
                } else {
                    seq![]
                },
            None => seq![],
        }
    } else {
        unsigned_order_claims(z, op is LT || op is GT, op is LT || op is LE, is64, s, u, sp, sp.right, rs, ru)
    }
}

impl FiniteDomain {
    fn assume_unsigned_64bit_lt(&self, strict: bool, s: Variable, u: Variable, low: &Interval, high: &Interval, rs: &LinearExpression, ru: &LinearExpression, right: &Interval, reg: &VariableRegistry) -> (r: Vec<LinearConstraint>)
        requires self.wf(), comparable(reg@, s, u, rs, ru), ends_small(*right),
        ensures states(r@, ult64_claims(self.z(), strict, s.id, u.id, *low, *high, rs, ru, *right)), all_known(reg@, r@),
    {
        let ghost want = ult64_claims(self.z(), strict, s.id, u.id, *low, *high, rs, ru, *right);
        let mut out = Claims::new(reg);
        let left_s = self.eval_interval(s, reg);
        let low64 = low.truncate_to_unsigned(64);
        let high64 = high.truncate_to_unsigned(64);
        proof {
            lemma_extended_small(*low, 64);
            lemma_extended_small(*high, 64);
        }
        if right.is_included_in(&Interval::nonnegative(64)) && fails(strict, true, &low64, right) {
            out.bound(false, false, u, Number::of(0), reg);
            out.order(strict, true, u, ru, reg);
            if let ExtendedNumber::Finite(n) = left_s.ub {
                out.at_most(u, n, reg);
            }
            out.bound(false, false, s, Number::of(0), reg);
            assert(out.said@ =~= want);
            return out.list;
        }
        if right.is_included_in(&Interval::unsigned_high(64)) && fails(strict, true, &high64, right) {
            let n: Number = right.ub.number().unwrap();
            out.bound(false, false, u, Number::of(0), reg);
            out.bound(strict, true, u, n, reg);
            if let ExtendedNumber::Finite(n) = left_s.ub {
                out.at_most(u, n, reg);
            }
            out.bound(false, false, s, Number::of(0), reg);
            assert(out.said@ =~= want);
            return out.list;
        }
        if right.is_included_in(&Interval::signed_int(64)) {
            let top_end: Number = low64.ub.number().unwrap();
            out.bound(false, false, u, Number::of(0), reg);
            out.order(strict, true, u, ru, reg);
            out.bound(false, true, u, top_end, reg);
            out.bound(false, false, s, Number::of(0), reg);
            out.order(strict, true, s, rs, reg);
            assert(out.said@ =~= want);
            return out.list;
        }
        if low.is_bottom() && right.is_included_in(&Interval::unsigned_high(64)) {
            out.bound(false, false, u, Number::of(0), reg);
            out.order(strict, true, u, ru, reg);
            out.order(strict, true, s, rs, reg);
            assert(out.said@ =~= want);
            return out.list;
        }
        if !(low.join(high) == Interval::unsigned_int(64)) {
            out.bound(false, false, u, Number::of(0), reg);
        }
        out.order(strict, true, u, ru, reg);
        assert(out.said@ =~= want);
        out.list
    }

    fn assume_unsigned_32bit_lt(&self, strict: bool, s: Variable, u: Variable, rs: &LinearExpression, ru: &LinearExpression, reg: &VariableRegistry) -> (r: Vec<LinearConstraint>)
        requires self.wf(), comparable(reg@, s, u, rs, ru),
        ensures states(r@, ult32_claims(self.z(), strict, s.id, u.id, rs, ru)), all_known(reg@, r@),
    {
        let mut out = Claims::new(reg);
        if (self.eval_interval(u, reg).is_included_in(&Interval::nonnegative(32)) && self.eval_interval_expr(ru, reg).is_included_in(&Interval::nonnegative(32)))
            || (self.eval_interval(s, reg).is_included_in(&Interval::negative(32)) && self.eval_interval_expr(rs, reg).is_included_in(&Interval::negative(32)))
        {
            out.bound(false, false, u, Number::of(0), reg);
            out.order(strict, true, u, ru, reg);
            out.order(strict, true, s, rs, reg);
        } else if self.eval_interval(u, reg).is_included_in(&Interval::unsigned_int(32)) && self.eval_interval_expr(ru, reg).is_included_in(&Interval::unsigned_int(32)) {
            out.bound(false, false, u, Number::of(0), reg);
            out.order(strict, true, u, ru, reg);
        }
        assert(out.said@ =~= ult32_claims(self.z(), strict, s.id, u.id, rs, ru));
        out.list
    }

    fn assume_unsigned_64bit_gt(&self, strict: bool, s: Variable, u: Variable, low: &Interval, high: &Interval, rs: &LinearExpression, ru: &LinearExpression, right: &Interval, reg: &VariableRegistry) -> (r: Vec<LinearConstraint>)
        requires comparable(reg@, s, u, rs, ru),
        ensures states(r@, ugt64_claims(strict, s.id, u.id, *low, *high, rs, ru, *right)), all_known(reg@, r@),
    {
        let ghost want = ugt64_claims(strict, s.id, u.id, *low, *high, rs, ru, *right);
        let mut out = Claims::new(reg);
        let low64 = low.truncate_to_unsigned(64);
        let high64 = high.truncate_to_unsigned(64);
        proof {
            lemma_extended_small(*low, 64);
            lemma_extended_small(*high, 64);
        }
        if right.is_included_in(&Interval::nonnegative(64)) && fails(strict, false, &low64, right) {
            let n: Number = high64.lb.number().unwrap();
            out.order(strict, false, u, ru, reg);
            if n.n == u64::MAX as i128 {
                out.equate_number(u, n, reg);
            } else {
                out.bound(false, false, u, n, reg);
            }
            out.bound(true, true, s, Number::of(0), reg);
            assert(out.said@ =~= want);
            return out.list;
        }
        out.bound(false, false, u, Number::of(0), reg);
        out.order(strict, false, u, ru, reg);
        if right.is_included_in(&Interval::unsigned_high(64))
            || (low.join(high).is_included_in(&Interval::nonnegative(64)) && right.is_included_in(&Interval::nonnegative(64)))
        {
            out.order(strict, false, s, rs, reg);
        }
        assert(out.said@ =~= want);
        out.list
    }

    fn assume_unsigned_32bit_gt(&self, strict: bool, s: Variable, u: Variable, rs: &LinearExpression, ru: &LinearExpression, reg: &VariableRegistry) -> (r: Vec<LinearConstraint>)
        requires self.wf(), comparable(reg@, s, u, rs, ru),
        ensures states(r@, ugt32_claims(self.z(), strict, s.id, u.id, rs, ru)), all_known(reg@, r@),
    {
        let mut out = Claims::new(reg);
        if self.eval_interval(s, reg).is_included_in(&Interval::signed_int(32)) && self.eval_interval_expr(rs, reg).is_included_in(&Interval::negative(32)) {
            out.bound(false, false, u, Number::of(0), reg);
            out.order(strict, false, u, ru, reg);
            out.order(strict, false, s, rs, reg);
        } else if self.eval_interval(u, reg).is_included_in(&Interval::unsigned_int(32)) && self.eval_interval_expr(ru, reg).is_included_in(&Interval::unsigned_int(32)) {
            out.bound(false, false, u, Number::of(0), reg);
            out.order(strict, false, u, ru, reg);
        }
        assert(out.said@ =~= ugt32_claims(self.z(), strict, s.id, u.id, rs, ru));
        out.list
    }

    /// The constraints that follow from an unsigned comparison or a disequality.
    pub fn assume_unsigned_cst_interval(&self, op: ConditionOp, is64: bool, left_svalue: Variable, left_uvalue: Variable, right_svalue: &LinearExpression, right_uvalue: &LinearExpression, reg: &VariableRegistry) -> (r: Vec<LinearConstraint>)
        requires self.wf(), comparable(reg@, left_svalue, left_uvalue, right_svalue, right_uvalue),
        ensures
            states(r@, unsigned_claims(self.z(), op, is64, left_svalue.id, left_uvalue.id, right_svalue, right_uvalue)),
            all_known(reg@, r@),
    {
        let (left, first_right, low, high) = self.get_unsigned_intervals(is64, left_svalue, left_uvalue, right_uvalue, reg);
        let mut right = first_right;
        let mut is_lt: bool = matches!(op, ConditionOp::LT | ConditionOp::LE);
        let mut strict: bool = matches!(op, ConditionOp::LT | ConditionOp::GT);
        proof { lemma_split_small(self.z(), is64, left_svalue.id, left_uvalue.id, zone_model::zeval(self.z(), right_uvalue)); }
        let mut out = Claims::new(reg);
        if matches!(op, ConditionOp::NE) {
            match right.singleton() {
                Some(n) => {
                    let ze = left.zero_extend(if is64 { 64 } else { 32 });
                    let at_low: bool = match ze.lb {
                        ExtendedNumber::Finite(l) => l.n == n.n,
                        _ => false,
                    };
                    let at_high: bool = match left.ub {
                        ExtendedNumber::Finite(h) => h.n == n.n,
                        _ => false,
                    };
                    if at_low {
                        is_lt = false;
                        strict = true;
                        right = Interval::new(left.lb, left.lb);
                    } else if at_high {
                        is_lt = true;
                        strict = true;
                        right = Interval::new(left.ub, left.ub);
                    } else {
                        return out.list;
                    }
                }
                None => {
                    return out.list;
                }
            }
        }
        if fails(strict, is_lt, &left, &right) {
            out.decide(false, reg);
            assert(out.said@ =~= seq![constantly(false)]);
            return out.list;
        }
        if certain(strict, is_lt, &left, &right) {
            if is64 {
                out.order(strict, is_lt, left_uvalue, right_uvalue, reg);
                assert(out.said@ =~= seq![against(strict, is_lt, left_uvalue.id, right_uvalue)]);
            }
            return out.list;
        }
        if is64 {
            if is_lt {
                self.assume_unsigned_64bit_lt(strict, left_svalue, left_uvalue, &low, &high, right_svalue, right_uvalue, &right, reg)
            } else {
                self.assume_unsigned_64bit_gt(strict, left_svalue, left_uvalue, &low, &high, right_svalue, right_uvalue, &right, reg)
            }
        } else if is_lt {
            self.assume_unsigned_32bit_lt(strict, left_svalue, left_uvalue, right_svalue, right_uvalue, reg)
        } else {
            self.assume_unsigned_32bit_gt(strict, left_svalue, left_uvalue, right_svalue, right_uvalue, reg)
        }
    }

    /// The constraints that follow from a comparison with an immediate.
    pub fn assume_cst_imm(&self, op: ConditionOp, is64: bool, dst_svalue: Variable, dst_uvalue: Variable, imm: i64, reg: &VariableRegistry) -> (r: Vec<LinearConstraint>)
        requires self.wf(), reg@.knows(dst_svalue), reg@.knows(dst_uvalue),
        ensures
            all_known(reg@, r@),
            exists|rs: LinearExpression, ru: LinearExpression| #![trigger is_constant(&rs, imm as int), is_constant(&ru, imm as u64 as int)]
                is_constant(&rs, imm as int) && is_constant(&ru, imm as u64 as int)
                && states(r@, immediate_claims(self.z(), op, is64, dst_svalue.id, dst_uvalue.id, imm, &rs, &ru)),
    {
        let rs = LinearExpression::from_i64(imm);
        let ru = LinearExpression::from_number(Number::of(imm as u64 as i128));
        assert(is_constant(&rs, imm as int));
        assert(is_constant(&ru, imm as u64 as int));
        assert(zone_domain::knows_terms(reg@, rs.terms@));
        assert(zone_domain::knows_terms(reg@, ru.terms@));
        match op {
            ConditionOp::EQ | ConditionOp::SGE | ConditionOp::SLE | ConditionOp::SGT | ConditionOp::SLT =>
                self.assume_signed_cst_interval(op, is64, dst_svalue, dst_uvalue, &rs, &ru, reg),
            ConditionOp::SET | ConditionOp::NSET =>
                assume_bit_cst_interval(op, is64, &self.eval_interval(dst_uvalue, reg), &Interval::from_i64(imm), reg),
            ConditionOp::NE | ConditionOp::GE | ConditionOp::LE | ConditionOp::GT | ConditionOp::LT =>
                self.assume_unsigned_cst_interval(op, is64, dst_svalue, dst_uvalue, &rs, &ru, reg),
        }
    }

    /// The constraints that follow from a comparison of two registers.
    pub fn assume_cst_reg(&self, op: ConditionOp, is64: bool, dst_svalue: Variable, dst_uvalue: Variable, src_svalue: Variable, src_uvalue: Variable, reg: &VariableRegistry) -> (r: Vec<LinearConstraint>)
        requires self.wf(), reg@.knows(dst_svalue), reg@.knows(dst_uvalue), reg@.knows(src_svalue), reg@.knows(src_uvalue),
        ensures
            all_known(reg@, r@),
            exists|rs: LinearExpression, ru: LinearExpression| #![trigger zone_domain::is_variable(&rs, src_svalue.id), zone_domain::is_variable(&ru, src_uvalue.id)]
                zone_domain::is_variable(&rs, src_svalue.id) && zone_domain::is_variable(&ru, src_uvalue.id)
                && states(r@, register_claims(self.z(), op, is64, dst_svalue.id, dst_uvalue.id, src_svalue.id, src_uvalue.id, &rs, &ru)),
    {
        let rs = LinearExpression::from_variable(src_svalue);
        let ru = LinearExpression::from_variable(src_uvalue);
        assert(zone_domain::is_variable(&rs, src_svalue.id));
        assert(zone_domain::is_variable(&ru, src_uvalue.id));
        assert(zone_domain::knows_terms(reg@, rs.terms@));
        assert(zone_domain::knows_terms(reg@, ru.terms@));
        let ghost want = register_claims(self.z(), op, is64, dst_svalue.id, dst_uvalue.id, src_svalue.id, src_uvalue.id, &rs, &ru);
        let mut out = Claims::new(reg);
        match op {
            ConditionOp::SET | ConditionOp::NSET =>
                assume_bit_cst_interval(op, is64, &self.eval_interval(dst_uvalue, reg), &self.eval_interval(src_uvalue, reg), reg),
            ConditionOp::EQ => {
                if is64 {
                    let src_interval = self.eval_interval(src_svalue, reg);
                    out.equate_variables(dst_svalue, src_svalue, reg);
                    out.equate_variables(dst_uvalue, src_uvalue, reg);
                    if !src_interval.is_singleton() && src_interval.is_included_in(&Interval::nonnegative(64)) {
                        out.equate_variables(dst_svalue, dst_uvalue, reg);
                    }
                    assert(out.said@ =~= want);
                    out.list
                } else {
                    self.assume_signed_cst_interval(op, is64, dst_svalue, dst_uvalue, &rs, &ru, reg)
                }
            }
            ConditionOp::NE => {
                if is64 {
                    out.distinguish(dst_svalue, src_svalue, reg);
                    assert(out.said@ =~= want);
                    out.list
                } else {
                    self.assume_unsigned_cst_interval(op, is64, dst_svalue, dst_uvalue, &rs, &ru, reg)
                }
            }
            ConditionOp::SGE | ConditionOp::SLE | ConditionOp::SGT | ConditionOp::SLT => {
                if is64 {
                    let is_lt: bool = matches!(op, ConditionOp::SLT | ConditionOp::SLE);
                    let strict: bool = matches!(op, ConditionOp::SLT | ConditionOp::SGT);
                    out.order_variables(strict, is_lt, dst_svalue, src_svalue, reg);
                    assert(out.said@ =~= want);
                    out.list
                } else {
                    self.assume_signed_cst_interval(op, is64, dst_svalue, dst_uvalue, &rs, &ru, reg)
                }
            }
            ConditionOp::GE | ConditionOp::LE | ConditionOp::GT | ConditionOp::LT =>
                self.assume_unsigned_cst_interval(op, is64, dst_svalue, dst_uvalue, &rs, &ru, reg),
        }
    }
}

/// The expression is a number.
pub open spec fn is_constant(e: &LinearExpression, n: int) -> bool {
    &&& e.terms@ == Map::<u64, Number>::empty()
    &&& e.terms.entries().len() == 0
    &&& e.constant@ == n
    &&& forall|env: Env| #[trigger] e.eval(env) == n
}

/// What a comparison with an immediate says.
pub open spec fn immediate_claims(z: ZEdges, op: ConditionOp, is64: bool, s: u64, u: u64, imm: i64, rs: &LinearExpression, ru: &LinearExpression) -> Seq<Claim> {
    match op {
        ConditionOp::EQ | ConditionOp::SGE | ConditionOp::SLE | ConditionOp::SGT | ConditionOp::SLT => signed_claims(z, op, is64, s, u, rs, ru),
        ConditionOp::SET | ConditionOp::NSET => bit_test_claims(op, is64, zone_model::zinterval(z, u), Interval::point(Number { n: imm as i128 })),
        _ => unsigned_claims(z, op, is64, s, u, rs, ru),
    }
}

/// What a comparison of two registers says.
pub open spec fn register_claims(z: ZEdges, op: ConditionOp, is64: bool, s: u64, u: u64, src_s: u64, src_u: u64, rs: &LinearExpression, ru: &LinearExpression) -> Seq<Claim> {
    let src = zone_model::zinterval(z, src_s);
    match op {
        ConditionOp::SET | ConditionOp::NSET => bit_test_claims(op, is64, zone_model::zinterval(z, u), zone_model::zinterval(z, src_u)),
        ConditionOp::EQ => if !is64 {
            signed_claims(z, op, is64, s, u, rs, ru)
        } else if src.lb != src.ub && src.included_spec(Interval::nonnegative_spec(64)) {
            seq![same_value(s, src_s), same_value(u, src_u), same_value(s, u)]
        } else {
            seq![same_value(s, src_s), same_value(u, src_u)]
        },
        ConditionOp::NE => if is64 { seq![differ(s, src_s)] } else { unsigned_claims(z, op, is64, s, u, rs, ru) },
        ConditionOp::SGE | ConditionOp::SLE | ConditionOp::SGT | ConditionOp::SLT => if is64 {
            seq![related(op is SLT || op is SGT, op is SLT || op is SLE, s, src_s)]
        } else {
            signed_claims(z, op, is64, s, u, rs, ru)
        },
        _ => unsigned_claims(z, op, is64, s, u, rs, ru),
    }
}

proof fn lemma_split_small(z: ZEdges, is64: bool, s: u64, u: u64, right: Interval)
    ensures
        ends_small(finite_domain::unsigned_split(z, is64, s, u, right).left),
        ends_small(finite_domain::unsigned_split(z, is64, s, u, right).right),
{
    let l0 = zone_model::zinterval(z, u);
    let wide = is64 || finite_domain::same_unsigned_half(l0, right);
    let l1 = if wide { l0 } else { l0.zero_extend_spec(32) };
    let r1 = if wide { right } else { right.zero_extend_spec(32) };
    let si = zone_model::zinterval(z, s);
    let last = if l1.is_top_spec() { si } else { l1 };
    lemma_extended_small(last, 64);
    lemma_extended_small(r1, 64);
}

}
