//! Linear expressions over variables.
use vstd::prelude::*;
use vstd::string::*;
use crate::arith::number;
use crate::arith::number::Number;
use crate::arith::variable::Variable;
use crate::ord_map;
use crate::ord_map::OrdMap;

verus! {

/// A valuation of the variables.
pub type Env = spec_fn(u64) -> int;

/// The value of one term.
pub open spec fn term_value(env: Env) -> spec_fn(u64, Number) -> int {
    |k: u64, c: Number| c@ * env(k)
}

/// The value of a sum of terms.
pub open spec fn terms_value(s: Seq<(u64, Number)>, env: Env) -> int {
    ord_map::entry_sum(s, term_value(env))
}

/// The terms of `a + sign * b`: a coefficient that becomes zero leaves the expression.
pub open spec fn combined(a: Map<u64, Number>, sign: int, b: Map<u64, Number>) -> Map<u64, Number> {
    Map::new(
        |k: u64| if b.contains_key(k) { combined_coeff(a, sign, b, k) != 0 } else { a.contains_key(k) },
        |k: u64| if b.contains_key(k) { Number { n: combined_coeff(a, sign, b, k) as i128 } } else { a[k] },
    )
}

/// The coefficient of a variable of `b` in `a + sign * b`.
pub open spec fn combined_coeff(a: Map<u64, Number>, sign: int, b: Map<u64, Number>, k: u64) -> int {
    number::saturate((if a.contains_key(k) { a[k]@ } else { 0 }) + number::saturate(sign * b[k]@))
}

/// `constant + sum of coefficient * variable`.
#[derive(Debug)]
pub struct LinearExpression {
    pub terms: OrdMap<Number>,
    pub constant: Number,
}

impl LinearExpression {
    /// The coefficient of a variable; absent variables have coefficient zero.
    pub open spec fn coeff(&self, k: u64) -> int {
        if self.terms@.contains_key(k) { self.terms@[k]@ } else { 0 }
    }

    /// The value under a valuation.
    pub open spec fn eval(&self, env: Env) -> int {
        self.constant@ + terms_value(self.terms.entries(), env)
    }

    /// Whether the sum `self + sign * o` stays within the range of numbers.
    pub open spec fn sum_fits(&self, sign: int, o: &LinearExpression) -> bool {
        &&& i128::MIN <= self.constant@ + sign * o.constant@ <= i128::MAX
        &&& forall|k: u64| #![trigger o.coeff(k)]
            i128::MIN < o.coeff(k) && i128::MIN <= self.coeff(k) + sign * o.coeff(k) <= i128::MAX
    }

    /// The terms stand in order, each variable once.
    pub open spec fn orderly(&self) -> bool {
        ord_map::sorted_entries(self.terms.entries()) && self.terms@ == ord_map::entries_map(self.terms.entries())
    }

    /// The terms of every expression stand in order.
    pub fn order_holds(&self)
        ensures self.orderly(),
    {
        self.terms.reveal_entries();
    }

    /// Same terms and constant.
    pub open spec fn same(&self, o: &LinearExpression) -> bool {
        self.terms@ == o.terms@ && self.constant == o.constant
    }

    pub fn from_number(n: Number) -> (r: LinearExpression)
        ensures
            r.terms@ == Map::<u64, Number>::empty(),
            r.terms.entries().len() == 0,
            r.constant == n,
            forall|env: Env| #[trigger] r.eval(env) == n@,
    {
        LinearExpression { terms: OrdMap::new(), constant: n }
    }

    pub fn from_i64(n: i64) -> (r: LinearExpression)
        ensures
            r.terms@ == Map::<u64, Number>::empty(),
            r.terms.entries().len() == 0,
            r.constant@ == n,
            forall|env: Env| #[trigger] r.eval(env) == n,
    {
        Self::from_number(Number::from(n))
    }

    pub fn from_variable(v: Variable) -> (r: LinearExpression)
        ensures
            r.terms@ == Map::<u64, Number>::empty().insert(v.id, Number { n: 1 }),
            r.terms.entries() == seq![(v.id, Number { n: 1 })],
            r.constant@ == 0,
            forall|env: Env| #[trigger] r.eval(env) == env(v.id),
            r.small(),
    {
        let mut terms: OrdMap<Number> = OrdMap::new();
        terms.reveal_entries();
        let ghost before = terms.entries();
        terms.insert(v.id, Number { n: 1 });
        terms.reveal_entries();
        proof {
            assert forall|env: Env| terms_value(terms.entries(), env) == env(v.id) by {
                ord_map::lemma_sum_insert(before, terms.entries(), v.id, Number { n: 1 }, term_value(env));
            }
            let one = seq![(v.id, Number { n: 1 })];
            assert(ord_map::entries_map(one) =~= Map::<u64, Number>::empty().insert(v.id, Number { n: 1 })) by {
                ord_map::lemma_entry(one, 0);
                assert forall|k: u64| ord_map::has_key(one, k) implies k == v.id by {
                    let i = ord_map::lemma_key(one, k);
                    assert(i == 0);
                }
            }
            ord_map::lemma_entries_unique(terms.entries(), one);
        }
        LinearExpression { terms, constant: Number { n: 0 } }
    }

    pub fn constant_term(&self) -> (r: &Number)
        ensures *r == self.constant,
    {
        &self.constant
    }

    /// The terms, in increasing order of the variables.
    pub fn variable_terms(&self) -> (r: &OrdMap<Number>)
        ensures *r == self.terms,
    {
        &self.terms
    }

    pub fn copy(&self) -> (r: LinearExpression)
        ensures
            r.same(self),
            r.terms.entries() == self.terms.entries(),
            forall|env: Env| #[trigger] r.eval(env) == self.eval(env),
    {
        LinearExpression { terms: self.terms.copy(), constant: self.constant }
    }

    /// Adds `c` to the coefficient of `k`; a coefficient that becomes zero leaves the expression.
    fn add_term(&mut self, k: u64, c: Number)
        ensures
            final(self).constant == old(self).constant,
            final(self).terms@ == ({
                let x = number::saturate(old(self).coeff(k) + c@);
                if x == 0 {
                    old(self).terms@.remove(k)
                } else {
                    old(self).terms@.insert(k, Number { n: x as i128 })
                }
            }),
            i128::MIN <= old(self).coeff(k) + c@ <= i128::MAX ==> forall|env: Env|
                #[trigger] final(self).eval(env) == old(self).eval(env) + c@ * env(k),
    {
        let prev: Number = match self.terms.get(k) {
            Some(p) => p,
            None => Number { n: 0 },
        };
        let x: Number = prev.add(c);
        self.terms.reveal_entries();
        let ghost s = self.terms.entries();
        if x.is_zero() {
            self.terms.remove(k);
            self.terms.reveal_entries();
            proof {
                if i128::MIN <= old(self).coeff(k) + c@ <= i128::MAX {
                    assert forall|env: Env| #[trigger] self.eval(env) == old(self).eval(env) + c@ * env(k) by {
                        ord_map::lemma_sum_remove(s, self.terms.entries(), k, term_value(env));
                        let pv = prev@; let cv = c@; let ev = env(k);
                        assert(-(pv * ev) == cv * ev) by (nonlinear_arith) requires pv + cv == 0;
                    }
                }
            }
        } else {
            self.terms.insert(k, x);
            self.terms.reveal_entries();
            proof {
                if i128::MIN <= old(self).coeff(k) + c@ <= i128::MAX {
                    assert forall|env: Env| #[trigger] self.eval(env) == old(self).eval(env) + c@ * env(k) by {
                        ord_map::lemma_sum_insert(s, self.terms.entries(), k, x, term_value(env));
                        let pv = prev@; let cv = c@; let ev = env(k); let xv = x@;
                        assert(xv * ev - pv * ev == cv * ev) by (nonlinear_arith) requires xv == pv + cv;
                    }
                }
            }
        }
    }

    /// `self + sign * o`, for a sign of one or minus one.
    fn combine(&self, minus: bool, o: &LinearExpression) -> (r: LinearExpression)
        ensures
            r.constant@ == number::saturate(self.constant@ + sign_of(minus) * o.constant@),
            self.sum_fits(sign_of(minus), o) ==> forall|k: u64| #[trigger] r.coeff(k) == self.coeff(k) + sign_of(minus) * o.coeff(k),
            self.sum_fits(sign_of(minus), o) ==> forall|env: Env| #[trigger] r.eval(env) == self.eval(env) + sign_of(minus) * o.eval(env),
            r.terms@ == combined(self.terms@, sign_of(minus), o.terms@),
    {
        let ghost sg = sign_of(minus);
        let mut r: LinearExpression = self.copy();
        r.constant = if minus { self.constant.sub(o.constant) } else { self.constant.add(o.constant) };
        let n: usize = o.terms.len();
        let ghost es = o.terms.entries();
        let ghost fits = self.sum_fits(sg, o);
        let mut i: usize = 0;
        assert(es.take(0) =~= Seq::<(u64, Number)>::empty());
        assert forall|env: Env| terms_value(es.take(0), env) == 0 by {}
        assert forall|k: u64| !ord_map::has_key(es.take(0), k) by {}
        while i < n
            invariant
                i <= n,
                n == es.len(),
                es == o.terms.entries(),
                o.terms@ == ord_map::entries_map(es),
                ord_map::sorted_entries(es),
                sg == sign_of(minus),
                fits == self.sum_fits(sg, o),
                r.constant@ == number::saturate(self.constant@ + sg * o.constant@),
                fits ==> forall|k: u64| #[trigger] r.coeff(k) == self.coeff(k)
                    + (if ord_map::has_key(es.take(i as int), k) { sg * o.coeff(k) } else { 0 }),
                fits ==> forall|env: Env| #[trigger] r.eval(env)
                    == self.eval(env) - self.constant@ + r.constant@ + sg * terms_value(es.take(i as int), env),
                forall|k: u64| #![trigger r.terms@.contains_key(k)] r.terms@.contains_key(k) == (
                    if ord_map::has_key(es.take(i as int), k) { combined_coeff(self.terms@, sg, o.terms@, k) != 0 }
                    else { self.terms@.contains_key(k) }),
                forall|k: u64| #![trigger r.terms@.contains_key(k)] r.terms@.contains_key(k) ==> r.terms@[k] == (
                    if ord_map::has_key(es.take(i as int), k) { Number { n: combined_coeff(self.terms@, sg, o.terms@, k) as i128 } }
                    else { self.terms@[k] }),
            decreases n - i,
        {
            let k: u64 = o.terms.key_at(i);
            let c: Number = o.terms.value_at(i);
            let ghost before = r;
            let d: Number = if minus { c.neg() } else { c };
            proof {
                let pre = es.take(i as int);
                let post = es.take(i + 1);
                assert(post.drop_last() =~= pre);
                assert(post.last() == es[i as int]);
                assert(!ord_map::has_key(pre, k)) by {
                    if ord_map::has_key(pre, k) {
                        let j = choose|j: int| 0 <= j < pre.len() && (#[trigger] pre[j]).0 == k;
                        assert(es[j].0 < es[i as int].0);
                    }
                }
                assert forall|q: u64| ord_map::has_key(post, q) == (ord_map::has_key(pre, q) || q == k) by {
                    if ord_map::has_key(post, q) {
                        let j = choose|j: int| 0 <= j < post.len() && (#[trigger] post[j]).0 == q;
                        if j < i { assert(pre[j].0 == q); }
                    }
                    if ord_map::has_key(pre, q) {
                        let j = choose|j: int| 0 <= j < pre.len() && (#[trigger] pre[j]).0 == q;
                        assert(post[j].0 == q);
                    }
                    if q == k { assert(post[i as int].0 == k); }
                }
                assert(o.coeff(k) == c@);
            }
            r.add_term(k, d);
            proof {
                if fits {
                    assert(before.coeff(k) == self.coeff(k));
                    assert(d@ == sg * c@);
                    assert forall|q: u64| #[trigger] r.coeff(q) == self.coeff(q)
                        + (if ord_map::has_key(es.take(i + 1), q) { sg * o.coeff(q) } else { 0 }) by {
                        assert(before.coeff(q) == self.coeff(q)
                            + (if ord_map::has_key(es.take(i as int), q) { sg * o.coeff(q) } else { 0 }));
                    }
                    assert forall|env: Env| #[trigger] r.eval(env)
                        == self.eval(env) - self.constant@ + r.constant@ + sg * terms_value(es.take(i + 1), env) by {
                        assert(before.eval(env) == self.eval(env) - self.constant@ + before.constant@ + sg * terms_value(es.take(i as int), env));
                        assert(terms_value(es.take(i + 1), env) == terms_value(es.take(i as int), env) + c@ * env(k));
                        let ev = env(k); let cv = c@; let dv = d@;
                        if minus {
                            assert(dv * ev == -(cv * ev)) by (nonlinear_arith) requires dv == -cv;
                        }
                    }
                }
                assert(before.terms@.contains_key(k) == self.terms@.contains_key(k));
                assert(o.terms@[k] == c);
                assert(d@ == number::saturate(sg * c@));
                assert forall|q: u64| #![trigger r.terms@.contains_key(q)] q != k implies
                    r.terms@.contains_key(q) == before.terms@.contains_key(q) && (r.terms@.contains_key(q) ==> r.terms@[q] == before.terms@[q]) by {}
            }
            i = i + 1;
        }
        proof {
            assert(es.take(n as int) =~= es);
            assert(r.terms@ =~= combined(self.terms@, sg, o.terms@)) by {
                assert forall|k: u64| ord_map::has_key(es, k) == #[trigger] o.terms@.contains_key(k) by {}
            }
            if fits {
                assert forall|k: u64| #[trigger] r.coeff(k) == self.coeff(k) + sg * o.coeff(k) by {
                    if !ord_map::has_key(es, k) {
                        assert(!o.terms@.contains_key(k));
                    }
                }
                assert forall|env: Env| #[trigger] r.eval(env) == self.eval(env) + sg * o.eval(env) by {
                    let a = o.constant@; let t = terms_value(es, env);
                    assert(sg * (a + t) == sg * a + sg * t) by (nonlinear_arith);
                }
            }
        }
        r
    }
}

impl LinearExpression {
    /// Sum.
    pub fn plus(&self, o: &LinearExpression) -> (r: LinearExpression)
        ensures
            r.constant@ == number::saturate(self.constant@ + o.constant@),
            self.sum_fits(1, o) ==> forall|k: u64| #[trigger] r.coeff(k) == self.coeff(k) + o.coeff(k),
            self.sum_fits(1, o) ==> forall|env: Env| #[trigger] r.eval(env) == self.eval(env) + o.eval(env),
            r.terms@ == combined(self.terms@, 1, o.terms@),
    {
        self.combine(false, o)
    }

    /// Difference.
    pub fn subtract(&self, o: &LinearExpression) -> (r: LinearExpression)
        ensures
            r.constant@ == number::saturate(self.constant@ - o.constant@),
            self.sum_fits(-1, o) ==> forall|k: u64| #[trigger] r.coeff(k) == self.coeff(k) - o.coeff(k),
            self.sum_fits(-1, o) ==> forall|env: Env| #[trigger] r.eval(env) == self.eval(env) - o.eval(env),
            r.terms@ == combined(self.terms@, -1, o.terms@),
    {
        self.combine(true, o)
    }

    pub fn plus_constant(&self, n: &Number) -> (r: LinearExpression)
        ensures
            r.terms@ == self.terms@,
            r.terms.entries() == self.terms.entries(),
            r.constant@ == number::saturate(self.constant@ + n@),
            i128::MIN <= self.constant@ + n@ <= i128::MAX ==> forall|env: Env| #[trigger] r.eval(env) == self.eval(env) + n@,
    {
        let mut r: LinearExpression = self.copy();
        r.constant = self.constant.add(*n);
        r
    }

    pub fn subtract_constant(&self, n: &Number) -> (r: LinearExpression)
        ensures
            r.terms@ == self.terms@,
            r.terms.entries() == self.terms.entries(),
            r.constant@ == number::saturate(self.constant@ - n@),
            i128::MIN <= self.constant@ - n@ <= i128::MAX ==> forall|env: Env| #[trigger] r.eval(env) == self.eval(env) - n@,
    {
        let mut r: LinearExpression = self.copy();
        r.constant = self.constant.sub(*n);
        r
    }

    /// Whether the opposite stays within the range of numbers.
    pub open spec fn negation_fits(&self) -> bool {
        self.constant@ > i128::MIN && forall|k: u64| i128::MIN < #[trigger] self.coeff(k)
    }

    /// Opposite.
    pub fn negate(&self) -> (r: LinearExpression)
        ensures
            r.constant@ == number::saturate(-self.constant@),
            self.negation_fits() ==> forall|k: u64| #[trigger] r.coeff(k) == -self.coeff(k),
            self.negation_fits() ==> forall|env: Env| #[trigger] r.eval(env) == -self.eval(env),
            r.terms@ == combined(Map::<u64, Number>::empty(), -1, self.terms@),
    {
        let z: LinearExpression = LinearExpression::from_i64(0);
        let r: LinearExpression = z.combine(true, self);
        proof {
            if self.negation_fits() {
                assert forall|k: u64| #![trigger self.coeff(k)]
                    i128::MIN < self.coeff(k) && i128::MIN <= z.coeff(k) - self.coeff(k) <= i128::MAX by {}
                assert(z.sum_fits(-1, self));
            }
        }
        r
    }

    /// Whether no variable occurs.
    pub fn is_constant(&self) -> (r: bool)
        ensures
            r == (self.terms@ == Map::<u64, Number>::empty()),
            r == (self.terms.entries().len() == 0),
            r ==> forall|env: Env| #[trigger] self.eval(env) == self.constant@,
    {
        let n: usize = self.terms.len();
        proof {
            if n == 0 {
                assert(self.terms@ =~= Map::<u64, Number>::empty());
            } else {
                ord_map::lemma_entry(self.terms.entries(), 0);
            }
        }
        n == 0
    }
}

impl From<Variable> for LinearExpression {
    fn from(v: Variable) -> (r: Self)
        ensures
            r.terms@ == Map::<u64, Number>::empty().insert(v.id, Number { n: 1 }),
            r.constant@ == 0,
    {
        Self::from_variable(v)
    }
}

impl vstd::std_specs::convert::FromSpecImpl<Variable> for LinearExpression {
    open spec fn obeys_from_spec() -> bool {
        false
    }

    open spec fn from_spec(v: Variable) -> Self {
        arbitrary()
    }
}

impl From<Number> for LinearExpression {
    fn from(n: Number) -> (r: Self)
        ensures
            r.terms@ == Map::<u64, Number>::empty(),
            r.terms.entries().len() == 0,
            r.constant == n,
    {
        Self::from_number(n)
    }
}

impl vstd::std_specs::convert::FromSpecImpl<Number> for LinearExpression {
    open spec fn obeys_from_spec() -> bool {
        false
    }

    open spec fn from_spec(n: Number) -> Self {
        arbitrary()
    }
}

impl From<i64> for LinearExpression {
    fn from(n: i64) -> (r: Self)
        ensures
            r.terms@ == Map::<u64, Number>::empty(),
            r.terms.entries().len() == 0,
            r.constant@ == n,
    {
        Self::from_i64(n)
    }
}

impl vstd::std_specs::convert::FromSpecImpl<i64> for LinearExpression {
    open spec fn obeys_from_spec() -> bool {
        false
    }

    open spec fn from_spec(n: i64) -> Self {
        arbitrary()
    }
}

impl LinearExpression {
    /// Coefficients and constant far from the ends of the range, so that sums
    /// of a few such expressions are exact.
    pub open spec fn small(&self) -> bool {
        &&& -SMALL < self.constant@ < SMALL
        &&& forall|k: u64| -SMALL < #[trigger] self.coeff(k) < SMALL
    }
}

/// Magnitude below which sums of expressions are exact.
pub const SMALL: i128 = 0x1_0000_0000_0000_0000_0000_0000;

/// Sums, differences and opposites of small expressions are exact.
pub proof fn lemma_small_difference(a: &LinearExpression, b: &LinearExpression)
    requires a.small(), b.small(),
    ensures
        a.sum_fits(-1, b),
        a.sum_fits(1, b),
        a.negation_fits(),
{
    assert forall|k: u64| #![trigger b.coeff(k)] i128::MIN < b.coeff(k)
        && i128::MIN <= a.coeff(k) - b.coeff(k) <= i128::MAX && i128::MIN <= a.coeff(k) + b.coeff(k) <= i128::MAX by {
        assert(-SMALL < a.coeff(k) < SMALL);
    }
}

/// One or minus one.
pub open spec fn sign_of(minus: bool) -> int {
    if minus { -1 } else { 1 }
}

}
