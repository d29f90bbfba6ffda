//! Comparisons that a program must meet, and whether a state shows that it does.
use vstd::prelude::*;
use crate::acts;
use crate::arith::linear_constraint::{expr_eq, leq, lt, LinearConstraint};
use crate::arith::linear_expression;
use crate::arith::linear_expression::{Env, LinearExpression};
use crate::arith::number;
use crate::arith::number::Number;
use crate::arith::variable::Variable;
use crate::ebpf_domain::EbpfDomain;
use crate::interval_laws;
use crate::numeric_ops;
use crate::numeric_steps;
use crate::numeric_steps::{Lin, Sum};
use crate::ord_map;
use crate::var_registry::{RegistryView, VariableRegistry};
use crate::zone_domain;
use crate::zone_model;

verus! {

/// A number plus some variables.
pub struct Affine {
    pub vars: Seq<u64>,
    pub constant: int,
}

/// The number plus the first `n` variables, as an expression.
pub open spec fn prefix_sum(a: Affine, n: nat) -> Sum
    decreases n,
{
    if n == 0 { numeric_steps::just_num(a.constant) } else { numeric_steps::plus(prefix_sum(a, (n - 1) as nat), numeric_steps::just_var(a.vars[n - 1])) }
}

/// The value of the number plus the first `n` variables.
pub open spec fn prefix_value(a: Affine, n: nat, env: Env) -> int
    decreases n,
{
    if n == 0 { a.constant } else { prefix_value(a, (n - 1) as nat, env) + env(a.vars[n - 1]) }
}

impl Affine {
    pub open spec fn sum(self) -> Sum {
        prefix_sum(self, self.vars.len())
    }

    pub open spec fn value(self, env: Env) -> int {
        prefix_value(self, self.vars.len(), env)
    }

    /// Few variables and a constant that leaves room.
    pub open spec fn small(self) -> bool {
        self.vars.len() <= 3 && -0x10_0000_0000_0000_0000 <= self.constant <= 0x10_0000_0000_0000_0000
    }
}

/// A number.
pub open spec fn num(n: int) -> Affine {
    Affine { vars: seq![], constant: n }
}

/// A variable.
pub open spec fn var(v: u64) -> Affine {
    Affine { vars: seq![v], constant: 0 }
}

/// A variable plus a number.
pub open spec fn var_plus(v: u64, n: int) -> Affine {
    Affine { vars: seq![v], constant: n }
}

/// Two variables plus a number.
pub open spec fn vars_plus(v: u64, w: u64, n: int) -> Affine {
    Affine { vars: seq![v, w], constant: n }
}

/// Comparisons.
#[derive(Clone, Copy, PartialEq, Eq, Structural)]
pub enum Rel {
    AtMost,
    Below,
    Equal,
}

/// What must hold, with the complaint where it is not shown; or a complaint in any case.
pub enum Demand {
    Compare(Rel, Affine, Affine, Seq<char>),
    Refuse(Seq<char>),
}

/// A comparison as a constraint.
pub open spec fn comparison(rel: Rel, a: Affine, b: Affine) -> Lin {
    match rel {
        Rel::AtMost => numeric_steps::at_most(a.sum(), b.sum()),
        Rel::Below => numeric_steps::below(a.sum(), b.sum()),
        Rel::Equal => numeric_steps::equal(a.sum(), b.sum()),
    }
}

/// A comparison of values.
pub open spec fn compares(rel: Rel, x: int, y: int) -> bool {
    match rel {
        Rel::AtMost => x <= y,
        Rel::Below => x < y,
        Rel::Equal => x == y,
    }
}

/// A valuation of the variables that a state admits.
pub open spec fn describes(d: &EbpfDomain, env: Env) -> bool {
    d.num() is Some && interval_laws::modest(env) && zone_model::zholds(d.state.values.z(), env)
}

/// The answer to a constraint, with a registry between two others.
pub open spec fn answered(d: &EbpfDomain, older: RegistryView, newer: RegistryView, l: Lin, answer: bool) -> bool {
    exists|r: RegistryView| r.extends(older) && newer.extends(r) && #[trigger] acts::entail_answer(d, r, l, answer)
}

/// A demand is shown to be met: it holds under every valuation that the state admits.
pub open spec fn shown(d: &EbpfDomain, older: RegistryView, newer: RegistryView, dm: Demand) -> bool {
    match dm {
        Demand::Compare(rel, a, b, _) => {
            &&& answered(d, older, newer, comparison(rel, a, b), true)
            &&& forall|env: Env| #[trigger] describes(d, env) ==> compares(rel, a.value(env), b.value(env))
        },
        Demand::Refuse(_) => false,
    }
}

/// A demand is complained of.
pub open spec fn complained(d: &EbpfDomain, older: RegistryView, newer: RegistryView, dm: Demand, message: Seq<char>) -> bool {
    match dm {
        Demand::Compare(rel, a, b, m) => message == m && answered(d, older, newer, comparison(rel, a, b), false),
        Demand::Refuse(m) => message == m,
    }
}

/// The demands are met, or the first that is not is complained of.
pub open spec fn judged(d: &EbpfDomain, older: RegistryView, newer: RegistryView, ds: Seq<Demand>, r: Result<(), Seq<char>>) -> bool {
    match r {
        Ok(_) => forall|i: int| 0 <= i < ds.len() ==> shown(d, older, newer, #[trigger] ds[i]),
        Err(m) => exists|i: int| 0 <= i < ds.len() && complained(d, older, newer, #[trigger] ds[i], m)
            && forall|j: int| 0 <= j < i ==> shown(d, older, newer, #[trigger] ds[j]),
    }
}

/// The message of a result.
pub open spec fn outcome(r: Result<(), String>) -> Result<(), Seq<char>> {
    match r {
        Ok(_) => Ok(()),
        Err(m) => Err(m@),
    }
}

/// What was answered stays answered in a longer registry.
proof fn lemma_answered_later(d: &EbpfDomain, older: RegistryView, mid: RegistryView, newer: RegistryView, l: Lin, answer: bool)
    requires answered(d, older, mid, l, answer), newer.extends(mid),
    ensures answered(d, older, newer, l, answer),
{
    let r = choose|r: RegistryView| r.extends(older) && mid.extends(r) && #[trigger] acts::entail_answer(d, r, l, answer);
    newer.extending_is_transitive(mid, r);
}

proof fn lemma_answered_earlier(d: &EbpfDomain, older: RegistryView, mid: RegistryView, newer: RegistryView, l: Lin, answer: bool)
    requires answered(d, mid, newer, l, answer), mid.extends(older),
    ensures answered(d, older, newer, l, answer),
{
    let r = choose|r: RegistryView| r.extends(mid) && newer.extends(r) && #[trigger] acts::entail_answer(d, r, l, answer);
    r.extending_is_transitive(mid, older);
}

proof fn lemma_wider(d: &EbpfDomain, older: RegistryView, a: RegistryView, b: RegistryView, newer: RegistryView, dm: Demand, message: Seq<char>)
    requires a.extends(older), newer.extends(b),
    ensures
        shown(d, a, b, dm) ==> shown(d, older, newer, dm),
        complained(d, a, b, dm, message) ==> complained(d, older, newer, dm, message),
{
    if let Demand::Compare(rel, x, y, m) = dm {
        let l = comparison(rel, x, y);
        if answered(d, a, b, l, true) { lemma_answered_later(d, a, b, newer, l, true); lemma_answered_earlier(d, older, a, newer, l, true); }
        if answered(d, a, b, l, false) { lemma_answered_later(d, a, b, newer, l, false); lemma_answered_earlier(d, older, a, newer, l, false); }
    }
}

/// The first complaint is that of all demands.
pub proof fn judged_first(d: &EbpfDomain, older: RegistryView, mid: RegistryView, newer: RegistryView, first: Seq<Demand>, rest: Seq<Demand>, m: Seq<char>)
    requires judged(d, older, mid, first, Err(m)), newer.extends(mid), mid.extends(older),
    ensures judged(d, older, newer, first + rest, Err(m)),
{
    let all = first + rest;
    let i = choose|i: int| 0 <= i < first.len() && complained(d, older, mid, #[trigger] first[i], m)
        && forall|j: int| 0 <= j < i ==> shown(d, older, mid, #[trigger] first[j]);
    numeric_steps::extends_itself(older);
    assert(all[i] == first[i]);
    lemma_wider(d, older, older, mid, newer, first[i], m);
    assert forall|j: int| 0 <= j < i implies shown(d, older, newer, #[trigger] all[j]) by {
        assert(all[j] == first[j]);
        lemma_wider(d, older, older, mid, newer, first[j], m);
    }
}

/// Where the first demands are met, the others decide.
pub proof fn judged_both(d: &EbpfDomain, older: RegistryView, mid: RegistryView, newer: RegistryView, first: Seq<Demand>, rest: Seq<Demand>, r: Result<(), Seq<char>>)
    requires judged(d, older, mid, first, Ok(())), judged(d, mid, newer, rest, r), mid.extends(older), newer.extends(mid),
    ensures judged(d, older, newer, first + rest, r),
{
    let all = first + rest;
    let n = first.len() as int;
    numeric_steps::extends_itself(older);
    numeric_steps::extends_itself(newer);
    assert forall|j: int| 0 <= j < n implies shown(d, older, newer, #[trigger] all[j]) by {
        assert(all[j] == first[j]);
        lemma_wider(d, older, older, mid, newer, first[j], seq![]);
    }
    match r {
        Ok(_) => {
            assert forall|j: int| 0 <= j < all.len() implies shown(d, older, newer, #[trigger] all[j]) by {
                if j >= n {
                    assert(all[j] == rest[j - n]);
                    lemma_wider(d, older, mid, newer, newer, rest[j - n], seq![]);
                }
            }
        }
        Err(m) => {
            let i = choose|i: int| 0 <= i < rest.len() && complained(d, mid, newer, #[trigger] rest[i], m)
                && forall|j: int| 0 <= j < i ==> shown(d, mid, newer, #[trigger] rest[j]);
            assert(all[n + i] == rest[i]);
            lemma_wider(d, older, mid, newer, newer, rest[i], m);
            assert forall|j: int| 0 <= j < n + i implies shown(d, older, newer, #[trigger] all[j]) by {
                if j >= n {
                    assert(all[j] == rest[j - n]);
                    lemma_wider(d, older, mid, newer, newer, rest[j - n], m);
                }
            }
        }
    }
}

/// A demand that nothing meets.
pub proof fn judged_refusal(d: &EbpfDomain, older: RegistryView, newer: RegistryView, m: Seq<char>)
    ensures judged(d, older, newer, seq![Demand::Refuse(m)], Err(m)),
{
    let ds = seq![Demand::Refuse(m)];
    assert(complained(d, older, newer, ds[0], m));
}

// ---------------------------------------------------------------------------------------------
// Asking
// ---------------------------------------------------------------------------------------------

proof fn lemma_prefix_small(a: Affine, n: nat)
    requires a.small(), n <= a.vars.len(),
    ensures
        prefix_sum(a, n).constant == a.constant,
        forall|k: u64| #[trigger] prefix_sum(a, n).terms.contains_key(k) ==> a.vars.contains(k) && 1 <= prefix_sum(a, n).terms[k]@ <= n,
    decreases n,
{
    if n > 0 {
        lemma_prefix_small(a, (n - 1) as nat);
        let p = prefix_sum(a, (n - 1) as nat);
        let v = a.vars[n - 1];
        let q = numeric_steps::just_var(v);
        assert(prefix_sum(a, n) == numeric_steps::plus(p, q));
        assert forall|k: u64| #[trigger] prefix_sum(a, n).terms.contains_key(k) implies a.vars.contains(k) && 1 <= prefix_sum(a, n).terms[k]@ <= n by {
            if k == v {
                assert(a.vars.contains(v));
                assert(q.terms.contains_key(v) && q.terms[v]@ == 1);
                if p.terms.contains_key(v) { assert(1 <= p.terms[v]@ <= n - 1); }
            } else {
                assert(p.terms.contains_key(k));
            }
        }
    }
}

/// Entries with different keys out of a list are no more than the list.
proof fn lemma_few_entries(s: Seq<(u64, Number)>, ks: Seq<u64>)
    requires ord_map::sorted_entries(s), forall|i: int| 0 <= i < s.len() ==> ks.contains((#[trigger] s[i]).0),
    ensures s.len() <= ks.len(),
{
    let t = s.map_values(|e: (u64, Number)| e.0);
    assert(t.no_duplicates()) by {
        assert forall|i: int, j: int| 0 <= i < t.len() && 0 <= j < t.len() && i != j implies t[i] != t[j] by {
            assert(t[i] == s[i].0 && t[j] == s[j].0);
            if i < j { assert(s[i].0 < s[j].0); } else { assert(s[j].0 < s[i].0); }
        }
    }
    t.unique_seq_to_set();
    ks.lemma_cardinality_of_set();
    assert(t.to_set().subset_of(ks.to_set())) by {
        assert forall|k: u64| #[trigger] t.to_set().contains(k) implies ks.to_set().contains(k) by {
            assert(t.contains(k));
            let i = choose|i: int| 0 <= i < t.len() && t[i] == k;
            assert(ks.contains(s[i].0));
        }
    }
    vstd::set_lib::lemma_len_subset(t.to_set(), ks.to_set());
}

/// An expression with the sum of variables and a number that it stands for.
pub struct Side {
    pub e: LinearExpression,
    pub a: Ghost<Affine>,
}

impl Side {
    pub open spec fn ok(&self, r: RegistryView) -> bool {
        &&& self.a@.small()
        &&& numeric_steps::sum_of(&self.e) == self.a@.sum()
        &&& forall|env: Env| #[trigger] self.e.eval(env) == self.a@.value(env)
        &&& forall|i: int| 0 <= i < self.a@.vars.len() ==> (#[trigger] self.a@.vars[i]) < r.size()
    }

    /// A number.
    pub fn num(n: i128, registry: &VariableRegistry) -> (r: Side)
        requires -0x10_0000_0000_0000_0000 <= n <= 0x10_0000_0000_0000_0000,
        ensures r.ok(registry@), r.a@ == num(n as int),
    {
        let e = LinearExpression::from_number(Number::of(n));
        Side { e, a: Ghost(num(n as int)) }
    }

    /// The sum with one more variable.
    pub fn plus(self, v: Variable, registry: &VariableRegistry) -> (r: Side)
        requires self.ok(registry@), self.a@.vars.len() < 3, registry@.knows(v),
        ensures r.ok(registry@), r.a@ == (Affine { vars: self.a@.vars.push(v.id), constant: self.a@.constant }),
    {
        let x = LinearExpression::from_variable(v);
        let ghost a = self.a@;
        let ghost b = Affine { vars: a.vars.push(v.id), constant: a.constant };
        proof {
            lemma_prefix_small(a, a.vars.len());
            lemma_small_side(&self.e, a);
            linear_expression::lemma_small_difference(&self.e, &x);
        }
        let e = self.e.plus(&x);
        proof {
            lemma_prefix_same(a, b, a.vars.len());
            assert(numeric_steps::sum_of(&e) == numeric_steps::plus(a.sum(), numeric_steps::just_var(v.id)));
            assert(b.sum() == numeric_steps::plus(prefix_sum(b, a.vars.len()), numeric_steps::just_var(v.id)));
            assert forall|env: Env| #[trigger] e.eval(env) == b.value(env) by {
                assert(self.e.eval(env) == a.value(env));
                assert(x.eval(env) == env(v.id));
                lemma_prefix_value_same(a, b, a.vars.len(), env);
            }
        }
        Side { e, a: Ghost(b) }
    }

    /// A variable.
    pub fn var(v: Variable, registry: &VariableRegistry) -> (r: Side)
        requires registry@.knows(v),
        ensures r.ok(registry@), r.a@ == var(v.id),
    {
        let r = Side::num(0, registry).plus(v, registry);
        assert(r.a@.vars =~= seq![v.id]);
        r
    }

    /// A variable plus a number.
    pub fn var_plus(v: Variable, n: i128, registry: &VariableRegistry) -> (r: Side)
        requires registry@.knows(v), -0x10_0000_0000_0000_0000 <= n <= 0x10_0000_0000_0000_0000,
        ensures r.ok(registry@), r.a@ == var_plus(v.id, n as int),
    {
        let r = Side::num(n, registry).plus(v, registry);
        assert(r.a@.vars =~= seq![v.id]);
        r
    }

    /// Two variables plus a number.
    pub fn vars_plus(v: Variable, w: Variable, n: i128, registry: &VariableRegistry) -> (r: Side)
        requires registry@.knows(v), registry@.knows(w), -0x10_0000_0000_0000_0000 <= n <= 0x10_0000_0000_0000_0000,
        ensures r.ok(registry@), r.a@ == vars_plus(v.id, w.id, n as int),
    {
        let r = Side::num(n, registry).plus(v, registry).plus(w, registry);
        assert(r.a@.vars =~= seq![v.id, w.id]);
        r
    }
}

proof fn lemma_small_side(e: &LinearExpression, a: Affine)
    requires a.small(), numeric_steps::sum_of(e) == a.sum(),
    ensures e.small(),
{
    lemma_prefix_small(a, a.vars.len());
    assert forall|k: u64| -linear_expression::SMALL < #[trigger] e.coeff(k) < linear_expression::SMALL by {
        if e.terms@.contains_key(k) { assert(a.sum().terms.contains_key(k)); }
    }
}

proof fn lemma_prefix_same(a: Affine, b: Affine, n: nat)
    requires a.constant == b.constant, n <= a.vars.len(), n <= b.vars.len(), forall|i: int| 0 <= i < n ==> a.vars[i] == b.vars[i],
    ensures prefix_sum(a, n) == prefix_sum(b, n),
    decreases n,
{
    if n > 0 { lemma_prefix_same(a, b, (n - 1) as nat); }
}

proof fn lemma_prefix_value_same(a: Affine, b: Affine, n: nat, env: Env)
    requires a.constant == b.constant, n <= a.vars.len(), n <= b.vars.len(), forall|i: int| 0 <= i < n ==> a.vars[i] == b.vars[i],
    ensures prefix_value(a, n, env) == prefix_value(b, n, env),
    decreases n,
{
    if n > 0 { lemma_prefix_value_same(a, b, (n - 1) as nat, env); }
}

/// The difference of two sides is tame.
proof fn lemma_difference_is_tame(c: &LinearConstraint, a: Affine, b: Affine)
    requires
        a.small(),
        b.small(),
        c.expression.terms@ == linear_expression::combined(a.sum().terms, -1, b.sum().terms),
        c.expression.constant@ == number::saturate(a.sum().constant - b.sum().constant),
        ord_map::sorted_entries(c.expression.terms.entries()),
        c.expression.terms@ == ord_map::entries_map(c.expression.terms.entries()),
    ensures interval_laws::tame(&c.expression), c.expression.negation_fits(),
{
    lemma_prefix_small(a, a.vars.len());
    lemma_prefix_small(b, b.vars.len());
    let s = c.expression.terms.entries();
    let ks = a.vars + b.vars;
    assert forall|k: u64| #[trigger] c.expression.terms@.contains_key(k) implies ks.contains(k) && -6 <= c.expression.terms@[k]@ <= 6 by {
        if b.sum().terms.contains_key(k) {
            let i = choose|i: int| 0 <= i < b.vars.len() && b.vars[i] == k;
            assert(ks[a.vars.len() + i] == k);
            if a.sum().terms.contains_key(k) { assert(1 <= a.sum().terms[k]@ <= 3); }
        } else {
            assert(a.sum().terms.contains_key(k));
            let i = choose|i: int| 0 <= i < a.vars.len() && a.vars[i] == k;
            assert(ks[i] == k);
        }
    }
    assert forall|i: int| 0 <= i < s.len() implies ks.contains((#[trigger] s[i]).0) && -6 <= s[i].1@ <= 6 by {
        ord_map::lemma_entry(s, i);
        assert(c.expression.terms@.contains_key(s[i].0));
    }
    lemma_few_entries(s, ks);
    assert forall|k: u64| i128::MIN < #[trigger] c.expression.coeff(k) by {
        if c.expression.terms@.contains_key(k) {}
    }
}

/// Whether a state shows a comparison, as an answer.
pub fn answer(dom: &EbpfDomain, rel: Rel, a: Side, b: Side, registry: &VariableRegistry) -> (r: bool)
    requires dom.wf(), a.ok(registry@), b.ok(registry@),
    ensures acts::entail_answer(dom, registry@, comparison(rel, a.a@, b.a@), r),
{
    let ghost l = comparison(rel, a.a@, b.a@);
    proof {
        side_is_known(registry@, &a);
        side_is_known(registry@, &b);
        numeric_ops::combination_is_known(registry@, a.e.terms@, -1, b.e.terms@);
    }
    let Side { e: left, a: _ } = a;
    let Side { e: right, a: _ } = b;
    let c = match rel {
        Rel::AtMost => leq(left, right),
        Rel::Below => lt(left, right),
        Rel::Equal => expr_eq(left, right),
    };
    c.expression.order_holds();
    assert(numeric_steps::lin_of(&c) == l);
    dom.state.values.entail(&c, registry)
}

/// Whether a state shows a comparison.
pub fn ask(dom: &EbpfDomain, rel: Rel, a: Side, b: Side, registry: &VariableRegistry, Ghost(message): Ghost<Seq<char>>) -> (r: bool)
    requires dom.wf(), a.ok(registry@), b.ok(registry@),
    ensures
        r ==> judged(dom, registry@, registry@, seq![Demand::Compare(rel, a.a@, b.a@, message)], Ok(())),
        !r ==> judged(dom, registry@, registry@, seq![Demand::Compare(rel, a.a@, b.a@, message)], Err(message)),
{
    let ghost fa = a.a@;
    let ghost fb = b.a@;
    let ghost ea = a.e;
    let ghost eb = b.e;
    proof {
        lemma_small_side(&a.e, fa);
        lemma_small_side(&b.e, fb);
        linear_expression::lemma_small_difference(&a.e, &b.e);
        side_is_known(registry@, &a);
        side_is_known(registry@, &b);
        numeric_ops::combination_is_known(registry@, a.e.terms@, -1, b.e.terms@);
    }
    let Side { e: left, a: _ } = a;
    let Side { e: right, a: _ } = b;
    let c = match rel {
        Rel::AtMost => leq(left, right),
        Rel::Below => lt(left, right),
        Rel::Equal => expr_eq(left, right),
    };
    c.expression.order_holds();
    let y: bool = dom.state.values.entail(&c, registry);
    proof {
        let l = comparison(rel, fa, fb);
        let dm = Demand::Compare(rel, fa, fb, message);
        let ds = seq![dm];
        assert(numeric_steps::lin_of(&c) == l);
        lemma_difference_is_tame(&c, fa, fb);
        numeric_steps::extends_itself(registry@);
        assert(acts::entail_answer(dom, registry@, l, y));
        if y {
            assert forall|env: Env| #[trigger] describes(dom, env) implies compares(rel, fa.value(env), fb.value(env)) by {
                interval_laws::implied_constraints_hold(dom.state.values.z(), &c, zone_domain::min_only_of(registry@), env);
                assert(c.holds(env));
                assert(ea.eval(env) == fa.value(env));
                assert(eb.eval(env) == fb.value(env));
            }
            assert(shown(dom, registry@, registry@, ds[0]));
        } else {
            assert(complained(dom, registry@, registry@, ds[0], message));
        }
    }
    y
}

/// The variables of a side are registered.
pub proof fn side_is_known(r: RegistryView, s: &Side)
    requires s.ok(r),
    ensures zone_domain::knows_terms(r, s.e.terms@),
{
    lemma_prefix_small(s.a@, s.a@.vars.len());
    assert forall|k: u64| #[trigger] s.e.terms@.contains_key(k) implies k < r.size() by {
        assert(s.a@.sum().terms.contains_key(k));
        let i = choose|i: int| 0 <= i < s.a@.vars.len() && s.a@.vars[i] == k;
        assert(s.a@.vars[i] < r.size());
    }
}

}
