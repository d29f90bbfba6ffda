//! The zone domain: intervals of variables and of their differences.
use vstd::prelude::*;
use vstd::string::*;
use crate::arith::extended_number::{ExtendedNumber, MINUS_INFINITY, PLUS_INFINITY};
use crate::arith::linear_constraint::{ConstraintKind, LinearConstraint};
use crate::arith::linear_expression;
use crate::arith::linear_expression::{Env, LinearExpression};
use crate::arith::number;
use crate::arith::number::Number;
use crate::arith::variable::Variable;
use crate::interval::{Bound, Interval};
use crate::ord_map;
use crate::ord_map::OrdMap;
use crate::splitdbm::constraints;
use crate::splitdbm::graph_ops;
use crate::splitdbm::graph_views;
use crate::splitdbm::split_dbm;
use crate::splitdbm::split_dbm::{AlignedPair, Side, SplitDBM};
use crate::splitdbm::{VertId, Weight};
use crate::string_constraints::{LineSet, StringInvariant};
use crate::text;
use crate::var_registry::{RegistryView, VariableRegistry};
use crate::zone_map;
use crate::zone_map::VertexOf;
use crate::zone_model;
use crate::zone_model::ZEdges;
use crate::zone_text;

verus! {

/// Arithmetic operations on variables.
#[derive(Clone, Copy, Debug, PartialEq, Eq, Structural)]
pub enum ArithBinOp {
    ADD,
    SUB,
    MUL,
}

/// The vertex of each variable.
pub type VertMap = OrdMap<VertId>;

/// A set of bounds on variables and on their differences.
///
/// Vertices of a split difference-bound matrix stand for variables; both directions of that
/// assignment are kept.
pub struct ZoneDomain {
    core: SplitDBM,
    vert_map: VertMap,
    rev_map: Vec<Option<Variable>>,
}

/// Which variables have a lower bound that alone counts.
pub open spec fn min_only_of(r: RegistryView) -> spec_fn(u64) -> bool {
    |k: u64| r.metas[k as int].is_min_only
}

/// Every variable of an expression is registered.
pub open spec fn knows_terms(r: RegistryView, terms: Map<u64, Number>) -> bool {
    forall|k: u64| #[trigger] terms.contains_key(k) ==> k < r.size()
}

spec fn bound_node_key(v: u64, side: Side) -> (int, int) {
    match side {
        Side::Left => (zone_model::node(v), 0),
        Side::Right => (0, zone_model::node(v)),
    }
}

/// The list holds exactly the pairs that the predicate admits.
spec fn lists_pairs(s: Seq<(Variable, Number)>, p: spec_fn(u64, int) -> bool) -> bool {
    &&& forall|i: int| 0 <= i < s.len() ==> p((#[trigger] s[i]).0.id, s[i].1@)
    &&& forall|v: u64, b: int| #[trigger] p(v, b) ==> exists|i: int| 0 <= i < s.len() && (#[trigger] s[i]).0.id == v && s[i].1@ == b
}

spec fn lists_diffs(s: Seq<(Variable, Variable, Number)>, p: spec_fn(u64, u64, int) -> bool) -> bool {
    &&& forall|i: int| 0 <= i < s.len() ==> p((#[trigger] s[i]).0.id, s[i].1.id, s[i].2@)
    &&& forall|x: u64, y: u64, w: int| #[trigger] p(x, y, w) ==>
            exists|i: int| 0 <= i < s.len() && (#[trigger] s[i]).0.id == x && s[i].1.id == y && s[i].2@ == w
}

spec fn plain_terms(s: Seq<(Variable, Number, Number)>) -> Seq<(u64, int, int)> {
    s.map_values(|t: (Variable, Number, Number)| (t.0.id, t.1@, t.2@))
}

spec fn plain_pairs(s: Seq<(Variable, Number)>) -> Seq<(u64, int)> {
    s.map_values(|t: (Variable, Number)| (t.0.id, t.1@))
}

spec fn plain_free(t: Option<(Variable, Number)>) -> Option<(u64, int)> {
    match t {
        Some((v, c)) => Some((v.id, c@)),
        None => None,
    }
}

fn is_roomy(x: Number) -> (r: bool)
    ensures r == zone_model::roomy(x@),
{
    -constraints::REACH <= x.n && x.n <= constraints::REACH
}

impl ZoneDomain {
    spec fn vm(&self) -> VertexOf {
        self.vert_map@
    }

    /// The constraints of the zone.
    pub closed spec fn z(&self) -> ZEdges {
        zone_map::zof(self.core.edges(), self.vert_map@)
    }

    /// The vertices of the variables.
    pub closed spec fn layout(&self) -> VertexOf {
        self.vert_map@
    }

    /// The variables that have a vertex.
    pub closed spec fn held(&self) -> Set<u64> {
        self.vert_map@.dom()
    }

    /// The two directions of the assignment of vertices agree, and every allocated vertex is
    /// zero or a variable's.
    pub closed spec fn wf(&self) -> bool {
        &&& self.core.wf()
        &&& self.core.stable()
        &&& self.rev_map@.len() == self.core.gsize()
        &&& self.rev_map@[0] is None
        &&& zone_map::one_to_one(self.vm())
        &&& self.vm().dom().finite()
        &&& forall|u: u64| #[trigger] self.core.live(u) ==> zone_map::named(self.vm(), u)
        &&& forall|k: u64| #[trigger] self.vm().contains_key(k) ==>
                self.core.live(self.vm()[k]) && self.rev_map@[self.vm()[k] as int] == Some(Variable { id: k })
        &&& forall|u: int| 0 <= u < self.rev_map@.len() && (#[trigger] self.rev_map@[u]) is Some ==>
                self.vm().contains_key(self.rev_map@[u]->Some_0.id) && self.vm()[self.rev_map@[u]->Some_0.id] == u
    }

    proof fn lemma_covered(&self)
        requires self.wf(),
        ensures zone_map::covered(self.core.edges(), self.vm()),
    {
        self.core.lemma_edge_live();
    }

    /// The constraints are between nodes.
    pub proof fn constraints_are_proper(&self)
        ensures zone_model::proper(self.z()),
    {
        zone_map::lemma_proper(self.core.edges(), self.vm());
    }

    /// A zone without constraints.
    pub fn new() -> (r: Self)
        ensures r.wf(), r.z() == ZEdges::empty(), r.held() == Set::<u64>::empty(),
    {
        let core = SplitDBM::new();
        let mut rev_map: Vec<Option<Variable>> = Vec::new();
        rev_map.push(None);
        let r = ZoneDomain { core, vert_map: OrdMap::new(), rev_map };
        assert(r.z() =~= ZEdges::empty());
        assert(r.held() =~= Set::<u64>::empty());
        r
    }

    /// Drops every constraint.
    pub fn set_to_top(&mut self)
        ensures final(self).wf(), final(self).z() == ZEdges::empty(),
    {
        *self = ZoneDomain::new();
    }

    /// A zone without constraints.
    pub fn top() -> (r: Self)
        ensures r.wf(), r.z() == ZEdges::empty(),
    {
        Self::new()
    }

    /// Whether there are no constraints.
    pub fn is_top(&self) -> (r: bool)
        requires self.wf(),
        ensures r == (self.z() == ZEdges::empty()),
    {
        proof {
            self.lemma_covered();
            zone_map::lemma_zof_empty(self.core.edges(), self.vm());
        }
        self.core.is_top()
    }

    /// The number of constraints, as edges between vertices.
    pub closed spec fn edge_count(&self) -> nat {
        self.core.edges().dom().len()
    }

    /// The number of vertex slots, zero's included.
    pub closed spec fn slot_count(&self) -> nat {
        self.core.gsize()
    }

    /// The number of vertex slots and of edges.
    pub fn size(&self) -> (r: (usize, usize))
        requires self.wf(),
        ensures r.0 == self.slot_count(), r.1 == self.edge_count(),
    {
        (self.core.graph_size(), self.core.num_edges())
    }

    /// The vertices of the variables.
    pub fn vertices(&self) -> (r: &VertMap)
        ensures r@ == self.layout(), r@.dom() == self.held(),
    {
        &self.vert_map
    }

    /// The matrix behind the zone.
    pub fn matrix(&self) -> (r: &SplitDBM)
        requires self.wf(),
        ensures r.wf(), self.z() == zone_map::zof(r.edges(), self.layout()),
    {
        &self.core
    }

    fn get_vertid(&self, x: Variable) -> (r: Option<VertId>)
        ensures r == (if self.vm().contains_key(x.id) { Some(self.vm()[x.id]) } else { None }),
    {
        self.vert_map.get(x.id)
    }

    /// The vertex of a variable, allocated where there is none.
    fn get_vert(&mut self, v: Variable) -> (r: VertId)
        requires old(self).wf(),
        ensures
            final(self).wf(),
            final(self).z() == old(self).z(),
            final(self).vm().contains_key(v.id),
            final(self).vm()[v.id] == r,
            final(self).core.edges() == old(self).core.edges(),
            forall|k: u64| #[trigger] old(self).vm().contains_key(k) ==> final(self).vm().contains_key(k) && final(self).vm()[k] == old(self).vm()[k],
    {
        match self.vert_map.get(v.id) {
            Some(u) => u,
            None => {
                let ghost before = *self;
                proof { self.core.lemma_edge_live(); self.lemma_covered(); }
                let u: VertId = self.core.new_vertex();
                proof {
                    assert(!zone_map::named(before.vm(), u)) by {
                        if zone_map::named(before.vm(), u) {
                            let k = choose|k: u64| #[trigger] before.vm().contains_key(k) && before.vm()[k] == u;
                            assert(before.core.live(before.vm()[k]));
                        }
                    }
                    zone_map::lemma_zof_extend(before.core.edges(), before.vm(), v.id, u);
                }
                self.vert_map.insert(v.id, u);
                let n: usize = self.rev_map.len();
                proof {
                    assert(u < before.core.gsize() ==> before.rev_map@[u as int] is None);
                }
                if (u as usize) < n && u < n as u64 {
                    self.rev_map.set(u as usize, Some(v));
                } else {
                    self.rev_map.push(Some(v));
                }
                proof {
                    self.core.lemma_edge_live();
                    assert forall|w: u64| #[trigger] self.core.live(w) implies zone_map::named(self.vm(), w) by {
                        if w == u {
                            assert(self.vm().contains_key(v.id) && self.vm()[v.id] == w);
                        } else {
                            zone_map::lemma_named_mono(before.vm(), self.vm(), w);
                        }
                    }
                    assert forall|k: u64| #[trigger] self.vm().contains_key(k) implies
                        self.core.live(self.vm()[k]) && self.rev_map@[self.vm()[k] as int] == Some(Variable { id: k }) by {
                        if k != v.id {
                            assert(before.vm().contains_key(k));
                            assert(before.core.live(before.vm()[k]));
                            assert(before.vm()[k] < before.core.gsize());
                        }
                    }
                    assert forall|w: int| 0 <= w < self.rev_map@.len() && (#[trigger] self.rev_map@[w]) is Some implies
                        self.vm().contains_key(self.rev_map@[w]->Some_0.id) && self.vm()[self.rev_map@[w]->Some_0.id] == w by {
                        if w != u {
                            assert(before.rev_map@[w] is Some);
                        }
                    }
                }
                u
            }
        }
    }

    fn get_lb(&self, x: Variable) -> (r: Bound)
        requires self.wf(),
        ensures r == zone_model::lower(self.z(), x.id),
    {
        proof {
            self.core.lemma_edge_live();
            assert(((x.id + 1) - 1) as u64 == x.id);
        }
        match self.get_vertid(x) {
            Some(v) => {
                assert(self.core.live(self.vm()[x.id]));
                self.core.get_bound(v, Side::Left)
            }
            None => MINUS_INFINITY,
        }
    }

    fn raw_ub(&self, x: Variable) -> (r: Bound)
        requires self.wf(),
        ensures r == zone_model::upper(self.z(), x.id),
    {
        proof {
            self.core.lemma_edge_live();
            assert(((x.id + 1) - 1) as u64 == x.id);
        }
        match self.get_vertid(x) {
            Some(v) => {
                assert(self.core.live(self.vm()[x.id]));
                self.core.get_bound(v, Side::Right)
            }
            None => PLUS_INFINITY,
        }
    }

    fn get_ub(&self, x: Variable, registry: &VariableRegistry) -> (r: Bound)
        requires self.wf(), registry@.knows(x),
        ensures r == zone_model::counted_upper(self.z(), x.id, min_only_of(registry@)),
    {
        if registry.is_min_only(x) {
            return PLUS_INFINITY;
        }
        self.raw_ub(x)
    }

    /// The interval of a variable.
    pub fn eval_interval_var(&self, v: Variable, _registry: &VariableRegistry) -> (r: Interval)
        requires self.wf(),
        ensures r == zone_model::zinterval(self.z(), v.id),
    {
        self.interval_of(v)
    }

    /// The interval of an expression.
    pub fn eval_interval(&self, e: &LinearExpression, _registry: &VariableRegistry) -> (r: Interval)
        requires self.wf(),
        ensures r == zone_model::zeval(self.z(), e),
    {
        self.interval_of_sum(e)
    }

    fn interval_of(&self, v: Variable) -> (r: Interval)
        requires self.wf(),
        ensures r == zone_model::zinterval(self.z(), v.id),
    {
        Interval::new(self.get_lb(v), self.raw_ub(v))
    }

    fn interval_of_sum(&self, e: &LinearExpression) -> (r: Interval)
        requires self.wf(),
        ensures r == zone_model::zeval(self.z(), e),
    {
        let mut r = Interval::from_number(e.constant);
        let n: usize = e.terms.len();
        let ghost s = e.terms.entries();
        let mut i: usize = 0;
        while i < n
            invariant
                self.wf(),
                i <= n,
                n == s.len(),
                s == e.terms.entries(),
                r == zone_model::eval_prefix(self.z(), e.constant, s, i as nat),
            decreases n - i,
        {
            let v = Variable::new(e.terms.key_at(i));
            let c: Number = e.terms.value_at(i);
            let t = Interval::from_number(c).mul(&self.interval_of(v));
            r = r.add(&t);
            i = i + 1;
        }
        r
    }

    /// The potential of a variable; zero where it has no vertex.
    spec fn potential_of(&self, v: u64) -> Number {
        if self.vm().contains_key(v) { self.core.pot()[self.vm()[v] as int] } else { Number { n: 0 } }
    }

    /// The value of a constant and the first `n` terms under the potentials, which are taken
    /// relative to that of zero. Every step rounds to the nearest number.
    spec fn potential_value(&self, c: Number, s: Seq<(u64, Number)>, n: nat) -> Number
        decreases n,
    {
        if n == 0 {
            c
        } else {
            let height = Number::nearest(self.potential_of(s[n - 1].0)@ - self.core.pot()[0]@);
            Number::nearest(self.potential_value(c, s, (n - 1) as nat)@ + Number::nearest(height@ * s[n - 1].1@)@)
        }
    }

    fn pot_value(&self, v: Variable) -> (r: Weight)
        requires self.wf(),
        ensures r == self.potential_of(v.id),
    {
        match self.get_vertid(v) {
            Some(y) => {
                proof {
                    assert(self.core.live(self.vm()[v.id]));
                    self.core.lemma_edge_live();
                }
                self.core.potential_at(y)
            }
            None => Number::of(0),
        }
    }

    /// The value of an expression under the potentials.
    fn eval_expression(&self, e: &LinearExpression) -> (r: Weight)
        requires self.wf(),
        ensures r == self.potential_value(e.constant, e.terms.entries(), e.terms.entries().len()),
    {
        let mut r: Weight = e.constant;
        let n: usize = e.terms.len();
        let mut i: usize = 0;
        while i < n
            invariant
                self.wf(),
                i <= n,
                n == e.terms.entries().len(),
                r == self.potential_value(e.constant, e.terms.entries(), i as nat),
            decreases n - i,
        {
            let v = Variable::new(e.terms.key_at(i));
            let c: Number = e.terms.value_at(i);
            let d: Number = self.pot_value(v).sub(self.core.potential_at_zero());
            r = r.add(d.mul(c));
            i = i + 1;
        }
        r
    }

    /// The interval of the opposite of an expression without one variable's term.
    fn compute_residual(&self, e: &LinearExpression, pivot: Variable) -> (r: Interval)
        requires self.wf(),
        ensures r == residual(self.z(), e, pivot.id),
    {
        let mut r = Interval::from_number(e.constant.neg());
        let n: usize = e.terms.len();
        let ghost s = e.terms.entries();
        let mut i: usize = 0;
        while i < n
            invariant
                self.wf(),
                i <= n,
                n == s.len(),
                s == e.terms.entries(),
                r == residual_prefix(self.z(), e.constant, s, pivot.id, i as nat),
            decreases n - i,
        {
            let v = Variable::new(e.terms.key_at(i));
            let c: Number = e.terms.value_at(i);
            if v.id != pivot.id {
                let t = Interval::from_number(c).mul(&self.interval_of(v));
                r = r.sub(&t);
            }
            i = i + 1;
        }
        r
    }

    /// Forgets a variable.
    pub fn havoc(&mut self, v: Variable)
        requires old(self).wf(),
        ensures
            final(self).wf(),
            final(self).z() == zone_model::zwithout(old(self).z(), zone_model::node(v.id)),
            final(self).held() == old(self).held().remove(v.id),
    {
        let ghost before = *self;
        match self.get_vertid(v) {
            Some(y) => {
                proof {
                    assert(self.core.live(self.vm()[v.id]));
                    self.core.lemma_edge_live();
                    self.lemma_covered();
                    zone_map::lemma_zof_without(before.core.edges(), before.vm(), v.id);
                }
                assert((y as int) < self.rev_map.len());
                self.core.forget(y);
                self.rev_map.set(y as usize, None);
                self.vert_map.remove(v.id);
                proof {
                    assert forall|w: u64| #[trigger] self.core.live(w) implies zone_map::named(self.vm(), w) by {
                        assert(before.core.live(w));
                        if w != 0 {
                            let k = choose|k: u64| #[trigger] before.vm().contains_key(k) && before.vm()[k] == w;
                            assert(self.vm().contains_key(k) && self.vm()[k] == w);
                        }
                    }
                    assert forall|k: u64| #[trigger] self.vm().contains_key(k) implies
                        self.core.live(self.vm()[k]) && self.rev_map@[self.vm()[k] as int] == Some(Variable { id: k }) by {
                        assert(before.vm().contains_key(k));
                        assert(before.vm()[k] != before.vm()[v.id]);
                        assert(before.core.live(before.vm()[k]));
                    }
                    assert forall|w: int| 0 <= w < self.rev_map@.len() && (#[trigger] self.rev_map@[w]) is Some implies
                        self.vm().contains_key(self.rev_map@[w]->Some_0.id) && self.vm()[self.rev_map@[w]->Some_0.id] == w by {
                        assert(before.rev_map@[w] is Some);
                    }
                    assert(self.held() =~= before.held().remove(v.id));
                }
            }
            None => {
                proof {
                    zone_map::lemma_zof_absent(self.core.edges(), self.vm(), v.id);
                    assert(self.held() =~= before.held().remove(v.id));
                }
            }
        }
    }

    /// Replaces the bounds of a variable by those of an interval.
    pub(crate) fn put(&mut self, x: Variable, intv: &Interval, registry: &VariableRegistry)
        requires old(self).wf(), registry@.knows(x),
        ensures
            final(self).wf(),
            final(self).z() == zone_model::zput(old(self).z(), x.id, *intv, registry@.min_only(x)),
    {
        self.havoc(x);
        let ghost cleared = self.z();
        if intv.lb.is_infinite() && intv.ub.is_infinite() {
            return;
        }
        let v: VertId = self.get_vert(x);
        let ghost vm = self.vm();
        proof {
            assert(zone_map::on_map(vm, zone_model::node(x.id)));
            assert(zone_map::vert(vm, zone_model::node(x.id)) == v);
            assert(self.core.live(self.vm()[x.id]));
        }
        if !registry.is_min_only(x) {
            match intv.ub {
                ExtendedNumber::Finite(n) => {
                    let ghost before = *self;
                    proof {
                        zone_map::lemma_node(vm, zone_model::node(x.id));
                        zone_map::lemma_zof_insert(self.core.edges(), vm, 0, zone_model::node(x.id), n);
                    }
                    self.core.set_bound(v, Side::Right, &n);
                    proof { self.lemma_same_maps(&before); }
                }
                _ => {}
            }
        }
        match intv.lb {
            ExtendedNumber::Finite(n) => {
                let ghost before = *self;
                proof {
                    zone_map::lemma_node(vm, zone_model::node(x.id));
                    zone_map::lemma_zof_insert(self.core.edges(), vm, zone_model::node(x.id), 0, Number::nearest(-n@));
                }
                self.core.set_bound(v, Side::Left, &n);
                proof { self.lemma_same_maps(&before); }
            }
            _ => {}
        }
    }

    /// A change of the edges alone keeps the assignment of vertices.
    proof fn lemma_same_maps(&self, before: &ZoneDomain)
        requires
            before.wf(),
            self.core.wf(),
            self.core.stable(),
            self.core.gsize() == before.core.gsize(),
            self.vert_map@ == before.vert_map@,
            self.rev_map@ == before.rev_map@,
            forall|u: u64| #[trigger] self.core.live(u) == before.core.live(u),
        ensures self.wf(),
    {
        assert forall|k: u64| #[trigger] self.vm().contains_key(k) implies
            self.core.live(self.vm()[k]) && self.rev_map@[self.vm()[k] as int] == Some(Variable { id: k }) by {
            assert(before.vm().contains_key(k));
            assert(before.core.live(before.vm()[k]));
        }
    }

    /// Replaces the bounds of a variable by those of a nonempty interval.
    pub fn set(&mut self, x: Variable, intv: &Interval, registry: &VariableRegistry)
        requires old(self).wf(), registry@.knows(x), !intv.is_empty_spec(),
        ensures
            final(self).wf(),
            final(self).z() == zone_model::zput(old(self).z(), x.id, *intv, registry@.min_only(x)),
    {
        self.put(x, intv, registry);
    }
}

/// The interval of the opposite of the constant and the first `n` terms but one variable's.
pub open spec fn residual_prefix(z: ZEdges, c: Number, s: Seq<(u64, Number)>, pivot: u64, n: nat) -> Interval
    decreases n,
{
    if n == 0 {
        Interval::point(Number::nearest(-c@))
    } else {
        let r = residual_prefix(z, c, s, pivot, (n - 1) as nat);
        if s[n - 1].0 == pivot { r } else { r.sub_spec(Interval::point(s[n - 1].1).mul_spec(zone_model::zinterval(z, s[n - 1].0))) }
    }
}

/// The interval of the opposite of an expression without one variable's term.
pub open spec fn residual(z: ZEdges, e: &LinearExpression, pivot: u64) -> Interval {
    residual_prefix(z, e.constant, e.terms.entries(), pivot, e.terms.entries().len())
}

/// The value that a disequation excludes for the variable of a term, where the rest of the
/// expression has one value.
pub open spec fn excluded_value(e: &LinearExpression) -> spec_fn(ZEdges, int) -> Option<Number> {
    |z: ZEdges, i: int| residual(z, e, e.terms.entries()[i].0)
        .divide_spec(crate::interval::Division::General, Interval::point(e.terms.entries()[i].1)).singleton_spec()
}

/// `n` is the opposite of `e`.
pub open spec fn is_opposite(e: &LinearExpression, n: &LinearExpression) -> bool {
    &&& n.orderly()
    &&& n.constant@ == number::saturate(-e.constant@)
    &&& n.terms@ == linear_expression::combined(Map::<u64, Number>::empty(), -1, e.terms@)
    &&& e.negation_fits() ==> forall|env: Env| #[trigger] n.eval(env) == -e.eval(env)
}

/// What a zone becomes when a constraint is added to it.
pub open spec fn constraint_added(z0: ZEdges, cst: &LinearConstraint, mo: spec_fn(u64) -> bool, z1: ZEdges) -> bool {
    let e = &cst.expression;
    if cst.is_tautology_spec() {
        z1 == z0
    } else {
        match cst.kind {
            ConstraintKind::LessThanOrEqualsZero => zone_model::leq_added(z0, e.constant, e.terms.entries(), mo, z1),
            ConstraintKind::LessThanZero => zone_model::leq_added(z0, Number::nearest(e.constant@ + 1), e.terms.entries(), mo, z1),
            ConstraintKind::EqualsZero => exists|mid: ZEdges, n: LinearExpression| #![trigger zone_model::leq_added(mid, n.constant, n.terms.entries(), mo, z1)]
                zone_model::leq_added(z0, e.constant, e.terms.entries(), mo, mid) && is_opposite(e, &n)
                && zone_model::leq_added(mid, n.constant, n.terms.entries(), mo, z1),
            ConstraintKind::NotZero => zone_model::disequated(z0, excluded_value(e), e.terms.entries(), mo, e.terms.entries().len(), z1),
        }
    }
}

/// A zone in which a constraint cannot hold.
pub open spec fn constraint_refuted(z0: ZEdges, cst: &LinearConstraint, mo: spec_fn(u64) -> bool) -> bool {
    let e = &cst.expression;
    cst.is_contradiction_spec() || match cst.kind {
        ConstraintKind::LessThanOrEqualsZero => zone_model::leq_refuted(z0, e.constant, e.terms.entries(), mo),
        ConstraintKind::LessThanZero => zone_model::leq_refuted(z0, Number::nearest(e.constant@ + 1), e.terms.entries(), mo),
        ConstraintKind::EqualsZero => zone_model::leq_refuted(z0, e.constant, e.terms.entries(), mo)
            || exists|mid: ZEdges, n: LinearExpression| #![trigger zone_model::leq_refuted(mid, n.constant, n.terms.entries(), mo)]
                zone_model::leq_added(z0, e.constant, e.terms.entries(), mo, mid) && is_opposite(e, &n)
                && zone_model::leq_refuted(mid, n.constant, n.terms.entries(), mo),
        ConstraintKind::NotZero => zone_model::disequation_refuted(z0, excluded_value(e), e.terms.entries(), mo),
    }
}

/// A constraint that can be added to a zone and leaves it a solution.
pub open spec fn addable(z: ZEdges, cst: &LinearConstraint, mo: spec_fn(u64) -> bool) -> bool {
    cst.is_tautology_spec() || exists|z1: ZEdges| #[trigger] constraint_added(z, cst, mo, z1)
}

/// Expressions whose sums with one and whose opposites are exact.
pub open spec fn exact_constraint(cst: &LinearConstraint) -> bool {
    &&& cst.kind is LessThanZero ==> cst.expression.constant@ < i128::MAX
    &&& cst.kind is EqualsZero ==> cst.expression.negation_fits()
}

/// Truncated division by a positive number does not grow.
proof fn lemma_trunc_range(u: int, c: int)
    requires c >= 1,
    ensures
        u >= 0 ==> 0 <= number::trunc_div(u, c) <= u,
        u < 0 ==> u <= number::trunc_div(u, c) <= 0,
{
    if u >= 0 {
        assert(0 <= u / c <= u) by (nonlinear_arith) requires c >= 1, u >= 0;
    } else {
        let m = -u;
        assert(0 <= m / c <= m) by (nonlinear_arith) requires c >= 1, m >= 0;
    }
}

spec fn sizes_in_range(ts: Seq<(Variable, Number, Number)>) -> bool {
    forall|i: int| 0 <= i < ts.len() ==> (#[trigger] ts[i]).1@ >= 1 && zone_model::roomy(ts[i].2@)
}

/// The sum of three numbers, cut off at the range of numbers once.
fn sum_of_three(a: Number, b: Number, c: Number) -> (r: Number)
    ensures r@ == number::saturate(a@ + b@ + c@),
{
    if a.is_negative() != b.is_negative() {
        a.add(b).add(c)
    } else if a.is_negative() != c.is_negative() {
        a.add(c).add(b)
    } else {
        a.add(b).add(c)
    }
}

/// Each bound, moved by a share of `u`.
fn shifted(u: Number, ts: &Vec<(Variable, Number, Number)>) -> (r: Vec<(Variable, Number)>)
    requires zone_model::roomy(u@), sizes_in_range(ts@),
    ensures
        r.len() == ts.len(),
        forall|i: int| 0 <= i < r.len() ==> (#[trigger] r@[i]).0 == ts@[i].0
            && r@[i].1@ == number::saturate(number::trunc_div(u@, ts@[i].1@) + ts@[i].2@),
{
    let mut r: Vec<(Variable, Number)> = Vec::new();
    let mut i: usize = 0;
    while i < ts.len()
        invariant
            zone_model::roomy(u@),
            sizes_in_range(ts@),
            i <= ts.len(),
            r.len() == i,
            forall|j: int| 0 <= j < i ==> (#[trigger] r@[j]).0 == ts@[j].0
                && r@[j].1@ == number::saturate(number::trunc_div(u@, ts@[j].1@) + ts@[j].2@),
        decreases ts.len() - i,
    {
        let t = ts[i];
        proof { lemma_trunc_range(u@, t.1@); }
        r.push((t.0, u.div(t.1).add(t.2)));
        i = i + 1;
    }
    r
}

/// The differences of `x` to each variable of the list.
fn below_each(x: Variable, ub: Number, ts: &Vec<(Variable, Number, Number)>) -> (r: Vec<(Variable, Variable, Number)>)
    requires zone_model::roomy(ub@), sizes_in_range(ts@),
    ensures
        r.len() == ts.len(),
        forall|i: int| 0 <= i < r.len() ==> (#[trigger] r@[i]).0 == x && r@[i].1 == ts@[i].0 && r@[i].2@ == number::saturate(ub@ - ts@[i].2@),
{
    let mut r: Vec<(Variable, Variable, Number)> = Vec::new();
    let mut i: usize = 0;
    while i < ts.len()
        invariant
            zone_model::roomy(ub@),
            sizes_in_range(ts@),
            i <= ts.len(),
            r.len() == i,
            forall|j: int| 0 <= j < i ==> (#[trigger] r@[j]).0 == x && r@[j].1 == ts@[j].0 && r@[j].2@ == number::saturate(ub@ - ts@[j].2@),
        decreases ts.len() - i,
    {
        let t = ts[i];
        r.push((x, t.0, ub.sub(t.2)));
        i = i + 1;
    }
    r
}

/// The differences of each variable of the list to `y`.
fn each_below(y: Variable, ub: Number, ts: &Vec<(Variable, Number, Number)>) -> (r: Vec<(Variable, Variable, Number)>)
    requires zone_model::roomy(ub@), sizes_in_range(ts@),
    ensures
        r.len() == ts.len(),
        forall|i: int| 0 <= i < r.len() ==> (#[trigger] r@[i]).0 == ts@[i].0 && r@[i].1 == y && r@[i].2@ == number::saturate(ub@ + ts@[i].2@),
{
    let mut r: Vec<(Variable, Variable, Number)> = Vec::new();
    let mut i: usize = 0;
    while i < ts.len()
        invariant
            zone_model::roomy(ub@),
            sizes_in_range(ts@),
            i <= ts.len(),
            r.len() == i,
            forall|j: int| 0 <= j < i ==> (#[trigger] r@[j]).0 == ts@[j].0 && r@[j].1 == y && r@[j].2@ == number::saturate(ub@ + ts@[j].2@),
        decreases ts.len() - i,
    {
        let t = ts[i];
        r.push((t.0, y, ub.add(t.2)));
        i = i + 1;
    }
    r
}

spec fn pair_diff(ub: int, p: (Variable, Number, Number), n: (Variable, Number, Number), d: (Variable, Variable, Number)) -> bool {
    d.0 == p.0 && d.1 == n.0 && d.2@ == number::saturate(ub - n.2@ + p.2@)
}

/// The difference belongs to some pair.
spec fn from_pair(ub: int, pos: Seq<(Variable, Number, Number)>, neg: Seq<(Variable, Number, Number)>, d: (Variable, Variable, Number)) -> bool {
    exists|i: int, j: int| 0 <= i < pos.len() && 0 <= j < neg.len() && #[trigger] pair_diff(ub, pos[i], neg[j], d)
}

/// The list holds the difference of a pair.
spec fn holds_pair(r: Seq<(Variable, Variable, Number)>, ub: int, p: (Variable, Number, Number), n: (Variable, Number, Number)) -> bool {
    exists|q: int| 0 <= q < r.len() && #[trigger] pair_diff(ub, p, n, r[q])
}

proof fn lemma_holds_pair_push(r: Seq<(Variable, Variable, Number)>, d: (Variable, Variable, Number), ub: int, p: (Variable, Number, Number), n: (Variable, Number, Number))
    ensures
        holds_pair(r, ub, p, n) ==> holds_pair(r.push(d), ub, p, n),
        pair_diff(ub, p, n, d) ==> holds_pair(r.push(d), ub, p, n),
{
    if holds_pair(r, ub, p, n) {
        let q = choose|q: int| 0 <= q < r.len() && #[trigger] pair_diff(ub, p, n, r[q]);
        assert(pair_diff(ub, p, n, r.push(d)[q]));
    }
    if pair_diff(ub, p, n, d) {
        assert(pair_diff(ub, p, n, r.push(d)[r.len() as int]));
    }
}

/// The differences of each variable of one list to each of another.
fn each_pair(ub: Number, pos: &Vec<(Variable, Number, Number)>, neg: &Vec<(Variable, Number, Number)>) -> (r: Vec<(Variable, Variable, Number)>)
    requires zone_model::roomy(ub@), sizes_in_range(pos@), sizes_in_range(neg@),
    ensures
        forall|q: int| 0 <= q < r.len() ==> from_pair(ub@, pos@, neg@, #[trigger] r@[q]),
        forall|i: int, j: int| 0 <= i < pos.len() && 0 <= j < neg.len() ==> #[trigger] holds_pair(r@, ub@, pos@[i], neg@[j]),
{
    let mut r: Vec<(Variable, Variable, Number)> = Vec::new();
    let mut b: usize = 0;
    while b < neg.len()
        invariant
            zone_model::roomy(ub@),
            sizes_in_range(pos@),
            sizes_in_range(neg@),
            b <= neg.len(),
            forall|q: int| 0 <= q < r.len() ==> from_pair(ub@, pos@, neg@, #[trigger] r@[q]),
            forall|i: int, j: int| 0 <= i < pos.len() && 0 <= j < b ==> #[trigger] holds_pair(r@, ub@, pos@[i], neg@[j]),
        decreases neg.len() - b,
    {
        let t = neg[b];
        let mut a: usize = 0;
        while a < pos.len()
            invariant
                zone_model::roomy(ub@),
                sizes_in_range(pos@),
                sizes_in_range(neg@),
                b < neg.len(),
                t == neg@[b as int],
                a <= pos.len(),
                forall|q: int| 0 <= q < r.len() ==> from_pair(ub@, pos@, neg@, #[trigger] r@[q]),
                forall|i: int, j: int| 0 <= i < pos.len() && 0 <= j < b ==> #[trigger] holds_pair(r@, ub@, pos@[i], neg@[j]),
                forall|i: int| 0 <= i < a ==> #[trigger] holds_pair(r@, ub@, pos@[i], neg@[b as int]),
            decreases pos.len() - a,
        {
            let p = pos[a];
            let ghost before = r@;
            let d = (p.0, t.0, sum_of_three(ub, t.2.neg(), p.2));
            r.push(d);
            proof {
                assert(zone_model::roomy(p.2@) && zone_model::roomy(t.2@));
                assert(pair_diff(ub@, pos@[a as int], neg@[b as int], d));
                assert forall|i: int, j: int| 0 <= i < pos.len() && 0 <= j < b implies #[trigger] holds_pair(r@, ub@, pos@[i], neg@[j]) by {
                    assert(holds_pair(before, ub@, pos@[i], neg@[j]));
                    lemma_holds_pair_push(before, d, ub@, pos@[i], neg@[j]);
                }
                assert forall|i: int| 0 <= i < a + 1 implies #[trigger] holds_pair(r@, ub@, pos@[i], neg@[b as int]) by {
                    if i < a { assert(holds_pair(before, ub@, pos@[i], neg@[b as int])); }
                    lemma_holds_pair_push(before, d, ub@, pos@[i], neg@[b as int]);
                }
            }
            a = a + 1;
        }
        b = b + 1;
    }
    r
}

/// The terms of an inequality, sorted by what is known of their variables.
struct Collected {
    ub: Number,
    lo: Option<(Variable, Number)>,
    hi: Option<(Variable, Number)>,
    pos: Vec<(Variable, Number, Number)>,
    neg: Vec<(Variable, Number, Number)>,
}

impl Collected {
    spec fn is(&self, st: zone_model::LeqScan) -> bool {
        &&& st.ok
        &&& st.ub == self.ub@
        &&& st.lo == plain_free(self.lo)
        &&& st.hi == plain_free(self.hi)
        &&& st.pos == plain_terms(self.pos@)
        &&& st.neg == plain_terms(self.neg@)
    }
}

impl ZoneDomain {
    /// Sorts the terms of `exp <= 0`; nothing where too many have no bound or a sum is out of range.
    fn collect_leq(&self, exp: &LinearExpression) -> (r: Option<Collected>)
        requires self.wf(),
        ensures
            match r {
                Some(c) => c.is(zone_model::leq_of(self.z(), exp)),
                None => !zone_model::leq_of(self.z(), exp).ok,
            },
    {
        let ghost z = self.z();
        let ghost s = exp.terms.entries();
        let ghost k = exp.constant;
        let ghost whole = zone_model::leq_of(z, exp);
        let mut pos: Vec<(Variable, Number, Number)> = Vec::new();
        let mut neg: Vec<(Variable, Number, Number)> = Vec::new();
        let mut lo: Option<(Variable, Number)> = None;
        let mut hi: Option<(Variable, Number)> = None;
        let mut ub: Number = exp.constant.neg();
        let n: usize = exp.terms.len();
        if !is_roomy(exp.constant) {
            proof { zone_model::leq_failed(z, k, s, 0, s.len()); }
            return None;
        }
        let mut i: usize = 0;
        assert(plain_terms(pos@) =~= seq![]);
        while i < n
            invariant
                self.wf(),
                z == self.z(),
                s == exp.terms.entries(),
                k == exp.constant,
                whole == zone_model::leq_of(z, exp),
                i <= n,
                n == s.len(),
                ({
                    let st = zone_model::leq_scan(z, k, s, i as nat);
                    &&& st.ok
                    &&& st.ub == ub@
                    &&& st.lo == plain_free(lo)
                    &&& st.hi == plain_free(hi)
                    &&& st.pos == plain_terms(pos@)
                    &&& st.neg == plain_terms(neg@)
                }),
            decreases n - i,
        {
            let y = Variable::new(exp.terms.key_at(i));
            let c: Number = exp.terms.value_at(i);
            let ghost st = zone_model::leq_scan(z, k, s, i as nat);
            let ghost next = zone_model::leq_scan(z, k, s, (i + 1) as nat);
            proof { zone_model::leq_ranges(z, k, s, i as nat); }
            if c.is_zero() {
            } else if c.is_positive() {
                match self.get_lb(y) {
                    ExtendedNumber::Finite(m) => {
                        let p: Number = m.mul(c);
                        let u: Number = ub.sub(p);
                        if !is_roomy(m) || !is_roomy(p) || !is_roomy(u) {
                            proof { zone_model::leq_failed(z, k, s, (i + 1) as nat, s.len()); }
                            return None;
                        }
                        ub = u;
                        let ghost before = pos@;
                        pos.push((y, c, m));
                        assert(plain_terms(pos@) =~= plain_terms(before).push((y.id, c@, m@)));
                    }
                    _ => {
                        if lo.is_some() {
                            proof { zone_model::leq_failed(z, k, s, (i + 1) as nat, s.len()); }
                            return None;
                        }
                        lo = Some((y, c));
                    }
                }
            } else {
                match self.interval_of(y).ub {
                    ExtendedNumber::Finite(m) => {
                        let p: Number = m.mul(c);
                        let u: Number = ub.sub(p);
                        if c.n == i128::MIN || !is_roomy(m) || !is_roomy(p) || !is_roomy(u) {
                            proof { zone_model::leq_failed(z, k, s, (i + 1) as nat, s.len()); }
                            return None;
                        }
                        ub = u;
                        let ghost before = neg@;
                        neg.push((y, c.neg(), m));
                        assert(plain_terms(neg@) =~= plain_terms(before).push((y.id, -c@, m@)));
                    }
                    _ => {
                        if hi.is_some() || c.n == i128::MIN {
                            proof { zone_model::leq_failed(z, k, s, (i + 1) as nat, s.len()); }
                            return None;
                        }
                        hi = Some((y, c.neg()));
                    }
                }
            }
            i = i + 1;
        }
        Some(Collected { ub, lo, hi, pos, neg })
    }

    /// The bounds and differences that follow from `exp <= 0`.
    fn diffcsts_of_lin_leq(&self, exp: &LinearExpression) -> (r: (Vec<(Variable, Variable, Number)>, Vec<(Variable, Number)>, Vec<(Variable, Number)>))
        requires self.wf(),
        ensures
            ({
                let st = zone_model::leq_of(self.z(), exp);
                &&& lists_diffs(r.0@, |x: u64, y: u64, w: int| zone_model::diff_due(st, x, y, w))
                &&& lists_pairs(r.1@, |v: u64, b: int| zone_model::lb_due(st, v, b))
                &&& lists_pairs(r.2@, |v: u64, b: int| zone_model::ub_due(st, v, b))
            }),
    {
        let mut csts: Vec<(Variable, Variable, Number)> = Vec::new();
        let mut lbs: Vec<(Variable, Number)> = Vec::new();
        let mut ubs: Vec<(Variable, Number)> = Vec::new();
        let ghost z = self.z();
        let ghost s = exp.terms.entries();
        let ghost k = exp.constant;
        let ghost whole = zone_model::leq_of(z, exp);
        let (ub, lo, hi, pos, neg) = match self.collect_leq(exp) {
            Some(c) => (c.ub, c.lo, c.hi, c.pos, c.neg),
            None => return (csts, lbs, ubs),
        };
        proof { zone_model::leq_ranges(z, k, s, s.len()); }
        proof {
            assert forall|q: int| 0 <= q < pos.len() implies (#[trigger] pos@[q]).1@ >= 1 && zone_model::roomy(pos@[q].2@) by {
                assert(whole.pos[q] == (pos@[q].0.id, pos@[q].1@, pos@[q].2@));
            }
            assert forall|q: int| 0 <= q < neg.len() implies (#[trigger] neg@[q]).1@ >= 1 && zone_model::roomy(neg@[q].2@) by {
                assert(whole.neg[q] == (neg@[q].0.id, neg@[q].1@, neg@[q].2@));
            }
        }
        let ghost dd = |x: u64, y: u64, w: int| zone_model::diff_due(whole, x, y, w);
        let ghost ld = |v: u64, b: int| zone_model::lb_due(whole, v, b);
        let ghost ud = |v: u64, b: int| zone_model::ub_due(whole, v, b);
        match lo {
            Some((x, xc)) => {
                match hi {
                    Some((y, yc)) => {
                        if xc.n == 1 && yc.n == 1 {
                            csts.push((x, y, ub));
                            assert(csts@[0] == (x, y, ub));
                        }
                    }
                    None => {
                        if xc.n == 1 {
                            csts = below_each(x, ub, &neg);
                            assert forall|i: int| 0 <= i < csts.len() implies dd((#[trigger] csts@[i]).0.id, csts@[i].1.id, csts@[i].2@) by {
                                assert(whole.neg[i].0 == csts@[i].1.id);
                            }
                            assert forall|a: u64, b: u64, w: int| #[trigger] dd(a, b, w) implies
                                exists|i: int| 0 <= i < csts.len() && (#[trigger] csts@[i]).0.id == a && csts@[i].1.id == b && csts@[i].2@ == w by {
                                let i = choose|i: int| 0 <= i < whole.neg.len() && (#[trigger] whole.neg[i]).0 == b && w == number::saturate(whole.ub - whole.neg[i].2);
                                assert(csts@[i].0.id == a);
                            }
                        }
                        proof { lemma_trunc_range(whole.ub, xc@); }
                        let q: Number = ub.div(xc);
                        ubs.push((x, q));
                        assert(ubs@[0] == (x, q));
                    }
                }
            }
            None => {
                match hi {
                    Some((y, yc)) => {
                        if yc.n == 1 {
                            csts = each_below(y, ub, &pos);
                            assert forall|i: int| 0 <= i < csts.len() implies dd((#[trigger] csts@[i]).0.id, csts@[i].1.id, csts@[i].2@) by {
                                assert(whole.pos[i].0 == csts@[i].0.id);
                            }
                            assert forall|a: u64, b: u64, w: int| #[trigger] dd(a, b, w) implies
                                exists|i: int| 0 <= i < csts.len() && (#[trigger] csts@[i]).0.id == a && csts@[i].1.id == b && csts@[i].2@ == w by {
                                let i = choose|i: int| 0 <= i < whole.pos.len() && (#[trigger] whole.pos[i]).0 == a && w == number::saturate(whole.ub + whole.pos[i].2);
                                assert(csts@[i].1.id == b);
                            }
                        }
                        proof { lemma_trunc_range(-whole.ub, yc@); }
                        let q: Number = ub.neg().div(yc);
                        lbs.push((y, q));
                        assert(lbs@[0] == (y, q));
                    }
                    None => {
                        csts = each_pair(ub, &pos, &neg);
                        lbs = shifted(ub.neg(), &neg);
                        ubs = shifted(ub, &pos);
                        proof {
                            assert forall|q: int| 0 <= q < csts.len() implies dd((#[trigger] csts@[q]).0.id, csts@[q].1.id, csts@[q].2@) by {
                                assert(from_pair(ub@, pos@, neg@, csts@[q]));
                                let (i, j) = choose|i: int, j: int| 0 <= i < pos.len() && 0 <= j < neg.len()
                                    && #[trigger] pair_diff(ub@, pos@[i], neg@[j], csts@[q]);
                                assert(whole.pos[i].0 == csts@[q].0.id);
                                assert(whole.neg[j].0 == csts@[q].1.id);
                            }
                            assert forall|a: u64, b: u64, w: int| #[trigger] dd(a, b, w) implies
                                exists|i: int| 0 <= i < csts.len() && (#[trigger] csts@[i]).0.id == a && csts@[i].1.id == b && csts@[i].2@ == w by {
                                let (i, j) = choose|i: int, j: int| 0 <= i < whole.pos.len() && 0 <= j < whole.neg.len()
                                    && (#[trigger] whole.pos[i]).0 == a && (#[trigger] whole.neg[j]).0 == b && w == number::saturate(whole.ub - whole.neg[j].2 + whole.pos[i].2);
                                assert(holds_pair(csts@, ub@, pos@[i], neg@[j]));
                                let q = choose|q: int| 0 <= q < csts.len() && #[trigger] pair_diff(ub@, pos@[i], neg@[j], csts@[q]);
                                assert(csts@[q].0.id == a);
                            }
                            assert forall|i: int| 0 <= i < lbs.len() implies ld((#[trigger] lbs@[i]).0.id, lbs@[i].1@) by {
                                assert(whole.neg[i].0 == lbs@[i].0.id);
                            }
                            assert forall|v: u64, b: int| #[trigger] ld(v, b) implies
                                exists|i: int| 0 <= i < lbs.len() && (#[trigger] lbs@[i]).0.id == v && lbs@[i].1@ == b by {
                                let i = choose|i: int| 0 <= i < whole.neg.len() && (#[trigger] whole.neg[i]).0 == v
                                    && b == number::saturate(number::trunc_div(-whole.ub, whole.neg[i].1) + whole.neg[i].2);
                                assert(lbs@[i].0.id == v);
                            }
                            assert forall|i: int| 0 <= i < ubs.len() implies ud((#[trigger] ubs@[i]).0.id, ubs@[i].1@) by {
                                assert(whole.pos[i].0 == ubs@[i].0.id);
                            }
                            assert forall|v: u64, b: int| #[trigger] ud(v, b) implies
                                exists|i: int| 0 <= i < ubs.len() && (#[trigger] ubs@[i]).0.id == v && ubs@[i].1@ == b by {
                                let i = choose|i: int| 0 <= i < whole.pos.len() && (#[trigger] whole.pos[i]).0 == v
                                    && b == number::saturate(number::trunc_div(whole.ub, whole.pos[i].1) + whole.pos[i].2);
                                assert(ubs@[i].0.id == v);
                            }
                        }
                    }
                }
            }
        }
        (csts, lbs, ubs)
    }
}

/// The first `n` lower bounds hold.
spec fn lbs_hold(s: Seq<(Variable, Number)>, n: int, env: Env) -> bool {
    forall|i: int| 0 <= i < n ==> env((#[trigger] s[i]).0.id) >= s[i].1@
}

/// The first `n` upper bounds hold, but for variables whose lower bound alone counts.
spec fn ubs_hold(s: Seq<(Variable, Number)>, mo: spec_fn(u64) -> bool, n: int, env: Env) -> bool {
    forall|i: int| 0 <= i < n && !mo((#[trigger] s[i]).0.id) ==> env(s[i].0.id) <= s[i].1@
}

/// The first `n` differences hold.
spec fn diffs_hold(s: Seq<(Variable, Variable, Number)>, n: int, env: Env) -> bool {
    forall|i: int| 0 <= i < n ==> env((#[trigger] s[i]).0.id) - env(s[i].1.id) <= s[i].2@
}

/// The first `n` lower bounds stand among the constraints.
spec fn lbs_stand(s: Seq<(Variable, Number)>, n: int, z: ZEdges) -> bool {
    forall|i: int| 0 <= i < n ==> zone_model::holds_edge(z, zone_model::node((#[trigger] s[i]).0.id), 0, number::saturate(-s[i].1@))
}

/// The first `n` upper bounds stand among the constraints, but for variables whose lower bound
/// alone counts.
spec fn ubs_stand(s: Seq<(Variable, Number)>, mo: spec_fn(u64) -> bool, n: int, z: ZEdges) -> bool {
    forall|i: int| 0 <= i < n && !mo((#[trigger] s[i]).0.id) ==> zone_model::holds_edge(z, 0, zone_model::node(s[i].0.id), s[i].1@)
}

/// The first `n` differences stand among the constraints.
spec fn diffs_stand(s: Seq<(Variable, Variable, Number)>, n: int, z: ZEdges) -> bool {
    forall|i: int| 0 <= i < n ==> zone_model::holds_edge(z, zone_model::node((#[trigger] s[i]).1.id), zone_model::node(s[i].0.id), s[i].2@)
}

/// The zone is closed over a difference.
spec fn diff_closed(c: (Variable, Variable, Number), z1: ZEdges, z0: ZEdges) -> bool {
    zone_model::zclosed_over(z1, z0, zone_model::node(c.1.id), zone_model::node(c.0.id), c.2@)
}

/// The zone is closed over the first `n` differences.
spec fn diffs_closed(s: Seq<(Variable, Variable, Number)>, n: int, z1: ZEdges, z0: ZEdges) -> bool {
    forall|i: int| 0 <= i < n ==> #[trigger] diff_closed(s[i], z1, z0)
}

/// What stands stays where the constraints become tighter.
proof fn lemma_stand(z0: ZEdges, a: ZEdges, b: ZEdges, lbs: Seq<(Variable, Number)>, i: int, ubs: Seq<(Variable, Number)>, mo: spec_fn(u64) -> bool, j: int,
    csts: Seq<(Variable, Variable, Number)>, k: int)
    requires
        zone_model::ztight(a, z0),
        zone_model::ztight(b, a),
    ensures
        zone_model::ztight(b, z0),
        lbs_stand(lbs, i, a) ==> lbs_stand(lbs, i, b),
        ubs_stand(ubs, mo, j, a) ==> ubs_stand(ubs, mo, j, b),
        diffs_stand(csts, k, a) ==> diffs_stand(csts, k, b),
{
    assert forall|s: int, d: int| #![trigger z0.contains_key((s, d))] z0.contains_key((s, d)) implies b.contains_key((s, d)) && b[(s, d)]@ <= z0[(s, d)]@ by {
        assert(a.contains_key((s, d)));
    }
    assert forall|s: int, d: int, w: int| #[trigger] zone_model::holds_edge(a, s, d, w) implies zone_model::holds_edge(b, s, d, w) by {
        assert(a.contains_key((s, d)));
    }
}

/// Where all that is listed stands, all that is due does, and closed bounds carry it.
proof fn lemma_dues_stand(z0: ZEdges, zb: ZEdges, z1: ZEdges, st: zone_model::LeqScan, mo: spec_fn(u64) -> bool,
    lbs: Seq<(Variable, Number)>, ubs: Seq<(Variable, Number)>, csts: Seq<(Variable, Variable, Number)>)
    requires
        lists_diffs(csts, |x: u64, y: u64, w: int| zone_model::diff_due(st, x, y, w)),
        lists_pairs(lbs, |v: u64, b: int| zone_model::lb_due(st, v, b)),
        lists_pairs(ubs, |v: u64, b: int| zone_model::ub_due(st, v, b)),
        zone_model::ztight(zb, z0),
        zone_model::ztight(z1, zb),
        zone_model::zcarried(z1, zb),
        lbs_stand(lbs, lbs.len() as int, zb),
        ubs_stand(ubs, mo, ubs.len() as int, zb),
        diffs_stand(csts, csts.len() as int, zb),
    ensures
        zone_model::dues_stand(st, mo, z1),
        zone_model::dues_carried(st, mo, z1),
        zone_model::zcarried(z1, z0),
{
    let dd = |x: u64, y: u64, w: int| zone_model::diff_due(st, x, y, w);
    let ld = |v: u64, b: int| zone_model::lb_due(st, v, b);
    let ud = |v: u64, b: int| zone_model::ub_due(st, v, b);
    lemma_stand(z0, zb, z1, lbs, lbs.len() as int, ubs, mo, ubs.len() as int, csts, csts.len() as int);
    assert forall|v: u64, b: int| #[trigger] zone_model::lb_due(st, v, b) implies
        zone_model::holds_edge(z1, zone_model::node(v), 0, number::saturate(-b)) && zone_model::lower_carried(z1, zone_model::node(v), number::saturate(-b)) by {
        assert(ld(v, b));
        let i = choose|i: int| 0 <= i < lbs.len() && (#[trigger] lbs[i]).0.id == v && lbs[i].1@ == b;
        zone_model::lemma_carried(z1, zb, zone_model::node(v), number::saturate(-lbs[i].1@));
    }
    assert forall|v: u64, b: int| #[trigger] zone_model::ub_due(st, v, b) && !mo(v) implies
        zone_model::holds_edge(z1, 0, zone_model::node(v), b) && zone_model::upper_carried(z1, zone_model::node(v), b) by {
        assert(ud(v, b));
        let i = choose|i: int| 0 <= i < ubs.len() && (#[trigger] ubs[i]).0.id == v && ubs[i].1@ == b;
        zone_model::lemma_carried(z1, zb, zone_model::node(v), ubs[i].1@);
    }
    assert forall|x: u64, y: u64, w: int| #[trigger] zone_model::diff_due(st, x, y, w) implies zone_model::holds_edge(z1, zone_model::node(y), zone_model::node(x), w) by {
        assert(dd(x, y, w));
        let i = choose|i: int| 0 <= i < csts.len() && (#[trigger] csts[i]).0.id == x && csts[i].1.id == y && csts[i].2@ == w;
        assert(csts[i].0.id == x);
    }
    assert forall|m: int| #![trigger z0.contains_key((0, m))] m != 0 && z0.contains_key((0, m)) implies zone_model::upper_carried(z1, m, z0[(0, m)]@) by {
        zone_model::lemma_carried(z1, zb, m, z0[(0, m)]@);
    }
    assert forall|m: int| #![trigger z0.contains_key((m, 0))] m != 0 && z0.contains_key((m, 0)) implies zone_model::lower_carried(z1, m, z0[(m, 0)]@) by {
        zone_model::lemma_carried(z1, zb, m, z0[(m, 0)]@);
    }
}

proof fn lemma_lists_hold(st: zone_model::LeqScan, mo: spec_fn(u64) -> bool, lbs: Seq<(Variable, Number)>, ubs: Seq<(Variable, Number)>, csts: Seq<(Variable, Variable, Number)>, env: Env)
    requires
        lists_diffs(csts, |x: u64, y: u64, w: int| zone_model::diff_due(st, x, y, w)),
        lists_pairs(lbs, |v: u64, b: int| zone_model::lb_due(st, v, b)),
        lists_pairs(ubs, |v: u64, b: int| zone_model::ub_due(st, v, b)),
    ensures
        zone_model::dues_hold(st, mo, env) == (lbs_hold(lbs, lbs.len() as int, env) && ubs_hold(ubs, mo, ubs.len() as int, env) && diffs_hold(csts, csts.len() as int, env)),
{
    let dd = |x: u64, y: u64, w: int| zone_model::diff_due(st, x, y, w);
    let ld = |v: u64, b: int| zone_model::lb_due(st, v, b);
    let ud = |v: u64, b: int| zone_model::ub_due(st, v, b);
    if zone_model::dues_hold(st, mo, env) {
        assert forall|i: int| 0 <= i < lbs.len() implies env((#[trigger] lbs[i]).0.id) >= lbs[i].1@ by {
            assert(ld(lbs[i].0.id, lbs[i].1@));
        }
        assert forall|i: int| 0 <= i < ubs.len() && !mo((#[trigger] ubs[i]).0.id) implies env(ubs[i].0.id) <= ubs[i].1@ by {
            assert(ud(ubs[i].0.id, ubs[i].1@));
        }
        assert forall|i: int| 0 <= i < csts.len() implies env((#[trigger] csts[i]).0.id) - env(csts[i].1.id) <= csts[i].2@ by {
            assert(dd(csts[i].0.id, csts[i].1.id, csts[i].2@));
        }
    }
    if lbs_hold(lbs, lbs.len() as int, env) && ubs_hold(ubs, mo, ubs.len() as int, env) && diffs_hold(csts, csts.len() as int, env) {
        assert forall|v: u64, b: int| #[trigger] zone_model::lb_due(st, v, b) implies env(v) >= b by {
            assert(ld(v, b));
        }
        assert forall|v: u64, b: int| #[trigger] zone_model::ub_due(st, v, b) && !mo(v) implies env(v) <= b by {
            assert(ud(v, b));
        }
        assert forall|x: u64, y: u64, w: int| #[trigger] zone_model::diff_due(st, x, y, w) implies env(x) - env(y) <= w by {
            assert(dd(x, y, w));
        }
    }
}

/// The interval without a value at one of its ends. The whole range without zero is read as the
/// positive numbers of sixty-four bits.
pub open spec fn trimmed(i: Interval, n: Number) -> Interval {
    if i.lb == ExtendedNumber::Finite(n) {
        Interval::of_bounds(ExtendedNumber::fin(n@ + 1), i.ub)
    } else if i.ub == ExtendedNumber::Finite(n) {
        Interval::of_bounds(i.lb, ExtendedNumber::fin(n@ - 1))
    } else if i.is_top_spec() && n@ == 0 {
        Interval::of_bounds(ExtendedNumber::fin(1), ExtendedNumber::fin(u64::MAX as int))
    } else {
        i
    }
}

/// Removes a value from an end of an interval.
fn trim_interval(i: &Interval, n: &Number) -> (r: Interval)
    ensures r == trimmed(*i, *n),
{
    if let ExtendedNumber::Finite(l) = i.lb {
        if l.n == n.n {
            return Interval::new(ExtendedNumber::Finite(n.add(Number::of(1))), i.ub);
        }
    }
    if let ExtendedNumber::Finite(u) = i.ub {
        if u.n == n.n {
            return Interval::new(i.lb, ExtendedNumber::Finite(n.sub(Number::of(1))));
        }
    }
    if i.is_top() && n.is_zero() {
        return Interval::new(ExtendedNumber::Finite(Number::of(1)), ExtendedNumber::Finite(Number::of(0xffff_ffff_ffff_ffff)));
    }
    *i
}

impl ZoneDomain {
    /// Imposes a bound on a variable; false where nothing meets the zone any more.
    fn tighten_bound(&mut self, v: Variable, side: Side, n: &Number) -> (r: bool)
        requires old(self).wf(),
        ensures
            final(self).wf(),
            final(self).z() == zone_model::ztightened(old(self).z(), bound_node_key(v.id, side), split_dbm::bound_weight(side, *n)),
            !r ==> !zone_model::zfeasible(final(self).z()),
    {
        let u: VertId = self.get_vert(v);
        let ghost before = *self;
        let ghost vm = self.vm();
        let ghost nd = zone_model::node(v.id);
        let ghost w = split_dbm::bound_weight(side, *n);
        proof {
            assert(self.core.live(self.vm()[v.id]));
            assert(zone_map::on_map(vm, nd) && zone_map::vert(vm, nd) == u);
            zone_map::lemma_zof_insert(self.core.edges(), vm, nd, 0, w);
            zone_map::lemma_zof_insert(self.core.edges(), vm, 0, nd, w);
        }
        let r: bool = self.core.update_bound_if_tighter(u, side, n);
        proof {
            self.lemma_same_maps(&before);
            self.lemma_covered();
            if !r {
                zone_map::lemma_lift_infeasible(self.core.edges(), vm);
            }
        }
        r
    }

    /// Imposes `x - y <= k`; false where nothing meets the zone any more.
    fn tighten_difference(&mut self, x: Variable, y: Variable, k: &Number) -> (r: bool)
        requires old(self).wf(),
        ensures
            final(self).wf(),
            zone_model::zequiv(final(self).z(), zone_model::ztightened(old(self).z(), (zone_model::node(y.id), zone_model::node(x.id)), *k)),
            zone_model::ztight(final(self).z(), zone_model::ztightened(old(self).z(), (zone_model::node(y.id), zone_model::node(x.id)), *k)),
            !r ==> !zone_model::zfeasible(final(self).z()),
            r ==> zone_model::zclosed_over(final(self).z(), old(self).z(), zone_model::node(y.id), zone_model::node(x.id), k@),
    {
        let src: VertId = self.get_vert(y);
        let dest: VertId = self.get_vert(x);
        let ghost before = *self;
        let ghost vm = self.vm();
        let ghost a = zone_model::node(y.id);
        let ghost b = zone_model::node(x.id);
        proof {
            assert(self.core.live(self.vm()[x.id]));
            assert(self.core.live(self.vm()[y.id]));
            assert(zone_map::on_map(vm, a) && zone_map::vert(vm, a) == src);
            assert(zone_map::on_map(vm, b) && zone_map::vert(vm, b) == dest);
            zone_map::lemma_zof_insert(self.core.edges(), vm, a, b, *k);
            self.lemma_covered();
            zone_map::lemma_node(vm, a);
            zone_map::lemma_node(vm, b);
            zone_map::lemma_covered_insert(self.core.edges(), vm, src, dest, *k);
        }
        let r: bool = self.core.add_difference_constraint(src, dest, k);
        proof {
            self.lemma_same_maps(&before);
            self.lemma_covered();
            let t = split_dbm::tightened(before.core.edges(), (src, dest), *k);
            zone_map::lemma_lift_equiv(self.core.edges(), t, vm);
            zone_map::lemma_lift_tight(self.core.edges(), t, vm);
            if r {
                zone_map::lemma_lift_closed_over(self.core.edges(), before.core.edges(), a, b, *k, vm);
            } else {
                zone_map::lemma_lift_infeasible(self.core.edges(), vm);
            }
        }
        r
    }

    /// Decides whether the constraints have a solution.
    fn settle(&mut self) -> (r: bool)
        requires old(self).wf(),
        ensures
            final(self).wf(),
            final(self).z() == old(self).z(),
            final(self).held() == old(self).held(),
            r == zone_model::zfeasible(final(self).z()),
    {
        let ghost before = *self;
        let r: bool = self.core.settle();
        proof {
            before.lemma_covered();
            self.lemma_same_maps(&before);
            self.lemma_covered();
            if r {
                zone_map::lemma_lift_feasible(self.core.edges(), self.vm());
            } else {
                zone_map::lemma_lift_infeasible(self.core.edges(), self.vm());
            }
        }
        r
    }

    /// Closes the bounds.
    fn close_bounds(&mut self)
        requires old(self).wf(),
        ensures
            final(self).wf(),
            zone_model::zequiv(final(self).z(), old(self).z()),
            zone_model::ztight(final(self).z(), old(self).z()),
            zone_model::zcarried(final(self).z(), old(self).z()),
    {
        let ghost before = *self;
        self.core.close_after_bound_updates();
        proof {
            zone_map::lemma_lift_carried(self.core.edges(), before.core.edges(), before.vm());
            before.lemma_covered();
            self.lemma_same_maps(&before);
            self.lemma_covered();
            zone_map::lemma_lift_equiv(self.core.edges(), before.core.edges(), before.vm());
            zone_map::lemma_lift_tight(self.core.edges(), before.core.edges(), before.vm());
        }
    }

    /// Adds `exp <= 0`.
    fn add_linear_leq(&mut self, exp: &LinearExpression, registry: &VariableRegistry) -> (r: bool)
        requires old(self).wf(), knows_terms(registry@, exp.terms@),
        ensures
            final(self).wf(),
            r ==> zone_model::leq_added(old(self).z(), exp.constant, exp.terms.entries(), min_only_of(registry@), final(self).z()),
            !r ==> zone_model::leq_refuted(old(self).z(), exp.constant, exp.terms.entries(), min_only_of(registry@)),
    {
        let ghost z0 = self.z();
        let ghost mo = min_only_of(registry@);
        let ghost st = zone_model::leq_of(z0, exp);
        let (csts, lbs, ubs) = self.diffcsts_of_lin_leq(exp);
        exp.terms.reveal_entries();
        proof {
            let s = exp.terms.entries();
            zone_model::leq_mentions(z0, exp.constant, s, s.len());
            assert forall|env: Env| #[trigger] zone_model::dues_hold(st, mo, env) == (lbs_hold(lbs@, lbs.len() as int, env)
                && ubs_hold(ubs@, mo, ubs.len() as int, env) && diffs_hold(csts@, csts.len() as int, env)) by {
                lemma_lists_hold(st, mo, lbs@, ubs@, csts@, env);
            }
            let ud = |v: u64, b: int| zone_model::ub_due(st, v, b);
            assert forall|i: int| 0 <= i < ubs.len() implies (#[trigger] ubs@[i]).0.id < registry@.size() by {
                assert(ud(ubs@[i].0.id, ubs@[i].1@));
                assert(ord_map::has_key(s, ubs@[i].0.id));
                assert(exp.terms@.contains_key(ubs@[i].0.id));
            }
        }
        let mut i: usize = 0;
        while i < lbs.len()
            invariant
                self.wf(),
                i <= lbs.len(),
                st == zone_model::leq_scan(z0, exp.constant, exp.terms.entries(), exp.terms.entries().len()),
                z0 == old(self).z(),
                mo == min_only_of(registry@),
                forall|env: Env| #[trigger] zone_model::dues_hold(st, mo, env) == (lbs_hold(lbs@, lbs.len() as int, env)
                    && ubs_hold(ubs@, mo, ubs.len() as int, env) && diffs_hold(csts@, csts.len() as int, env)),
                forall|env: Env| zone_model::broad(env) ==> #[trigger] zone_model::zholds(self.z(), env)
                    == (zone_model::zholds(z0, env) && lbs_hold(lbs@, i as int, env)),
                zone_model::ztight(self.z(), z0),
                lbs_stand(lbs@, i as int, self.z()),
            decreases lbs.len() - i,
        {
            let (v, n) = lbs[i];
            let ghost zb = self.z();
            let ok: bool = self.tighten_bound(v, Side::Left, &n);
            proof {
                lemma_stand(z0, zb, self.z(), lbs@, i as int, ubs@, mo, 0, csts@, 0);
                assert(lbs@[i as int] == (v, n));
                assert forall|env: Env| zone_model::broad(env) implies #[trigger] zone_model::zholds(self.z(), env)
                    == (zone_model::zholds(z0, env) && lbs_hold(lbs@, i + 1, env)) by {
                    zone_model::tightening_adds(zb, bound_node_key(v.id, Side::Left), split_dbm::bound_weight(Side::Left, n), env);
                    assert(zone_model::node_value(env, zone_model::node(v.id)) == env(v.id));
                    assert(constraints::near_or_far(-env(v.id)));
                    assert(lbs@[i as int] == (v, n));
                    assert(lbs_hold(lbs@, i + 1, env) == (lbs_hold(lbs@, i as int, env) && env(v.id) >= n@)) by {
                        if lbs_hold(lbs@, i + 1, env) { assert(env(lbs@[i as int].0.id) >= lbs@[i as int].1@); }
                    }
                }
            }
            if !ok {
                proof {
                    assert forall|env: Env| zone_model::mild(env) && #[trigger] zone_model::zholds(z0, env) implies !zone_model::dues_hold(st, mo, env) by {
                        assert(!zone_model::zholds(self.z(), env));
                    }
                }
                return false;
            }
            i = i + 1;
        }
        let mut i: usize = 0;
        assert forall|env: Env| zone_model::broad(env) implies #[trigger] zone_model::zholds(self.z(), env)
            == (zone_model::zholds(z0, env) && lbs_hold(lbs@, lbs.len() as int, env) && ubs_hold(ubs@, mo, 0, env)) by {}
        while i < ubs.len()
            invariant
                self.wf(),
                i <= ubs.len(),
                st == zone_model::leq_scan(z0, exp.constant, exp.terms.entries(), exp.terms.entries().len()),
                z0 == old(self).z(),
                mo == min_only_of(registry@),
                forall|i: int| 0 <= i < ubs.len() ==> (#[trigger] ubs@[i]).0.id < registry@.size(),
                forall|env: Env| #[trigger] zone_model::dues_hold(st, mo, env) == (lbs_hold(lbs@, lbs.len() as int, env)
                    && ubs_hold(ubs@, mo, ubs.len() as int, env) && diffs_hold(csts@, csts.len() as int, env)),
                forall|env: Env| zone_model::broad(env) ==> #[trigger] zone_model::zholds(self.z(), env)
                    == (zone_model::zholds(z0, env) && lbs_hold(lbs@, lbs.len() as int, env) && ubs_hold(ubs@, mo, i as int, env)),
                zone_model::ztight(self.z(), z0),
                lbs_stand(lbs@, lbs.len() as int, self.z()),
                ubs_stand(ubs@, mo, i as int, self.z()),
            decreases ubs.len() - i,
        {
            let (v, n) = ubs[i];
            let ghost zb = self.z();
            assert(ubs@[i as int] == (v, n));
            let skip: bool = registry.is_min_only(v);
            let ok: bool = if skip { true } else { self.tighten_bound(v, Side::Right, &n) };
            proof {
                lemma_stand(z0, zb, self.z(), lbs@, lbs.len() as int, ubs@, mo, i as int, csts@, 0);
                assert forall|env: Env| zone_model::broad(env) implies #[trigger] zone_model::zholds(self.z(), env)
                    == (zone_model::zholds(z0, env) && lbs_hold(lbs@, lbs.len() as int, env) && ubs_hold(ubs@, mo, i + 1, env)) by {
                    zone_model::tightening_adds(zb, bound_node_key(v.id, Side::Right), split_dbm::bound_weight(Side::Right, n), env);
                    assert(zone_model::node_value(env, zone_model::node(v.id)) == env(v.id));
                    assert(ubs_hold(ubs@, mo, i + 1, env) == (ubs_hold(ubs@, mo, i as int, env) && (skip || env(v.id) <= n@))) by {
                        if ubs_hold(ubs@, mo, i + 1, env) && !skip { assert(!mo(ubs@[i as int].0.id)); }
                    }
                }
            }
            if !ok {
                proof {
                    assert forall|env: Env| zone_model::mild(env) && #[trigger] zone_model::zholds(z0, env) implies !zone_model::dues_hold(st, mo, env) by {
                        assert(!zone_model::zholds(self.z(), env));
                    }
                }
                return false;
            }
            i = i + 1;
        }
        let mut i: usize = 0;
        assert forall|env: Env| zone_model::broad(env) implies #[trigger] zone_model::zholds(self.z(), env)
            == (zone_model::zholds(z0, env) && lbs_hold(lbs@, lbs.len() as int, env) && ubs_hold(ubs@, mo, ubs.len() as int, env) && diffs_hold(csts@, 0, env)) by {}
        while i < csts.len()
            invariant
                self.wf(),
                i <= csts.len(),
                st == zone_model::leq_scan(z0, exp.constant, exp.terms.entries(), exp.terms.entries().len()),
                z0 == old(self).z(),
                mo == min_only_of(registry@),
                forall|env: Env| #[trigger] zone_model::dues_hold(st, mo, env) == (lbs_hold(lbs@, lbs.len() as int, env)
                    && ubs_hold(ubs@, mo, ubs.len() as int, env) && diffs_hold(csts@, csts.len() as int, env)),
                forall|env: Env| zone_model::broad(env) ==> #[trigger] zone_model::zholds(self.z(), env)
                    == (zone_model::zholds(z0, env) && lbs_hold(lbs@, lbs.len() as int, env) && ubs_hold(ubs@, mo, ubs.len() as int, env)
                        && diffs_hold(csts@, i as int, env)),
                zone_model::ztight(self.z(), z0),
                lbs_stand(lbs@, lbs.len() as int, self.z()),
                ubs_stand(ubs@, mo, ubs.len() as int, self.z()),
                diffs_stand(csts@, i as int, self.z()),
                diffs_closed(csts@, i as int, self.z(), z0),
            decreases csts.len() - i,
        {
            let (x, y, k) = csts[i];
            let ghost zb = self.z();
            let ok: bool = self.tighten_difference(x, y, &k);
            proof {
                let t = zone_model::ztightened(zb, (zone_model::node(y.id), zone_model::node(x.id)), k);
                lemma_stand(z0, zb, t, lbs@, lbs.len() as int, ubs@, mo, ubs.len() as int, csts@, i as int);
                assert(csts@[i as int] == (x, y, k));
                assert(t.contains_key((zone_model::node(y.id), zone_model::node(x.id))));
                lemma_stand(z0, t, self.z(), lbs@, lbs.len() as int, ubs@, mo, ubs.len() as int, csts@, i + 1);
                if ok {
                    assert forall|s: int, d: int| #![trigger zb.contains_key((s, d))] zb.contains_key((s, d)) implies self.z().contains_key((s, d)) && self.z()[(s, d)]@ <= zb[(s, d)]@ by {
                        assert(t.contains_key((s, d)));
                    }
                    assert forall|q: int| 0 <= q < i + 1 implies #[trigger] diff_closed(csts@[q], self.z(), z0) by {
                        if q < i {
                            assert(diff_closed(csts@[q], zb, z0));
                            zone_model::lemma_closed_over(zb, z0, self.z(), z0, zone_model::node(csts@[q].1.id), zone_model::node(csts@[q].0.id), csts@[q].2@);
                        } else {
                            zone_model::lemma_closed_over(self.z(), zb, self.z(), z0, zone_model::node(y.id), zone_model::node(x.id), k@);
                        }
                    }
                }
                assert forall|env: Env| zone_model::broad(env) implies #[trigger] zone_model::zholds(self.z(), env)
                    == (zone_model::zholds(z0, env) && lbs_hold(lbs@, lbs.len() as int, env) && ubs_hold(ubs@, mo, ubs.len() as int, env)
                        && diffs_hold(csts@, i + 1, env)) by {
                    zone_model::tightening_adds(zb, (zone_model::node(y.id), zone_model::node(x.id)), k, env);
                    assert(zone_model::node_value(env, zone_model::node(x.id)) == env(x.id));
                    assert(zone_model::node_value(env, zone_model::node(y.id)) == env(y.id));
                    assert(csts@[i as int] == (x, y, k));
                    assert(diffs_hold(csts@, i + 1, env) == (diffs_hold(csts@, i as int, env) && env(x.id) - env(y.id) <= k@)) by {
                        if diffs_hold(csts@, i + 1, env) { assert(env(csts@[i as int].0.id) - env(csts@[i as int].1.id) <= csts@[i as int].2@); }
                    }
                }
            }
            if !ok {
                proof {
                    assert forall|env: Env| zone_model::mild(env) && #[trigger] zone_model::zholds(z0, env) implies !zone_model::dues_hold(st, mo, env) by {
                        assert(!zone_model::zholds(self.z(), env));
                    }
                }
                return false;
            }
            i = i + 1;
        }
        let ghost zb = self.z();
        self.close_bounds();
        proof {
            assert forall|env: Env| zone_model::broad(env) implies #[trigger] zone_model::zholds(self.z(), env)
                == (zone_model::zholds(z0, env) && zone_model::dues_hold(st, mo, env)) by {
                assert(zone_model::zholds(zb, env) == zone_model::zholds(self.z(), env));
            }
        }
        proof {
            lemma_stand(z0, zb, self.z(), lbs@, lbs.len() as int, ubs@, mo, ubs.len() as int, csts@, csts.len() as int);
            lemma_dues_stand(z0, zb, self.z(), st, mo, lbs@, ubs@, csts@);
            assert(zone_model::dues_closed(st, self.z(), z0)) by {
                let dd = |x: u64, y: u64, w: int| zone_model::diff_due(st, x, y, w);
                assert forall|x: u64, y: u64, w: int| #[trigger] zone_model::diff_due(st, x, y, w) implies
                    zone_model::zclosed_over(self.z(), z0, zone_model::node(y), zone_model::node(x), w) by {
                    assert(dd(x, y, w));
                    let q = choose|q: int| 0 <= q < csts.len() && (#[trigger] csts@[q]).0.id == x && csts@[q].1.id == y && csts@[q].2@ == w;
                    assert(diff_closed(csts@[q], zb, z0));
                    zone_model::lemma_closed_over(zb, z0, self.z(), z0, zone_model::node(y), zone_model::node(x), w);
                }
            }
        }
        let r: bool = self.settle();
        proof {
            if !r {
                assert forall|env: Env| zone_model::mild(env) && #[trigger] zone_model::zholds(z0, env) implies !zone_model::dues_hold(st, mo, env) by {
                    assert(!zone_model::zholds(self.z(), env));
                }
            }
        }
        r
    }

    /// Strengthens a bound that the variable has.
    fn strengthen(&mut self, v: Variable, side: Side, n: &Number) -> (r: bool)
        requires old(self).wf(),
        ensures
            final(self).wf(),
            zone_model::zequiv(final(self).z(), if old(self).z().contains_key(bound_node_key(v.id, side)) {
                zone_model::ztightened(old(self).z(), bound_node_key(v.id, side), split_dbm::bound_weight(side, *n))
            } else {
                old(self).z()
            }),
            !(old(self).z().contains_key(bound_node_key(v.id, side)) && split_dbm::bound_weight(side, *n)@ < old(self).z()[bound_node_key(v.id, side)]@)
                ==> r && final(self).z() == old(self).z(),
            zone_model::ztight(final(self).z(), old(self).z()),
            !r ==> !zone_model::zfeasible(final(self).z()),
            r && old(self).z().contains_key(bound_node_key(v.id, side)) && split_dbm::bound_weight(side, *n)@ < old(self).z()[bound_node_key(v.id, side)]@ ==> {
                &&& side is Left ==> zone_model::lower_moved(final(self).z(), old(self).z(), zone_model::node(v.id), split_dbm::bound_weight(side, *n)@)
                &&& side is Right ==> zone_model::upper_moved(final(self).z(), old(self).z(), zone_model::node(v.id), split_dbm::bound_weight(side, *n)@)
            },
    {
        let u: VertId = self.get_vert(v);
        let ghost before = *self;
        let ghost vm = self.vm();
        let ghost nd = zone_model::node(v.id);
        let ghost w = split_dbm::bound_weight(side, *n);
        proof {
            assert(self.core.live(self.vm()[v.id]));
            assert(zone_map::on_map(vm, nd) && zone_map::vert(vm, nd) == u);
            zone_map::lemma_zof_insert(self.core.edges(), vm, nd, 0, w);
            zone_map::lemma_zof_insert(self.core.edges(), vm, 0, nd, w);
            self.lemma_covered();
            zone_map::lemma_node(vm, nd);
            zone_map::lemma_covered_insert(self.core.edges(), vm, u, 0, w);
            zone_map::lemma_covered_insert(self.core.edges(), vm, 0, u, w);
        }
        let r: bool = self.core.strengthen_bound(u, side, n);
        proof {
            self.lemma_same_maps(&before);
            self.lemma_covered();
            if split_dbm::strengthens(before.core.edges(), u, side, *n) {
                let t = before.core.edges().insert(split_dbm::bound_key(u, side), w);
                zone_map::lemma_lift_equiv(self.core.edges(), t, vm);
                assert(graph_ops::at_least_as_tight(self.core.edges(), before.core.edges())) by {
                    let e = before.core.edges();
                    assert forall|s: u64, d: u64| #![trigger e.contains_key((s, d))] e.contains_key((s, d)) implies
                        self.core.edges().contains_key((s, d)) && self.core.edges()[(s, d)]@ <= e[(s, d)]@ by {
                        assert(t.contains_key((s, d)));
                    }
                }
                zone_map::lemma_lift_tight(self.core.edges(), before.core.edges(), vm);
                if r {
                    assert(t.contains_key(split_dbm::bound_key(u, side)));
                    zone_map::lemma_lift_spread(self.core.edges(), before.core.edges(), nd, side, w, vm);
                }
            }
            if !r {
                zone_map::lemma_lift_infeasible(self.core.edges(), vm);
            }
        }
        r
    }

    /// Removes a value of a variable that is an end of its interval.
    fn add_univar_disequation(&mut self, x: Variable, n: &Number, registry: &VariableRegistry) -> (r: bool)
        requires old(self).wf(), registry@.knows(x),
        ensures
            final(self).wf(),
            r ==> zone_model::value_removed(old(self).z(), x.id, *n, registry@.min_only(x), final(self).z()),
            !r ==> zone_model::value_forced(old(self).z(), x.id, *n),
    {
        let ghost z0 = self.z();
        let ghost mo = registry@.min_only(x);
        let i = self.interval_of(x);
        let new_i = trim_interval(&i, n);
        proof {
            assert forall|env: Env| zone_model::mild(env) && #[trigger] zone_model::zholds(z0, env) implies
                zone_model::zinterval(z0, x.id).has(env(x.id)) && !zone_model::zinterval(z0, x.id).is_empty_spec()
                && -constraints::REACH <= env(x.id) <= constraints::REACH
                && i.lb == zone_model::lower(z0, x.id) && i.ub == zone_model::upper(z0, x.id) by {
                zone_model::interval_is_sound(z0, x.id, env);
            }
        }
        if new_i.is_bottom() {
            return false;
        }
        if new_i.is_top() || !new_i.is_included_in(&i) {
            return true;
        }
        let ghost zl = self.z();
        match new_i.lb {
            ExtendedNumber::Finite(l) => {
                let ok: bool = self.strengthen(x, Side::Left, &l);
                proof {
                    assert forall|env: Env| zone_model::broad(env) implies #[trigger] zone_model::zholds(self.z(), env)
                        == (zone_model::zholds(z0, env) && (i.lb == ExtendedNumber::Finite(*n) ==> env(x.id) != n@)) by {
                        zone_model::tightening_adds(z0, bound_node_key(x.id, Side::Left), split_dbm::bound_weight(Side::Left, l), env);
                        assert(zone_model::node_value(env, zone_model::node(x.id)) == env(x.id));
                    }
                }
                if !ok {
                    assert forall|env: Env| zone_model::mild(env) && #[trigger] zone_model::zholds(z0, env) implies env(x.id) == n@ by {
                        assert(!zone_model::zholds(self.z(), env));
                    }
                    return false;
                }
            }
            _ => {}
        }
        let ghost zm = self.z();
        assert(zone_model::ztight(zm, z0));
        assert forall|env: Env| zone_model::broad(env) implies #[trigger] zone_model::zholds(zm, env)
            == (zone_model::zholds(z0, env) && (i.lb == ExtendedNumber::Finite(*n) ==> env(x.id) != n@)) by {}
        if !registry.is_min_only(x) {
            match new_i.ub {
                ExtendedNumber::Finite(u) => {
                    let ok: bool = self.strengthen(x, Side::Right, &u);
                    proof {
                        assert forall|env: Env| zone_model::broad(env) implies #[trigger] zone_model::zholds(self.z(), env)
                            == (zone_model::zholds(z0, env) && (zone_model::at_end(z0, x.id, *n, mo) ==> env(x.id) != n@)) by {
                            zone_model::tightening_adds(zm, bound_node_key(x.id, Side::Right), split_dbm::bound_weight(Side::Right, u), env);
                            if z0.contains_key((0, zone_model::node(x.id))) {
                                assert(zm.contains_key((0, zone_model::node(x.id))));
                            }
                            assert(zone_model::node_value(env, zone_model::node(x.id)) == env(x.id));
                        }
                    }
                    if !ok {
                        assert forall|env: Env| zone_model::mild(env) && #[trigger] zone_model::zholds(z0, env) implies env(x.id) == n@ by {
                            assert(!zone_model::zholds(self.z(), env));
                        }
                        return false;
                    }
                }
                _ => {}
            }
        }
        proof {
            let nd = zone_model::node(x.id);
            zone_model::lemma_moved(zm, z0, self.z(), z0, nd, -(n@ + 1));
            zone_model::lemma_moved(self.z(), zm, self.z(), z0, nd, n@ - 1);
            assert(zone_model::ztight(self.z(), z0)) by {
                assert forall|s: int, d: int| #![trigger z0.contains_key((s, d))] z0.contains_key((s, d)) implies self.z().contains_key((s, d)) && self.z()[(s, d)]@ <= z0[(s, d)]@ by {
                    assert(zm.contains_key((s, d)));
                }
            }
        }
        let r: bool = self.settle();
        proof {
            if !r {
                assert forall|env: Env| zone_model::mild(env) && #[trigger] zone_model::zholds(z0, env) implies env(x.id) == n@ by {
                    assert(!zone_model::zholds(self.z(), env));
                }
            }
        }
        r
    }
}

impl ZoneDomain {
    /// Adds a constraint; false where the zone and the constraint contradict each other.
    pub fn add_constraint(&mut self, cst: &LinearConstraint, registry: &VariableRegistry) -> (r: bool)
        requires old(self).wf(), knows_terms(registry@, cst.expression.terms@),
        ensures
            final(self).wf(),
            r ==> constraint_added(old(self).z(), cst, min_only_of(registry@), final(self).z()),
            !r ==> constraint_refuted(old(self).z(), cst, min_only_of(registry@)),
            cst.is_tautology_spec() ==> r,
            cst.is_contradiction_spec() ==> !r,
    {
        if cst.is_tautology() {
            return true;
        }
        if cst.is_contradiction() {
            return false;
        }
        let ghost z0 = self.z();
        let ghost mo = min_only_of(registry@);
        let e = &cst.expression;
        match cst.kind {
            ConstraintKind::LessThanOrEqualsZero => self.add_linear_leq(e, registry),
            ConstraintKind::LessThanZero => {
                let nc = e.plus_constant(&Number::of(1));
                self.add_linear_leq(&nc, registry)
            }
            ConstraintKind::EqualsZero => {
                if !self.add_linear_leq(e, registry) {
                    return false;
                }
                let ghost mid = self.z();
                let n = e.negate();
                n.order_holds();
                assert(is_opposite(e, &n));
                let r: bool = self.add_linear_leq(&n, registry);
                r
            }
            ConstraintKind::NotZero => {
                let n: usize = e.terms.len();
                let ghost s = e.terms.entries();
                let ghost sol = excluded_value(e);
                let mut i: usize = 0;
                assert(zone_model::disequated(z0, sol, s, mo, 0, z0)) by {
                    assert(zone_model::disequation_path(seq![z0], sol, s, mo));
                }
                while i < n
                    invariant
                        self.wf(),
                        i <= n,
                        n == s.len(),
                        e == &cst.expression,
                        s == e.terms.entries(),
                        sol == excluded_value(e),
                        mo == min_only_of(registry@),
                        z0 == old(self).z(),
                        cst.kind is NotZero,
                        !cst.is_tautology_spec(),
                        !cst.is_contradiction_spec(),
                        knows_terms(registry@, e.terms@),
                        zone_model::disequated(z0, sol, s, mo, i as nat, self.z()),
                    decreases n - i,
                {
                    let v = Variable::new(e.terms.key_at(i));
                    let c: Number = e.terms.value_at(i);
                    let ghost mid = self.z();
                    let q = self.compute_residual(e, v).div(&Interval::from_number(c));
                    match q.singleton() {
                        Some(k) => {
                            assert(sol(mid, i as int) == Some(k));
                            if !self.add_univar_disequation(v, &k, registry) {
                                assert(zone_model::disequation_refuted(z0, sol, s, mo));
                                return false;
                            }
                            proof { zone_model::disequated_further(z0, sol, s, mo, i as nat, mid, self.z()); }
                        }
                        None => {
                            assert(sol(mid, i as int) is None);
                            proof { zone_model::disequated_further(z0, sol, s, mo, i as nat, mid, self.z()); }
                        }
                    }
                    i = i + 1;
                }
                true
            }
        }
    }

    /// A copy of the zone.
    pub fn copy(&self) -> (r: Self)
        requires self.wf(),
        ensures r.wf(), r.z() == self.z(), r.held() == self.held(),
    {
        let core = self.core.copy();
        let vert_map = self.vert_map.copy();
        let mut rev_map: Vec<Option<Variable>> = Vec::new();
        let mut i: usize = 0;
        while i < self.rev_map.len()
            invariant
                i <= self.rev_map@.len(),
                rev_map@ == self.rev_map@.take(i as int),
            decreases self.rev_map@.len() - i,
        {
            rev_map.push(self.rev_map[i]);
            i = i + 1;
            assert(rev_map@ =~= self.rev_map@.take(i as int));
        }
        assert(rev_map@ =~= self.rev_map@);
        let r = ZoneDomain { core, vert_map, rev_map };
        proof { r.lemma_same_maps(self); }
        r
    }
}

/// Adding a constraint loses nothing: what meets the result met the zone.
pub proof fn constraints_only_add(z0: ZEdges, cst: &LinearConstraint, mo: spec_fn(u64) -> bool, z1: ZEdges)
    requires constraint_added(z0, cst, mo, z1),
    ensures zone_model::zentails(z1, z0),
{
    let e = &cst.expression;
    if !cst.is_tautology_spec() {
        match cst.kind {
            ConstraintKind::EqualsZero => {
                let (mid, n) = choose|mid: ZEdges, n: LinearExpression| #![trigger zone_model::leq_added(mid, n.constant, n.terms.entries(), mo, z1)]
                    zone_model::leq_added(z0, e.constant, e.terms.entries(), mo, mid) && is_opposite(e, &n)
                    && zone_model::leq_added(mid, n.constant, n.terms.entries(), mo, z1);
                assert forall|env: Env| zone_model::broad(env) && #[trigger] zone_model::zholds(z1, env) implies zone_model::zholds(z0, env) by {
                    assert(zone_model::zholds(mid, env));
                }
            },
            ConstraintKind::NotZero => {
                zone_model::disequation_only_adds(z0, excluded_value(e), e.terms.entries(), mo, e.terms.entries().len(), z1);
            },
            _ => {},
        }
    }
}

/// Adding an inequality or an equation is sound: a valuation that meets the zone and the
/// constraint meets the result.
pub proof fn constraints_are_sound(z0: ZEdges, cst: &LinearConstraint, mo: spec_fn(u64) -> bool, z1: ZEdges, env: Env)
    requires
        constraint_added(z0, cst, mo, z1),
        exact_constraint(cst),
        !(cst.kind is NotZero),
        zone_model::mild(env),
        zone_model::zholds(z0, env),
        cst.holds(env),
    ensures zone_model::zholds(z1, env),
{
    let e = &cst.expression;
    let s = e.terms.entries();
    if !cst.is_tautology_spec() {
        match cst.kind {
            ConstraintKind::LessThanOrEqualsZero => {
                zone_model::leq_is_sound(z0, e.constant, s, mo, env);
            },
            ConstraintKind::LessThanZero => {
                zone_model::leq_is_sound(z0, Number::nearest(e.constant@ + 1), s, mo, env);
            },
            ConstraintKind::EqualsZero => {
                let (mid, n) = choose|mid: ZEdges, n: LinearExpression| #![trigger zone_model::leq_added(mid, n.constant, n.terms.entries(), mo, z1)]
                    zone_model::leq_added(z0, e.constant, s, mo, mid) && is_opposite(e, &n)
                    && zone_model::leq_added(mid, n.constant, n.terms.entries(), mo, z1);
                zone_model::leq_is_sound(z0, e.constant, s, mo, env);
                assert(zone_model::zholds(mid, env));
                assert(n.eval(env) == -e.eval(env));
                zone_model::leq_is_sound(mid, n.constant, n.terms.entries(), mo, env);
            },
            ConstraintKind::NotZero => {},
        }
    }
}

/// A refused inequality or equation holds under no valuation of the zone.
pub proof fn refusals_are_sound(z0: ZEdges, cst: &LinearConstraint, mo: spec_fn(u64) -> bool, env: Env)
    requires
        constraint_refuted(z0, cst, mo),
        exact_constraint(cst),
        !(cst.kind is NotZero),
        zone_model::mild(env),
        zone_model::zholds(z0, env),
    ensures !cst.holds(env),
{
    let e = &cst.expression;
    let s = e.terms.entries();
    if cst.is_contradiction_spec() {
        lemma_contradiction(cst, env);
    } else if cst.holds(env) {
        match cst.kind {
            ConstraintKind::LessThanOrEqualsZero => {
                zone_model::leq_is_sound(z0, e.constant, s, mo, env);
            },
            ConstraintKind::LessThanZero => {
                zone_model::leq_is_sound(z0, Number::nearest(e.constant@ + 1), s, mo, env);
            },
            ConstraintKind::EqualsZero => {
                zone_model::leq_is_sound(z0, e.constant, s, mo, env);
                if !zone_model::leq_refuted(z0, e.constant, s, mo) {
                    let (mid, n) = choose|mid: ZEdges, n: LinearExpression| #![trigger zone_model::leq_refuted(mid, n.constant, n.terms.entries(), mo)]
                        zone_model::leq_added(z0, e.constant, s, mo, mid) && is_opposite(e, &n)
                        && zone_model::leq_refuted(mid, n.constant, n.terms.entries(), mo);
                    assert(zone_model::zholds(mid, env));
                    assert(n.eval(env) == -e.eval(env));
                    zone_model::leq_is_sound(mid, n.constant, n.terms.entries(), mo, env);
                }
            },
            ConstraintKind::NotZero => {},
        }
    }
}

proof fn lemma_contradiction(cst: &LinearConstraint, env: Env)
    requires cst.is_contradiction_spec(),
    ensures !cst.holds(env),
{
}

/// Updates that a valuation meets keep it a valuation of the edges.
proof fn lemma_updated_models(edges: crate::splitdbm::graph::Edges, delta: Seq<(u64, u64, Number)>, x: constraints::Val)
    requires
        constraints::models(edges, x),
        forall|i: int| 0 <= i < delta.len() ==> x((#[trigger] delta[i]).1) - x(delta[i].0) <= delta[i].2@,
    ensures constraints::models(graph_ops::updated(edges, delta), x),
    decreases delta.len(),
{
    if delta.len() > 0 {
        let d = delta.drop_last();
        assert forall|i: int| 0 <= i < d.len() implies x((#[trigger] d[i]).1) - x(d[i].0) <= d[i].2@ by {
            assert(d[i] == delta[i]);
        }
        lemma_updated_models(edges, d, x);
        assert(delta.last() == delta[delta.len() - 1]);
        let u = graph_ops::updated(edges, delta);
        let p = graph_ops::updated(edges, d);
        assert forall|s: u64, t: u64| #![trigger u.contains_key((s, t))] u.contains_key((s, t)) implies x(t) - x(s) <= u[(s, t)]@ by {
            if (s, t) != (delta.last().0, delta.last().1) {
                assert(p.contains_key((s, t)));
            }
        }
    }
}

/// An update that no later one overwrites is in place.
proof fn lemma_updated_at(edges: crate::splitdbm::graph::Edges, delta: Seq<(u64, u64, Number)>, i: int)
    requires
        0 <= i < delta.len(),
        forall|j: int| i < j < delta.len() ==> ((#[trigger] delta[j]).0, delta[j].1) != (delta[i].0, delta[i].1),
    ensures
        graph_ops::updated(edges, delta).contains_key((delta[i].0, delta[i].1)),
        graph_ops::updated(edges, delta)[(delta[i].0, delta[i].1)] == delta[i].2,
    decreases delta.len(),
{
    let d = delta.drop_last();
    assert(delta.last() == delta[delta.len() - 1]);
    if i < d.len() {
        assert forall|j: int| i < j < d.len() implies ((#[trigger] d[j]).0, d[j].1) != (d[i].0, d[i].1) by {
            assert(d[j] == delta[j]);
        }
        lemma_updated_at(edges, d, i);
    }
}

/// The variables of a list increase.
spec fn ids_increase(s: Seq<(Variable, Number)>) -> bool {
    forall|i: int, j: int| 0 <= i < j < s.len() ==> (#[trigger] s[i]).0.id < (#[trigger] s[j]).0.id
}

impl ZoneDomain {
    /// The differences between an expression and the variables: upper bounds of them, or lower
    /// bounds.
    fn diffcsts_of_assign(&self, exp: &LinearExpression, extract_upper_bounds: bool, registry: &VariableRegistry) -> (r: Vec<(Variable, Number)>)
        requires self.wf(), knows_terms(registry@, exp.terms@),
        ensures
            lists_pairs(r@, |v: u64, w: int| zone_model::assign_due(
                zone_model::assign_of(self.z(), min_only_of(registry@), extract_upper_bounds, exp), v, w)),
            ids_increase(r@),
    {
        let ghost above = extract_upper_bounds;
        let ghost z = self.z();
        let ghost mo = min_only_of(registry@);
        let ghost s = exp.terms.entries();
        let ghost c0 = exp.constant;
        let ghost whole = zone_model::assign_of(z, mo, above, exp);
        let mut r: Vec<(Variable, Number)> = Vec::new();
        let mut terms: Vec<(Variable, Number)> = Vec::new();
        let mut free: Option<Variable> = None;
        let mut rest: Number = exp.constant;
        let n: usize = exp.terms.len();
        if !is_roomy(rest) {
            proof { zone_model::assign_failed(z, mo, above, c0, s, 0, s.len()); }
            return r;
        }
        let mut i: usize = 0;
        assert(plain_pairs(terms@) =~= seq![]);
        while i < n
            invariant
                self.wf(),
                knows_terms(registry@, exp.terms@),
                above == extract_upper_bounds,
                z == self.z(),
                mo == min_only_of(registry@),
                s == exp.terms.entries(),
                c0 == exp.constant,
                whole == zone_model::assign_of(z, mo, above, exp),
                ord_map::sorted_entries(s),
                r.len() == 0,
                i <= n,
                n == s.len(),
                ({
                    let st = zone_model::assign_scan(z, mo, above, c0, s, i as nat);
                    &&& st.ok
                    &&& st.rest == rest@
                    &&& st.free == (match free { Some(v) => Some(v.id), None => None })
                    &&& st.terms == plain_pairs(terms@)
                }),
                ids_increase(terms@),
                forall|j: int| 0 <= j < terms.len() && i < s.len() ==> (#[trigger] terms@[j]).0.id < s[i as int].0,
            decreases n - i,
        {
            let y = Variable::new(exp.terms.key_at(i));
            let c: Number = exp.terms.value_at(i);
            proof {
                zone_model::assign_ranges(z, mo, above, c0, s, i as nat);
                if i + 1 < s.len() { assert(s[i as int].0 < s[i + 1].0); }
            }
            if c.is_zero() {
            } else if c.is_negative() {
                let b: Bound = if extract_upper_bounds { self.get_lb(y) } else { self.get_ub(y, registry) };
                match b {
                    ExtendedNumber::Finite(m) => {
                        let p: Number = m.mul(c);
                        let u: Number = rest.add(p);
                        if !is_roomy(m) || !is_roomy(p) || !is_roomy(u) {
                            proof { zone_model::assign_failed(z, mo, above, c0, s, (i + 1) as nat, s.len()); }
                            return r;
                        }
                        rest = u;
                    }
                    _ => {
                        proof { zone_model::assign_failed(z, mo, above, c0, s, (i + 1) as nat, s.len()); }
                        return r;
                    }
                }
            } else {
                let b: Bound = if extract_upper_bounds { self.get_ub(y, registry) } else { self.get_lb(y) };
                match b {
                    ExtendedNumber::Finite(m) => {
                        let p: Number = m.mul(c);
                        let u: Number = rest.add(p);
                        if !is_roomy(m) || !is_roomy(p) || !is_roomy(u) {
                            proof { zone_model::assign_failed(z, mo, above, c0, s, (i + 1) as nat, s.len()); }
                            return r;
                        }
                        rest = u;
                        let ghost before = terms@;
                        terms.push((y, m));
                        assert(plain_pairs(terms@) =~= plain_pairs(before).push((y.id, m@)));
                    }
                    _ => {
                        if free.is_some() || c.n != 1 {
                            proof { zone_model::assign_failed(z, mo, above, c0, s, (i + 1) as nat, s.len()); }
                            return r;
                        }
                        free = Some(y);
                    }
                }
            }
            i = i + 1;
        }
        proof { zone_model::assign_ranges(z, mo, above, c0, s, s.len()); }
        let ghost due = |v: u64, w: int| zone_model::assign_due(whole, v, w);
        match free {
            Some(v) => {
                r.push((v, rest));
                assert(r@[0] == (v, rest));
            }
            None => {
                let mut j: usize = 0;
                while j < terms.len()
                    invariant
                        j <= terms.len(),
                        r.len() == j,
                        zone_model::roomy(rest@),
                        plain_pairs(terms@) == whole.terms,
                        forall|q: int| 0 <= q < whole.terms.len() ==> zone_model::roomy((#[trigger] whole.terms[q]).1),
                        forall|q: int| 0 <= q < j ==> (#[trigger] r@[q]).0 == terms@[q].0 && r@[q].1@ == number::saturate(rest@ - terms@[q].1@)
                            && zone_model::roomy(terms@[q].1@),
                    decreases terms.len() - j,
                {
                    let (v, k) = terms[j];
                    assert(whole.terms[j as int] == (v.id, k@));
                    r.push((v, rest.sub(k)));
                    j = j + 1;
                }
                proof {
                    assert forall|q: int| 0 <= q < r.len() implies due((#[trigger] r@[q]).0.id, r@[q].1@) by {
                        assert(whole.terms[q] == (terms@[q].0.id, terms@[q].1@));
                    }
                    assert forall|v: u64, w: int| #[trigger] due(v, w) implies exists|q: int| 0 <= q < r.len() && (#[trigger] r@[q]).0.id == v && r@[q].1@ == w by {
                        let q = choose|q: int| 0 <= q < whole.terms.len() && (#[trigger] whole.terms[q]).0 == v && w == number::saturate(whole.rest - whole.terms[q].1);
                        assert(r@[q].0.id == v);
                    }
                }
            }
        }
        r
    }

    /// The vertices of the variables of a list, with the weights or their opposites.
    fn at_vertices(&mut self, diffs: &Vec<(Variable, Number)>, opposite: bool) -> (r: Vec<(VertId, Weight)>)
        requires
            old(self).wf(),
            ids_increase(diffs@),
        ensures
            final(self).wf(),
            final(self).z() == old(self).z(),
            final(self).core.edges() == old(self).core.edges(),
            forall|k: u64| #[trigger] old(self).vm().contains_key(k) ==> final(self).vm().contains_key(k) && final(self).vm()[k] == old(self).vm()[k],
            r.len() == diffs.len(),
            forall|i: int| #![trigger r@[i]] #![trigger diffs@[i]] 0 <= i < r.len() ==> final(self).vm().contains_key(diffs@[i].0.id) && r@[i].0 == final(self).vm()[diffs@[i].0.id]
                && r@[i].1@ == (if opposite { number::saturate(-diffs@[i].1@) } else { diffs@[i].1@ }),
    {
        let mut r: Vec<(VertId, Weight)> = Vec::new();
        let mut i: usize = 0;
        while i < diffs.len()
            invariant
                self.wf(),
                self.z() == old(self).z(),
                self.core.edges() == old(self).core.edges(),
                forall|k: u64| #[trigger] old(self).vm().contains_key(k) ==> self.vm().contains_key(k) && self.vm()[k] == old(self).vm()[k],
                i <= diffs.len(),
                r.len() == i,
                forall|j: int| #![trigger r@[j]] #![trigger diffs@[j]] 0 <= j < i ==> self.vm().contains_key(diffs@[j].0.id) && r@[j].0 == self.vm()[diffs@[j].0.id]
                    && r@[j].1@ == (if opposite { number::saturate(-diffs@[j].1@) } else { diffs@[j].1@ }),
            decreases diffs.len() - i,
        {
            let (v, n) = diffs[i];
            assert(diffs@[i as int] == (v, n));
            let u: VertId = self.get_vert(v);
            r.push((u, if opposite { n.neg() } else { n }));
            i = i + 1;
        }
        r
    }

    /// Assigns an expression to a variable.
    #[verifier::rlimit(60)]
    pub fn assign(&mut self, lhs: Variable, e: &LinearExpression, registry: &VariableRegistry)
        requires old(self).wf(), registry@.knows(lhs), knows_terms(registry@, e.terms@),
        ensures
            final(self).wf(),
            zone_model::assigned(old(self).z(), lhs.id, e, min_only_of(registry@), final(self).z()),
    {
        let ghost z0 = self.z();
        let ghost mo = min_only_of(registry@);
        let value_interval = self.interval_of_sum(e);
        if value_interval.is_singleton() {
            self.put(lhs, &value_interval, registry);
            return;
        }
        let diffs_lb = self.diffcsts_of_assign(e, false, registry);
        let diffs_ub = self.diffcsts_of_assign(e, true, registry);
        let ghost below = |v: u64, w: int| zone_model::assign_due(zone_model::assign_of(z0, mo, false, e), v, w);
        let ghost above = |v: u64, w: int| zone_model::assign_due(zone_model::assign_of(z0, mo, true, e), v, w);
        if diffs_lb.len() == 0 && diffs_ub.len() == 0 {
            self.put(lhs, &value_interval, registry);
            proof {
                assert forall|v: u64, w: int| !zone_model::assign_due(zone_model::assign_of(z0, mo, true, e), v, w)
                    && !zone_model::assign_due(zone_model::assign_of(z0, mo, false, e), v, w) by {
                    assert(!above(v, w));
                    assert(!below(v, w));
                }
            }
            return;
        }
        proof {
            if diffs_lb.len() > 0 {
                assert(below(diffs_lb@[0].0.id, diffs_lb@[0].1@));
            } else {
                assert(above(diffs_ub@[0].0.id, diffs_ub@[0].1@));
            }
            assert(!zone_model::no_differences(z0, e, mo));
        }
        let e_val: Weight = self.eval_expression(e);
        let diffs_from = self.at_vertices(&diffs_lb, true);
        let ghost mid = *self;
        let diffs_to = self.at_vertices(&diffs_ub, false);
        let lb_w: Option<Weight> = match value_interval.lb {
            ExtendedNumber::Finite(n) => Some(n.neg()),
            _ => None,
        };
        let ub_w: Option<Weight> = match value_interval.ub {
            ExtendedNumber::Finite(n) => if registry.is_min_only(lhs) { None } else { Some(n) },
            _ => None,
        };
        let pot_val: Weight = self.core.potential_at_zero().add(e_val);
        let ghost before = *self;
        let ghost e0 = self.core.edges();
        let ghost vm1 = self.vm();
        proof {
            self.core.lemma_edge_live();
            self.lemma_covered();
            assert forall|i: int| 0 <= i < diffs_from.len() implies (#[trigger] diffs_from@[i]).0 != 0 && self.core.live(diffs_from@[i].0)
                && vm1.contains_key(diffs_lb@[i].0.id) && diffs_from@[i].0 == vm1[diffs_lb@[i].0.id] by {
                assert(mid.vm().contains_key(diffs_lb@[i].0.id));
                assert(vm1.contains_key(diffs_lb@[i].0.id));
                assert(self.core.live(vm1[diffs_lb@[i].0.id]));
            }
            assert forall|i: int| 0 <= i < diffs_to.len() implies (#[trigger] diffs_to@[i]).0 != 0 && self.core.live(diffs_to@[i].0) by {
                assert(vm1.contains_key(diffs_ub@[i].0.id));
                assert(self.core.live(vm1[diffs_ub@[i].0.id]));
            }
        }
        let vert: VertId = self.core.assign_vertex(&pot_val, &diffs_from, &diffs_to, lb_w, ub_w);
        let ghost m = self.core.edges();
        proof {
            self.core.lemma_edge_live();
            assert(!zone_map::named(vm1, vert)) by {
                if zone_map::named(vm1, vert) {
                    let k = choose|k: u64| #[trigger] vm1.contains_key(k) && vm1[k] == vert;
                    assert(before.core.live(before.vm()[k]));
                }
            }
        }
        match self.vert_map.get(lhs.id) {
            Some(y) => {
                proof { assert(before.core.live(before.vm()[lhs.id])); }
                assert((y as int) < self.rev_map.len());
                self.core.forget(y);
                self.rev_map.set(y as usize, None);
                self.vert_map.remove(lhs.id);
            }
            None => {}
        }
        let ghost e2 = self.core.edges();
        let ghost gone = self.vm();
        let n: usize = self.rev_map.len();
        if (vert as usize) < n && vert < n as u64 {
            self.rev_map.set(vert as usize, Some(lhs));
        } else {
            self.rev_map.push(Some(lhs));
        }
        self.vert_map.insert(lhs.id, vert);
        proof {
            let vm2 = self.vm();
            self.core.lemma_edge_live();
            assert forall|k: u64| #[trigger] vm2.contains_key(k) implies k == lhs.id || (vm1.contains_key(k) && vm2[k] == vm1[k]) by {}
            assert forall|k: u64| #[trigger] vm1.contains_key(k) && k != lhs.id implies vm2.contains_key(k) && vm2[k] == vm1[k] by {}
            assert(zone_map::one_to_one(vm2)) by {
                assert forall|i: u64, j: u64| #![trigger vm2[i], vm2[j]] vm2.contains_key(i) && vm2.contains_key(j) && vm2[i] == vm2[j] implies i == j by {
                    if i == lhs.id && j != lhs.id { assert(vm1.contains_key(j) && vm1[j] == vert); }
                    if j == lhs.id && i != lhs.id { assert(vm1.contains_key(i) && vm1[i] == vert); }
                }
                assert forall|k: u64| #[trigger] vm2.contains_key(k) implies vm2[k] != 0 by {
                    if k != lhs.id { assert(vm1.contains_key(k)); }
                }
            }
            assert forall|u: u64| #[trigger] self.core.live(u) implies zone_map::named(vm2, u) by {
                if u == vert {
                    assert(vm2.contains_key(lhs.id) && vm2[lhs.id] == u);
                } else if u != 0 {
                    assert(before.core.live(u));
                    let k = choose|k: u64| #[trigger] vm1.contains_key(k) && vm1[k] == u;
                    assert(k != lhs.id);
                    assert(vm2.contains_key(k) && vm2[k] == u);
                }
            }
            assert forall|k: u64| #[trigger] vm2.contains_key(k) implies
                self.core.live(vm2[k]) && self.rev_map@[vm2[k] as int] == Some(Variable { id: k }) by {
                if k != lhs.id {
                    assert(vm1.contains_key(k));
                    assert(before.core.live(before.vm()[k]));
                    if vm1.contains_key(lhs.id) { assert(vm1[k] != vm1[lhs.id]); }
                }
            }
            assert forall|w: int| 0 <= w < self.rev_map@.len() && (#[trigger] self.rev_map@[w]) is Some implies
                vm2.contains_key(self.rev_map@[w]->Some_0.id) && vm2[self.rev_map@[w]->Some_0.id] == w by {
                if w != vert {
                    assert(before.rev_map@[w] is Some);
                }
            }
            assert(self.wf());
            self.lemma_covered();
            assert(vm2 =~= vm1.remove(lhs.id).insert(lhs.id, vert));
            lemma_assigned(z0, lhs.id, e, mo, value_interval, e0, vm1, m, e2, vm2, vert, diffs_lb@, diffs_ub@, diffs_from@, diffs_to@, lb_w, ub_w);
        }
    }

    /// Assigns a variable to another.
    pub fn assign_variable(&mut self, x: Variable, v: Variable, registry: &VariableRegistry)
        requires old(self).wf(), registry@.knows(x), registry@.knows(v),
        ensures
            final(self).wf(),
            variable_assigned(old(self).z(), x.id, v.id, min_only_of(registry@), final(self).z()),
    {
        let e = LinearExpression::from_variable(v);
        self.assign(x, &e, registry);
        assert(is_variable(&e, v.id));
    }

    /// Assigns a number to a variable.
    pub fn assign_number(&mut self, x: Variable, n: i64, registry: &VariableRegistry)
        requires old(self).wf(), registry@.knows(x),
        ensures
            final(self).wf(),
            final(self).z() == zone_model::zput(old(self).z(), x.id, Interval::point(Number { n: n as i128 }), registry@.min_only(x)),
    {
        let e = LinearExpression::from_i64(n);
        self.assign(x, &e, registry);
        proof {
            assert(e.constant == Number { n: n as i128 });
            assert(zone_model::zeval(old(self).z(), &e) == Interval::point(e.constant));
        }
    }
}

/// The expression is a variable.
pub open spec fn is_variable(e: &LinearExpression, v: u64) -> bool {
    &&& e.terms@ == Map::<u64, Number>::empty().insert(v, Number { n: 1 })
    &&& e.terms.entries() == seq![(v, Number { n: 1 })]
    &&& e.constant@ == 0
    &&& forall|env: Env| #[trigger] e.eval(env) == env(v)
}

/// `z1` is `z0` after the assignment of the variable `v` to `x`.
pub open spec fn variable_assigned(z0: ZEdges, x: u64, v: u64, mo: spec_fn(u64) -> bool, z1: ZEdges) -> bool {
    exists|e: LinearExpression| is_variable(&e, v) && #[trigger] zone_model::assigned(z0, x, &e, mo, z1)
}

/// What the matrix says after an assignment, read on the variables.
#[verifier::rlimit(60)]
proof fn lemma_assigned(
    z0: ZEdges, lhs: u64, e: &LinearExpression, mo: spec_fn(u64) -> bool, iv: Interval,
    e0: crate::splitdbm::graph::Edges, vm1: VertexOf, m: crate::splitdbm::graph::Edges,
    e2: crate::splitdbm::graph::Edges, vm2: VertexOf, vert: u64,
    lbs: Seq<(Variable, Number)>, ubs: Seq<(Variable, Number)>,
    from: Seq<(u64, Number)>, to: Seq<(u64, Number)>, lb: Option<Number>, ub: Option<Number>,
)
    requires
        z0 == zone_map::zof(e0, vm1),
        iv == zone_model::zeval(z0, e),
        iv.lb != iv.ub,
        !zone_model::no_differences(z0, e, mo),
        zone_map::one_to_one(vm1),
        zone_map::one_to_one(vm2),
        zone_map::covered(e0, vm1),
        zone_map::covered(e2, vm2),
        vert != 0,
        !zone_map::named(vm1, vert),
        vm2 == vm1.remove(lhs).insert(lhs, vert),
        graph_views::edges_without(m, vert) == e0,
        e2 == (if vm1.contains_key(lhs) { graph_views::edges_without(m, vm1[lhs]) } else { m }),
        ({
            let b = split_dbm::with_bound(split_dbm::with_bound(
                graph_ops::updated(e0, split_dbm::assigned_delta(vert, from, to)), (vert, 0), lb), (0, vert), ub);
            constraints::equivalent(m, b) && graph_ops::at_least_as_tight(m, b)
        }),
        m.contains_key((vert, 0)) <==> lb is Some,
        m.contains_key((0, vert)) <==> ub is Some,
        lb matches Some(w) ==> m[(vert, 0)] == w,
        ub matches Some(w) ==> m[(0, vert)] == w,
        lb == (match iv.lb { ExtendedNumber::Finite(n) => Some(Number::nearest(-n@)), _ => None::<Number> }),
        ub == (match iv.ub { ExtendedNumber::Finite(n) => if mo(lhs) { None } else { Some(n) }, _ => None::<Number> }),
        lists_pairs(lbs, |v: u64, w: int| zone_model::assign_due(zone_model::assign_of(z0, mo, false, e), v, w)),
        lists_pairs(ubs, |v: u64, w: int| zone_model::assign_due(zone_model::assign_of(z0, mo, true, e), v, w)),
        ids_increase(lbs),
        ids_increase(ubs),
        from.len() == lbs.len(),
        to.len() == ubs.len(),
        forall|i: int| #![trigger from[i]] #![trigger lbs[i]] 0 <= i < from.len() ==> vm1.contains_key(lbs[i].0.id) && from[i].0 == vm1[lbs[i].0.id] && from[i].1@ == number::saturate(-lbs[i].1@),
        forall|i: int| #![trigger to[i]] #![trigger ubs[i]] 0 <= i < to.len() ==> vm1.contains_key(ubs[i].0.id) && to[i].0 == vm1[ubs[i].0.id] && to[i].1@ == ubs[i].1@,
    ensures zone_model::assigned(z0, lhs, e, mo, zone_map::zof(e2, vm2)),
{
    let z1 = zone_map::zof(e2, vm2);
    let nd = zone_model::node(lhs);
    let put = zone_model::zput(z0, lhs, iv, mo(lhs));
    let below = |v: u64, w: int| zone_model::assign_due(zone_model::assign_of(z0, mo, false, e), v, w);
    let above = |v: u64, w: int| zone_model::assign_due(zone_model::assign_of(z0, mo, true, e), v, w);
    let delta = split_dbm::assigned_delta(vert, from, to);
    let up = graph_ops::updated(e0, delta);
    let b1 = split_dbm::with_bound(up, (vert, 0), lb);
    let b = split_dbm::with_bound(b1, (0, vert), ub);
    assert(((lhs + 1) - 1) as u64 == lhs);
    assert(zone_map::on_map(vm2, nd) && zone_map::vert(vm2, nd) == vert);
    // The other variables keep their vertices.
    assert forall|n: int| n != nd implies #[trigger] zone_map::on_map(vm2, n) == zone_map::on_map(vm1, n)
        && (zone_map::on_map(vm1, n) ==> zone_map::vert(vm2, n) == zone_map::vert(vm1, n) && zone_map::vert(vm1, n) != vert
            && (vm1.contains_key(lhs) ==> zone_map::vert(vm1, n) != vm1[lhs])) by {
        if zone_map::on_map(vm1, n) {
            zone_map::lemma_node(vm1, n);
            if n != 0 {
                let k = (n - 1) as u64;
                assert(k != lhs);
                if vm1.contains_key(lhs) { assert(vm1[k] != vm1[lhs]); }
            } else if vm1.contains_key(lhs) {
                assert(vm1[lhs] != 0);
            }
        }
    }
    assert(zone_model::zwithout(z1, nd) =~= zone_model::zwithout(z0, nd)) by {
        let l = zone_model::zwithout(z1, nd);
        let r = zone_model::zwithout(z0, nd);
        assert forall|q: (int, int)| l.contains_key(q) == r.contains_key(q) && (l.contains_key(q) ==> l[q] == r[q]) by {
            if q.0 != nd && q.1 != nd {
                assert(zone_map::on_map(vm2, q.0) == zone_map::on_map(vm1, q.0));
                assert(zone_map::on_map(vm2, q.1) == zone_map::on_map(vm1, q.1));
                let key = (zone_map::vert(vm1, q.0), zone_map::vert(vm1, q.1));
                if zone_map::on_map(vm1, q.0) && zone_map::on_map(vm1, q.1) {
                    assert(e0.contains_key(key) == m.contains_key(key));
                    assert(e2.contains_key(key) == m.contains_key(key));
                }
            }
        }
    }
    assert(zone_model::same_bounds(z1, put, nd)) by {
        assert(e2.contains_key((vert, 0)) == m.contains_key((vert, 0)));
        assert(e2.contains_key((0, vert)) == m.contains_key((0, vert)));
    }
    // Differences.
    assert forall|i: int| 0 <= i < lbs.len() && (#[trigger] lbs[i]).0.id != lhs implies
        z1.contains_key((nd, zone_model::node(lbs[i].0.id))) && z1[(nd, zone_model::node(lbs[i].0.id))]@ <= -lbs[i].1@ by {
        let v = lbs[i].0.id;
        let f = from[i].0;
        assert(delta[i] == (vert, f, from[i].1));
        assert forall|j: int| i < j < delta.len() implies ((#[trigger] delta[j]).0, delta[j].1) != (delta[i].0, delta[i].1) by {
            if j < from.len() {
                assert(delta[j] == (vert, from[j].0, from[j].1));
                assert(lbs[i].0.id < lbs[j].0.id);
                assert(vm1[lbs[i].0.id] != vm1[lbs[j].0.id]);
            } else {
                assert(delta[j] == (to[j - from.len()].0, vert, to[j - from.len()].1));
                assert(vm1.contains_key(v));
                assert(zone_map::named(vm1, f));
            }
        }
        lemma_updated_at(e0, delta, i);
        assert(f != 0 && f != vert) by { assert(vm1.contains_key(v)); assert(zone_map::named(vm1, f)); }
        assert(b1.contains_key((vert, f)) && b1[(vert, f)] == from[i].1);
        assert(b.contains_key((vert, f)) && b[(vert, f)] == from[i].1);
        assert(m.contains_key((vert, f)) && m[(vert, f)]@ <= from[i].1@);
        assert(zone_map::on_map(vm1, zone_model::node(v)));
        assert(zone_map::on_map(vm2, zone_model::node(v)));
        assert(e2.contains_key((vert, f)));
    }
    assert forall|i: int| 0 <= i < ubs.len() && (#[trigger] ubs[i]).0.id != lhs implies
        z1.contains_key((zone_model::node(ubs[i].0.id), nd)) && z1[(zone_model::node(ubs[i].0.id), nd)]@ <= ubs[i].1@ by {
        let v = ubs[i].0.id;
        let f = to[i].0;
        let p = from.len() + i;
        assert(delta[p] == (f, vert, to[i].1));
        assert forall|j: int| p < j < delta.len() implies ((#[trigger] delta[j]).0, delta[j].1) != (delta[p].0, delta[p].1) by {
            let q = j - from.len();
            assert(delta[j] == (to[q].0, vert, to[q].1));
            assert(ubs[i].0.id < ubs[q].0.id);
            assert(vm1[ubs[i].0.id] != vm1[ubs[q].0.id]);
        }
        lemma_updated_at(e0, delta, p);
        assert(f != 0 && f != vert) by { assert(vm1.contains_key(v)); assert(zone_map::named(vm1, f)); }
        assert(b1.contains_key((f, vert)) && b1[(f, vert)] == to[i].1);
        assert(b.contains_key((f, vert)) && b[(f, vert)] == to[i].1);
        assert(m.contains_key((f, vert)) && m[(f, vert)]@ <= to[i].1@);
        assert(zone_map::on_map(vm1, zone_model::node(v)));
        assert(zone_map::on_map(vm2, zone_model::node(v)));
        assert(e2.contains_key((f, vert)));
    }
    assert forall|v: u64, w: int| #[trigger] zone_model::assign_due(zone_model::assign_of(z0, mo, true, e), v, w) && v != lhs implies
        z1.contains_key((zone_model::node(v), nd)) && z1[(zone_model::node(v), nd)]@ <= w by {
        assert(above(v, w));
        let i = choose|i: int| 0 <= i < ubs.len() && (#[trigger] ubs[i]).0.id == v && ubs[i].1@ == w;
        assert(ubs[i].0.id != lhs);
    }
    assert forall|v: u64, w: int| #[trigger] zone_model::assign_due(zone_model::assign_of(z0, mo, false, e), v, w) && v != lhs implies
        z1.contains_key((nd, zone_model::node(v))) && z1[(nd, zone_model::node(v))]@ <= -w by {
        assert(below(v, w));
        let i = choose|i: int| 0 <= i < lbs.len() && (#[trigger] lbs[i]).0.id == v && lbs[i].1@ == w;
        assert(lbs[i].0.id != lhs);
    }
    // Soundness.
    assert forall|env: Env, ev: int| #![trigger zone_model::zholds(z1, zone_model::env_with(env, lhs, ev))] zone_model::zholds(z0, env) && iv.has(ev)
        && zone_model::broad_change(env, lhs, ev) && zone_model::assign_dues_hold(z0, e, mo, env, ev)
        implies zone_model::zholds(z1, zone_model::env_with(env, lhs, ev)) by {
        let next = zone_model::env_with(env, lhs, ev);
        assert(next(lhs) == ev);
        assert(constraints::near_or_far(-next(lhs)));
        let base = zone_map::vertex_values(vm1, env);
        let x: constraints::Val = |u: u64| if u == vert { ev } else { base(u) };
        zone_map::lemma_models(e0, vm1, env);
        zone_map::lemma_wide(vm1, env);
        assert(constraints::wide(x)) by {
            assert forall|p: u64, q: u64| #![trigger x(p), x(q)] constraints::near_or_far(x(p) - x(q)) by {
                assert(constraints::near_or_far(base(p) - base(q)));
                zone_model::lemma_beside(env, lhs, ev, zone_map::node_of(vm1, p));
                zone_model::lemma_beside(env, lhs, ev, zone_map::node_of(vm1, q));
            }
        }
        assert(constraints::models(e0, x)) by {
            assert forall|s: u64, d: u64| #![trigger e0.contains_key((s, d))] e0.contains_key((s, d)) implies x(d) - x(s) <= e0[(s, d)]@ by {
                assert(zone_map::named(vm1, s) && zone_map::named(vm1, d));
                assert(base(d) - base(s) <= e0[(s, d)]@);
            }
        }
        assert forall|i: int| 0 <= i < delta.len() implies x((#[trigger] delta[i]).1) - x(delta[i].0) <= delta[i].2@ by {
            if i < from.len() {
                assert(delta[i] == (vert, from[i].0, from[i].1));
                let v = lbs[i].0.id;
                assert(below(v, lbs[i].1@));
                zone_model::lemma_beside(env, lhs, ev, zone_model::node(v));
                zone_map::lemma_node(vm1, zone_model::node(v));
                assert(((v + 1) - 1) as u64 == v);
                assert(base(from[i].0) == env(v));
                assert(from[i].0 != vert);
            } else {
                let q = i - from.len();
                assert(delta[i] == (to[q].0, vert, to[q].1));
                let v = ubs[q].0.id;
                assert(above(v, ubs[q].1@));
                zone_model::lemma_beside(env, lhs, ev, zone_model::node(v));
                zone_map::lemma_node(vm1, zone_model::node(v));
                assert(((v + 1) - 1) as u64 == v);
                assert(base(to[q].0) == env(v));
                assert(to[q].0 != vert);
            }
        }
        lemma_updated_models(e0, delta, x);
        assert(x(0) == 0) by { assert(base(0) == 0); }
        assert(constraints::models(b1, x)) by {
            assert forall|s: u64, d: u64| #![trigger b1.contains_key((s, d))] b1.contains_key((s, d)) implies x(d) - x(s) <= b1[(s, d)]@ by {
                if (s, d) != (vert, 0u64) { assert(up.contains_key((s, d))); }
                else if up.contains_key((s, d)) { assert(x(d) - x(s) <= up[(s, d)]@); }
            }
        }
        assert(constraints::models(b, x)) by {
            assert forall|s: u64, d: u64| #![trigger b.contains_key((s, d))] b.contains_key((s, d)) implies x(d) - x(s) <= b[(s, d)]@ by {
                if (s, d) != (0u64, vert) { assert(b1.contains_key((s, d))); }
                else if b1.contains_key((s, d)) { assert(x(d) - x(s) <= b1[(s, d)]@); }
            }
        }
        constraints::lemma_entails_use(b, m, x);
        let y = zone_map::vertex_values(vm2, next);
        assert(constraints::models(e2, y)) by {
            assert forall|s: u64, d: u64| #![trigger e2.contains_key((s, d))] e2.contains_key((s, d)) implies y(d) - y(s) <= e2[(s, d)]@ by {
                assert(m.contains_key((s, d)));
                assert(x(d) - x(s) <= m[(s, d)]@);
                lemma_same_value(vm1, vm2, lhs, vert, env, ev, s);
                lemma_same_value(vm1, vm2, lhs, vert, env, ev, d);
            }
        }
        zone_map::lemma_models(e2, vm2, next);
    }
    assert forall|env: Env| #![trigger zone_model::zholds(z0, env)] zone_model::mild(env) && zone_model::zholds(z0, env) && iv.has(e.eval(env))
        && zone_model::mild_change(env, lhs, e.eval(env)) implies zone_model::zholds(z1, zone_model::env_with(env, lhs, e.eval(env))) by {
        let ev = e.eval(env);
        assert(zone_model::assign_dues_hold(z0, e, mo, env, ev)) by {
            assert forall|v: u64, w: int| #[trigger] zone_model::assign_due(zone_model::assign_of(z0, mo, true, e), v, w) implies ev - env(v) <= w by {
                zone_model::lemma_near(env, lhs, ev, zone_model::node(v));
                zone_model::assignment_is_sound(z0, mo, true, e, env, v, w);
            }
            assert forall|v: u64, w: int| #[trigger] zone_model::assign_due(zone_model::assign_of(z0, mo, false, e), v, w) implies ev - env(v) >= w by {
                zone_model::lemma_near(env, lhs, ev, zone_model::node(v));
                zone_model::assignment_is_sound(z0, mo, false, e, env, v, w);
            }
        }
        assert(zone_model::broad_change(env, lhs, ev));
    }
}

/// A vertex has the same value before and after the assignment, but for the new one.
proof fn lemma_same_value(vm1: VertexOf, vm2: VertexOf, lhs: u64, vert: u64, env: Env, ev: int, u: u64)
    requires
        zone_map::one_to_one(vm1),
        zone_map::one_to_one(vm2),
        !zone_map::named(vm1, vert),
        vm2 == vm1.remove(lhs).insert(lhs, vert),
        zone_map::named(vm2, u),
    ensures
        zone_map::vertex_values(vm2, zone_model::env_with(env, lhs, ev))(u)
            == (if u == vert { ev } else { zone_map::vertex_values(vm1, env)(u) }),
{
    let next = zone_model::env_with(env, lhs, ev);
    zone_map::lemma_vert(vm2, u);
    let n = zone_map::node_of(vm2, u);
    assert(zone_map::vertex_values(vm2, next)(u) == zone_model::node_value(next, n));
    if u == 0 {
        assert(zone_map::vertex_values(vm1, env)(u) == 0);
    } else {
        let k = (n - 1) as u64;
        if k == lhs {
            assert(u == vert);
        } else {
            assert(vm1.contains_key(k) && vm1[k] == u);
            zone_map::lemma_node(vm1, n);
            assert(u != vert);
        }
    }
}

/// The list of the vertices of the variables at the positions of a common space.
spec fn distinct_after_first(vars: Seq<u64>) -> bool {
    forall|i: int, j: int| 1 <= i < j < vars.len() ==> #[trigger] vars[i] != #[trigger] vars[j]
}

/// Numbers the variables of a list; the first position is left out.
fn result_mappings(vars: &Vec<u64>) -> (r: (VertMap, Vec<Option<Variable>>))
    requires vars.len() >= 1, distinct_after_first(vars@),
    ensures
        zone_map::positions(vars@, r.0@),
        r.0@.dom().finite(),
        r.1.len() == vars.len(),
        r.1@[0] is None,
        forall|i: int| 1 <= i < vars.len() ==> #[trigger] r.1@[i] == Some(Variable { id: vars@[i] }),
{
    let mut vmap: VertMap = OrdMap::new();
    let mut rev: Vec<Option<Variable>> = Vec::new();
    rev.push(None);
    let mut i: usize = 1;
    while i < vars.len()
        invariant
            1 <= i <= vars.len(),
            distinct_after_first(vars@),
            rev.len() == i,
            vmap@.dom().finite(),
            rev@[0] is None,
            forall|j: int| 1 <= j < i ==> #[trigger] rev@[j] == Some(Variable { id: vars@[j] }),
            forall|j: int| 1 <= j < i ==> vmap@.contains_key(#[trigger] vars@[j]) && vmap@[vars@[j]] == j,
            forall|k: u64| #[trigger] vmap@.contains_key(k) ==> 1 <= vmap@[k] < i && vars@[vmap@[k] as int] == k,
        decreases vars.len() - i,
    {
        let v: u64 = vars[i];
        let ghost before = vmap@;
        vmap.insert(v, i as u64);
        rev.push(Some(Variable::new(v)));
        assert forall|j: int| 1 <= j < i + 1 implies vmap@.contains_key(#[trigger] vars@[j]) && vmap@[vars@[j]] == j by {
            if j < i { assert(vars@[j] != vars@[i as int]); assert(before.contains_key(vars@[j])); }
        }
        i = i + 1;
    }
    (vmap, rev)
}

impl ZoneDomain {
    /// A zone over the variables of a list, from a matrix over their positions.
    fn from_parts(core: SplitDBM, vars: &Vec<u64>) -> (r: ZoneDomain)
        requires
            core.wf(),
            core.stable(),
            core.gsize() == vars.len(),
            vars.len() >= 1,
            distinct_after_first(vars@),
            forall|v: u64| #[trigger] core.live(v) <==> v < vars.len(),
        ensures
            r.wf(),
            zone_map::positions(vars@, r.vm()),
            r.z() == zone_map::zof(core.edges(), r.vm()),
            r.core.edges() == core.edges(),
    {
        let (vert_map, rev_map) = result_mappings(vars);
        let r = ZoneDomain { core, vert_map, rev_map };
        proof {
            zone_map::lemma_positions(vars@, r.vm());
            assert forall|u: u64| #[trigger] r.core.live(u) implies zone_map::named(r.vm(), u) by {}
            assert forall|k: u64| #[trigger] r.vm().contains_key(k) implies
                r.core.live(r.vm()[k]) && r.rev_map@[r.vm()[k] as int] == Some(Variable { id: k }) by {}
        }
        r
    }

    /// The vertices of the variables that both zones have.
    fn make_intersection_alignment(left: &ZoneDomain, right: &ZoneDomain) -> (r: (Vec<VertId>, Vec<VertId>, Vec<u64>))
        requires left.wf(), right.wf(),
        ensures
            zone_map::perm_of(r.0@, r.2@, left.vm()),
            zone_map::perm_of(r.1@, r.2@, right.vm()),
            distinct_after_first(r.2@),
            forall|i: int| 1 <= i < r.2.len() ==> left.vm().contains_key(#[trigger] r.2@[i]) && right.vm().contains_key(r.2@[i]),
            forall|k: u64| #[trigger] left.vm().contains_key(k) && right.vm().contains_key(k) ==> exists|i: int| 1 <= i < r.2.len() && #[trigger] r.2@[i] == k,
    {
        let mut perm_left: Vec<VertId> = Vec::new();
        let mut perm_right: Vec<VertId> = Vec::new();
        let mut vars: Vec<u64> = Vec::new();
        perm_left.push(0);
        perm_right.push(0);
        vars.push(0);
        let n: usize = left.vert_map.len();
        let ghost s = left.vert_map.entries();
        let mut i: usize = 0;
        while i < n
            invariant
                i <= n,
                n == s.len(),
                s == left.vert_map.entries(),
                ord_map::sorted_entries(s),
                left.vm() == ord_map::entries_map(s),
                zone_map::perm_of(perm_left@, vars@, left.vm()),
                zone_map::perm_of(perm_right@, vars@, right.vm()),
                distinct_after_first(vars@),
                forall|j: int| 1 <= j < vars.len() ==> left.vm().contains_key(#[trigger] vars@[j]) && right.vm().contains_key(vars@[j]),
                forall|j: int| 1 <= j < vars.len() && i < n ==> (#[trigger] vars@[j]) < s[i as int].0,
                forall|j: int| 0 <= j < i && right.vm().contains_key((#[trigger] s[j]).0) ==> exists|q: int| 1 <= q < vars.len() && #[trigger] vars@[q] == s[j].0,
            decreases n - i,
        {
            let k: u64 = left.vert_map.key_at(i);
            let u: VertId = left.vert_map.value_at(i);
            proof { if i + 1 < n { assert(s[i as int].0 < s[i + 1].0); } }
            let ghost before = vars@;
            match right.vert_map.get(k) {
                Some(w) => {
                    perm_left.push(u);
                    perm_right.push(w);
                    vars.push(k);
                    proof {
                        assert(vars@[before.len() as int] == k);
                        assert forall|j: int| 0 <= j < i + 1 && right.vm().contains_key((#[trigger] s[j]).0) implies exists|q: int| 1 <= q < vars.len() && #[trigger] vars@[q] == s[j].0 by {
                            if j < i {
                                let q = choose|q: int| 1 <= q < before.len() && #[trigger] before[q] == s[j].0;
                                assert(vars@[q] == s[j].0);
                            }
                        }
                    }
                }
                None => {}
            }
            i = i + 1;
        }
        proof {
            assert forall|k: u64| #[trigger] left.vm().contains_key(k) && right.vm().contains_key(k) implies exists|i: int| 1 <= i < vars.len() && #[trigger] vars@[i] == k by {
                let j = ord_map::lemma_key(s, k);
                assert(right.vm().contains_key(s[j].0));
            }
        }
        (perm_left, perm_right, vars)
    }

    /// The vertices of the variables that one of the zones has, with their potentials.
    fn make_union_alignment(left: &ZoneDomain, right: &ZoneDomain) -> (r: (Vec<VertId>, Vec<VertId>, Vec<u64>, Vec<Weight>))
        requires left.wf(), right.wf(),
        ensures
            zone_map::perm_of(r.0@, r.2@, left.vm()),
            zone_map::perm_of(r.1@, r.2@, right.vm()),
            distinct_after_first(r.2@),
            r.3.len() == r.2.len(),
            forall|k: u64| #[trigger] left.vm().contains_key(k) ==> exists|i: int| 1 <= i < r.2.len() && #[trigger] r.2@[i] == k,
            forall|k: u64| #[trigger] right.vm().contains_key(k) ==> exists|i: int| 1 <= i < r.2.len() && #[trigger] r.2@[i] == k,
    {
        let mut perm_left: Vec<VertId> = Vec::new();
        let mut perm_right: Vec<VertId> = Vec::new();
        let mut vars: Vec<u64> = Vec::new();
        let mut pots: Vec<Weight> = Vec::new();
        perm_left.push(0);
        perm_right.push(0);
        vars.push(0);
        pots.push(Number::of(0));
        let n: usize = left.vert_map.len();
        let ghost s = left.vert_map.entries();
        let mut i: usize = 0;
        while i < n
            invariant
                left.wf(),
                i <= n,
                n == s.len(),
                s == left.vert_map.entries(),
                ord_map::sorted_entries(s),
                left.vm() == ord_map::entries_map(s),
                zone_map::perm_of(perm_left@, vars@, left.vm()),
                zone_map::perm_of(perm_right@, vars@, right.vm()),
                distinct_after_first(vars@),
                pots.len() == vars.len(),
                vars.len() == i + 1,
                forall|j: int| 1 <= j < vars.len() ==> #[trigger] vars@[j] == s[j - 1].0,
            decreases n - i,
        {
            let k: u64 = left.vert_map.key_at(i);
            let u: VertId = left.vert_map.value_at(i);
            proof {
                assert(left.core.live(left.vm()[k]));
                left.core.lemma_edge_live();
                assert forall|j: int| 1 <= j < vars.len() implies (#[trigger] vars@[j]) < k by { assert(s[j - 1].0 < s[i as int].0); }
            }
            let w: VertId = match right.vert_map.get(k) {
                Some(w) => w,
                None => 0xffff_ffff_ffff_ffff,
            };
            perm_left.push(u);
            perm_right.push(w);
            vars.push(k);
            pots.push(left.core.potential_at(u).sub(left.core.potential_at_zero()));
            i = i + 1;
        }
        proof {
            assert forall|k: u64| #[trigger] left.vm().contains_key(k) implies exists|i: int| 1 <= i < vars.len() && #[trigger] vars@[i] == k by {
                let j = ord_map::lemma_key(s, k);
                assert(vars@[j + 1] == k);
            }
            assert forall|j: int| 1 <= j < vars.len() implies left.vm().contains_key(#[trigger] vars@[j]) by { ord_map::lemma_entry(s, j - 1); }
        }
        let m: usize = right.vert_map.len();
        let ghost t = right.vert_map.entries();
        let mut i: usize = 0;
        while i < m
            invariant
                right.wf(),
                i <= m,
                m == t.len(),
                t == right.vert_map.entries(),
                ord_map::sorted_entries(t),
                right.vm() == ord_map::entries_map(t),
                zone_map::perm_of(perm_left@, vars@, left.vm()),
                zone_map::perm_of(perm_right@, vars@, right.vm()),
                distinct_after_first(vars@),
                pots.len() == vars.len(),
                forall|k: u64| #[trigger] left.vm().contains_key(k) ==> exists|q: int| 1 <= q < vars.len() && #[trigger] vars@[q] == k,
                forall|j: int| 1 <= j < vars.len() ==> left.vm().contains_key(#[trigger] vars@[j]) || (i < m ==> vars@[j] < t[i as int].0),
                forall|j: int| 0 <= j < i ==> exists|q: int| 1 <= q < vars.len() && #[trigger] vars@[q] == (#[trigger] t[j]).0,
            decreases m - i,
        {
            let k: u64 = right.vert_map.key_at(i);
            let u: VertId = right.vert_map.value_at(i);
            proof {
                assert(right.core.live(right.vm()[k]));
                right.core.lemma_edge_live();
                if i + 1 < m { assert(t[i as int].0 < t[i + 1].0); }
            }
            let ghost before = vars@;
            if !left.vert_map.contains_key(k) {
                proof {
                    assert forall|j: int| 1 <= j < vars.len() implies (#[trigger] vars@[j]) != k by {}
                }
                perm_left.push(0xffff_ffff_ffff_ffff);
                perm_right.push(u);
                vars.push(k);
                pots.push(right.core.potential_at(u).sub(right.core.potential_at_zero()));
                assert(vars@[before.len() as int] == k);
            }
            proof {
                assert forall|q: int| 1 <= q < before.len() implies #[trigger] vars@[q] == before[q] by {}
                assert forall|c: u64| #[trigger] left.vm().contains_key(c) implies exists|q: int| 1 <= q < vars.len() && #[trigger] vars@[q] == c by {
                    let q = choose|q: int| 1 <= q < before.len() && #[trigger] before[q] == c;
                    assert(vars@[q] == c);
                }
                assert forall|j: int| 0 <= j < i + 1 implies exists|q: int| 1 <= q < vars.len() && #[trigger] vars@[q] == (#[trigger] t[j]).0 by {
                    if j < i {
                        let q = choose|q: int| 1 <= q < before.len() && #[trigger] before[q] == t[j].0;
                        assert(vars@[q] == t[j].0);
                    }
                }
            }
            i = i + 1;
        }
        proof {
            assert forall|k: u64| #[trigger] right.vm().contains_key(k) implies exists|i: int| 1 <= i < vars.len() && #[trigger] vars@[i] == k by {
                let j = ord_map::lemma_key(t, k);
                let q = choose|q: int| 1 <= q < vars.len() && #[trigger] vars@[q] == t[j].0;
            }
        }
        (perm_left, perm_right, vars, pots)
    }
}

impl ZoneDomain {
    /// One zone lies in another.
    pub open spec fn included_spec(&self, o: &ZoneDomain) -> bool {
        zone_model::zincluded(self.z(), self.held(), o.z(), o.held())
    }

    /// A zone keeps a vertex for every variable that it speaks of.
    pub proof fn touched_are_held(&self)
        requires self.wf(),
        ensures
            self.held().finite(),
            forall|k: u64| #[trigger] zone_model::touches(self.z(), zone_model::node(k)) ==> self.held().contains(k),
    {
        assert forall|k: u64| #[trigger] zone_model::touches(self.z(), zone_model::node(k)) implies self.held().contains(k) by {
            let c = choose|c: int| self.z().contains_key((zone_model::node(k), c)) || self.z().contains_key((c, zone_model::node(k)));
            assert(((k + 1) - 1) as u64 == k);
            assert(self.vm().contains_key(k));
        }
    }

    proof fn lemma_touched(&self, k: u64)
        requires self.wf(), self.vm().contains_key(k),
        ensures self.core.touched(self.vm()[k]) == zone_model::touches(self.z(), zone_model::node(k)),
    {
        let u = self.vm()[k];
        let n = zone_model::node(k);
        assert(((k + 1) - 1) as u64 == k);
        self.lemma_covered();
        if self.core.touched(u) {
            let w = choose|w: u64| self.core.edges().contains_key((u, w)) || self.core.edges().contains_key((w, u));
            assert(zone_map::named(self.vm(), w)) by {
                if self.core.edges().contains_key((u, w)) {} else { assert(self.core.edges().contains_key((w, u))); }
            }
            zone_map::lemma_vert(self.vm(), w);
            let m = zone_map::node_of(self.vm(), w);
            assert(self.z().contains_key((n, m)) || self.z().contains_key((m, n)));
        }
        if zone_model::touches(self.z(), n) {
            let m = choose|m: int| self.z().contains_key((n, m)) || self.z().contains_key((m, n));
            let w = zone_map::vert(self.vm(), m);
            assert(self.core.edges().contains_key((u, w)) || self.core.edges().contains_key((w, u)));
        }
    }

    /// Whether every constraint of the other zone is covered by this one's.
    pub fn is_included_in(&self, o: &ZoneDomain) -> (r: bool)
        requires self.wf(), o.wf(),
        ensures
            r == self.included_spec(o),
            r ==> zone_model::zentails(self.z(), o.z()),
    {
        proof {
            if self.included_spec(o) {
                if o.z() == ZEdges::empty() {
                    zone_model::tighter_entails(self.z(), o.z());
                } else {
                    zone_model::covering_entails(self.z(), o.z());
                }
            }
        }
        if o.is_top() {
            return true;
        }
        if self.is_top() {
            return false;
        }
        let few: bool = self.vert_map.len() < o.vert_map.len();
        proof {
            ord_map::lemma_entries_count(self.vert_map.entries());
            ord_map::lemma_entries_count(o.vert_map.entries());
        }
        if few {
            return false;
        }
        let n: usize = o.core.graph_size();
        let mut perm: Vec<VertId> = Vec::new();
        let mut i: usize = 0;
        while i < n
            invariant
                i <= n,
                perm.len() == i,
                i > 0 ==> perm@[0] == 0,
            decreases n - i,
        {
            perm.push(if i == 0 { 0 } else { 0xffff_ffff_ffff_ffff });
            i = i + 1;
        }
        proof { o.core.lemma_edge_live(); self.core.lemma_edge_live(); }
        let m: usize = o.vert_map.len();
        let ghost s = o.vert_map.entries();
        let mut i: usize = 0;
        while i < m
            invariant
                self.wf(),
                o.wf(),
                i <= m,
                m == s.len(),
                n == o.core.gsize(),
                s == o.vert_map.entries(),
                ord_map::sorted_entries(s),
                o.vm() == ord_map::entries_map(s),
                perm.len() == n,
                n >= 1,
                perm@[0] == 0,
                forall|v: u64| #[trigger] o.core.live(v) ==> v < o.core.gsize(),
                forall|j: int| 0 <= j < i && o.core.touched((#[trigger] s[j]).1) ==> self.vm().contains_key(s[j].0)
                    && perm@[s[j].1 as int] == self.vm()[s[j].0],
                o.z() != ZEdges::empty(),
            decreases m - i,
        {
            let k: u64 = o.vert_map.key_at(i);
            let u: VertId = o.vert_map.value_at(i);
            proof {
                ord_map::lemma_entry(s, i as int);
                assert(o.core.live(o.vm()[k]));
                o.lemma_touched(k);
            }
            if o.core.vertex_has_edges(u) {
                match self.vert_map.get(k) {
                    Some(y) => {
                        let ghost before = perm@;
                        assert(u < perm.len());
                        perm.set(u as usize, y);
                        proof {
                            assert(u != 0) by { assert(o.vm().contains_key(k)); }
                            assert forall|j: int| 0 <= j < i && o.core.touched((#[trigger] s[j]).1) implies self.vm().contains_key(s[j].0)
                                && perm@[s[j].1 as int] == self.vm()[s[j].0] by {
                                ord_map::lemma_entry(s, j);
                                assert(s[j].0 < s[i as int].0);
                                assert(o.vm()[s[j].0] != o.vm()[k]);
                                assert(before[s[j].1 as int] == self.vm()[s[j].0]);
                            }
                        }
                    }
                    None => {
                        proof {
                            assert(zone_model::touches(o.z(), zone_model::node(k)));
                            assert(!self.held().contains(k));
                        }
                        return false;
                    }
                }
            }
            i = i + 1;
        }
        proof {
            o.lemma_covered();
            self.lemma_covered();
            assert forall|k: u64| o.vm().contains_key(k) && o.core.touched(#[trigger] o.vm()[k]) implies self.vm().contains_key(k)
                && perm@[o.vm()[k] as int] == self.vm()[k] by {
                let j = ord_map::lemma_key(s, k);
                assert(o.core.touched(s[j].1));
            }
            assert forall|k: u64| #[trigger] zone_model::touches(o.z(), zone_model::node(k)) implies self.held().contains(k) by {
                let c = choose|c: int| o.z().contains_key((zone_model::node(k), c)) || o.z().contains_key((c, zone_model::node(k)));
                assert(((k + 1) - 1) as u64 == k);
                assert(o.vm().contains_key(k));
                o.lemma_touched(k);
                assert(o.core.touched(o.vm()[k]));
            }
            // A named vertex of the other zone is mapped to the vertex of the same node here.
            assert forall|x: u64, y: u64| #![trigger o.core.edges().contains_key((x, y))] o.core.edges().contains_key((x, y)) implies ({
                let a = zone_map::node_of(o.vm(), x);
                let b = zone_map::node_of(o.vm(), y);
                &&& zone_map::on_map(o.vm(), a) && zone_map::vert(o.vm(), a) == x
                &&& zone_map::on_map(o.vm(), b) && zone_map::vert(o.vm(), b) == y
                &&& zone_map::on_map(self.vm(), a) && zone_map::vert(self.vm(), a) == perm@[x as int]
                &&& zone_map::on_map(self.vm(), b) && zone_map::vert(self.vm(), b) == perm@[y as int]
                &&& perm@[x as int] < self.core.gsize() && perm@[y as int] < self.core.gsize()
            }) by {
                zone_map::lemma_vert(o.vm(), x);
                zone_map::lemma_vert(o.vm(), y);
                assert(o.core.touched(x));
                assert(o.core.touched(y));
                let a = zone_map::node_of(o.vm(), x);
                let b = zone_map::node_of(o.vm(), y);
                if x != 0 {
                    let k = (a - 1) as u64;
                    assert(o.vm()[k] == x);
                    assert(self.core.live(self.vm()[k]));
                }
                if y != 0 {
                    let k = (b - 1) as u64;
                    assert(o.vm()[k] == y);
                    assert(self.core.live(self.vm()[k]));
                }
            }
            let z = self.z();
            let zo = o.z();
            let l = self.core.edges();
            let r = o.core.edges();
            if zone_model::zsubsumed(z, zo) {
                assert forall|x: u64, y: u64| #![trigger r.contains_key((x, y))] r.contains_key((x, y)) implies
                    split_dbm::covers(l, perm@[x as int], perm@[y as int], r[(x, y)]@) by {
                    let a = zone_map::node_of(o.vm(), x);
                    let b = zone_map::node_of(o.vm(), y);
                    assert(zo.contains_key((a, b)));
                    assert(zone_model::zcovers(z, a, b, zo[(a, b)]@));
                    assert(z.contains_key((a, 0)) == l.contains_key((perm@[x as int], 0)));
                    assert(z.contains_key((0, b)) == l.contains_key((0, perm@[y as int])));
                }
            }
            if split_dbm::subsumed(l, r, perm@) {
                assert forall|a: int, b: int| #![trigger zo.contains_key((a, b))] zo.contains_key((a, b)) implies zone_model::zcovers(z, a, b, zo[(a, b)]@) by {
                    let x = zone_map::vert(o.vm(), a);
                    let y = zone_map::vert(o.vm(), b);
                    zone_map::lemma_node(o.vm(), a);
                    zone_map::lemma_node(o.vm(), b);
                    assert(r.contains_key((x, y)));
                    assert(split_dbm::covers(l, perm@[x as int], perm@[y as int], r[(x, y)]@));
                    assert(z.contains_key((a, 0)) == l.contains_key((perm@[x as int], 0)));
                    assert(z.contains_key((0, b)) == l.contains_key((0, perm@[y as int])));
                }
            }
        }
        SplitDBM::is_subsumed_by(&self.core, &o.core, &perm)
    }

    /// The part of a zone on the variables of a list, read on positions.
    proof fn lemma_aligned(&self, perm: Seq<u64>, vars: Seq<u64>, to: VertexOf)
        requires
            self.wf(),
            zone_map::perm_of(perm, vars, self.vm()),
            zone_map::positions(vars, to),
            self.rev_map@.len() <= u64::MAX,
        ensures
            graph_views::perm_ok(perm, self.core.gsize()),
            zone_map::zof(graph_views::permuted_edges(perm, self.core.edges()), to) == zone_map::zrestrict(self.z(), to),
            zone_map::covered(graph_views::permuted_edges(perm, self.core.edges()), to),
    {
        self.lemma_covered();
        self.core.lemma_edge_live();
        assert forall|k: u64| #[trigger] self.vm().contains_key(k) implies self.vm()[k] < self.core.gsize() by {
            assert(self.core.live(self.vm()[k]));
        }
        zone_map::lemma_permuted(self.core.edges(), self.vm(), perm, vars, to, self.core.gsize());
    }

    /// The join of two zones.
    #[verifier::rlimit(40)]
    pub fn join(&self, right: &ZoneDomain) -> (r: ZoneDomain)
        requires self.wf(), right.wf(),
        ensures r.wf(), zone_model::zjoined(self.z(), right.z(), r.z()),
    {
        let ghost zl = self.z();
        let ghost zr = right.z();
        if right.is_top() {
            proof {
                assert(zone_model::zjoin(zl, zr) =~= ZEdges::empty());
                zone_model::tighter_entails(zl, ZEdges::empty());
                zone_model::tighter_entails(zr, ZEdges::empty());
            }
            return right.copy();
        }
        if self.is_top() {
            proof {
                assert(zone_model::zjoin(zl, zr) =~= ZEdges::empty());
                zone_model::tighter_entails(zl, ZEdges::empty());
                zone_model::tighter_entails(zr, ZEdges::empty());
            }
            return self.copy();
        }
        let (left_perm, right_perm, vars) = Self::make_intersection_alignment(self, right);
        let (vmap, _rev) = result_mappings(&vars);
        let ghost to = vmap@;
        let nl: usize = self.rev_map.len();
        let nr: usize = right.rev_map.len();
        proof {
            self.lemma_aligned(left_perm@, vars@, to);
            right.lemma_aligned(right_perm@, vars@, to);
        }
        let aligned = AlignedPair { left: &self.core, right: &right.core, left_perm, right_perm, initial_potentials: Vec::new() };
        let ghost le = aligned.left_edges();
        let ghost re = aligned.right_edges();
        let joined = SplitDBM::join(&aligned);
        let unused = joined.get_disconnected_vertices();
        let ghost je = joined.edges();
        let mut out = ZoneDomain::from_parts(joined, &vars);
        let ghost zj = out.z();
        proof {
            lemma_same_positions(vars@, to, out.vm());
            zone_map::lemma_positions(vars@, to);
            out.lemma_covered();
            zone_map::lemma_lift_entails(le, je, to);
            zone_map::lemma_lift_entails(re, je, to);
            zone_map::lemma_restrict(zl, to);
            zone_map::lemma_restrict(zr, to);
            zone_map::lemma_lift_tight(je, graph_ops::join_edges(le, re), to);
            let common = zone_map::zof(graph_ops::join_edges(le, re), to);
            let t = zone_model::zjoin(zl, zr);
            assert(common == t) by {
                assert forall|q: (int, int)| #![trigger common.contains_key(q)] #![trigger t.contains_key(q)]
                    common.contains_key(q) == t.contains_key(q) && (common.contains_key(q) ==> common[q] == t[q]) by {
                    let a = zone_map::zof(le, to);
                    let b = zone_map::zof(re, to);
                    assert(a == zone_map::zrestrict(zl, to));
                    assert(b == zone_map::zrestrict(zr, to));
                    if t.contains_key(q) {
                        self.lemma_common(right, vars@, to, q.0);
                        self.lemma_common(right, vars@, to, q.1);
                        assert(a.contains_key(q) && b.contains_key(q));
                    }
                    if common.contains_key(q) {
                        assert(a.contains_key(q) && b.contains_key(q));
                    }
                }
                assert(common =~= t);
            }
            assert(zl != ZEdges::empty() && zr != ZEdges::empty());
            zone_map::lemma_lift_join(je, le, re, to, vars@.len());
            assert(zone_map::zof(le, to) == zone_map::zrestrict(zl, to));
            assert(zone_map::zof(re, to) == zone_map::zrestrict(zr, to));
            self.lemma_join_spelled(right, vars@, to, zj);
            assert forall|n: int| #[trigger] zone_model::same_bounds(zj, zone_model::zjoin(zl, zr), n) by {
                if zone_map::on_map(to, n) {
                    let u = zone_map::vert(to, n);
                    assert(je.contains_key((u, 0)) == graph_ops::join_edges(le, re).contains_key((u, 0)));
                    assert(je.contains_key((0, u)) == graph_ops::join_edges(le, re).contains_key((0, u)));
                } else {
                    assert(!common.contains_key((n, 0)) && !common.contains_key((0, n)));
                    assert(!zj.contains_key((n, 0)) && !zj.contains_key((0, n)));
                }
            }
            assert(zone_model::zjoined(zl, zr, zj)) by {
                assert forall|env: Env| zone_model::broad(env) && #[trigger] zone_model::zholds(zl, env) implies zone_model::zholds(zj, env) by {
                    assert(zone_model::zholds(zone_map::zrestrict(zl, to), env));
                }
                assert forall|env: Env| zone_model::broad(env) && #[trigger] zone_model::zholds(zr, env) implies zone_model::zholds(zj, env) by {
                    assert(zone_model::zholds(zone_map::zrestrict(zr, to), env));
                }
            }
        }
        let mut i: usize = 0;
        while i < unused.len()
            invariant
                out.wf(),
                out.z() == zj,
                i <= unused.len(),
                vars.len() >= 1,
                zone_map::positions(vars@, to),
                zj == zone_map::zof(je, to),
                forall|v: u64| #[trigger] unused@.contains(v) ==> v != 0 && v < vars.len()
                    && forall|u: u64| !je.contains_key((v, u)) && !je.contains_key((u, v)),
            decreases unused.len() - i,
        {
            let v: VertId = unused[i];
            assert(unused@.contains(v));
            assert(v < vars.len());
            let var = Variable::new(vars[v as usize]);
            proof {
                assert(zone_model::zwithout(zj, zone_model::node(var.id)) =~= zj) by {
                    assert(((var.id + 1) - 1) as u64 == var.id);
                    assert(to.contains_key(var.id) && to[var.id] == v);
                    assert forall|q: (int, int)| #[trigger] zj.contains_key(q) implies q.0 != zone_model::node(var.id) && q.1 != zone_model::node(var.id) by {
                        let a = zone_map::vert(to, q.0);
                        let b = zone_map::vert(to, q.1);
                        assert(je.contains_key((a, b)));
                        assert(!je.contains_key((v, b)) && !je.contains_key((a, v)));
                    }
                }
            }
            out.havoc(var);
            i = i + 1;
        }
        out
    }

    /// What a join says of the common variables it says of the zones.
    proof fn lemma_join_spelled(&self, right: &ZoneDomain, vars: Seq<u64>, to: VertexOf, z: ZEdges)
        requires
            zone_map::positions(vars, to),
            forall|k: u64| #[trigger] self.vm().contains_key(k) && right.vm().contains_key(k) ==> exists|i: int| 1 <= i < vars.len() && #[trigger] vars[i] == k,
            ({
                let a = zone_map::zrestrict(self.z(), to);
                let b = zone_map::zrestrict(right.z(), to);
                &&& zone_model::ztight(z, zone_model::zjoin(zone_model::spelled_out(a, b), zone_model::spelled_out(b, a)))
                &&& forall|s: int, d: int| #[trigger] zone_model::zapart(a, b, s, d) ==> zone_model::holds_edge(z, s, d, zone_model::zlooser(a, b, s, d))
            }),
        ensures
            zone_model::ztight(z, zone_model::zjoin(zone_model::spelled_out(self.z(), right.z()), zone_model::spelled_out(right.z(), self.z()))),
            forall|s: int, d: int| #[trigger] zone_model::zapart(self.z(), right.z(), s, d) ==>
                zone_model::holds_edge(z, s, d, zone_model::zlooser(self.z(), right.z(), s, d)),
    {
        let zl = self.z();
        let zr = right.z();
        let a = zone_map::zrestrict(zl, to);
        let b = zone_map::zrestrict(zr, to);
        let t = zone_model::zjoin(zone_model::spelled_out(zl, zr), zone_model::spelled_out(zr, zl));
        let u = zone_model::zjoin(zone_model::spelled_out(a, b), zone_model::spelled_out(b, a));
        assert forall|s: int, d: int| #![trigger t.contains_key((s, d))] t.contains_key((s, d)) implies z.contains_key((s, d)) && z[(s, d)]@ <= t[(s, d)]@ by {
            assert(zone_model::spelled_out(zl, zr).contains_key((s, d)) && zone_model::spelled_out(zr, zl).contains_key((s, d)));
            assert(zl.contains_key((s, d)) || (zl.contains_key((s, 0)) && zl.contains_key((0, d))));
            assert(zr.contains_key((s, d)) || (zr.contains_key((s, 0)) && zr.contains_key((0, d))));
            self.lemma_common(right, vars, to, s);
            self.lemma_common(right, vars, to, d);
            assert(u.contains_key((s, d)) && u[(s, d)] == t[(s, d)]);
        }
        assert forall|s: int, d: int| #[trigger] zone_model::zapart(zl, zr, s, d) implies zone_model::holds_edge(z, s, d, zone_model::zlooser(zl, zr, s, d)) by {
            self.lemma_common(right, vars, to, s);
            self.lemma_common(right, vars, to, d);
            assert(zone_model::zapart(a, b, s, d));
        }
    }

    proof fn lemma_common(&self, right: &ZoneDomain, vars: Seq<u64>, to: VertexOf, n: int)
        requires
            zone_map::positions(vars, to),
            zone_map::on_map(self.vm(), n),
            zone_map::on_map(right.vm(), n),
            forall|k: u64| #[trigger] self.vm().contains_key(k) && right.vm().contains_key(k) ==> exists|i: int| 1 <= i < vars.len() && #[trigger] vars[i] == k,
        ensures zone_map::on_map(to, n),
    {
        if n != 0 {
            let k = (n - 1) as u64;
            assert(self.vm().contains_key(k));
            let i = choose|i: int| 1 <= i < vars.len() && #[trigger] vars[i] == k;
            assert(to.contains_key(vars[i]));
        }
    }
}

/// The positions of the variables of a list are determined by the list.
proof fn lemma_same_positions(vars: Seq<u64>, a: VertexOf, b: VertexOf)
    requires zone_map::positions(vars, a), zone_map::positions(vars, b),
    ensures a == b,
{
    assert forall|k: u64| a.contains_key(k) == b.contains_key(k) && (a.contains_key(k) ==> a[k] == b[k]) by {
        if a.contains_key(k) {
            assert(vars[a[k] as int] == k);
            assert(b.contains_key(vars[a[k] as int]));
        }
        if b.contains_key(k) {
            assert(vars[b[k] as int] == k);
            assert(a.contains_key(vars[b[k] as int]));
        }
    }
    assert(a =~= b);
}

impl ZoneDomain {
    /// Joins another zone into this one.
    pub fn join_assign(&mut self, right: &ZoneDomain)
        requires old(self).wf(), right.wf(),
        ensures final(self).wf(), zone_model::zjoined(old(self).z(), right.z(), final(self).z()),
    {
        *self = self.join(right);
    }

    /// The widening of two zones: the constraints of the left one that the right one keeps, closed.
    #[verifier::rlimit(40)]
    pub fn widen(&self, o: &ZoneDomain) -> (r: ZoneDomain)
        requires self.wf(), o.wf(),
        ensures
            r.wf(),
            zone_model::zwidened(self.z(), o.z(), r.z()),
    {
        let ghost zl = self.z();
        let ghost zr = o.z();
        let (left_perm, right_perm, vars) = Self::make_intersection_alignment(self, o);
        let (vmap, _rev) = result_mappings(&vars);
        let ghost to = vmap@;
        let nl: usize = self.rev_map.len();
        let nr: usize = o.rev_map.len();
        proof {
            self.lemma_aligned(left_perm@, vars@, to);
            o.lemma_aligned(right_perm@, vars@, to);
        }
        let aligned = AlignedPair { left: &self.core, right: &o.core, left_perm, right_perm, initial_potentials: Vec::new() };
        let ghost le = aligned.left_edges();
        let ghost re = aligned.right_edges();
        let core = SplitDBM::widen(&aligned);
        let ghost we = core.edges();
        let out = ZoneDomain::from_parts(core, &vars);
        proof {
            let zw = out.z();
            lemma_same_positions(vars@, to, out.vm());
            zone_map::lemma_positions(vars@, to);
            out.lemma_covered();
            zone_map::lemma_lift_entails(le, we, to);
            zone_map::lemma_lift_entails(re, we, to);
            zone_map::lemma_restrict(zl, to);
            zone_map::lemma_restrict(zr, to);
            let kept = graph_ops::widen_edges(le, re);
            assert(zone_map::covered(kept, to)) by {
                assert forall|s: u64, d: u64| #![trigger kept.contains_key((s, d))] kept.contains_key((s, d)) implies zone_map::named(to, s) && zone_map::named(to, d) by {
                    assert(le.contains_key((s, d)));
                }
            }
            zone_map::lemma_lift_tight(we, kept, to);
            zone_map::lemma_lift_equiv(we, kept, to);
            if we != kept {
                zone_map::lemma_lift_carried(we, kept, to);
            }
            let common = zone_map::zof(kept, to);
            let t = zone_model::zwiden(zl, zr);
            assert(common == t) by {
                assert forall|q: (int, int)| #![trigger common.contains_key(q)] #![trigger t.contains_key(q)]
                    common.contains_key(q) == t.contains_key(q) && (common.contains_key(q) ==> common[q] == t[q]) by {
                    let a = zone_map::zof(le, to);
                    let b = zone_map::zof(re, to);
                    assert(a == zone_map::zrestrict(zl, to));
                    assert(b == zone_map::zrestrict(zr, to));
                    if t.contains_key(q) {
                        self.lemma_common(o, vars@, to, q.0);
                        self.lemma_common(o, vars@, to, q.1);
                        assert(a.contains_key(q) && b.contains_key(q));
                    }
                    if common.contains_key(q) {
                        assert(a.contains_key(q) && b.contains_key(q));
                    }
                }
                assert(common =~= t);
            }
            assert forall|env: Env| zone_model::broad(env) && #[trigger] zone_model::zholds(zl, env) implies zone_model::zholds(zw, env) by {
                assert(zone_model::zholds(zone_map::zrestrict(zl, to), env));
            }
            assert forall|env: Env| zone_model::broad(env) && #[trigger] zone_model::zholds(zr, env) implies zone_model::zholds(zw, env) by {
                assert(zone_model::zholds(zone_map::zrestrict(zr, to), env));
            }
        }
        out
    }

    /// The meet of two zones, or nothing where they contradict each other.
    #[verifier::rlimit(40)]
    pub fn meet(&self, o: &ZoneDomain) -> (r: Option<ZoneDomain>)
        requires self.wf(), o.wf(),
        ensures
            match r {
                Some(m) => m.wf() && zone_model::zmet(self.z(), o.z(), m.z()),
                None => zone_model::zdisjoint(self.z(), o.z()),
            },
    {
        let ghost zl = self.z();
        let ghost zr = o.z();
        if self.is_top() || o.is_top() {
            let mut other = if self.is_top() { o.copy() } else { self.copy() };
            if other.settle() {
                assert(zone_model::zmeet(zl, zr) =~= other.z());
                return Some(other);
            }
            assert forall|env: Env| zone_model::mild(env) && #[trigger] zone_model::zholds(zl, env) implies !zone_model::zholds(zr, env) by {
                assert(!zone_model::zholds(other.z(), env));
            }
            return None;
        }
        let (left_perm, right_perm, vars, pots) = Self::make_union_alignment(self, o);
        let (vmap, _rev) = result_mappings(&vars);
        let ghost to = vmap@;
        let nl: usize = self.rev_map.len();
        let nr: usize = o.rev_map.len();
        proof {
            self.lemma_aligned(left_perm@, vars@, to);
            o.lemma_aligned(right_perm@, vars@, to);
        }
        let mut aligned = AlignedPair { left: &self.core, right: &o.core, left_perm, right_perm, initial_potentials: pots };
        let ghost le = aligned.left_edges();
        let ghost re = aligned.right_edges();
        let ghost me = graph_ops::meet_edges(le, re);
        proof {
            zone_map::lemma_positions(vars@, to);
            assert forall|k: u64| #[trigger] self.vm().contains_key(k) implies to.contains_key(k) by {
                let i = choose|i: int| 1 <= i < vars.len() && #[trigger] vars@[i] == k;
                assert(to.contains_key(vars@[i]));
            }
            assert forall|k: u64| #[trigger] o.vm().contains_key(k) implies to.contains_key(k) by {
                let i = choose|i: int| 1 <= i < vars.len() && #[trigger] vars@[i] == k;
                assert(to.contains_key(vars@[i]));
            }
            zone_map::lemma_restrict_whole(self.core.edges(), self.vm(), to);
            zone_map::lemma_restrict_whole(o.core.edges(), o.vm(), to);
            assert(zone_map::covered(me, to)) by {
                assert forall|s: u64, d: u64| #![trigger me.contains_key((s, d))] me.contains_key((s, d)) implies zone_map::named(to, s) && zone_map::named(to, d) by {
                    assert(le.contains_key((s, d)) || re.contains_key((s, d)));
                }
            }
            assert forall|env: Env| #[trigger] zone_model::zholds(zone_map::zof(me, to), env) == (zone_model::zholds(zl, env) && zone_model::zholds(zr, env)) by {
                lemma_meet_holds(le, re, to, env);
            }
        }
        match SplitDBM::meet(&mut aligned) {
            None => {
                proof {
                    zone_map::lemma_lift_infeasible(me, to);
                    assert forall|env: Env| zone_model::mild(env) && #[trigger] zone_model::zholds(zl, env) implies !zone_model::zholds(zr, env) by {
                        assert(!zone_model::zholds(zone_map::zof(me, to), env));
                    }
                }
                None
            }
            Some(core) => {
                let ghost ce = core.edges();
                let out = ZoneDomain::from_parts(core, &vars);
                proof {
                    lemma_same_positions(vars@, to, out.vm());
                    out.lemma_covered();
                    zone_map::lemma_lift_equiv(ce, me, to);
                    zone_map::lemma_lift_tight(ce, me, to);
                    zone_map::lemma_lift_carried(ce, me, to);
                    assert(zone_map::zof(me, to) =~= zone_model::zmeet(zl, zr));
                    let zm = out.z();
                    assert forall|env: Env| zone_model::broad(env) implies #[trigger] zone_model::zholds(zm, env) == (zone_model::zholds(zl, env) && zone_model::zholds(zr, env)) by {
                        assert(zone_model::zholds(zm, env) == zone_model::zholds(zone_map::zof(me, to), env));
                    }
                    zone_map::lemma_lift_feasible(ce, out.vm());
                }
                Some(out)
            }
        }
    }

    /// A narrowing: the left zone, or the right one where the left says nothing.
    pub fn narrow_op(&self, o: &ZoneDomain) -> (r: ZoneDomain)
        requires self.wf(), o.wf(),
        ensures r.wf(), r.z() == (if self.z() == ZEdges::empty() { o.z() } else { self.z() }),
    {
        if self.is_top() {
            return o.copy();
        }
        self.copy()
    }

    /// Forgets some variables.
    pub fn forget(&mut self, variables: &[Variable])
        requires old(self).wf(),
        ensures
            final(self).wf(),
            final(self).z() == zone_model::zforget(old(self).z(), variables@, variables@.len()),
    {
        let mut i: usize = 0;
        while i < variables.len()
            invariant
                self.wf(),
                i <= variables.len(),
                self.z() == zone_model::zforget(old(self).z(), variables@, i as nat),
            decreases variables.len() - i,
        {
            self.havoc(variables[i]);
            i = i + 1;
        }
    }

    /// Gives a variable another name. What was said of the new name is dropped.
    fn rename_one(&mut self, from: Variable, to: Variable)
        requires old(self).wf(),
        ensures final(self).wf(), final(self).z() == zone_model::zrenamed(old(self).z(), from.id, to.id),
    {
        if from.id == to.id {
            return;
        }
        let ghost z0 = self.z();
        self.havoc(to);
        let ghost before = *self;
        let ghost c = self.z();
        proof {
            assert(((from.id + 1) - 1) as u64 == from.id);
            assert(((to.id + 1) - 1) as u64 == to.id);
        }
        match self.get_vertid(from) {
            None => {
                proof {
                    let t = zone_model::zrenamed(z0, from.id, to.id);
                    assert forall|q: (int, int)| #![trigger c.contains_key(q)] #![trigger t.contains_key(q)]
                        c.contains_key(q) == t.contains_key(q) && (c.contains_key(q) ==> c[q] == t[q]) by {
                        zone_map::lemma_zof_absent(before.core.edges(), before.vm(), from.id);
                        let n = zone_model::node(from.id);
                        assert(zone_model::zwithout(c, n) == c);
                        assert(!c.contains_key((n, q.1)) && !c.contains_key((q.0, n)) && !c.contains_key((n, n))) by {
                            assert(!zone_model::zwithout(c, n).contains_key((n, q.1)));
                            assert(!zone_model::zwithout(c, n).contains_key((q.0, n)));
                        }
                        zone_map::lemma_proper(before.core.edges(), before.vm());
                        assert forall|p: int| !(#[trigger] c.contains_key((n, p))) by { assert(!zone_model::zwithout(c, n).contains_key((n, p))); }
                        assert forall|p: int| !(#[trigger] c.contains_key((p, n))) by { assert(!zone_model::zwithout(c, n).contains_key((p, n))); }
                    }
                    assert(c =~= t);
                }
            }
            Some(u) => {
                proof {
                    assert(self.core.live(self.vm()[from.id]));
                    self.core.lemma_edge_live();
                }
                self.vert_map.remove(from.id);
                self.vert_map.insert(to.id, u);
                assert(u < self.rev_map.len());
                self.rev_map.set(u as usize, Some(to));
                proof {
                    let vm1 = before.vm();
                    let vm2 = self.vm();
                    assert(!vm1.contains_key(to.id)) by { assert(!before.held().contains(to.id)); }
                    assert forall|i: u64, j: u64| #![trigger vm2[i], vm2[j]] vm2.contains_key(i) && vm2.contains_key(j) && vm2[i] == vm2[j] implies i == j by {
                        let a = if i == to.id { from.id } else { i };
                        let b = if j == to.id { from.id } else { j };
                        assert(vm1.contains_key(a) && vm1.contains_key(b) && vm1[a] == vm1[b]);
                    }
                    assert forall|k: u64| #[trigger] vm2.contains_key(k) implies vm2[k] != 0 by {
                        assert(vm1.contains_key(if k == to.id { from.id } else { k }));
                    }
                    assert forall|w: u64| #[trigger] self.core.live(w) implies zone_map::named(vm2, w) by {
                        assert(before.core.live(w));
                        if w != 0 {
                            let k = choose|k: u64| #[trigger] vm1.contains_key(k) && vm1[k] == w;
                            let j = if k == from.id { to.id } else { k };
                            assert(vm2.contains_key(j) && vm2[j] == w);
                        }
                    }
                    assert forall|k: u64| #[trigger] vm2.contains_key(k) implies
                        self.core.live(vm2[k]) && self.rev_map@[vm2[k] as int] == Some(Variable { id: k }) by {
                        if k != to.id {
                            assert(vm1.contains_key(k));
                            assert(vm1[k] != vm1[from.id]);
                            assert(before.core.live(before.vm()[k]));
                        }
                    }
                    assert forall|w: int| 0 <= w < self.rev_map@.len() && (#[trigger] self.rev_map@[w]) is Some implies
                        vm2.contains_key(self.rev_map@[w]->Some_0.id) && vm2[self.rev_map@[w]->Some_0.id] == w by {
                        if w != u {
                            assert(before.rev_map@[w] is Some);
                        }
                    }
                    let l = self.z();
                    let t = zone_model::zrenamed(z0, from.id, to.id);
                    assert forall|q: (int, int)| #![trigger l.contains_key(q)] #![trigger t.contains_key(q)]
                        l.contains_key(q) == t.contains_key(q) && (l.contains_key(q) ==> l[q] == t[q]) by {
                        lemma_renamed_node(vm1, vm2, from.id, to.id, q.0);
                        lemma_renamed_node(vm1, vm2, from.id, to.id, q.1);
                    }
                    assert(l =~= t);
                }
            }
        }
    }

    /// Gives variables other names, in turn.
    pub fn rename(&mut self, renaming: &[(Variable, Variable)])
        requires old(self).wf(),
        ensures
            final(self).wf(),
            final(self).z() == zone_model::zrenamed_all(old(self).z(), renaming@, renaming@.len()),
    {
        let mut i: usize = 0;
        while i < renaming.len()
            invariant
                self.wf(),
                i <= renaming.len(),
                self.z() == zone_model::zrenamed_all(old(self).z(), renaming@, i as nat),
            decreases renaming.len() - i,
        {
            let (from, to) = renaming[i];
            self.rename_one(from, to);
            i = i + 1;
        }
    }

    /// Whether the zone and a constraint may hold together.
    pub fn intersect(&self, cst: &LinearConstraint, registry: &VariableRegistry) -> (r: bool)
        requires self.wf(), knows_terms(registry@, cst.expression.terms@),
        ensures
            !r ==> constraint_refuted(self.z(), cst, min_only_of(registry@)),
            cst.is_contradiction_spec() ==> !r,
            cst.is_tautology_spec() ==> r,
            self.z() == ZEdges::empty() && !cst.is_contradiction_spec() ==> r,
            r ==> self.z() == ZEdges::empty() || addable(self.z(), cst, min_only_of(registry@)),
    {
        if cst.is_contradiction() {
            return false;
        }
        if self.is_top() || cst.is_tautology() {
            return true;
        }
        let mut copy = self.copy();
        copy.add_constraint(cst, registry)
    }

    fn entail_aux(&self, cst: &LinearConstraint, registry: &VariableRegistry) -> (r: bool)
        requires self.wf(), knows_terms(registry@, cst.expression.terms@),
        ensures
            r ==> negation_refuted(self.z(), cst, min_only_of(registry@)),
            !r ==> negation_addable(self.z(), cst, min_only_of(registry@)),
    {
        let mut copy = self.copy();
        let n = cst.negate();
        n.expression.order_holds();
        assert(is_negation(cst, &n));
        let added: bool = copy.add_constraint(&n, registry);
        assert(added ==> addable(self.z(), &n, min_only_of(registry@)));
        !added
    }

    /// Whether the zone implies a constraint.
    pub fn entail(&self, rhs: &LinearConstraint, registry: &VariableRegistry) -> (r: bool)
        requires self.wf(), knows_terms(registry@, rhs.expression.terms@),
        ensures
            r ==> entailed(self.z(), rhs, min_only_of(registry@)),
            rhs.is_tautology_spec() ==> r,
            rhs.is_contradiction_spec() ==> !r,
            !rhs.is_contradiction_spec() && interval_proves(zone_model::zeval(self.z(), &rhs.expression), rhs.kind) ==> r,
            !r ==> doubted(self.z(), rhs, min_only_of(registry@)),
    {
        if rhs.is_tautology() {
            return true;
        }
        if rhs.is_contradiction() {
            return false;
        }
        let interval = self.interval_of_sum(&rhs.expression);
        if proves(&interval, rhs.kind) {
            return true;
        }
        if matches!(rhs.kind, ConstraintKind::EqualsZero) {
            let below = LinearConstraint::new(rhs.expression.copy(), ConstraintKind::LessThanOrEqualsZero);
            let above = LinearConstraint::new(rhs.expression.negate(), ConstraintKind::LessThanOrEqualsZero);
            below.expression.order_holds();
            above.expression.order_holds();
            assert(below.expression.same(&rhs.expression));
            assert(is_opposite(&rhs.expression, &above.expression));
            let lower: bool = self.entail_aux(&below, registry);
            let upper: bool = lower && self.entail_aux(&above, registry);
            assert(!lower ==> negation_addable(self.z(), &below, min_only_of(registry@)));
            assert(lower && !upper ==> negation_addable(self.z(), &above, min_only_of(registry@)));
            upper
        } else {
            self.entail_aux(rhs, registry)
        }
    }

    /// Whether the zone and a premise imply a conclusion.
    pub fn implies(&self, premise: &LinearConstraint, conclusion: &LinearConstraint, registry: &VariableRegistry) -> (r: bool)
        requires
            self.wf(),
            knows_terms(registry@, premise.expression.terms@),
            knows_terms(registry@, conclusion.expression.terms@),
        ensures
            r ==> constraint_refuted(self.z(), premise, min_only_of(registry@))
                || exists|z1: ZEdges| #[trigger] constraint_added(self.z(), premise, min_only_of(registry@), z1) && entailed(z1, conclusion, min_only_of(registry@)),
            !r ==> exists|z1: ZEdges| #[trigger] constraint_added(self.z(), premise, min_only_of(registry@), z1) && doubted(z1, conclusion, min_only_of(registry@)),
            premise.is_contradiction_spec() ==> r,
            conclusion.is_tautology_spec() ==> r,
    {
        let mut result = self.copy();
        if !result.add_constraint(premise, registry) {
            return true;
        }
        assert(constraint_added(self.z(), premise, min_only_of(registry@), result.z()));
        result.entail(conclusion, registry)
    }

    /// A placeholder text; `to_set` renders the constraints.
    pub fn to_string(&self) -> (r: String)
        ensures r@ == "<ZoneDomain>"@,
    {
        String::from_str("<ZoneDomain>")
    }
}

impl Default for ZoneDomain {
    fn default() -> (r: Self)
        ensures r.wf(), r.z() == ZEdges::empty(),
    {
        Self::new()
    }
}

proof fn lemma_renamed_node(vm1: VertexOf, vm2: VertexOf, from: u64, to: u64, n: int)
    requires
        vm1.contains_key(from),
        !vm1.contains_key(to),
        from != to,
        vm2 == vm1.remove(from).insert(to, vm1[from]),
    ensures
        zone_map::on_map(vm2, n) == (n != zone_model::node(from) && zone_map::on_map(vm1, zone_model::before_rename(from, to, n))),
        zone_map::on_map(vm2, n) ==> zone_map::vert(vm2, n) == zone_map::vert(vm1, zone_model::before_rename(from, to, n)),
        n != zone_model::node(from) && zone_map::on_map(vm1, zone_model::before_rename(from, to, n)) ==> zone_model::before_rename(from, to, n) != zone_model::node(to),
{
    assert(((from + 1) - 1) as u64 == from);
    assert(((to + 1) - 1) as u64 == to);
}

/// The edges of a meet hold exactly where those of both sides hold.
proof fn lemma_meet_holds(le: crate::splitdbm::graph::Edges, re: crate::splitdbm::graph::Edges, to: VertexOf, env: Env)
    ensures
        zone_model::zholds(zone_map::zof(graph_ops::meet_edges(le, re), to), env)
            == (zone_model::zholds(zone_map::zof(le, to), env) && zone_model::zholds(zone_map::zof(re, to), env)),
{
    let a = zone_map::zof(le, to);
    let b = zone_map::zof(re, to);
    let m = zone_map::zof(graph_ops::meet_edges(le, re), to);
    assert forall|s: int, d: int| #![trigger m.contains_key((s, d))] #![trigger a.contains_key((s, d))] #![trigger b.contains_key((s, d))]
        m.contains_key((s, d)) == (a.contains_key((s, d)) || b.contains_key((s, d)))
        && (m.contains_key((s, d)) ==> m[(s, d)] == (if !b.contains_key((s, d)) || (a.contains_key((s, d)) && a[(s, d)]@ <= b[(s, d)]@) { a[(s, d)] } else { b[(s, d)] })) by {}
    if zone_model::zholds(m, env) {
        assert forall|s: int, d: int| #![trigger a.contains_key((s, d))] a.contains_key((s, d)) implies
            zone_model::node_value(env, d) - zone_model::node_value(env, s) <= a[(s, d)]@ by { assert(m.contains_key((s, d))); }
        assert forall|s: int, d: int| #![trigger b.contains_key((s, d))] b.contains_key((s, d)) implies
            zone_model::node_value(env, d) - zone_model::node_value(env, s) <= b[(s, d)]@ by { assert(m.contains_key((s, d))); }
    }
    if zone_model::zholds(a, env) && zone_model::zholds(b, env) {
        assert forall|s: int, d: int| #![trigger m.contains_key((s, d))] m.contains_key((s, d)) implies
            zone_model::node_value(env, d) - zone_model::node_value(env, s) <= m[(s, d)]@ by {
            assert(a.contains_key((s, d)) || b.contains_key((s, d)));
        }
    }
}

/// The interval of an expression decides a comparison with zero in its favour.
pub open spec fn interval_proves(iv: Interval, kind: ConstraintKind) -> bool {
    match kind {
        ConstraintKind::EqualsZero => iv.singleton_spec() == Some(Number { n: 0 }),
        ConstraintKind::LessThanOrEqualsZero => iv.ub.le_spec(ExtendedNumber::fin(0)),
        ConstraintKind::LessThanZero => iv.ub.lt_spec(ExtendedNumber::fin(0)),
        ConstraintKind::NotZero => iv.ub.lt_spec(ExtendedNumber::fin(0)) || ExtendedNumber::fin(0).lt_spec(iv.lb),
    }
}

fn proves(iv: &Interval, kind: ConstraintKind) -> (r: bool)
    ensures r == interval_proves(*iv, kind),
{
    let zero: Bound = ExtendedNumber::Finite(Number::of(0));
    match kind {
        ConstraintKind::EqualsZero => match iv.singleton() {
            Some(n) => n.is_zero(),
            None => false,
        },
        ConstraintKind::LessThanOrEqualsZero => iv.ub.le(&zero),
        ConstraintKind::LessThanZero => iv.ub.lt(&zero),
        ConstraintKind::NotZero => iv.ub.lt(&zero) || zero.lt(&iv.lb),
    }
}

/// `n` is the negation of `c`.
pub open spec fn is_negation(c: &LinearConstraint, n: &LinearConstraint) -> bool {
    &&& n.expression.orderly()
    &&& n.kind == (match c.kind {
            ConstraintKind::EqualsZero => ConstraintKind::NotZero,
            ConstraintKind::NotZero => ConstraintKind::EqualsZero,
            ConstraintKind::LessThanZero => ConstraintKind::LessThanOrEqualsZero,
            ConstraintKind::LessThanOrEqualsZero => ConstraintKind::LessThanZero,
        })
    &&& n.expression.constant@ == (if c.kind is EqualsZero || c.kind is NotZero { c.expression.constant@ } else { number::saturate(-c.expression.constant@) })
    &&& n.expression.terms@ == (if c.kind is EqualsZero || c.kind is NotZero { c.expression.terms@ }
            else { linear_expression::combined(Map::<u64, Number>::empty(), -1, c.expression.terms@) })
    &&& c.expression.negation_fits() ==> forall|env: Env| #[trigger] n.holds(env) == !c.holds(env)
}

/// The zone and the negation of a constraint contradict each other.
pub open spec fn negation_refuted(z: ZEdges, c: &LinearConstraint, mo: spec_fn(u64) -> bool) -> bool {
    exists|n: LinearConstraint| #![trigger constraint_refuted(z, &n, mo)] is_negation(c, &n) && constraint_refuted(z, &n, mo)
}

/// The negation of a constraint can be added to the zone.
pub open spec fn negation_addable(z: ZEdges, c: &LinearConstraint, mo: spec_fn(u64) -> bool) -> bool {
    exists|n: LinearConstraint| #![trigger addable(z, &n, mo)] is_negation(c, &n) && addable(z, &n, mo)
}

/// The grounds on which a zone does not imply a constraint: its negation leaves the zone a
/// solution.
pub open spec fn doubted(z: ZEdges, c: &LinearConstraint, mo: spec_fn(u64) -> bool) -> bool {
    ||| c.is_contradiction_spec()
    ||| !(c.kind is EqualsZero) && negation_addable(z, c, mo)
    ||| c.kind is EqualsZero && exists|half: LinearConstraint| #![trigger negation_addable(z, &half, mo)]
            half.kind is LessThanOrEqualsZero && half.expression.orderly() && (half.expression.same(&c.expression) || is_opposite(&c.expression, &half.expression))
            && negation_addable(z, &half, mo)
}

/// The grounds on which a zone implies a constraint.
pub open spec fn entailed(z: ZEdges, c: &LinearConstraint, mo: spec_fn(u64) -> bool) -> bool {
    ||| c.is_tautology_spec()
    ||| interval_proves(zone_model::zeval(z, &c.expression), c.kind)
    ||| !(c.kind is EqualsZero) && negation_refuted(z, c, mo)
    ||| c.kind is EqualsZero && exists|below: LinearConstraint, above: LinearConstraint|
            #![trigger negation_refuted(z, &below, mo), negation_refuted(z, &above, mo)]
            below.kind is LessThanOrEqualsZero && above.kind is LessThanOrEqualsZero
            && below.expression.orderly() && below.expression.same(&c.expression) && is_opposite(&c.expression, &above.expression)
            && (forall|env: Env| #[trigger] below.expression.eval(env) == c.expression.eval(env))
            && negation_refuted(z, &below, mo) && negation_refuted(z, &above, mo)
}

proof fn lemma_negation_refuted(z: ZEdges, c: &LinearConstraint, mo: spec_fn(u64) -> bool, env: Env)
    requires
        negation_refuted(z, c, mo),
        c.expression.negation_fits(),
        -i128::MAX < c.expression.constant@,
        !(c.kind is EqualsZero),
        zone_model::mild(env),
        zone_model::zholds(z, env),
    ensures c.holds(env),
{
    let n = choose|n: LinearConstraint| #![trigger constraint_refuted(z, &n, mo)] is_negation(c, &n) && constraint_refuted(z, &n, mo);
    assert(exact_constraint(&n)) by {
        if c.kind is NotZero {
            assert forall|k: u64| i128::MIN < #[trigger] n.expression.coeff(k) by {
                assert(n.expression.coeff(k) == c.expression.coeff(k));
            }
        }
    }
    refusals_are_sound(z, &n, mo, env);
    assert(n.holds(env) == !c.holds(env));
}

/// An implied constraint holds under every valuation of the zone for which the interval of its
/// expression holds the expression's value.
pub proof fn entailment_is_sound(z: ZEdges, c: &LinearConstraint, mo: spec_fn(u64) -> bool, env: Env)
    requires
        entailed(z, c, mo),
        c.expression.negation_fits(),
        -i128::MAX < c.expression.constant@ < i128::MAX,
        zone_model::zeval(z, &c.expression).has(c.expression.eval(env)),
        zone_model::mild(env),
        zone_model::zholds(z, env),
    ensures c.holds(env),
{
    if c.is_tautology_spec() {
    } else if interval_proves(zone_model::zeval(z, &c.expression), c.kind) {
    } else if !(c.kind is EqualsZero) {
        lemma_negation_refuted(z, c, mo, env);
    } else {
        let (below, above) = choose|below: LinearConstraint, above: LinearConstraint|
            #![trigger negation_refuted(z, &below, mo), negation_refuted(z, &above, mo)]
            below.kind is LessThanOrEqualsZero && above.kind is LessThanOrEqualsZero
            && below.expression.orderly() && below.expression.same(&c.expression) && is_opposite(&c.expression, &above.expression)
            && (forall|env: Env| #[trigger] below.expression.eval(env) == c.expression.eval(env))
            && negation_refuted(z, &below, mo) && negation_refuted(z, &above, mo);
        assert(below.expression.negation_fits()) by {
            assert forall|k: u64| i128::MIN < #[trigger] below.expression.coeff(k) by { assert(below.expression.coeff(k) == c.expression.coeff(k)); }
        }
        assert(above.expression.negation_fits()) by {
            assert forall|k: u64| i128::MIN < #[trigger] above.expression.coeff(k) by {
                assert(i128::MIN < c.expression.coeff(k));
            }
        }
        lemma_negation_refuted(z, &below, mo, env);
        lemma_negation_refuted(z, &above, mo, env);
        assert(above.expression.eval(env) == -c.expression.eval(env));
        assert(below.expression.eval(env) == c.expression.eval(env));
    }
}

impl ZoneDomain {
    /// The bound on the difference `b - a`.
    fn between(&self, a: Variable, b: Variable) -> (r: Option<Number>)
        requires self.wf(),
        ensures
            r == (if self.z().contains_key((zone_model::node(a.id), zone_model::node(b.id))) {
                Some(self.z()[(zone_model::node(a.id), zone_model::node(b.id))])
            } else {
                None
            }),
    {
        proof {
            assert(((a.id + 1) - 1) as u64 == a.id);
            assert(((b.id + 1) - 1) as u64 == b.id);
            self.core.lemma_edge_live();
        }
        match (self.vert_map.get(a.id), self.vert_map.get(b.id)) {
            (Some(s), Some(d)) => {
                assert(self.core.live(self.vm()[a.id]));
                self.core.graph().lookup(s, d)
            }
            _ => None,
        }
    }

    /// The registered variables that have a vertex.
    pub(crate) fn held_variables(&self) -> (r: Vec<Variable>)
        requires self.wf(),
        ensures forall|k: u64| #[trigger] self.held().contains(k) <==> r@.contains(Variable { id: k }),
    {
        let n: usize = self.vert_map.len();
        let ghost s = self.vert_map.entries();
        let mut r: Vec<Variable> = Vec::new();
        let mut i: usize = 0;
        while i < n
            invariant
                i <= n,
                n == s.len(),
                s == self.vert_map.entries(),
                r.len() == i,
                forall|j: int| 0 <= j < i ==> (#[trigger] r@[j]).id == s[j].0,
            decreases n - i,
        {
            r.push(Variable::new(self.vert_map.key_at(i)));
            i = i + 1;
        }
        proof {
            assert forall|k: u64| #[trigger] self.held().contains(k) <==> r@.contains(Variable { id: k }) by {
                if self.held().contains(k) {
                    let i = ord_map::lemma_key(s, k);
                    assert(r@[i] == Variable { id: k });
                }
                if r@.contains(Variable { id: k }) {
                    let i = choose|i: int| 0 <= i < r@.len() && r@[i] == Variable { id: k };
                    ord_map::lemma_entry(s, i);
                }
            }
        }
        r
    }

    /// The smallest name among a variable and those it is tied to.
    fn least_tied(&self, v: Variable, vars: &Vec<Variable>, registry: &VariableRegistry) -> (r: Variable)
        requires
            self.wf(),
            forall|k: u64| #[trigger] self.held().contains(k) <==> vars@.contains(Variable { id: k }),
            forall|i: int| 0 <= i < vars.len() ==> registry@.knows(#[trigger] vars@[i]),
            registry@.knows(v),
        ensures
            registry@.knows(r),
            r == v || zone_text::tied(self.z(), v.id, r.id),
            zone_text::none_smaller(self.z(), registry@, v.id, r.id),
    {
        let mut least: Variable = v;
        let mut i: usize = 0;
        proof { text::text_lt_total(registry@.name(v), registry@.name(v)); }
        while i < vars.len()
            invariant
                self.wf(),
                i <= vars.len(),
                forall|i: int| 0 <= i < vars.len() ==> registry@.knows(#[trigger] vars@[i]),
                registry@.knows(v),
                registry@.knows(least),
                least == v || zone_text::tied(self.z(), v.id, least.id),
                !text::text_lt(registry@.name(v), registry@.name(least)),
                forall|j: int| 0 <= j < i && zone_text::tied(self.z(), v.id, (#[trigger] vars@[j]).id) ==>
                    !text::text_lt(registry@.name(vars@[j]), registry@.name(least)),
            decreases vars.len() - i,
        {
            let u: Variable = vars[i];
            let ghost was = least;
            let mut zero: bool = false;
            match self.between(v, u) {
                Some(w) => { zero = w.is_zero(); }
                None => {}
            }
            if zero && registry.name_precedes(u, least) {
                least = u;
                proof {
                    let a = registry@.name(u);
                    let b = registry@.name(was);
                    assert forall|j: int| 0 <= j < i + 1 && zone_text::tied(self.z(), v.id, (#[trigger] vars@[j]).id) implies
                        !text::text_lt(registry@.name(vars@[j]), a) by {
                        let c = registry@.name(vars@[j]);
                        text::text_lt_total(c, a);
                        if text::text_lt(c, a) {
                            text::text_lt_transitive(c, a, b);
                        }
                    }
                    let c = registry@.name(v);
                    if text::text_lt(c, a) { text::text_lt_transitive(c, a, b); }
                }
            }
            i = i + 1;
        }
        proof {
            assert forall|w: u64| #[trigger] zone_text::tied(self.z(), v.id, w) implies
                !text::text_lt(zone_text::name_of(registry@, w), zone_text::name_of(registry@, least.id)) by {
                assert(((w + 1) - 1) as u64 == w);
                assert(self.held().contains(w));
                let j = choose|j: int| 0 <= j < vars@.len() && vars@[j] == Variable { id: w };
                assert(vars@[j].id == w);
            }
        }
        least
    }

    /// The lines that speak of one variable: its tie to a representative, or its interval.
    fn variable_lines(&self, v: Variable, vars: &Vec<Variable>, registry: &VariableRegistry, out: &mut LineSet)
        requires
            self.wf(),
            forall|k: u64| #[trigger] self.held().contains(k) <==> vars@.contains(Variable { id: k }),
            forall|i: int| 0 <= i < vars.len() ==> registry@.knows(#[trigger] vars@[i]),
            registry@.knows(v),
        ensures
            forall|l: Seq<char>| #[trigger] final(out).has(l) <==> old(out).has(l)
                || zone_text::alias_line(self.z(), registry@, v.id, l) || zone_text::interval_line(self.z(), registry@, v.id, l),
    {
        let ghost z = self.z();
        let ghost r = registry@;
        registry.names_are_distinct();
        let least = self.least_tied(v, vars, registry);
        proof {
            // Two smallest names are the same name.
            assert forall|u: u64| #[trigger] zone_text::tied(z, v.id, u) && zone_text::none_smaller(z, r, v.id, u) implies
                zone_text::name_of(r, u) == zone_text::name_of(r, least.id) by {
                text::text_lt_total(zone_text::name_of(r, u), zone_text::name_of(r, least.id));
            }
            if zone_text::representative(z, r, v.id) {
                text::text_lt_total(zone_text::name_of(r, v.id), zone_text::name_of(r, least.id));
                assert(r.names[v.id as int] == r.names[least.id as int]);
            }
        }
        if least.id != v.id {
            let mut line = String::from_str(registry.name(v));
            line.append("=");
            line.append(registry.name(least));
            proof {
                let t = line@;
                assert forall|l: Seq<char>| #[trigger] zone_text::alias_line(z, r, v.id, l) <==> l == t by {
                    if l == t { assert(zone_text::tied(z, v.id, least.id)); }
                }
                assert(!zone_text::representative(z, r, v.id));
            }
            out.insert(line);
        } else {
            proof {
                assert forall|l: Seq<char>| !(#[trigger] zone_text::alias_line(z, r, v.id, l)) by {
                    if zone_text::alias_line(z, r, v.id, l) {
                        let u = choose|u: u64| #[trigger] zone_text::tied(z, v.id, u) && u != v.id && zone_text::none_smaller(z, r, v.id, u)
                            && l == zone_text::name_of(r, v.id) + "="@ + zone_text::name_of(r, u);
                        assert(((u + 1) - 1) as u64 == u);
                        assert(self.held().contains(u));
                        let j = choose|j: int| 0 <= j < vars@.len() && vars@[j] == Variable { id: u };
                        assert(registry@.knows(vars@[j]));
                        assert(r.names[u as int] == r.names[v.id as int]);
                    }
                }
            }
            let lb: Bound = self.get_lb(v);
            let min_only: bool = registry.is_min_only(v);
            let ub: Bound = if min_only { PLUS_INFINITY } else { self.raw_ub(v) };
            if lb.is_finite() || ub.is_finite() {
                let iv = Interval::new(lb, ub);
                let mut line = String::from_str(registry.name(v));
                line.append("=");
                if min_only || iv.is_singleton() {
                    iv.lb.write_to(&mut line);
                } else {
                    iv.write_to(&mut line);
                }
                assert(line@ =~= zone_text::name_of(r, v.id) + "="@ + zone_text::interval_text(z, r, v.id));
                out.insert(line);
            }
        }
    }

    /// The line that speaks of the difference of two variables.
    fn pair_line(&self, s: Variable, d: Variable, vars: &Vec<Variable>, registry: &VariableRegistry, out: &mut LineSet)
        requires
            self.wf(),
            forall|k: u64| #[trigger] self.held().contains(k) <==> vars@.contains(Variable { id: k }),
            forall|i: int| 0 <= i < vars.len() ==> registry@.knows(#[trigger] vars@[i]),
            registry@.knows(s),
            registry@.knows(d),
        ensures
            forall|l: Seq<char>| #[trigger] final(out).has(l) <==> old(out).has(l) || zone_text::difference_line(self.z(), registry@, s.id, d.id, l),
    {
        let w: Number = match self.between(s, d) {
            Some(w) => w,
            None => return,
        };
        if w.is_zero() || !self.represents(s, vars, registry) || !self.represents(d, vars, registry) {
            return;
        }
        let exact: bool = match self.between(d, s) {
            Some(b) => b.n != i128::MIN && w.n == -b.n,
            None => false,
        };
        let mut line: String;
        if exact {
            if w.is_positive() {
                line = String::from_str(registry.name(d));
                line.append("=");
                line.append(registry.name(s));
                line.append("+");
                w.write_to(&mut line);
            } else {
                line = String::from_str(registry.name(s));
                line.append("=");
                line.append(registry.name(d));
                line.append("+");
                w.neg().write_to(&mut line);
            }
        } else {
            line = String::from_str(registry.name(d));
            line.append("-");
            line.append(registry.name(s));
            line.append("<=");
            w.write_to(&mut line);
        }
        assert(line@ =~= zone_text::difference_text(self.z(), registry@, s.id, d.id));
        out.insert(line);
    }

    /// Whether no variable that is tied to `v` has a smaller name.
    fn represents(&self, v: Variable, vars: &Vec<Variable>, registry: &VariableRegistry) -> (r: bool)
        requires
            self.wf(),
            forall|k: u64| #[trigger] self.held().contains(k) <==> vars@.contains(Variable { id: k }),
            forall|i: int| 0 <= i < vars.len() ==> registry@.knows(#[trigger] vars@[i]),
            registry@.knows(v),
        ensures r == zone_text::representative(self.z(), registry@, v.id),
    {
        registry.names_are_distinct();
        let least = self.least_tied(v, vars, registry);
        proof {
            if zone_text::representative(self.z(), registry@, v.id) {
                text::text_lt_total(registry@.name(v), registry@.name(least));
                assert(registry@.names[v.id as int] == registry@.names[least.id as int]);
            }
        }
        least.id == v.id
    }

    /// The constraints as lines of text. Variables that are tied to one with a smaller name are
    /// given by that name; the others by their intervals and differences.
    pub fn to_set(&self, registry: &VariableRegistry) -> (r: StringInvariant)
        requires
            self.wf(),
            forall|k: u64| #[trigger] self.held().contains(k) ==> k < registry@.size(),
        ensures
            r.content() is Some,
            forall|l: Seq<char>| #[trigger] r.has(l) <==> zone_text::zone_line(self.z(), registry@, l),
    {
        let ghost z = self.z();
        let ghost reg = registry@;
        let vars = self.held_variables();
        let mut out = LineSet::new();
        proof {
            assert forall|i: int| 0 <= i < vars.len() implies registry@.knows(#[trigger] vars@[i]) by {
                assert(vars@.contains(Variable { id: vars@[i].id }));
                assert(self.held().contains(vars@[i].id));
            }
        }
        let mut i: usize = 0;
        while i < vars.len()
            invariant
                self.wf(),
                z == self.z(),
                reg == registry@,
                i <= vars.len(),
                forall|k: u64| #[trigger] self.held().contains(k) <==> vars@.contains(Variable { id: k }),
                forall|i: int| 0 <= i < vars.len() ==> registry@.knows(#[trigger] vars@[i]),
                forall|l: Seq<char>| #[trigger] out.has(l) <==> lines_before(z, reg, vars@, i as int, l),
            decreases vars.len() - i,
        {
            let v: Variable = vars[i];
            let ghost before = out;
            self.variable_lines(v, &vars, registry, &mut out);
            let mut j: usize = 0;
            assert forall|l: Seq<char>| #[trigger] out.has(l) <==> lines_before(z, reg, vars@, i as int, l)
                || zone_text::alias_line(z, reg, v.id, l) || zone_text::interval_line(z, reg, v.id, l) || pairs_before(z, reg, vars@, v.id, 0, l) by {
                assert(before.has(l) <==> lines_before(z, reg, vars@, i as int, l));
            }
            while j < vars.len()
                invariant
                    self.wf(),
                    z == self.z(),
                    reg == registry@,
                    i < vars.len(),
                    v == vars@[i as int],
                    j <= vars.len(),
                    forall|k: u64| #[trigger] self.held().contains(k) <==> vars@.contains(Variable { id: k }),
                    forall|i: int| 0 <= i < vars.len() ==> registry@.knows(#[trigger] vars@[i]),
                    forall|l: Seq<char>| #[trigger] out.has(l) <==> lines_before(z, reg, vars@, i as int, l)
                        || zone_text::alias_line(z, reg, v.id, l) || zone_text::interval_line(z, reg, v.id, l) || pairs_before(z, reg, vars@, v.id, j as int, l),
                decreases vars.len() - j,
            {
                let d: Variable = vars[j];
                let ghost mid = out;
                self.pair_line(v, d, &vars, registry, &mut out);
                assert forall|l: Seq<char>| #[trigger] out.has(l) <==> lines_before(z, reg, vars@, i as int, l)
                    || zone_text::alias_line(z, reg, v.id, l) || zone_text::interval_line(z, reg, v.id, l) || pairs_before(z, reg, vars@, v.id, j + 1, l) by {
                    assert(mid.has(l) <==> lines_before(z, reg, vars@, i as int, l)
                        || zone_text::alias_line(z, reg, v.id, l) || zone_text::interval_line(z, reg, v.id, l) || pairs_before(z, reg, vars@, v.id, j as int, l));
                    lemma_pairs_before(z, reg, vars@, v.id, j as int, l);
                }
                j = j + 1;
            }
            assert forall|l: Seq<char>| #[trigger] out.has(l) <==> lines_before(z, reg, vars@, i + 1, l) by {
                lemma_lines_before(z, reg, vars@, i as int, l);
            }
            i = i + 1;
        }
        proof {
            assert forall|l: Seq<char>| #[trigger] out.has(l) <==> zone_text::zone_line(z, reg, l) by {
                self.lemma_all_lines(reg, vars@, l);
            }
        }
        let r = StringInvariant::from_set(out);
        assert forall|l: Seq<char>| #[trigger] r.has(l) <==> zone_text::zone_line(z, reg, l) by {
            assert(out.has(l) <==> zone_text::zone_line(z, reg, l));
        }
        r
    }

    proof fn lemma_all_lines(&self, reg: RegistryView, vars: Seq<Variable>, l: Seq<char>)
        requires
            self.wf(),
            forall|k: u64| #[trigger] self.held().contains(k) <==> vars.contains(Variable { id: k }),
        ensures lines_before(self.z(), reg, vars, vars.len() as int, l) == zone_text::zone_line(self.z(), reg, l),
    {
        let z = self.z();
        let n = vars.len() as int;
        // A line speaks of variables that have a vertex.
        assert forall|k: u64| zone_model::touches(z, #[trigger] zone_model::node(k)) implies vars.contains(Variable { id: k }) by {
            assert(((k + 1) - 1) as u64 == k);
            let m = choose|m: int| z.contains_key((zone_model::node(k), m)) || z.contains_key((m, zone_model::node(k)));
            assert(self.held().contains(k));
        }
        if lines_before(z, reg, vars, n, l) {
            let i = choose|i: int| 0 <= i < n && lines_of(z, reg, vars, #[trigger] vars[i], l);
            if pairs_before(z, reg, vars, vars[i].id, n, l) {
                let j = choose|j: int| 0 <= j < n && zone_text::difference_line(z, reg, vars[i].id, (#[trigger] vars[j]).id, l);
                assert(zone_text::difference_line(z, reg, vars[i].id, vars[j].id, l));
            }
        }
        if zone_text::zone_line(z, reg, l) {
            if exists|v: u64| #[trigger] zone_text::alias_line(z, reg, v, l) {
                let v = choose|v: u64| #[trigger] zone_text::alias_line(z, reg, v, l);
                let u = choose|u: u64| #[trigger] zone_text::tied(z, v, u) && u != v && zone_text::none_smaller(z, reg, v, u)
                    && l == zone_text::name_of(reg, v) + "="@ + zone_text::name_of(reg, u);
                assert(zone_model::touches(z, zone_model::node(v)));
                let i = choose|i: int| 0 <= i < vars.len() && vars[i] == Variable { id: v };
                assert(lines_of(z, reg, vars, vars[i], l));
            } else if exists|v: u64| #[trigger] zone_text::interval_line(z, reg, v, l) {
                let v = choose|v: u64| #[trigger] zone_text::interval_line(z, reg, v, l);
                assert(z.contains_key((zone_model::node(v), 0)) || z.contains_key((0, zone_model::node(v))));
                assert(zone_model::touches(z, zone_model::node(v)));
                let i = choose|i: int| 0 <= i < vars.len() && vars[i] == Variable { id: v };
                assert(lines_of(z, reg, vars, vars[i], l));
            } else {
                let (s, d) = choose|s: u64, d: u64| #[trigger] zone_text::difference_line(z, reg, s, d, l);
                assert(zone_model::touches(z, zone_model::node(s)));
                assert(zone_model::touches(z, zone_model::node(d)));
                let i = choose|i: int| 0 <= i < vars.len() && vars[i] == Variable { id: s };
                let j = choose|j: int| 0 <= j < vars.len() && vars[j] == Variable { id: d };
                assert(zone_text::difference_line(z, reg, vars[i].id, vars[j].id, l));
                assert(pairs_before(z, reg, vars, vars[i].id, n, l));
                assert(lines_of(z, reg, vars, vars[i], l));
            }
        }
    }
}

/// The lines of one variable and of its differences to all variables of a list.
spec fn lines_of(z: ZEdges, reg: RegistryView, vars: Seq<Variable>, v: Variable, l: Seq<char>) -> bool {
    zone_text::alias_line(z, reg, v.id, l) || zone_text::interval_line(z, reg, v.id, l) || pairs_before(z, reg, vars, v.id, vars.len() as int, l)
}

spec fn lines_before(z: ZEdges, reg: RegistryView, vars: Seq<Variable>, n: int, l: Seq<char>) -> bool {
    exists|i: int| 0 <= i < n && lines_of(z, reg, vars, #[trigger] vars[i], l)
}

spec fn pairs_before(z: ZEdges, reg: RegistryView, vars: Seq<Variable>, s: u64, n: int, l: Seq<char>) -> bool {
    exists|j: int| 0 <= j < n && zone_text::difference_line(z, reg, s, (#[trigger] vars[j]).id, l)
}

proof fn lemma_pairs_before(z: ZEdges, reg: RegistryView, vars: Seq<Variable>, s: u64, n: int, l: Seq<char>)
    requires 0 <= n < vars.len(),
    ensures pairs_before(z, reg, vars, s, n + 1, l) == (pairs_before(z, reg, vars, s, n, l) || zone_text::difference_line(z, reg, s, vars[n].id, l)),
{
    if pairs_before(z, reg, vars, s, n, l) {
        let j = choose|j: int| 0 <= j < n && zone_text::difference_line(z, reg, s, (#[trigger] vars[j]).id, l);
        assert(0 <= j < n + 1 && zone_text::difference_line(z, reg, s, vars[j].id, l));
    }
}

proof fn lemma_lines_before(z: ZEdges, reg: RegistryView, vars: Seq<Variable>, n: int, l: Seq<char>)
    requires 0 <= n < vars.len(),
    ensures lines_before(z, reg, vars, n + 1, l) == (lines_before(z, reg, vars, n, l) || lines_of(z, reg, vars, vars[n], l)),
{
    if lines_before(z, reg, vars, n, l) {
        let j = choose|j: int| 0 <= j < n && lines_of(z, reg, vars, #[trigger] vars[j], l);
        assert(0 <= j < n + 1 && lines_of(z, reg, vars, vars[j], l));
    }
}

}
