//! Split difference bound matrices.
//!
//! Vertex zero stands for the constant zero, so the edges at it are bounds of
//! single vertices. Closure treats them apart from the edges between the
//! other vertices.
use vstd::prelude::*;
use crate::arith::extended_number::ExtendedNumber;
use crate::arith::number;
use crate::arith::number::Number;
use crate::splitdbm::constraints;
use crate::splitdbm::constraints::Val;
use crate::splitdbm::graph;
use crate::splitdbm::graph::{EdgeRef, Edges, Graph};
use crate::splitdbm::graph_ops;
use crate::splitdbm::graph_ops::{EdgeVector, ScratchSpace};
use crate::splitdbm::graph_views;
use crate::splitdbm::graph_views::{GraphPerm, ReadableGraph, SubGraph};
use crate::splitdbm::{VertId, VertSet, Weight};

verus! {

/// Which bound of a vertex: the edge `v -> 0` of weight `w` says `v >= -w`,
/// the edge `0 -> v` of weight `w` says `v <= w`.
#[derive(Clone, Copy, Debug, PartialEq, Eq, Structural)]
pub enum Side {
    Left,
    Right,
}

/// The edge that holds a bound.
pub open spec fn bound_key(v: u64, side: Side) -> (u64, u64) {
    match side {
        Side::Left => (v, 0),
        Side::Right => (0, v),
    }
}

/// The weight that expresses a bound.
pub open spec fn bound_weight(side: Side, b: Number) -> Number {
    match side {
        Side::Left => Number::nearest(-b@),
        Side::Right => b,
    }
}

/// The bound that the edges give.
pub open spec fn bound_of(edges: Edges, v: u64, side: Side) -> ExtendedNumber {
    if edges.contains_key(bound_key(v, side)) {
        match side {
            Side::Left => ExtendedNumber::fin(-edges[bound_key(v, side)]@),
            Side::Right => ExtendedNumber::Finite(edges[bound_key(v, side)]),
        }
    } else {
        match side {
            Side::Left => ExtendedNumber::MinusInfinity,
            Side::Right => ExtendedNumber::PlusInfinity,
        }
    }
}

/// A sparse graph of difference constraints with a potential function.
#[derive(Debug)]
pub struct SplitDBM {
    g: Graph,
    potential: Vec<Weight>,
    unstable: VertSet,
}

/// Two matrices in a common vertex space.
pub struct AlignedPair<'a> {
    pub left: &'a SplitDBM,
    pub right: &'a SplitDBM,
    pub left_perm: Vec<VertId>,
    pub right_perm: Vec<VertId>,
    pub initial_potentials: Vec<Weight>,
}

impl<'a> AlignedPair<'a> {
    /// The permutations fit the matrices, and both fix vertex zero.
    pub open spec fn wf(&self) -> bool {
        &&& self.left.wf()
        &&& self.right.wf()
        &&& self.left_perm@.len() == self.right_perm@.len()
        &&& self.left_perm@.len() >= 1
        &&& graph_views::perm_ok(self.left_perm@, self.left.gsize())
        &&& graph_views::perm_ok(self.right_perm@, self.right.gsize())
        &&& self.left_perm@[0] == 0
        &&& self.right_perm@[0] == 0
    }

    /// The edges of the left matrix in the common space.
    pub open spec fn left_edges(&self) -> Edges {
        graph_views::permuted_edges(self.left_perm@, self.left.edges())
    }

    /// The edges of the right matrix in the common space.
    pub open spec fn right_edges(&self) -> Edges {
        graph_views::permuted_edges(self.right_perm@, self.right.edges())
    }

    /// The number of vertices of the common space.
    pub fn size(&self) -> (r: usize)
        ensures r == self.left_perm@.len(),
    {
        self.left_perm.len()
    }
}

/// An edge, direct or through vertex zero, keeps `d - s` at or below `w`.
pub open spec fn covers(edges: Edges, s: u64, d: u64, w: int) -> bool {
    ||| edges.contains_key((s, d)) && edges[(s, d)]@ <= w
    ||| edges.contains_key((s, 0)) && edges.contains_key((0, d)) && number::saturate(edges[(s, 0)]@ + edges[(0, d)]@) <= w
}

impl SplitDBM {
    pub closed spec fn edges(&self) -> Edges {
        self.g.edges()
    }

    pub closed spec fn gsize(&self) -> nat {
        self.g.gsize()
    }

    pub closed spec fn live(&self, v: u64) -> bool {
        self.g.live(v)
    }

    pub closed spec fn freed(&self) -> Seq<u64> {
        self.g.freed()
    }

    pub closed spec fn pot(&self) -> Seq<Weight> {
        self.potential@
    }

    /// The vertices that a widening left to be closed.
    pub closed spec fn unsettled(&self) -> Set<u64> {
        self.unstable@
    }

    /// Whether a widening left no vertices to be closed.
    pub closed spec fn stable(&self) -> bool {
        self.unstable@ == Set::<u64>::empty()
    }

    pub closed spec fn wf(&self) -> bool {
        &&& self.g.wf()
        &&& self.g.live(0)
        &&& self.potential@.len() == self.g.gsize()
    }

    /// The potentials meet every edge.
    pub open spec fn valid(&self) -> bool {
        graph_ops::valid_potentials(self.edges(), self.pot())
    }

    /// Edges join allocated vertices, and allocated vertices have slots.
    pub proof fn lemma_edge_live(&self)
        requires self.wf(),
        ensures
            self.live(0),
            self.pot().len() == self.gsize(),
            forall|s: u64, d: u64| #![trigger self.edges().contains_key((s, d))]
                self.edges().contains_key((s, d)) ==> self.live(s) && self.live(d),
            forall|v: u64| #![trigger self.live(v)] self.live(v) ==> v < self.gsize(),
    {
        self.g.lemma_edge_live();
    }

    /// A matrix with vertex zero alone.
    pub fn new() -> (r: Self)
        ensures
            r.wf(),
            r.stable(),
            r.gsize() == 1,
            r.freed().len() == 0,
            r.edges() == Edges::empty(),
            forall|v: u64| #[trigger] r.live(v) <==> v == 0,
            r.valid(),
    {
        let mut g = Graph::new();
        let v: VertId = g.new_vertex();
        let mut potential: Vec<Weight> = Vec::new();
        potential.push(Number { n: 0 });
        SplitDBM { g, potential, unstable: VertSet::new() }
    }

    /// Assembles a matrix and closes what a widening left open.
    pub fn from_parts(g: Graph, potential: Vec<Weight>, unstable: VertSet) -> (r: Self)
        requires
            g.wf(),
            g.live(0),
            potential@.len() == g.gsize(),
        ensures
            r.wf(),
            r.stable(),
            r.gsize() == g.gsize(),
            r.pot() == potential@,
            forall|v: u64| #[trigger] r.live(v) == g.live(v),
            constraints::equivalent(r.edges(), g.edges()),
            graph_ops::at_least_as_tight(r.edges(), g.edges()),
            unstable@ == Set::<u64>::empty() ==> r.edges() == g.edges(),
            forall|v: u64| #[trigger] g.live(v) && v != 0 && unstable@.contains(v) ==>
                closed_from(graph_views::edges_without(g.edges(), 0), unstable@, v, r.edges()),
            unstable@ != Set::<u64>::empty() ==> bounds_carried(r.edges(), g.edges()),
    {
        let mut r = SplitDBM { g, potential, unstable };
        let ghost before = r;
        assert forall|v: u64| #[trigger] g.live(v) implies before.live(v) by {}
        r.normalize();
        r
    }

    /// Whether there are no constraints.
    pub fn is_top(&self) -> (r: bool)
        requires self.wf(),
        ensures r == (self.edges() == Edges::empty()),
    {
        self.g.is_empty()
    }

    /// The bound of a vertex on one side.
    pub fn get_bound(&self, v: VertId, side: Side) -> (r: ExtendedNumber)
        requires self.wf(), v < self.gsize(),
        ensures r == bound_of(self.edges(), v, side),
    {
        proof { self.g.lemma_edge_live(); }
        match side {
            Side::Left => match self.g.lookup(v, 0) {
                Some(w) => ExtendedNumber::Finite(w.neg()),
                None => ExtendedNumber::MinusInfinity,
            },
            Side::Right => match self.g.lookup(0, v) {
                Some(w) => ExtendedNumber::Finite(w),
                None => ExtendedNumber::PlusInfinity,
            },
        }
    }

    /// Sets the bound of a vertex on one side and moves its potential there.
    pub fn set_bound(&mut self, v: VertId, side: Side, bound_value: &Weight)
        requires old(self).wf(), old(self).live(v),
        ensures
            final(self).wf(),
            final(self).gsize() == old(self).gsize(),
            final(self).freed() == old(self).freed(),
            final(self).stable() == old(self).stable(),
            forall|u: u64| #[trigger] final(self).live(u) == old(self).live(u),
            final(self).edges() == old(self).edges().insert(bound_key(v, side), bound_weight(side, *bound_value)),
            final(self).pot() == old(self).pot().update(v as int, Number::nearest(old(self).pot()[0]@ + bound_value@)),
    {
        proof { self.g.lemma_edge_live(); }
        match side {
            Side::Left => self.g.set_edge(v, bound_value.neg(), 0),
            Side::Right => self.g.set_edge(0, *bound_value, v),
        }
        assert(v < self.potential.len());
        let p: Weight = self.potential[0].add(*bound_value);
        self.potential.set(v as usize, p);
    }

    /// Allocates a vertex.
    pub fn new_vertex(&mut self) -> (v: VertId)
        requires old(self).wf(),
        ensures
            final(self).wf(),
            v != 0,
            !old(self).live(v),
            final(self).live(v),
            forall|u: u64| #![trigger final(self).live(u)] u != v ==> final(self).live(u) == old(self).live(u),
            final(self).edges() == old(self).edges(),
            final(self).stable() == old(self).stable(),
            v < old(self).gsize() ==> final(self).gsize() == old(self).gsize(),
            v >= old(self).gsize() ==> v == old(self).gsize() && final(self).gsize() == old(self).gsize() + 1,
            old(self).freed().len() > 0 ==> v == old(self).freed().last() && final(self).freed() == old(self).freed().drop_last(),
            old(self).freed().len() == 0 ==> v == old(self).gsize() && final(self).freed() == old(self).freed(),
            final(self).pot()[v as int]@ == 0,
            forall|u: int| 0 <= u < old(self).pot().len() && u != v ==> #[trigger] final(self).pot()[u] == old(self).pot()[u],
    {
        proof { self.g.lemma_edge_live(); }
        let v: VertId = self.g.new_vertex();
        if v >= self.potential.len() as u64 {
            self.potential.push(Number { n: 0 });
        } else {
            self.potential.set(v as usize, Number { n: 0 });
        }
        v
    }

    /// Frees a vertex and removes its constraints.
    pub fn forget(&mut self, v: VertId)
        requires old(self).wf(), v != 0, v < old(self).gsize(),
        ensures
            final(self).wf(),
            !final(self).live(v),
            forall|u: u64| #![trigger final(self).live(u)] u != v ==> final(self).live(u) == old(self).live(u),
            final(self).gsize() == old(self).gsize(),
            final(self).stable() == old(self).stable(),
            final(self).edges() == graph_views::edges_without(old(self).edges(), v),
            final(self).pot() == old(self).pot(),
            final(self).freed() == (if old(self).live(v) { old(self).freed().push(v) } else { old(self).freed() }),
    {
        self.g.forget(v);
    }

    pub fn graph(&self) -> (r: &Graph)
        requires self.wf(),
        ensures
            r.wf(),
            r.edges() == self.edges(),
            r.gsize() == self.gsize(),
            forall|v: u64| #[trigger] r.live(v) == self.live(v),
    {
        &self.g
    }

    /// Repairs the potentials after an edge was added; false means that the
    /// constraints contradict each other.
    pub fn repair_potential(&mut self, src: VertId, dest: VertId) -> (r: bool)
        requires old(self).wf(), old(self).edges().contains_key((src, dest)),
        ensures
            final(self).wf(),
            final(self).edges() == old(self).edges(),
            final(self).gsize() == old(self).gsize(),
            final(self).freed() == old(self).freed(),
            final(self).stable() == old(self).stable(),
            forall|u: u64| #[trigger] final(self).live(u) == old(self).live(u),
            r == constraints::feasible(old(self).edges()),
            r ==> graph_ops::solves(final(self).edges(), final(self).pot()),
            r ==> final(self).valid(),
            !r ==> final(self).pot() == old(self).pot(),
    {
        let mut scratch = ScratchSpace::new();
        let before: Vec<Weight> = self.potential.clone();
        if !graph_ops::repair_potential(&mut scratch, &self.g, &mut self.potential, src, dest) {
            return false;
        }
        let ghost mid = *self;
        let r: bool = self.settle();
        let ghost settled = *self;
        if !r {
            self.potential = before;
            assert(self.potential@ =~= old(self).potential@);
        }
        proof {
            assert forall|u: u64| #[trigger] self.live(u) == old(self).live(u) by {
                assert(settled.live(u) == mid.live(u));
                assert(mid.g.live(u) == old(self).g.live(u));
                assert(self.g.live(u) == settled.g.live(u));
            }
        }
        r
    }

    /// Decides whether the edges have a solution.
    pub fn settle(&mut self) -> (r: bool)
        requires old(self).wf(),
        ensures
            final(self).wf(),
            final(self).edges() == old(self).edges(),
            final(self).gsize() == old(self).gsize(),
            final(self).freed() == old(self).freed(),
            final(self).stable() == old(self).stable(),
            forall|u: u64| #[trigger] final(self).live(u) == old(self).live(u),
            r == constraints::feasible(old(self).edges()),
            r ==> graph_ops::solves(final(self).edges(), final(self).pot()),
            !r ==> final(self).pot() == old(self).pot(),
    {
        graph_ops::settle(&self.g, &mut self.potential)
    }

    /// Installs a bound unless there is one that is as tight.
    pub fn update_bound_if_tighter(&mut self, v: VertId, side: Side, new_bound: &Weight) -> (r: bool)
        requires old(self).wf(), old(self).live(v),
        ensures
            final(self).wf(),
            final(self).gsize() == old(self).gsize(),
            final(self).freed() == old(self).freed(),
            final(self).stable() == old(self).stable(),
            forall|u: u64| #[trigger] final(self).live(u) == old(self).live(u),
            final(self).edges() == tightened(old(self).edges(), bound_key(v, side), bound_weight(side, *new_bound)),
            !r ==> !constraints::feasible(final(self).edges()),
            r ==> final(self).edges() == old(self).edges() || constraints::feasible(final(self).edges()),
    {
        proof { self.g.lemma_edge_live(); }
        let w: Weight = match side {
            Side::Left => new_bound.neg(),
            Side::Right => *new_bound,
        };
        let (s, d): (VertId, VertId) = match side {
            Side::Left => (v, 0),
            Side::Right => (0, v),
        };
        if let Some(x) = self.g.lookup(s, d) {
            if x.le(w) {
                return true;
            }
        }
        self.g.set_edge(s, w, d);
        self.repair_potential(s, d)
    }

    /// Adds `dest - src <= k` and closes over it.
    pub fn add_difference_constraint(&mut self, src: VertId, dest: VertId, k: &Weight) -> (r: bool)
        requires
            old(self).wf(),
            old(self).live(src),
            old(self).live(dest),
            src != 0,
            dest != 0,
        ensures
            final(self).wf(),
            final(self).gsize() == old(self).gsize(),
            final(self).freed() == old(self).freed(),
            final(self).stable() == old(self).stable(),
            forall|u: u64| #[trigger] final(self).live(u) == old(self).live(u),
            constraints::equivalent(final(self).edges(), tightened(old(self).edges(), (src, dest), *k)),
            graph_ops::at_least_as_tight(final(self).edges(), tightened(old(self).edges(), (src, dest), *k)),
            bounds_kept(final(self).edges(), old(self).edges()),
            r == constraints::feasible(final(self).edges()),
            r ==> graph_ops::closed_over(final(self).edges(), tightened(old(self).edges(), (src, dest), *k), src, dest),
    {
        let ghost t = tightened(self.edges(), (src, dest), *k);
        self.g.update_edge(src, *k, dest);
        assert(self.g.edges() == t);
        proof { constraints::lemma_entails_refl(t); }
        let ghost m = *self;
        if !self.repair_potential(src, dest) {
            return false;
        }
        let ghost q = *self;
        graph_ops::close_over_edge(&mut self.g, src, dest);
        proof {
            lemma_still_feasible(t, self.edges());
            assert forall|u: u64| #[trigger] self.live(u) == old(self).live(u) by {
                assert(q.live(u) == m.live(u));
                assert(m.g.live(u) == old(self).g.live(u));
            }
            assert forall|u: u64| #![trigger self.edges().contains_key((u, 0))] #![trigger self.edges().contains_key((0, u))] u != 0 implies
                self.edges().contains_key((u, 0)) == old(self).edges().contains_key((u, 0))
                && self.edges().contains_key((0, u)) == old(self).edges().contains_key((0, u))
                && (self.edges().contains_key((u, 0)) ==> self.edges()[(u, 0)] == old(self).edges()[(u, 0)])
                && (self.edges().contains_key((0, u)) ==> self.edges()[(0, u)] == old(self).edges()[(0, u)]) by {
                assert(t.contains_key((u, 0)) == old(self).edges().contains_key((u, 0)));
                assert(t.contains_key((0, u)) == old(self).edges().contains_key((0, u)));
            }
        }
        true
    }

    fn apply_delta(&mut self, delta: &EdgeVector)
        requires
            old(self).wf(),
            graph_ops::tightens(old(self).edges(), delta@),
            forall|i: int| 0 <= i < delta@.len() ==> old(self).live((#[trigger] delta@[i]).0) && old(self).live(delta@[i].1),
        ensures
            final(self).wf(),
            final(self).gsize() == old(self).gsize(),
            final(self).freed() == old(self).freed(),
            final(self).stable() == old(self).stable(),
            final(self).pot() == old(self).pot(),
            forall|u: u64| #[trigger] final(self).live(u) == old(self).live(u),
            final(self).edges() == graph_ops::updated(old(self).edges(), delta@),
            constraints::equivalent(final(self).edges(), old(self).edges()),
            graph_ops::at_least_as_tight(final(self).edges(), old(self).edges()),
    {
        proof { graph_ops::lemma_tightened(self.g.edges(), delta@); }
        graph_ops::apply_delta(&mut self.g, delta);
    }

    /// Closes the bounds: what follows from one difference and one bound
    /// becomes a bound.
    pub fn close_after_bound_updates(&mut self)
        requires old(self).wf(),
        ensures
            final(self).wf(),
            final(self).gsize() == old(self).gsize(),
            final(self).freed() == old(self).freed(),
            final(self).stable() == old(self).stable(),
            final(self).pot() == old(self).pot(),
            forall|u: u64| #[trigger] final(self).live(u) == old(self).live(u),
            constraints::equivalent(final(self).edges(), old(self).edges()),
            graph_ops::at_least_as_tight(final(self).edges(), old(self).edges()),
            bounds_closed(final(self).edges(), old(self).edges()),
            bounds_carried(final(self).edges(), old(self).edges()),
            differences_kept(final(self).edges(), old(self).edges()),
    {
        let mut scratch = ScratchSpace::new();
        let ghost before = self.edges();
        proof { self.g.lemma_edge_live(); }
        let delta: EdgeVector = graph_ops::close_after_assign(&mut scratch, &self.g, &self.potential, 0);
        self.apply_delta(&delta);
        proof {
            graph_ops::lemma_tightened(before, delta@);
            lemma_bounds_carried(before, before, delta@);
            let f = self.edges();
            assert(differences_kept(f, before)) by {
                assert forall|s: u64, d: u64| #![trigger f.contains_key((s, d))] s != 0 && d != 0 implies
                    f.contains_key((s, d)) == before.contains_key((s, d)) && (f.contains_key((s, d)) ==> f[(s, d)] == before[(s, d)]) by {
                    if before.contains_key((s, d)) { assert(f.contains_key((s, d))); }
                    if f.contains_key((s, d)) {
                        assert(graph_ops::updated(before, delta@).contains_key((s, d)));
                    }
                }
            }
            assert forall|m: u64, d: u64| #![trigger before.contains_key((0, m)), before.contains_key((m, d))]
                before.contains_key((0, m)) && before.contains_key((m, d)) && d != 0 implies f.contains_key((0, d))
                && f[(0, d)]@ <= number::saturate(before[(0, m)]@ + before[(m, d)]@) by {
                graph_ops::lemma_update_given(before, delta@, 0, d, number::saturate(before[(0, m)]@ + before[(m, d)]@));
            }
            assert forall|s: u64, m: u64| #![trigger before.contains_key((s, m)), before.contains_key((m, 0))]
                before.contains_key((s, m)) && before.contains_key((m, 0)) && s != 0 implies f.contains_key((s, 0))
                && f[(s, 0)]@ <= number::saturate(before[(m, 0)]@ + before[(s, m)]@) by {
                graph_ops::lemma_update_given(before, delta@, s, 0, number::saturate(before[(m, 0)]@ + before[(s, m)]@));
            }
        }
    }

    /// Closes what a widening left open.
    pub fn normalize(&mut self)
        requires old(self).wf(),
        ensures
            final(self).wf(),
            final(self).stable(),
            final(self).gsize() == old(self).gsize(),
            final(self).freed() == old(self).freed(),
            final(self).pot() == old(self).pot(),
            forall|u: u64| #[trigger] final(self).live(u) == old(self).live(u),
            constraints::equivalent(final(self).edges(), old(self).edges()),
            graph_ops::at_least_as_tight(final(self).edges(), old(self).edges()),
            old(self).stable() ==> final(self).edges() == old(self).edges(),
            forall|v: u64| #[trigger] old(self).live(v) && v != 0 && old(self).unsettled().contains(v) ==>
                closed_from(graph_views::edges_without(old(self).edges(), 0), old(self).unsettled(), v, final(self).edges()),
            !old(self).stable() ==> bounds_carried(final(self).edges(), old(self).edges()),
    {
        let ghost before = self.edges();
        proof { constraints::lemma_entails_refl(before); }
        if self.unstable.is_empty() {
            return;
        }
        let mut scratch = ScratchSpace::new();
        let sg = SubGraph::new(&self.g, 0);
        let delta: EdgeVector = graph_ops::close_after_widen(&mut scratch, &sg, &self.potential, &self.unstable);
        proof { lemma_sub_tightens(before, 0, delta@); }
        self.apply_delta(&delta);
        let ghost mid = self.edges();
        let ghost m = *self;
        proof { self.g.lemma_edge_live(); }
        let rest: EdgeVector = graph_ops::close_after_assign(&mut scratch, &self.g, &self.potential, 0);
        self.apply_delta(&rest);
        let ghost m2 = *self;
        self.unstable.clear();
        proof {
            assert forall|u: u64| #[trigger] self.live(u) == old(self).live(u) by {
                assert(m.live(u) == old(self).live(u));
                assert(m2.live(u) == m.live(u));
            }
            constraints::lemma_equivalent_trans(self.edges(), mid, before);
            lemma_tight_trans(self.edges(), mid, before);
            lemma_zero_kept(before, delta@);
            lemma_bounds_carried(before, mid, rest@);
            let inner = graph_views::edges_without(before, 0);
            let un = old(self).unsettled();
            assert forall|v: u64| #[trigger] old(self).live(v) && v != 0 && un.contains(v) implies closed_from(inner, un, v, self.edges()) by {
                assert(sg.shows(v));
                assert(graph_ops::recovered(inner, un, delta@, v));
                let best = choose|best: Seq<Option<Weight>>| #[trigger] graph_ops::recovers(inner, un, v, best)
                    && forall|d: u64| #![trigger best[d as int]] d < best.len() && best[d as int] is Some ==> graph_ops::provides(inner, delta@, v, d, best[d as int].unwrap()@);
                lemma_held(before, delta@, v, best, self.edges());
            }
        }
    }
}

/// Updates that avoid zero keep the bounds.
proof fn lemma_zero_kept(b: Edges, delta: Seq<(u64, u64, Number)>)
    requires forall|i: int| 0 <= i < delta.len() ==> (#[trigger] delta[i]).0 != 0 && delta[i].1 != 0,
    ensures
        forall|s: u64, d: u64| #![trigger b.contains_key((s, d))] (s == 0 || d == 0) && b.contains_key((s, d)) ==>
            graph_ops::updated(b, delta).contains_key((s, d)) && graph_ops::updated(b, delta)[(s, d)] == b[(s, d)],
    decreases delta.len(),
{
    if delta.len() > 0 {
        let pre = delta.drop_last();
        assert forall|i: int| 0 <= i < pre.len() implies (#[trigger] pre[i]).0 != 0 && pre[i].1 != 0 by { assert(pre[i] == delta[i]); }
        lemma_zero_kept(b, pre);
        assert(delta[delta.len() - 1] == delta.last());
    }
}

/// The edges hold what was reached from `v`.
pub open spec fn holds_reached(edges: Edges, v: u64, best: Seq<Option<Weight>>) -> bool {
    forall|d: u64| #![trigger best[d as int]] d < best.len() && best[d as int] is Some ==>
        edges.contains_key((v, d)) && edges[(v, d)]@ <= best[d as int].unwrap()@
}

/// The edges `after` hold what a closed search from `v` reaches over the edges `inner`.
pub open spec fn closed_from(inner: Edges, unstable: Set<u64>, v: u64, after: Edges) -> bool {
    exists|best: Seq<Option<Weight>>| #[trigger] graph_ops::recovers(inner, unstable, v, best) && holds_reached(after, v, best)
}

/// The edges `after` hold what a closed search over two colours reaches from `v`.
pub open spec fn met_closed_from(inner: Edges, l: Edges, r: Edges, v: u64, after: Edges) -> bool {
    exists|best: Seq<Option<Weight>>| #[trigger] graph_ops::alternates(inner, l, r, v, best) && holds_reached(after, v, best)
}

/// What updates of the inner edges provide holds of edges that are tighter still.
proof fn lemma_held(before: Edges, delta: Seq<(u64, u64, Number)>, v: u64, best: Seq<Option<Weight>>, after: Edges)
    requires
        graph_ops::lowering(delta),
        graph_ops::tightens(before, delta),
        graph_ops::at_least_as_tight(after, graph_ops::updated(before, delta)),
        forall|d: u64| #![trigger best[d as int]] d < best.len() && best[d as int] is Some ==>
            graph_ops::provides(graph_views::edges_without(before, 0), delta, v, d, best[d as int].unwrap()@),
    ensures holds_reached(after, v, best),
{
    assert forall|d: u64| #![trigger best[d as int]] d < best.len() && best[d as int] is Some implies
        after.contains_key((v, d)) && after[(v, d)]@ <= best[d as int].unwrap()@ by {
        let w = best[d as int].unwrap()@;
        assert(graph_ops::provides(graph_views::edges_without(before, 0), delta, v, d, w));
        assert(graph_ops::provides(before, delta, v, d, w));
        graph_ops::lemma_provided_holds(before, delta, v, d, w);
        assert(graph_ops::updated(before, delta).contains_key((v, d)));
    }
}

/// The updates that put the given differences of a new vertex in place.
pub open spec fn assigned_delta(vert: u64, from: Seq<(u64, Number)>, to: Seq<(u64, Number)>) -> Seq<(u64, u64, Number)> {
    Seq::new(from.len(), |i: int| (vert, from[i].0, from[i].1)) + Seq::new(to.len(), |i: int| (to[i].0, vert, to[i].1))
}

/// Two differences of `b` that meet, one of them at `v`, are a difference of `a`, no heavier.
pub open spec fn closed_at(a: Edges, b: Edges, v: u64) -> bool {
    &&& forall|m: u64, d: u64| #![trigger b.contains_key((v, m)), b.contains_key((m, d))]
            m != 0 && d != 0 && d != v && b.contains_key((v, m)) && b.contains_key((m, d)) ==>
            a.contains_key((v, d)) && a[(v, d)]@ <= number::saturate(b[(v, m)]@ + b[(m, d)]@)
    &&& forall|s: u64, m: u64| #![trigger b.contains_key((s, m)), b.contains_key((m, v))]
            s != 0 && m != 0 && s != v && b.contains_key((s, m)) && b.contains_key((m, v)) ==>
            a.contains_key((s, v)) && a[(s, v)]@ <= number::saturate(b[(m, v)]@ + b[(s, m)]@)
}

/// The updates that close a vertex are in effect.
proof fn lemma_closed_at(b: Edges, closure: Seq<(u64, u64, Number)>, v: u64, a: Edges)
    requires
        v != 0,
        graph_ops::updates_once(closure),
        forall|s: u64, d: u64| #![trigger graph_ops::updated(b, closure).contains_key((s, d))] s != 0 && d != 0
            && graph_ops::updated(b, closure).contains_key((s, d)) ==> a.contains_key((s, d)) && a[(s, d)] == graph_ops::updated(b, closure)[(s, d)],
        ({
            let inner = graph_views::edges_without(b, 0);
            &&& forall|m: u64, d: u64| #![trigger inner.contains_key((v, m)), inner.contains_key((m, d))]
                    inner.contains_key((v, m)) && inner.contains_key((m, d)) && d != v ==>
                    graph_ops::gives(closure, v, d, number::saturate(inner[(v, m)]@ + inner[(m, d)]@))
            &&& forall|s: u64, m: u64| #![trigger inner.contains_key((s, m)), inner.contains_key((m, v))]
                    inner.contains_key((s, m)) && inner.contains_key((m, v)) && s != v ==>
                    graph_ops::gives(closure, s, v, number::saturate(inner[(m, v)]@ + inner[(s, m)]@))
        }),
    ensures closed_at(a, b, v),
{
    let inner = graph_views::edges_without(b, 0);
    let f = graph_ops::updated(b, closure);
    assert forall|m: u64, d: u64| #![trigger b.contains_key((v, m)), b.contains_key((m, d))]
        m != 0 && d != 0 && d != v && b.contains_key((v, m)) && b.contains_key((m, d)) implies
        a.contains_key((v, d)) && a[(v, d)]@ <= number::saturate(b[(v, m)]@ + b[(m, d)]@) by {
        assert(inner.contains_key((v, m)) && inner.contains_key((m, d)));
        graph_ops::lemma_update_given(b, closure, v, d, number::saturate(b[(v, m)]@ + b[(m, d)]@));
        assert(f.contains_key((v, d)));
    }
    assert forall|s: u64, m: u64| #![trigger b.contains_key((s, m)), b.contains_key((m, v))]
        s != 0 && m != 0 && s != v && b.contains_key((s, m)) && b.contains_key((m, v)) implies
        a.contains_key((s, v)) && a[(s, v)]@ <= number::saturate(b[(m, v)]@ + b[(s, m)]@) by {
        assert(inner.contains_key((s, m)) && inner.contains_key((m, v)));
        graph_ops::lemma_update_given(b, closure, s, v, number::saturate(b[(m, v)]@ + b[(s, m)]@));
        assert(f.contains_key((s, v)));
    }
}

/// The bounds of `b` are carried over the differences of `a`.
pub open spec fn bounds_carried(a: Edges, b: Edges) -> bool {
    &&& forall|m: u64, d: u64| #![trigger b.contains_key((0, m)), a.contains_key((m, d))]
            m != 0 && d != 0 && b.contains_key((0, m)) && a.contains_key((m, d)) ==>
            a.contains_key((0, d)) && a[(0, d)]@ <= number::saturate(b[(0, m)]@ + a[(m, d)]@)
    &&& forall|s: u64, m: u64| #![trigger a.contains_key((s, m)), b.contains_key((m, 0))]
            s != 0 && m != 0 && a.contains_key((s, m)) && b.contains_key((m, 0)) ==>
            a.contains_key((s, 0)) && a[(s, 0)]@ <= number::saturate(b[(m, 0)]@ + a[(s, m)]@)
}

/// Closing the bounds carries them over the differences: `mid` has the bounds of `b`, and `rest`
/// closes its vertex zero.
proof fn lemma_bounds_carried(b: Edges, mid: Edges, rest: Seq<(u64, u64, Number)>)
    requires
        forall|s: u64, d: u64| #![trigger b.contains_key((s, d))] (s == 0 || d == 0) && b.contains_key((s, d)) ==> mid.contains_key((s, d)) && mid[(s, d)] == b[(s, d)],
        graph_ops::updates_once(rest),
        forall|i: int| 0 <= i < rest.len() ==> (#[trigger] rest[i]).0 == 0 || rest[i].1 == 0,
        forall|m: u64, d: u64| #![trigger mid.contains_key((0, m)), mid.contains_key((m, d))] mid.contains_key((0, m)) && mid.contains_key((m, d)) && d != 0 ==>
            graph_ops::gives(rest, 0, d, number::saturate(mid[(0, m)]@ + mid[(m, d)]@)),
        forall|s: u64, m: u64| #![trigger mid.contains_key((s, m)), mid.contains_key((m, 0))] mid.contains_key((s, m)) && mid.contains_key((m, 0)) && s != 0 ==>
            graph_ops::gives(rest, s, 0, number::saturate(mid[(m, 0)]@ + mid[(s, m)]@)),
    ensures bounds_carried(graph_ops::updated(mid, rest), b),
{
    let a = graph_ops::updated(mid, rest);
    lemma_at_vertex(mid, rest, 0);
    let inner = graph_views::edges_without(a, 0);
    let same = graph_views::edges_without(mid, 0);
    assert(inner == same);
    assert forall|m: u64, d: u64| #![trigger b.contains_key((0, m)), a.contains_key((m, d))]
        m != 0 && d != 0 && b.contains_key((0, m)) && a.contains_key((m, d)) implies
        a.contains_key((0, d)) && a[(0, d)]@ <= number::saturate(b[(0, m)]@ + a[(m, d)]@) by {
        assert(inner.contains_key((m, d)) && inner[(m, d)] == a[(m, d)]);
        assert(same.contains_key((m, d)) && same[(m, d)] == mid[(m, d)]);
        assert(mid.contains_key((m, d)) && mid[(m, d)] == a[(m, d)]);
        graph_ops::lemma_update_given(mid, rest, 0, d, number::saturate(mid[(0, m)]@ + mid[(m, d)]@));
    }
    assert forall|s: u64, m: u64| #![trigger a.contains_key((s, m)), b.contains_key((m, 0))]
        s != 0 && m != 0 && a.contains_key((s, m)) && b.contains_key((m, 0)) implies
        a.contains_key((s, 0)) && a[(s, 0)]@ <= number::saturate(b[(m, 0)]@ + a[(s, m)]@) by {
        assert(inner.contains_key((s, m)) && inner[(s, m)] == a[(s, m)]);
        assert(same.contains_key((s, m)) && same[(s, m)] == mid[(s, m)]);
        assert(mid.contains_key((s, m)) && mid[(s, m)] == a[(s, m)]);
        graph_ops::lemma_update_given(mid, rest, s, 0, number::saturate(mid[(m, 0)]@ + mid[(s, m)]@));
    }
}

/// The edges with an optional bound.
pub open spec fn with_bound(edges: Edges, key: (u64, u64), w: Option<Number>) -> Edges {
    match w {
        Some(x) => tightened(edges, key, x),
        None => edges,
    }
}

impl SplitDBM {
    /// Allocates a vertex with the given differences and bounds, and closes over
    /// the differences. `diffs_from` gives edges out of the vertex, `diffs_to`
    /// edges into it; `lb_edge` and `ub_edge` are the weights of its bounds.
    pub fn assign_vertex(
        &mut self,
        potential_value: &Weight,
        diffs_from: &Vec<(VertId, Weight)>,
        diffs_to: &Vec<(VertId, Weight)>,
        lb_edge: Option<Weight>,
        ub_edge: Option<Weight>,
    ) -> (vert: VertId)
        requires
            old(self).wf(),
            forall|i: int| 0 <= i < diffs_from@.len() ==> (#[trigger] diffs_from@[i]).0 != 0 && old(self).live(diffs_from@[i].0),
            forall|i: int| 0 <= i < diffs_to@.len() ==> (#[trigger] diffs_to@[i]).0 != 0 && old(self).live(diffs_to@[i].0),
        ensures
            final(self).wf(),
            vert != 0,
            !old(self).live(vert),
            final(self).live(vert),
            final(self).stable() == old(self).stable(),
            forall|u: u64| #![trigger final(self).live(u)] u != vert ==> final(self).live(u) == old(self).live(u),
            vert < old(self).gsize() ==> final(self).gsize() == old(self).gsize(),
            vert >= old(self).gsize() ==> vert == old(self).gsize() && final(self).gsize() == old(self).gsize() + 1,
            graph_views::edges_without(final(self).edges(), vert) == old(self).edges(),
            constraints::equivalent(
                final(self).edges(),
                with_bound(with_bound(
                    graph_ops::updated(old(self).edges(), assigned_delta(vert, diffs_from@, diffs_to@)),
                    (vert, 0), lb_edge), (0, vert), ub_edge),
            ),
            graph_ops::at_least_as_tight(
                final(self).edges(),
                with_bound(with_bound(
                    graph_ops::updated(old(self).edges(), assigned_delta(vert, diffs_from@, diffs_to@)),
                    (vert, 0), lb_edge), (0, vert), ub_edge),
            ),
            final(self).edges().contains_key((vert, 0)) <==> lb_edge is Some,
            final(self).edges().contains_key((0, vert)) <==> ub_edge is Some,
            lb_edge matches Some(w) ==> final(self).edges()[(vert, 0)] == w,
            ub_edge matches Some(w) ==> final(self).edges()[(0, vert)] == w,
            closed_at(final(self).edges(), graph_ops::updated(old(self).edges(), assigned_delta(vert, diffs_from@, diffs_to@)), vert),
    {
        let ghost e0 = self.edges();
        proof { self.g.lemma_edge_live(); }
        let vert: VertId = self.new_vertex();
        let ghost after_new = *self;
        assert(vert < self.potential.len()) by { self.g.lemma_edge_live(); assert(self.g.live(vert)); }
        self.potential.set(vert as usize, *potential_value);
        let mut delta: EdgeVector = Vec::new();
        let mut i: usize = 0;
        while i < diffs_from.len()
            invariant
                i <= diffs_from@.len(),
                delta@ == Seq::new(i as nat, |k: int| (vert, diffs_from@[k].0, diffs_from@[k].1)),
            decreases diffs_from@.len() - i,
        {
            delta.push((vert, diffs_from[i].0, diffs_from[i].1));
            i = i + 1;
            assert(delta@ =~= Seq::new(i as nat, |k: int| (vert, diffs_from@[k].0, diffs_from@[k].1)));
        }
        let ghost head = Seq::new(diffs_from@.len(), |k: int| (vert, diffs_from@[k].0, diffs_from@[k].1));
        assert(head + Seq::new(0, |k: int| (diffs_to@[k].0, vert, diffs_to@[k].1)) =~= head);
        let mut i: usize = 0;
        while i < diffs_to.len()
            invariant
                i <= diffs_to@.len(),
                delta@ == head + Seq::new(i as nat, |k: int| (diffs_to@[k].0, vert, diffs_to@[k].1)),
            decreases diffs_to@.len() - i,
        {
            delta.push((diffs_to[i].0, vert, diffs_to[i].1));
            i = i + 1;
            assert(delta@ =~= head + Seq::new(i as nat, |k: int| (diffs_to@[k].0, vert, diffs_to@[k].1)));
        }
        assert(delta@ == assigned_delta(vert, diffs_from@, diffs_to@));
        proof {
            assert forall|k: int| 0 <= k < delta@.len() implies self.g.live((#[trigger] delta@[k]).0) && self.g.live(delta@[k].1)
                && delta@[k].0 != 0 && delta@[k].1 != 0 && (delta@[k].0 == vert || delta@[k].1 == vert) by {
                let n = diffs_from@.len();
                if k < n {
                    assert(old(self).live(diffs_from@[k].0));
                    assert(after_new.live(diffs_from@[k].0));
                } else {
                    assert(old(self).live(diffs_to@[k - n].0));
                    assert(after_new.live(diffs_to@[k - n].0));
                }
            }
        }
        graph_ops::apply_delta(&mut self.g, &delta);
        let ghost e1 = self.g.edges();
        let ghost st1 = *self;
        proof { lemma_at_vertex(e0, delta@, vert); }
        let mut scratch = ScratchSpace::new();
        let sg = SubGraph::new(&self.g, 0);
        proof { assert(self.g.live(vert)); }
        let closure: EdgeVector = graph_ops::close_after_assign(&mut scratch, &sg, &self.potential, vert);
        proof {
            assert forall|k: int| 0 <= k < closure@.len() implies (#[trigger] closure@[k]).0 != 0 && closure@[k].1 != 0
                && self.live(closure@[k].0) && self.live(closure@[k].1) by {
                assert(sg.shows(closure@[k].0) && sg.shows(closure@[k].1));
            }
            lemma_sub_tightens(e1, 0, closure@);
        }
        self.apply_delta(&closure);
        let ghost e2 = self.g.edges();
        let ghost st2 = *self;
        proof {
            lemma_at_vertex(e1, closure@, vert);
            constraints::lemma_entails_refl(e1);
        }
        proof {
            assert(after_new.live(vert) && after_new.live(0));
            assert(st1.g.live(vert) == after_new.g.live(vert) && st1.g.live(0) == after_new.g.live(0));
            assert(st2.live(vert) == st1.live(vert) && st2.live(0) == st1.live(0));
            assert(self.g.live(vert) && self.g.live(0));
        }
        if let Some(lb) = lb_edge {
            self.g.update_edge(vert, lb, 0);
        }
        proof { assert(self.g.live(vert) && self.g.live(0)); }
        let ghost e3 = self.g.edges();
        let ghost st3 = *self;
        if let Some(ub) = ub_edge {
            self.g.update_edge(0, ub, vert);
        }
        proof {
            let f = self.edges();
            // Differences never touch the bounds of the new vertex.
            assert(!e0.contains_key((vert, 0)) && !e0.contains_key((0, vert)));
            assert(!e1.contains_key((vert, 0)) && !e1.contains_key((0, vert))) by { lemma_avoids_zero(e0, delta@); }
            assert(!e2.contains_key((vert, 0)) && !e2.contains_key((0, vert))) by { lemma_avoids_zero(e1, closure@); }
            assert(e3 == with_bound(e2, (vert, 0), lb_edge));
            assert(f == with_bound(e3, (0, vert), ub_edge));
            lemma_closed_at(e1, closure@, vert, f);
            let t3 = with_bound(e1, (vert, 0), lb_edge);
            let t4 = with_bound(t3, (0, vert), ub_edge);
            lemma_same_addition(e2, e1, (vert, 0), lb_edge);
            lemma_same_addition(e3, t3, (0, vert), ub_edge);
            assert(graph_views::edges_without(f, vert) =~= e0) by {
                assert(graph_views::edges_without(f, vert) =~= graph_views::edges_without(e2, vert));
                assert(graph_views::edges_without(e2, vert) =~= graph_views::edges_without(e1, vert));
                assert(graph_views::edges_without(e1, vert) =~= graph_views::edges_without(e0, vert));
                assert(graph_views::edges_without(e0, vert) =~= e0) by {
                    assert forall|e: (u64, u64)| e0.contains_key(e) implies e.0 != vert && e.1 != vert by {
                        assert(e0.contains_key((e.0, e.1)));
                    }
                }
            }
            assert forall|u: u64| #![trigger self.live(u)] u != vert implies self.live(u) == old(self).live(u) by {
                assert(after_new.live(u) == old(self).live(u));
                assert(st1.g.live(u) == after_new.g.live(u));
                assert(st2.live(u) == st1.live(u));
                assert(st3.g.live(u) == st2.g.live(u));
                assert(self.g.live(u) == st3.g.live(u));
            }
            assert(self.live(vert)) by {
                assert(after_new.live(vert));
                assert(st1.g.live(vert) == after_new.g.live(vert));
                assert(st2.live(vert) == st1.live(vert));
                assert(st3.g.live(vert) == st2.g.live(vert));
                assert(self.g.live(vert) == st3.g.live(vert));
            }
            assert(self.wf()) by {
                assert(self.live(0));
            }
        }
        vert
    }

    pub fn potential_at(&self, v: VertId) -> (r: Weight)
        requires self.wf(), v < self.gsize(),
        ensures r == self.pot()[v as int],
    {
        assert(v < self.potential.len());
        self.potential[v as usize]
    }

    pub fn potential_at_zero(&self) -> (r: Weight)
        requires self.wf(),
        ensures r == self.pot()[0],
    {
        proof { self.g.lemma_edge_live(); }
        self.potential[0]
    }

    /// The number of vertex slots.
    pub fn graph_size(&self) -> (r: usize)
        requires self.wf(),
        ensures r == self.gsize(),
    {
        self.g.size()
    }

    pub fn num_edges(&self) -> (r: usize)
        requires self.wf(),
        ensures self.edges().dom().finite(), r == self.edges().dom().len(),
    {
        self.g.num_edges()
    }

    /// Whether an edge touches the vertex.
    pub open spec fn touched(&self, v: u64) -> bool {
        exists|u: u64| self.edges().contains_key((v, u)) || self.edges().contains_key((u, v))
    }

    pub fn vertex_has_edges(&self, v: VertId) -> (r: bool)
        requires self.wf(), v < self.gsize(),
        ensures r == self.touched(v),
    {
        let a: usize = self.g.succs_len(v);
        let b: usize = self.g.preds_len(v);
        proof {
            if a > 0 {
                let u = choose|u: u64| self.g.edges().contains_key((v, u));
                assert(self.edges().contains_key((v, u)));
            }
            if b > 0 {
                let u = choose|u: u64| self.g.edges().contains_key((u, v));
                assert(self.edges().contains_key((u, v)));
            }
            if self.touched(v) {
                let u = choose|u: u64| self.edges().contains_key((v, u)) || self.edges().contains_key((u, v));
                assert(self.g.edges().contains_key((v, u)) || self.g.edges().contains_key((u, v)));
            }
        }
        a > 0 || b > 0
    }

    /// The vertices without edges, other than zero.
    pub fn get_disconnected_vertices(&self) -> (r: Vec<VertId>)
        requires self.wf(),
        ensures forall|v: u64| #[trigger] r@.contains(v) <==> v != 0 && self.live(v) && !self.touched(v),
    {
        proof { self.g.lemma_edge_live(); }
        let vs: Vec<VertId> = self.g.verts();
        let mut r: Vec<VertId> = Vec::new();
        let mut i: usize = 0;
        while i < vs.len()
            invariant
                i <= vs@.len(),
                self.wf(),
                forall|v: u64| #[trigger] vs@.contains(v) <==> self.g.live(v),
                forall|v: u64| #![trigger self.g.live(v)] self.g.live(v) ==> v < self.g.gsize(),
                forall|v: u64| #[trigger] r@.contains(v) <==> v != 0 && vs@.take(i as int).contains(v) && !self.touched(v),
            decreases vs@.len() - i,
        {
            let v: VertId = vs[i];
            assert(vs@.contains(v));
            proof {
                assert(vs@.take(i + 1) =~= vs@.take(i as int).push(v));
                graph_views::lemma_push_contains(vs@.take(i as int), v);
                graph_views::lemma_push_contains(r@, v);
            }
            if v != 0 && !self.vertex_has_edges(v) {
                r.push(v);
            }
            i = i + 1;
        }
        assert(vs@.take(vs@.len() as int) =~= vs@);
        r
    }

    /// Tightens a bound that is there, and the bounds that follow from it and
    /// one difference.
    pub fn strengthen_bound(&mut self, v: VertId, side: Side, bound_value: &Weight) -> (r: bool)
        requires old(self).wf(), old(self).live(v), v != 0,
        ensures
            final(self).wf(),
            final(self).gsize() == old(self).gsize(),
            final(self).freed() == old(self).freed(),
            final(self).stable() == old(self).stable(),
            forall|u: u64| #[trigger] final(self).live(u) == old(self).live(u),
            !strengthens(old(self).edges(), v, side, *bound_value) ==> r && final(self).edges() == old(self).edges(),
            strengthens(old(self).edges(), v, side, *bound_value) ==> ({
                let t = old(self).edges().insert(bound_key(v, side), bound_weight(side, *bound_value));
                &&& constraints::equivalent(final(self).edges(), t)
                &&& graph_ops::at_least_as_tight(final(self).edges(), t)
            }),
            differences_kept(final(self).edges(), old(self).edges()),
            !r ==> !constraints::feasible(final(self).edges()),
            r ==> final(self).edges() == old(self).edges() || constraints::feasible(final(self).edges()),
            r && strengthens(old(self).edges(), v, side, *bound_value) ==> spread(final(self).edges(), old(self).edges(), v, side, bound_weight(side, *bound_value)),
    {
        proof { self.g.lemma_edge_live(); }
        let ghost e0 = self.edges();
        let w: Weight = match side {
            Side::Left => bound_value.neg(),
            Side::Right => *bound_value,
        };
        let (s, d): (VertId, VertId) = match side {
            Side::Left => (v, 0),
            Side::Right => (0, v),
        };
        match self.g.lookup(s, d) {
            None => return true,
            Some(x) => {
                if x.le(w) {
                    return true;
                }
            },
        }
        self.g.set_edge(s, w, d);
        let ghost t = self.edges();
        let ghost st = *self;
        proof {
            constraints::lemma_entails_refl(t);
            constraints::lemma_implied_edge(t, s, d);
            assert forall|u: u64| #[trigger] st.live(u) == old(self).live(u) by {
                assert(st.g.live(u) == old(self).g.live(u));
            }
        }
        if !self.repair_potential(s, d) {
            return false;
        }
        let es: Vec<EdgeRef> = match side {
            Side::Left => self.g.e_preds(v),
            Side::Right => self.g.e_succs(v),
        };
        let out: bool = match side {
            Side::Left => false,
            Side::Right => true,
        };
        let mut i: usize = 0;
        while i < es.len()
            invariant
                i <= es@.len(),
                self.wf(),
                v != 0,
                self.gsize() == st.gsize(),
                self.freed() == st.freed(),
                self.stable() == st.stable(),
                forall|u: u64| #[trigger] self.live(u) == st.live(u),
                st.wf(),
                t == st.edges(),
                e0 == old(self).edges(),
                t == e0.insert(bound_key(v, side), bound_weight(side, *bound_value)),
                strengthens(e0, v, side, *bound_value),
                st.gsize() == old(self).gsize(),
                st.freed() == old(self).freed(),
                st.stable() == old(self).stable(),
                forall|u: u64| #[trigger] st.live(u) == old(self).live(u),
                graph::lists_edges(es@, t, v, out),
                out == (side is Right),
                constraints::equivalent(self.edges(), t),
                graph_ops::at_least_as_tight(self.edges(), t),
                differences_kept(self.edges(), t),
                s == bound_key(v, side).0,
                d == bound_key(v, side).1,
                constraints::implied(t, s, d, w@),
                constraints::feasible(t),
                w == bound_weight(side, *bound_value),
                forall|k: int| #![trigger es@[k]] 0 <= k < i && es@[k].vert != 0 ==> spread_to(self.edges(), side, w, es@[k]),
            decreases es@.len() - i,
        {
            let e: EdgeRef = es[i];
            assert(t.contains_key(graph::edge_key(v, e.vert, out)));
            if e.vert != 0 {
                let ghost before = self.edges();
                let ghost sb = *self;
                let bw: Weight = e.val.add(w);
                let (a, b): (VertId, VertId) = match side {
                    Side::Left => (e.vert, 0),
                    Side::Right => (0, e.vert),
                };
                proof {
                    st.g.lemma_edge_live();
                    match side {
                        Side::Left => {
                            assert(t.contains_key((e.vert, v)));
                            constraints::lemma_implied_edge(t, e.vert, v);
                            constraints::lemma_implied_path(t, e.vert, v, 0, e.val@, w@);
                        },
                        Side::Right => {
                            assert(t.contains_key((v, e.vert)));
                            constraints::lemma_implied_edge(t, v, e.vert);
                            constraints::lemma_implied_path(t, 0, v, e.vert, w@, e.val@);
                        },
                    }
                    assert(st.live(e.vert));
                    assert(self.live(e.vert));
                    assert(self.g.live(0));
                    constraints::lemma_implied_mono(before, t, a, b, bw@);
                    if !(before.contains_key((a, b)) && before[(a, b)]@ <= bw@) {
                        constraints::lemma_insert_implied(before, a, b, bw);
                        constraints::lemma_equivalent_trans(before.insert((a, b), bw), before, t);
                    }
                }
                self.g.update_edge(a, bw, b);
                let ghost sm = *self;
                proof {
                    assert(spread_to(self.edges(), side, w, e));
                    assert forall|k: int| #![trigger es@[k]] 0 <= k < i + 1 && es@[k].vert != 0 implies spread_to(self.edges(), side, w, es@[k]) by {
                        if k < i { assert(spread_to(before, side, w, es@[k])); }
                    }
                    assert forall|u: u64| #[trigger] self.live(u) == st.live(u) by {
                        assert(self.g.live(u) == sb.g.live(u));
                        assert(sb.live(u) == st.live(u));
                    }
                    assert(graph_ops::at_least_as_tight(self.edges(), t)) by {
                        assert forall|p: u64, q: u64| #![trigger t.contains_key((p, q))] t.contains_key((p, q)) implies self.edges().contains_key((p, q)) && self.edges()[(p, q)]@ <= t[(p, q)]@ by {
                            assert(before.contains_key((p, q)));
                        }
                    }
                    assert(differences_kept(self.edges(), t)) by {
                        assert forall|p: u64, q: u64| #![trigger self.edges().contains_key((p, q))] p != 0 && q != 0 implies
                            self.edges().contains_key((p, q)) == t.contains_key((p, q)) && (self.edges().contains_key((p, q)) ==> self.edges()[(p, q)] == t[(p, q)]) by {
                            assert(before.contains_key((p, q)) == t.contains_key((p, q)));
                        }
                    }
                }
                if !self.repair_potential(a, b) {
                    proof {
                        assert forall|u: u64| #[trigger] self.live(u) == old(self).live(u) by {
                            assert(self.live(u) == sm.live(u));
                            assert(sm.live(u) == st.live(u));
                        }
                        assert(differences_kept(self.edges(), e0)) by {
                            assert forall|p: u64, q: u64| #![trigger self.edges().contains_key((p, q))] p != 0 && q != 0 implies
                                self.edges().contains_key((p, q)) == e0.contains_key((p, q)) && (self.edges().contains_key((p, q)) ==> self.edges()[(p, q)] == e0[(p, q)]) by {
                                assert(sm.edges().contains_key((p, q)) == t.contains_key((p, q)));
                            }
                        }
                    }
                    return false;
                }
                proof {
                    assert forall|u: u64| #[trigger] self.live(u) == st.live(u) by {
                        assert(self.live(u) == sm.live(u));
                    }
                }
            }
            i = i + 1;
        }
        proof {
            lemma_still_feasible(t, self.edges());
            assert(spread(self.edges(), e0, v, side, w)) by {
                let f = self.edges();
                assert forall|u: u64| #![trigger e0.contains_key(beside(v, u, side))] u != 0 && u != v && e0.contains_key(beside(v, u, side)) implies
                    f.contains_key(bound_key(u, side)) && f[bound_key(u, side)]@ <= number::saturate(e0[beside(v, u, side)]@ + w@) by {
                    assert(t.contains_key(graph::edge_key(v, u, out)));
                    let k = choose|k: int| 0 <= k < es@.len() && (#[trigger] es@[k]).vert == u;
                    assert(t[graph::edge_key(v, es@[k].vert, out)] == es@[k].val);
                    assert(spread_to(f, side, w, es@[k]));
                }
            }
            assert forall|u: u64| #[trigger] self.live(u) == old(self).live(u) by {
                assert(self.live(u) == st.live(u));
            }
            assert(differences_kept(self.edges(), e0)) by {
                assert forall|p: u64, q: u64| #![trigger self.edges().contains_key((p, q))] p != 0 && q != 0 implies
                    self.edges().contains_key((p, q)) == e0.contains_key((p, q)) && (self.edges().contains_key((p, q)) ==> self.edges()[(p, q)] == e0[(p, q)]) by {
                    assert(self.edges().contains_key((p, q)) == t.contains_key((p, q)));
                }
            }
        }
        true
    }
}

/// There is a bound, and the new value is tighter.
pub open spec fn strengthens(edges: Edges, v: u64, side: Side, b: Number) -> bool {
    edges.contains_key(bound_key(v, side)) && bound_weight(side, b)@ < edges[bound_key(v, side)]@
}

/// The difference over which a bound of `v` is a bound of `u`.
pub open spec fn beside(v: u64, u: u64, side: Side) -> (u64, u64) {
    match side {
        Side::Left => (u, v),
        Side::Right => (v, u),
    }
}

/// The bound of weight `w` of `v` is spread in `a` over the differences of `b`.
pub open spec fn spread(a: Edges, b: Edges, v: u64, side: Side, w: Number) -> bool {
    forall|u: u64| #![trigger b.contains_key(beside(v, u, side))] u != 0 && u != v && b.contains_key(beside(v, u, side)) ==>
        a.contains_key(bound_key(u, side)) && a[bound_key(u, side)]@ <= number::saturate(b[beside(v, u, side)]@ + w@)
}

/// The bound is spread over one difference.
spec fn spread_to(a: Edges, side: Side, w: Number, e: EdgeRef) -> bool {
    a.contains_key(bound_key(e.vert, side)) && a[bound_key(e.vert, side)]@ <= number::saturate(e.val@ + w@)
}

/// Updates at a vertex leave the other edges alone.
proof fn lemma_at_vertex(edges: Edges, delta: Seq<(u64, u64, Number)>, v: u64)
    requires
        forall|i: int| 0 <= i < delta.len() ==> (#[trigger] delta[i]).0 == v || delta[i].1 == v,
    ensures
        graph_views::edges_without(graph_ops::updated(edges, delta), v) == graph_views::edges_without(edges, v),
    decreases delta.len(),
{
    if delta.len() > 0 {
        let pre = delta.drop_last();
        assert forall|i: int| 0 <= i < pre.len() implies (#[trigger] pre[i]).0 == v || pre[i].1 == v by {
            assert(pre[i] == delta[i]);
        }
        lemma_at_vertex(edges, pre, v);
        assert(delta[delta.len() - 1].0 == v || delta[delta.len() - 1].1 == v);
        assert(graph_views::edges_without(graph_ops::updated(edges, delta), v) =~= graph_views::edges_without(graph_ops::updated(edges, pre), v));
    }
}

/// Updates that avoid vertex zero leave the bounds alone.
proof fn lemma_avoids_zero(edges: Edges, delta: Seq<(u64, u64, Number)>)
    requires
        forall|i: int| 0 <= i < delta.len() ==> (#[trigger] delta[i]).0 != 0 && delta[i].1 != 0,
    ensures
        forall|s: u64, d: u64| #![trigger graph_ops::updated(edges, delta).contains_key((s, d))] s == 0 || d == 0 ==>
            graph_ops::updated(edges, delta).contains_key((s, d)) == edges.contains_key((s, d))
            && (edges.contains_key((s, d)) ==> graph_ops::updated(edges, delta)[(s, d)] == edges[(s, d)]),
    decreases delta.len(),
{
    if delta.len() > 0 {
        let pre = delta.drop_last();
        assert forall|i: int| 0 <= i < pre.len() implies (#[trigger] pre[i]).0 != 0 && pre[i].1 != 0 by {
            assert(pre[i] == delta[i]);
        }
        lemma_avoids_zero(edges, pre);
        let u = graph_ops::updated(edges, delta);
        let t = graph_ops::updated(edges, pre);
        assert(delta[delta.len() - 1].0 != 0 && delta[delta.len() - 1].1 != 0);
        assert forall|s: u64, d: u64| #![trigger u.contains_key((s, d))] s == 0 || d == 0 implies
            u.contains_key((s, d)) == edges.contains_key((s, d)) && (edges.contains_key((s, d)) ==> u[(s, d)] == edges[(s, d)]) by {
            assert(t.contains_key((s, d)) == edges.contains_key((s, d)));
        }
    }
}

/// Adding one bound to equivalent graphs that lack it keeps them equivalent.
proof fn lemma_same_addition(a: Edges, b: Edges, key: (u64, u64), w: Option<Number>)
    requires
        constraints::equivalent(a, b),
        graph_ops::at_least_as_tight(a, b),
        !a.contains_key(key),
        !b.contains_key(key),
    ensures
        constraints::equivalent(with_bound(a, key, w), with_bound(b, key, w)),
        graph_ops::at_least_as_tight(with_bound(a, key, w), with_bound(b, key, w)),
{
    if let Some(x) = w {
        let p = a.insert(key, x);
        let q = b.insert(key, x);
        lemma_insert_entails(a, b, key, x);
        lemma_insert_entails(b, a, key, x);
        assert forall|s: u64, d: u64| #![trigger q.contains_key((s, d))] q.contains_key((s, d)) implies p.contains_key((s, d)) && p[(s, d)]@ <= q[(s, d)]@ by {
            if (s, d) != key { assert(b.contains_key((s, d))); }
        }
    }
}

proof fn lemma_insert_entails(a: Edges, b: Edges, key: (u64, u64), x: Number)
    requires constraints::entails(a, b), !a.contains_key(key),
    ensures constraints::entails(a.insert(key, x), b.insert(key, x)),
{
    let p = a.insert(key, x);
    let q = b.insert(key, x);
    constraints::lemma_entails_tighter(p, a);
    constraints::lemma_entails_trans(p, a, b);
    assert forall|s: u64, d: u64| #![trigger q.contains_key((s, d))] q.contains_key((s, d)) implies constraints::implied(p, s, d, q[(s, d)]@) by {
        if (s, d) == key {
            constraints::lemma_implied_edge(p, s, d);
        } else {
            constraints::lemma_implied_edge(b, s, d);
            constraints::lemma_implied_mono(p, b, s, d, b[(s, d)]@);
        }
    }
    constraints::lemma_entails_each(p, q);
}

/// Updates that tighten a part of the graph tighten the whole.
proof fn lemma_sub_tightens(edges: Edges, v_ex: u64, delta: Seq<(u64, u64, Number)>)
    requires
        graph_ops::tightens(graph_views::edges_without(edges, v_ex), delta),
        forall|i: int| 0 <= i < delta.len() ==> (#[trigger] delta[i]).0 != v_ex && delta[i].1 != v_ex,
    ensures graph_ops::tightens(edges, delta),
{
    let sub = graph_views::edges_without(edges, v_ex);
    constraints::lemma_entails_tighter(edges, sub);
    assert forall|i: int| 0 <= i < delta.len() implies ({
        let (s, d, w) = #[trigger] delta[i];
        constraints::implied(edges, s, d, w@) && (edges.contains_key((s, d)) ==> w@ <= edges[(s, d)]@)
    }) by {
        let (s, d, w) = delta[i];
        constraints::lemma_implied_mono(edges, sub, s, d, w@);
        if edges.contains_key((s, d)) {
            assert(sub.contains_key((s, d)));
        }
    }
}

/// Edges that say the same have a solution alike.
proof fn lemma_still_feasible(a: Edges, b: Edges)
    requires constraints::equivalent(b, a), constraints::feasible(a),
    ensures constraints::feasible(b),
{
    let x = choose|x: constraints::Val| constraints::tame(x) && #[trigger] constraints::models(a, x);
    constraints::lemma_entails_use(a, b, x);
}

proof fn lemma_tight_trans(a: Edges, b: Edges, c: Edges)
    requires graph_ops::at_least_as_tight(a, b), graph_ops::at_least_as_tight(b, c),
    ensures graph_ops::at_least_as_tight(a, c),
{
    assert forall|s: u64, d: u64| #![trigger c.contains_key((s, d))] c.contains_key((s, d)) implies a.contains_key((s, d)) && a[(s, d)]@ <= c[(s, d)]@ by {
        assert(b.contains_key((s, d)));
    }
}

/// The edges with `key` lowered to `w`, or added.
pub open spec fn tightened(edges: Edges, key: (u64, u64), w: Number) -> Edges {
    if edges.contains_key(key) && edges[key]@ <= w@ { edges } else { edges.insert(key, w) }
}

/// The bounds of the vertices are the same.
pub open spec fn bounds_kept(a: Edges, b: Edges) -> bool {
    forall|u: u64| #![trigger a.contains_key((u, 0))] #![trigger a.contains_key((0, u))] u != 0 ==>
        a.contains_key((u, 0)) == b.contains_key((u, 0)) && a.contains_key((0, u)) == b.contains_key((0, u))
        && (a.contains_key((u, 0)) ==> a[(u, 0)] == b[(u, 0)])
        && (a.contains_key((0, u)) ==> a[(0, u)] == b[(0, u)])
}

/// The differences between vertices other than zero are the same.
pub open spec fn differences_kept(a: Edges, b: Edges) -> bool {
    forall|s: u64, d: u64| #![trigger a.contains_key((s, d))] s != 0 && d != 0 ==>
        a.contains_key((s, d)) == b.contains_key((s, d)) && (a.contains_key((s, d)) ==> a[(s, d)] == b[(s, d)])
}

/// In `a`, no bound is looser than a bound and a difference of `b` make it.
pub open spec fn bounds_closed(a: Edges, b: Edges) -> bool {
    &&& forall|m: u64, d: u64| #![trigger b.contains_key((0, m)), b.contains_key((m, d))]
        b.contains_key((0, m)) && b.contains_key((m, d)) && d != 0 ==> a.contains_key((0, d))
            && a[(0, d)]@ <= number::saturate(b[(0, m)]@ + b[(m, d)]@)
    &&& forall|s: u64, m: u64| #![trigger b.contains_key((s, m)), b.contains_key((m, 0))]
        b.contains_key((s, m)) && b.contains_key((m, 0)) && s != 0 ==> a.contains_key((s, 0))
            && a[(s, 0)]@ <= number::saturate(b[(m, 0)]@ + b[(s, m)]@)
}

/// Every constraint of `right`, renamed by `perm`, is covered by `left`.
pub open spec fn subsumed(left: Edges, right: Edges, perm: Seq<u64>) -> bool {
    forall|x: u64, y: u64| #![trigger right.contains_key((x, y))] right.contains_key((x, y))
        ==> covers(left, perm[x as int], perm[y as int], right[(x, y)]@)
}

/// The differences that the bounds of `bounds` imply for the differences of `rels`.
pub open spec fn deferred_edges(bounds: Edges, rels: Edges) -> Edges {
    Map::new(
        |e: (u64, u64)| e.0 != 0 && e.1 != 0 && rels.contains_key(e) && bounds.contains_key((e.0, 0)) && bounds.contains_key((0, e.1)),
        |e: (u64, u64)| Number::nearest(bounds[(e.0, 0)]@ + bounds[(0, e.1)]@),
    )
}

/// Builds the graph of the deferred differences.
fn deferred(bounds: &GraphPerm, rels: &GraphPerm, sz: usize) -> (g: Graph)
    requires
        bounds.ok(),
        rels.ok(),
        bounds.slots() == sz,
        rels.slots() == sz,
        sz >= 1,
    ensures
        g.wf(),
        g.gsize() == sz,
        forall|v: u64| #[trigger] g.live(v) <==> v < sz,
        g.edges() == deferred_edges(bounds.shown(), rels.shown()),
{
    let mut g = Graph::new();
    g.grow_to(sz);
    let es: EdgeVector = graph_ops::all_edges(rels);
    let ghost j = deferred_edges(bounds.shown(), rels.shown());
    proof { rels.lemma_shown(); }
    let mut k: usize = 0;
    while k < es.len()
        invariant
            k <= es@.len(),
            bounds.ok(), rels.ok(), bounds.slots() == sz, rels.slots() == sz, sz >= 1,
            g.wf(),
            g.gsize() == sz,
            forall|v: u64| #[trigger] g.live(v) <==> v < sz,
            graph_ops::lists_all(es@, rels.shown()),
            j == deferred_edges(bounds.shown(), rels.shown()),
            forall|a: u64, d: u64| #![trigger rels.shown().contains_key((a, d))] rels.shown().contains_key((a, d)) ==> rels.shows(a) && rels.shows(d),
            forall|a: u64, d: u64| #[trigger] g.edges().contains_key((a, d)) <==> j.contains_key((a, d)) && graph_ops::listed(es@.take(k as int), a, d),
            forall|a: u64, d: u64| #[trigger] g.edges().contains_key((a, d)) ==> g.edges()[(a, d)] == j[(a, d)],
        decreases es@.len() - k,
    {
        let (s, d, _w) = es[k];
        proof { graph_ops::lemma_next_edge(es@, rels.shown(), k as int); }
        if s != 0 && d != 0 {
            if let Some(ws) = bounds.lookup(s, 0) {
                if let Some(wd) = bounds.lookup(0, d) {
                    assert(j.contains_key((s, d)));
                    g.add_edge(s, ws.add(wd), d);
                }
            }
        }
        k = k + 1;
    }
    proof {
        assert(es@.take(es@.len() as int) =~= es@);
        assert forall|e: (u64, u64)| g.edges().contains_key(e) <==> j.contains_key(e) by {
            assert(g.edges().contains_key((e.0, e.1)) <==> j.contains_key((e.0, e.1)) && graph_ops::listed(es@, e.0, e.1));
            if j.contains_key(e) { assert(rels.shown().contains_key((e.0, e.1))); }
        }
        assert forall|e: (u64, u64)| g.edges().contains_key(e) implies g.edges()[e] == j[e] by {
            assert(g.edges().contains_key((e.0, e.1)));
        }
        assert(g.edges() =~= j);
    }
    g
}

/// One side of a join, closed: the differences that its bounds imply for the other side are made
/// explicit, and the search over both colours is closed.
pub open spec fn side_closed(x: Edges, y: Edges, c: Edges, sz: nat) -> bool {
    let dfr = deferred_edges(x, y);
    let m = graph_ops::meet_edges(x, dfr);
    &&& graph_ops::at_least_as_tight(c, m)
    &&& constraints::equivalent(c, x)
    &&& bounds_same(c, x)
    &&& forall|v: u64| 0 < v < sz ==> #[trigger] met_closed_from(graph_views::edges_without(m, 0), x, dfr, v, c)
}

/// The vertices at both of whose bounds one side is smaller: sources and destinations of the
/// differences that a join reapplies.
pub open spec fn moved(x: Edges, y: Edges, v: u64, side: Side, left_smaller: bool) -> bool {
    let k = bound_key(v, side);
    v != 0 && x.contains_key(k) && y.contains_key(k) && (if left_smaller { x[k]@ < y[k]@ } else { y[k]@ < x[k]@ })
}

/// The keys from a lower bound that moves one way to an upper bound that moves the other.
pub open spec fn reapplied(x: Edges, y: Edges, up: bool) -> spec_fn((u64, u64)) -> bool {
    |k: (u64, u64)| k.0 != k.1 && moved(x, y, k.0, Side::Left, !up) && moved(x, y, k.1, Side::Right, up)
}

/// The vertices that a widening leaves to be closed: those of the left matrix, and those that lose
/// a difference.
pub open spec fn to_close(aligned: &AlignedPair) -> Set<u64> {
    let x = aligned.left_edges();
    let w = graph_ops::widen_edges(x, aligned.right_edges());
    Set::new(|v: u64| aligned.left.unsettled().contains(v) || (v < aligned.left_perm@.len() && exists|d: u64| #[trigger] x.contains_key((v, d)) && !w.contains_key((v, d))))
}

/// The result of a widening is closed from these vertices, and the bounds are carried.
pub open spec fn widening_closed(aligned: &AlignedPair, r: Edges) -> bool {
    let w = graph_ops::widen_edges(aligned.left_edges(), aligned.right_edges());
    let un = to_close(aligned);
    &&& forall|v: u64| #[trigger] un.contains(v) && 0 < v < aligned.left_perm@.len() ==> closed_from(graph_views::edges_without(w, 0), un, v, r)
    &&& un != Set::<u64>::empty() ==> bounds_carried(r, w)
    &&& un == Set::<u64>::empty() ==> r == w
}

/// The edges of a join: those of the closed sides, and the looser of the differences that bounds
/// imply where the bounds of the sides move apart.
pub open spec fn joined_edges(x: Edges, y: Edges, cl: Edges, cr: Edges) -> Edges {
    with_differences(with_differences(graph_ops::join_edges(cl, cr), x, y, reapplied(x, y, true)), x, y, reapplied(x, y, false))
}

/// The result of a join.
pub open spec fn is_join(x: Edges, y: Edges, r: Edges, sz: nat) -> bool {
    exists|cl: Edges, cr: Edges| #[trigger] side_closed(x, y, cl, sz) && #[trigger] side_closed(y, x, cr, sz) && r == joined_edges(x, y, cl, cr)
}

/// One side of a join with the differences that its bounds imply for the other side.
pub open spec fn spelled_out(x: Edges, y: Edges) -> Edges {
    graph_ops::meet_edges(x, deferred_edges(x, y))
}

/// A join keeps what both sides say of a difference, be it by an edge or, where the other side has
/// an edge, by bounds, and what bounds say of a difference that move apart.
pub proof fn lemma_join_says(x: Edges, y: Edges, r: Edges, sz: nat)
    requires is_join(x, y, r, sz),
    ensures
        graph_ops::at_least_as_tight(r, graph_ops::join_edges(spelled_out(x, y), spelled_out(y, x))),
        forall|k: (u64, u64)| #![trigger r.contains_key(k)] reapplied(x, y, true)(k) || reapplied(x, y, false)(k) ==>
            r.contains_key(k) && r[k]@ <= looser_difference(x, y, k.0, k.1)@,
{
    let (cl, cr) = choose|cl: Edges, cr: Edges| #[trigger] side_closed(x, y, cl, sz) && #[trigger] side_closed(y, x, cr, sz) && r == joined_edges(x, y, cl, cr);
    let a = spelled_out(x, y);
    let b = spelled_out(y, x);
    let j = graph_ops::join_edges(a, b);
    assert forall|s: u64, d: u64| #![trigger j.contains_key((s, d))] j.contains_key((s, d)) implies r.contains_key((s, d)) && r[(s, d)]@ <= j[(s, d)]@ by {
        assert(a.contains_key((s, d)) && b.contains_key((s, d)));
        assert(cl.contains_key((s, d)) && cr.contains_key((s, d)));
    }
}

/// `b` says the same as `a`, has its bounds and nothing looser.
spec fn refines(b: Edges, a: Edges) -> bool {
    &&& constraints::equivalent(b, a)
    &&& graph_ops::at_least_as_tight(b, a)
    &&& forall|s: u64, d: u64| #![trigger b.contains_key((s, d))] s == 0 || d == 0 ==> b.contains_key((s, d)) == a.contains_key((s, d))
        && (a.contains_key((s, d)) ==> b[(s, d)] == a[(s, d)])
}

/// One side of a join, with the differences that its bounds imply for the
/// other side made explicit, and closed.
fn closed_side(gx: &GraphPerm, gy: &GraphPerm, pots: &Vec<Weight>, sz: usize) -> (g: Graph)
    requires
        gx.ok(),
        gy.ok(),
        gx.slots() == sz,
        gy.slots() == sz,
        sz >= 1,
        pots@.len() == sz,
    ensures
        g.wf(),
        g.gsize() == sz,
        forall|v: u64| #[trigger] g.live(v) <==> v < sz,
        refines(g.edges(), gx.shown()),
        side_closed(gx.shown(), gy.shown(), g.edges(), sz as nat),
{
    let implied: Graph = deferred(gx, gy, sz);
    let (mut g, _closed) = graph_ops::graph_meet(gx, &implied);
    let ghost x = gx.shown();
    let ghost m = g.edges();
    proof {
        let dfr = implied.edges();
        assert(graph_ops::at_least_as_tight(m, x));
        constraints::lemma_entails_tighter(m, x);
        assert forall|s: u64, d: u64| #![trigger m.contains_key((s, d))] m.contains_key((s, d)) implies constraints::implied(x, s, d, m[(s, d)]@) by {
            if x.contains_key((s, d)) && m[(s, d)] == x[(s, d)] {
                constraints::lemma_implied_edge(x, s, d);
            } else {
                assert(dfr.contains_key((s, d)) && m[(s, d)] == dfr[(s, d)]);
                constraints::lemma_implied_edge(x, s, 0);
                constraints::lemma_implied_edge(x, 0, d);
                constraints::lemma_implied_path(x, s, 0, d, x[(s, 0)]@, x[(0, d)]@);
            }
        }
        constraints::lemma_entails_each(x, m);
        assert(refines(m, x));
    }
    let mut scratch = ScratchSpace::new();
    let sg = SubGraph::new(&g, 0);
    let delta: EdgeVector = graph_ops::close_after_meet(&mut scratch, &sg, pots, gx, &implied);
    proof {
        assert forall|k: int| 0 <= k < delta@.len() implies (#[trigger] delta@[k]).0 != 0 && delta@[k].1 != 0 && g.live(delta@[k].0) && g.live(delta@[k].1) by {
            assert(sg.shows(delta@[k].0) && sg.shows(delta@[k].1));
        }
        lemma_sub_tightens(m, 0, delta@);
        graph_ops::lemma_tightened(m, delta@);
        lemma_avoids_zero(m, delta@);
    }
    let ghost shows = |v: u64| sg.shows(v);
    let ghost dfr = implied.edges();
    graph_ops::apply_delta(&mut g, &delta);
    proof {
        let f = g.edges();
        let inner = graph_views::edges_without(m, 0);
        assert(graph_ops::coloured(inner, x, dfr)) by {
            assert forall|s: u64, d: u64| #![trigger inner.contains_key((s, d))] inner.contains_key((s, d)) implies graph_ops::colour(inner, x, dfr, s, d) != 0 by {
                assert(m.contains_key((s, d)));
            }
        }
        assert forall|v: u64| 0 < v < sz implies #[trigger] met_closed_from(inner, x, dfr, v, f) by {
            assert(shows(v));
            assert(graph_ops::met_from(inner, x, dfr, delta@, v));
            let best = choose|best: Seq<Option<Weight>>| #[trigger] graph_ops::alternates(inner, x, dfr, v, best)
                && forall|d: u64| #![trigger best[d as int]] d < best.len() && best[d as int] is Some ==> graph_ops::provides(inner, delta@, v, d, best[d as int].unwrap()@);
            lemma_held(m, delta@, v, best, f);
        }
        constraints::lemma_equivalent_trans(f, m, x);
        lemma_tight_trans(f, m, x);
        assert forall|s: u64, d: u64| #![trigger f.contains_key((s, d))] s == 0 || d == 0 implies f.contains_key((s, d)) == x.contains_key((s, d))
            && (x.contains_key((s, d)) ==> f[(s, d)] == x[(s, d)]) by {
            assert(graph_ops::updated(m, delta@).contains_key((s, d)) == m.contains_key((s, d)));
        }
        assert(bounds_same(f, x));
        assert(m == graph_ops::meet_edges(x, dfr));
        assert(graph_ops::at_least_as_tight(f, m));
        assert(constraints::equivalent(f, x));
        assert(dfr == deferred_edges(x, gy.shown()));
        assert(side_closed(x, gy.shown(), f, sz as nat));
    }
    g
}

/// The edges of `g` follow from both sides of a join.
spec fn follows(g: Edges, x: Edges, y: Edges) -> bool {
    constraints::entails(x, g) && constraints::entails(y, g)
}

/// Vertices whose bound is smaller on the left than on the right (or the other way round).
fn moved_bounds(gx: &GraphPerm, gy: &GraphPerm, side: Side, left_smaller: bool, sz: usize) -> (r: Vec<VertId>)
    requires
        gx.ok(),
        gy.ok(),
        gx.slots() == sz,
        gy.slots() == sz,
        sz >= 1,
    ensures
        forall|i: int| 0 <= i < r@.len() ==> ({
            let k = bound_key(#[trigger] r@[i], side);
            &&& r@[i] != 0
            &&& r@[i] < sz
            &&& gx.shown().contains_key(k)
            &&& gy.shown().contains_key(k)
            &&& (if left_smaller { gx.shown()[k]@ < gy.shown()[k]@ } else { gy.shown()[k]@ < gx.shown()[k]@ })
        }),
        forall|v: u64| #[trigger] r@.contains(v) <==> moved(gx.shown(), gy.shown(), v, side, left_smaller),
{
    proof { gx.lemma_shown(); gy.lemma_shown(); }
    let mut r: Vec<VertId> = Vec::new();
    let mut v: usize = 1;
    while v < sz
        invariant
            1 <= v <= sz,
            gx.ok(), gy.ok(), gx.slots() == sz, gy.slots() == sz,
            forall|i: int| 0 <= i < r@.len() ==> ({
                let k = bound_key(#[trigger] r@[i], side);
                &&& r@[i] != 0
                &&& r@[i] < sz
                &&& gx.shown().contains_key(k)
                &&& gy.shown().contains_key(k)
                &&& (if left_smaller { gx.shown()[k]@ < gy.shown()[k]@ } else { gy.shown()[k]@ < gx.shown()[k]@ })
            }),
            forall|u: u64| u < v && moved(gx.shown(), gy.shown(), u, side, left_smaller) ==> #[trigger] r@.contains(u),
        decreases sz - v,
    {
        let ghost before = r@;
        let (s, d): (VertId, VertId) = match side {
            Side::Left => (v as VertId, 0),
            Side::Right => (0, v as VertId),
        };
        if let Some(wx) = gx.lookup(s, d) {
            if let Some(wy) = gy.lookup(s, d) {
                if (left_smaller && wx.lt(wy)) || (!left_smaller && wy.lt(wx)) {
                    r.push(v as VertId);
                }
            }
        }
        proof {
            assert forall|u: u64| u < v + 1 && moved(gx.shown(), gy.shown(), u, side, left_smaller) implies #[trigger] r@.contains(u) by {
                if u < v {
                    assert(before.contains(u));
                    let i = choose|i: int| 0 <= i < before.len() && before[i] == u;
                    assert(r@[i] == u);
                } else {
                    assert(r@[before.len() as int] == u);
                }
            }
        }
        v = v + 1;
    }
    proof {
        gx.lemma_shown();
        assert forall|u: u64| #[trigger] r@.contains(u) <==> moved(gx.shown(), gy.shown(), u, side, left_smaller) by {
            if r@.contains(u) {
                let i = choose|i: int| 0 <= i < r@.len() && r@[i] == u;
                assert(r@[i] == u);
            }
            if moved(gx.shown(), gy.shown(), u, side, left_smaller) {
                assert(gx.shown().contains_key(bound_key(u, side)));
                match side {
                    Side::Left => { assert(gx.shown().contains_key((u, 0))); assert(gx.shows(u)); },
                    Side::Right => { assert(gx.shown().contains_key((0, u))); assert(gx.shows(u)); },
                }
                assert(u < v);
            }
        }
    }
    r
}

/// The looser of the differences from `s` to `d` that the bounds of each side give.
pub open spec fn looser_difference(x: Edges, y: Edges, s: u64, d: u64) -> Number {
    let l = Number::nearest(x[(s, 0)]@ + x[(0, d)]@);
    let r = Number::nearest(y[(s, 0)]@ + y[(0, d)]@);
    if l@ >= r@ { l } else { r }
}

/// The edges with the looser differences at some keys, where they are tighter.
pub open spec fn with_differences(e: Edges, x: Edges, y: Edges, at: spec_fn((u64, u64)) -> bool) -> Edges {
    Map::new(
        |k: (u64, u64)| e.contains_key(k) || at(k),
        |k: (u64, u64)| if at(k) && !(e.contains_key(k) && e[k]@ <= looser_difference(x, y, k.0, k.1)@) { looser_difference(x, y, k.0, k.1) } else { e[k] },
    )
}

/// The keys from a source to another vertex that is a destination.
pub open spec fn between(sources: Seq<u64>, dests: Seq<u64>) -> spec_fn((u64, u64)) -> bool {
    |k: (u64, u64)| sources.contains(k.0) && dests.contains(k.1) && k.0 != k.1
}

/// The keys from the first `a` sources, and from the next one to the first `b` destinations.
spec fn between_so_far(sources: Seq<u64>, dests: Seq<u64>, a: int, b: int) -> spec_fn((u64, u64)) -> bool {
    |k: (u64, u64)| k.0 != k.1 && ((sources.take(a).contains(k.0) && dests.contains(k.1))
        || (a < sources.len() && k.0 == sources[a] && dests.take(b).contains(k.1)))
}

/// One more key takes its difference.
proof fn lemma_one_difference(e: Edges, x: Edges, y: Edges, at: spec_fn((u64, u64)) -> bool, k: (u64, u64), more: spec_fn((u64, u64)) -> bool, g: Edges)
    requires
        forall|q: (u64, u64)| #[trigger] more(q) <==> at(q) || q == k,
        ({
            let before = with_differences(e, x, y, at);
            let w = looser_difference(x, y, k.0, k.1);
            g == (if before.contains_key(k) && before[k]@ <= w@ { before } else { before.insert(k, w) })
        }),
    ensures g == with_differences(e, x, y, more),
{
    let after = with_differences(e, x, y, more);
    assert forall|q: (u64, u64)| #![trigger g.contains_key(q)] #![trigger after.contains_key(q)]
        g.contains_key(q) == after.contains_key(q) && (g.contains_key(q) ==> g[q] == after[q]) by {
        assert(more(q) <==> at(q) || q == k);
    }
    assert(g =~= after);
}

/// Keys that agree give the same edges.
proof fn lemma_same_keys(e: Edges, x: Edges, y: Edges, p: spec_fn((u64, u64)) -> bool, q: spec_fn((u64, u64)) -> bool)
    requires forall|k: (u64, u64)| #[trigger] p(k) == q(k),
    ensures with_differences(e, x, y, p) == with_differences(e, x, y, q),
{
    let a = with_differences(e, x, y, p);
    let b = with_differences(e, x, y, q);
    assert forall|k: (u64, u64)| #![trigger a.contains_key(k)] #![trigger b.contains_key(k)]
        a.contains_key(k) == b.contains_key(k) && (a.contains_key(k) ==> a[k] == b[k]) by {
        assert(p(k) == q(k));
    }
    assert(a =~= b);
}

/// What one more element of a list adds to its front part.
proof fn lemma_take_more(s: Seq<u64>, n: int, v: u64)
    requires 0 <= n < s.len(),
    ensures s.take(n + 1).contains(v) <==> s.take(n).contains(v) || v == s[n],
{
    let t = s.take(n);
    assert(s.take(n + 1) =~= t.push(s[n]));
    if t.contains(v) {
        let i = choose|i: int| 0 <= i < t.len() && t[i] == v;
        assert(t.push(s[n])[i] == v);
    }
    assert(t.push(s[n])[n] == s[n]);
}

/// Reapplies the differences that bounds imply on both sides, for the given
/// sources and destinations.
fn reapply(g: &mut Graph, gx: &GraphPerm, gy: &GraphPerm, sources: &Vec<VertId>, dests: &Vec<VertId>, sz: usize)
    requires
        old(g).wf(),
        old(g).gsize() == sz,
        forall|v: u64| #[trigger] old(g).live(v) <==> v < sz,
        gx.ok(),
        gy.ok(),
        gx.slots() == sz,
        gy.slots() == sz,
        sz >= 1,
        forall|i: int| 0 <= i < sources@.len() ==> #[trigger] sources@[i] != 0 && sources@[i] < sz
            && gx.shown().contains_key((sources@[i], 0)) && gy.shown().contains_key((sources@[i], 0)),
        forall|i: int| 0 <= i < dests@.len() ==> #[trigger] dests@[i] != 0 && dests@[i] < sz
            && gx.shown().contains_key((0, dests@[i])) && gy.shown().contains_key((0, dests@[i])),
        follows(old(g).edges(), gx.shown(), gy.shown()),
    ensures
        final(g).wf(),
        final(g).gsize() == sz,
        forall|v: u64| #[trigger] final(g).live(v) <==> v < sz,
        follows(final(g).edges(), gx.shown(), gy.shown()),
        graph_ops::at_least_as_tight(final(g).edges(), old(g).edges()),
        bounds_same(final(g).edges(), old(g).edges()),
        final(g).edges() == with_differences(old(g).edges(), gx.shown(), gy.shown(), between(sources@, dests@)),
{
    let ghost x = gx.shown();
    let ghost y = gy.shown();
    let ghost e0 = g.edges();
    let ghost so_far = |a: int, b: int| between_so_far(sources@, dests@, a, b);
    proof {
        assert(g.edges() =~= with_differences(e0, x, y, so_far(0, 0)));
    }
    let mut a: usize = 0;
    while a < sources.len()
        invariant
            a <= sources@.len(),
            g.wf(),
            g.gsize() == sz,
            forall|v: u64| #[trigger] g.live(v) <==> v < sz,
            gx.ok(), gy.ok(), gx.slots() == sz, gy.slots() == sz,
            x == gx.shown(), y == gy.shown(),
            forall|i: int| 0 <= i < sources@.len() ==> #[trigger] sources@[i] != 0 && sources@[i] < sz
                && x.contains_key((sources@[i], 0)) && y.contains_key((sources@[i], 0)),
            forall|i: int| 0 <= i < dests@.len() ==> #[trigger] dests@[i] != 0 && dests@[i] < sz
                && x.contains_key((0, dests@[i])) && y.contains_key((0, dests@[i])),
            follows(g.edges(), x, y),
            graph_ops::at_least_as_tight(g.edges(), e0),
            bounds_same(g.edges(), e0),
            so_far == (|a: int, b: int| between_so_far(sources@, dests@, a, b)),
            g.edges() == with_differences(e0, x, y, so_far(a as int, 0)),
        decreases sources@.len() - a,
    {
        let s: VertId = sources[a];
        let left_lb: Weight = gx.edge_val(s, 0);
        let right_lb: Weight = gy.edge_val(s, 0);
        let mut b: usize = 0;
        while b < dests.len()
            invariant
                b <= dests@.len(),
                s != 0, s < sz,
                x.contains_key((s, 0)), y.contains_key((s, 0)),
                left_lb == x[(s, 0)], right_lb == y[(s, 0)],
                g.wf(),
                g.gsize() == sz,
                forall|v: u64| #[trigger] g.live(v) <==> v < sz,
                gx.ok(), gy.ok(), gx.slots() == sz, gy.slots() == sz,
                x == gx.shown(), y == gy.shown(),
                forall|i: int| 0 <= i < dests@.len() ==> #[trigger] dests@[i] != 0 && dests@[i] < sz
                    && x.contains_key((0, dests@[i])) && y.contains_key((0, dests@[i])),
                follows(g.edges(), x, y),
                graph_ops::at_least_as_tight(g.edges(), e0),
                bounds_same(g.edges(), e0),
                a < sources@.len(),
                s == sources@[a as int],
                so_far == (|a: int, b: int| between_so_far(sources@, dests@, a, b)),
                g.edges() == with_differences(e0, x, y, so_far(a as int, b as int)),
            decreases dests@.len() - b,
        {
            let d: VertId = dests[b];
            let ghost done = so_far(a as int, b as int);
            let ghost more = so_far(a as int, b + 1);
            proof {
                assert forall|q: (u64, u64)| #[trigger] more(q) <==> done(q) || (s != d && q == (s, d)) by {
                    lemma_take_more(dests@, b as int, q.1);
                }
                if s == d { lemma_same_keys(e0, x, y, done, more); }
            }
            if s != d {
                let lv: Weight = left_lb.add(gx.edge_val(0, d));
                let rv: Weight = right_lb.add(gy.edge_val(0, d));
                let w: Weight = lv.max(rv);
                let ghost before = g.edges();
                proof {
                    lemma_through_zero(x, s, d, w@);
                    lemma_through_zero(y, s, d, w@);
                    lemma_insert_follows(x, before, s, d, w);
                    lemma_insert_follows(y, before, s, d, w);
                }
                g.update_edge(s, w, d);
                proof {
                    lemma_one_difference(e0, x, y, done, (s, d), more, g.edges());
                    assert(graph_ops::at_least_as_tight(g.edges(), e0)) by {
                        assert forall|p: u64, q: u64| #![trigger e0.contains_key((p, q))] e0.contains_key((p, q)) implies g.edges().contains_key((p, q)) && g.edges()[(p, q)]@ <= e0[(p, q)]@ by {
                            assert(before.contains_key((p, q)));
                        }
                    }
                    assert forall|p: u64, q: u64| #![trigger g.edges().contains_key((p, q))] p == 0 || q == 0 implies
                        g.edges().contains_key((p, q)) == e0.contains_key((p, q)) && (e0.contains_key((p, q)) ==> g.edges()[(p, q)] == e0[(p, q)]) by {
                        assert(before.contains_key((p, q)) == e0.contains_key((p, q)));
                    }
                }
            }
            b = b + 1;
        }
        proof {
            let done = so_far(a as int, b as int);
            let more = so_far(a + 1, 0);
            assert forall|k: (u64, u64)| #[trigger] done(k) == more(k) by {
                lemma_take_more(sources@, a as int, k.0);
                assert(dests@.take(b as int) =~= dests@);
            }
            lemma_same_keys(e0, x, y, done, more);
        }
        a = a + 1;
    }
    proof {
        let done = so_far(a as int, 0);
        let all = between(sources@, dests@);
        assert forall|k: (u64, u64)| #[trigger] done(k) == all(k) by {
            assert(sources@.take(a as int) =~= sources@);
        }
        lemma_same_keys(e0, x, y, done, all);
    }
}

/// The edges at vertex zero are the same.
pub open spec fn bounds_same(a: Edges, b: Edges) -> bool {
    forall|s: u64, d: u64| #![trigger a.contains_key((s, d))] s == 0 || d == 0 ==> a.contains_key((s, d)) == b.contains_key((s, d))
        && (b.contains_key((s, d)) ==> a[(s, d)] == b[(s, d)])
}

proof fn lemma_through_zero(x: Edges, s: u64, d: u64, w: int)
    requires
        x.contains_key((s, 0)),
        x.contains_key((0, d)),
        number::saturate(x[(s, 0)]@ + x[(0, d)]@) <= w,
    ensures constraints::implied(x, s, d, w),
{
    constraints::lemma_implied_edge(x, s, 0);
    constraints::lemma_implied_edge(x, 0, d);
    constraints::lemma_implied_path(x, s, 0, d, x[(s, 0)]@, x[(0, d)]@);
    constraints::lemma_implied_weaker(x, s, d, number::saturate(x[(s, 0)]@ + x[(0, d)]@), w);
}

proof fn lemma_insert_follows(x: Edges, g: Edges, s: u64, d: u64, w: Number)
    requires constraints::entails(x, g), constraints::implied(x, s, d, w@),
    ensures constraints::entails(x, g.insert((s, d), w)),
{
    let t = g.insert((s, d), w);
    assert forall|a: u64, b: u64| #![trigger t.contains_key((a, b))] t.contains_key((a, b)) implies constraints::implied(x, a, b, t[(a, b)]@) by {
        if (a, b) != (s, d) {
            constraints::lemma_implied_edge(g, a, b);
            constraints::lemma_implied_mono(x, g, a, b, g[(a, b)]@);
        }
    }
    constraints::lemma_entails_each(x, t);
}

/// A bound of a join: the looser of the two, where both sides have one.
pub open spec fn joined_bounds(r: Edges, x: Edges, y: Edges) -> bool {
    forall|s: u64, d: u64| #![trigger r.contains_key((s, d))] s == 0 || d == 0 ==> r.contains_key((s, d)) == graph_ops::join_edges(x, y).contains_key((s, d))
        && (r.contains_key((s, d)) ==> r[(s, d)] == graph_ops::join_edges(x, y)[(s, d)])
}

/// Every upper bound of a join is the larger one of the two sides, and every lower bound the
/// smaller one.
pub proof fn join_loosens_bounds(aligned: &AlignedPair, r: Edges, v: u64)
    requires joined_bounds(r, aligned.left_edges(), aligned.right_edges()),
    ensures
        bound_of(r, v, Side::Right) == bound_of(aligned.left_edges(), v, Side::Right).max_spec(bound_of(aligned.right_edges(), v, Side::Right)),
        bound_of(r, v, Side::Left) == bound_of(aligned.left_edges(), v, Side::Left).min_spec(bound_of(aligned.right_edges(), v, Side::Left)),
{
    assert(r.contains_key((0, v)) == graph_ops::join_edges(aligned.left_edges(), aligned.right_edges()).contains_key((0, v)));
    assert(r.contains_key((v, 0)) == graph_ops::join_edges(aligned.left_edges(), aligned.right_edges()).contains_key((v, 0)));
}

/// A vertex of the common space has the bounds of the vertex that it stands for.
pub proof fn alignment_keeps_bounds(perm: Seq<u64>, edges: Edges, v: u64, side: Side)
    requires
        0 < perm.len(),
        v < perm.len(),
        perm[0] == 0,
        perm[v as int] != graph_views::INVALID_VERT,
    ensures bound_of(graph_views::permuted_edges(perm, edges), v, side) == bound_of(edges, perm[v as int], side),
{}

/// The potentials of one side in the common space, relative to vertex zero. A vertex that the side
/// does not have, and vertex zero, are at zero.
pub open spec fn aligned_pots(pot: Seq<Weight>, perm: Seq<u64>) -> Seq<Weight> {
    Seq::new(perm.len(), |i: int| if i == 0 || perm[i] == graph_views::INVALID_VERT { Number { n: 0 } } else {
        Number::nearest(pot[perm[i] as int]@ - pot[0]@)
    })
}

/// The potentials of one side in the common space.
fn aligned_potentials(dbm: &SplitDBM, perm: &Vec<VertId>) -> (r: Vec<Weight>)
    requires
        dbm.wf(),
        perm@.len() >= 1,
        graph_views::perm_ok(perm@, dbm.gsize()),
    ensures
        r@ == aligned_pots(dbm.pot(), perm@),
{
    proof { dbm.g.lemma_edge_live(); }
    let mut r: Vec<Weight> = Vec::new();
    let mut i: usize = 0;
    while i < perm.len()
        invariant
            i <= perm@.len(),
            dbm.wf(),
            dbm.potential@.len() >= 1,
            graph_views::perm_ok(perm@, dbm.gsize()),
            r@.len() == i,
            forall|k: int| 0 < k < i ==> #[trigger] r@[k] == aligned_pots(dbm.pot(), perm@)[k],
        decreases perm@.len() - i,
    {
        let q: VertId = perm[i];
        if q == graph_views::INVALID_VERT {
            r.push(Number { n: 0 });
        } else {
            assert(q < dbm.potential.len());
            r.push(dbm.potential[q as usize].sub(dbm.potential[0]));
        }
        i = i + 1;
    }
    r.set(0, Number { n: 0 });
    assert(r@ =~= aligned_pots(dbm.pot(), perm@));
    r
}

impl SplitDBM {
    /// Whether every constraint of `right`, renamed by `perm`, is covered by `left`.
    pub fn is_subsumed_by(left: &SplitDBM, right: &SplitDBM, perm: &Vec<VertId>) -> (r: bool)
        requires
            left.wf(),
            right.wf(),
            perm@.len() >= right.gsize(),
            forall|x: u64, y: u64| #![trigger right.edges().contains_key((x, y))] right.edges().contains_key((x, y))
                ==> perm@[x as int] < left.gsize() && perm@[y as int] < left.gsize(),
        ensures r == subsumed(left.edges(), right.edges(), perm@),
    {
        proof { left.g.lemma_edge_live(); right.g.lemma_edge_live(); }
        let es: EdgeVector = graph_ops::all_edges(&right.g);
        let ghost re = right.edges();
        let mut k: usize = 0;
        while k < es.len()
            invariant
                k <= es@.len(),
                left.wf(),
                right.wf(),
                re == right.edges(),
                graph_ops::lists_all(es@, re),
                perm@.len() >= right.gsize(),
                left.g.gsize() >= 1,
                forall|s: u64, d: u64| #![trigger re.contains_key((s, d))] re.contains_key((s, d)) ==> s < right.gsize() && d < right.gsize(),
                forall|x: u64, y: u64| #![trigger re.contains_key((x, y))] re.contains_key((x, y))
                    ==> perm@[x as int] < left.gsize() && perm@[y as int] < left.gsize(),
                forall|q: int| #![trigger es@[q]] 0 <= q < k ==> covers(left.edges(), perm@[es@[q].0 as int], perm@[es@[q].1 as int], es@[q].2@),
            decreases es@.len() - k,
        {
            let (ox, oy, ow) = es[k];
            assert(es@[k as int] == (ox, oy, ow));
            assert(re.contains_key((ox, oy)));
            assert(ox < perm.len() && oy < perm.len());
            let x: VertId = perm[ox as usize];
            let y: VertId = perm[oy as usize];
            let mut ok: bool = false;
            if let Some(w) = left.g.lookup(x, y) {
                if w.le(ow) {
                    ok = true;
                }
            }
            if !ok {
                if let Some(wx) = left.g.lookup(x, 0) {
                    if let Some(wy) = left.g.lookup(0, y) {
                        if wx.add(wy).le(ow) {
                            ok = true;
                        }
                    }
                }
            }
            if !ok {
                assert(!covers(left.edges(), perm@[ox as int], perm@[oy as int], re[(ox, oy)]@));
                return false;
            }
            k = k + 1;
        }
        proof {
            assert forall|x: u64, y: u64| #![trigger re.contains_key((x, y))] re.contains_key((x, y))
                implies covers(left.edges(), perm@[x as int], perm@[y as int], re[(x, y)]@) by {
                assert(graph_ops::listed(es@, x, y));
                let q = choose|q: int| 0 <= q < es@.len() && (#[trigger] es@[q]).0 == x && es@[q].1 == y;
                assert(re[(es@[q].0, es@[q].1)] == es@[q].2);
            }
        }
        true
    }

    /// The join of two aligned matrices. What it says follows from either side;
    /// bounds are the looser of the two, and no common difference is loosened
    /// beyond the looser of the two.
    pub fn join(aligned: &AlignedPair) -> (r: SplitDBM)
        requires aligned.wf(),
        ensures
            r.wf(),
            r.stable(),
            r.gsize() == aligned.left_perm@.len(),
            forall|v: u64| #[trigger] r.live(v) <==> v < aligned.left_perm@.len(),
            constraints::entails(aligned.left_edges(), r.edges()),
            constraints::entails(aligned.right_edges(), r.edges()),
            joined_bounds(r.edges(), aligned.left_edges(), aligned.right_edges()),
            graph_ops::at_least_as_tight(r.edges(), graph_ops::join_edges(aligned.left_edges(), aligned.right_edges())),
            is_join(aligned.left_edges(), aligned.right_edges(), r.edges(), aligned.left_perm@.len()),
            r.pot() == aligned_pots(aligned.left.pot(), aligned.left_perm@),
    {
        let sz: usize = aligned.size();
        let pot_left: Vec<Weight> = aligned_potentials(aligned.left, &aligned.left_perm);
        let pot_right: Vec<Weight> = aligned_potentials(aligned.right, &aligned.right_perm);
        let gx = GraphPerm::new(&aligned.left_perm, &aligned.left.g);
        let gy = GraphPerm::new(&aligned.right_perm, &aligned.right.g);
        let ghost x = gx.shown();
        let ghost y = gy.shown();
        let cl: Graph = closed_side(&gx, &gy, &pot_left, sz);
        let cr: Graph = closed_side(&gy, &gx, &pot_right, sz);
        let mut g: Graph = graph_ops::graph_join(&cl, &cr);
        let ghost j = graph_ops::join_edges(x, y);
        proof {
            let jc = g.edges();
            assert forall|s: u64, d: u64| #![trigger jc.contains_key((s, d))] jc.contains_key((s, d)) implies
                constraints::implied(x, s, d, jc[(s, d)]@) && constraints::implied(y, s, d, jc[(s, d)]@) by {
                constraints::lemma_implied_edge(cl.edges(), s, d);
                constraints::lemma_implied_mono(x, cl.edges(), s, d, cl.edges()[(s, d)]@);
                constraints::lemma_implied_weaker(x, s, d, cl.edges()[(s, d)]@, jc[(s, d)]@);
                constraints::lemma_implied_edge(cr.edges(), s, d);
                constraints::lemma_implied_mono(y, cr.edges(), s, d, cr.edges()[(s, d)]@);
                constraints::lemma_implied_weaker(y, s, d, cr.edges()[(s, d)]@, jc[(s, d)]@);
            }
            constraints::lemma_entails_each(x, jc);
            constraints::lemma_entails_each(y, jc);
            assert(graph_ops::at_least_as_tight(jc, j)) by {
                assert forall|s: u64, d: u64| #![trigger j.contains_key((s, d))] j.contains_key((s, d)) implies jc.contains_key((s, d)) && jc[(s, d)]@ <= j[(s, d)]@ by {
                    assert(x.contains_key((s, d)) && y.contains_key((s, d)));
                }
            }
            assert(bounds_same(jc, j)) by {
                assert forall|s: u64, d: u64| #![trigger jc.contains_key((s, d))] s == 0 || d == 0 implies jc.contains_key((s, d)) == j.contains_key((s, d))
                    && (j.contains_key((s, d)) ==> jc[(s, d)] == j[(s, d)]) by {
                    assert(cl.edges().contains_key((s, d)) == x.contains_key((s, d)));
                    assert(cr.edges().contains_key((s, d)) == y.contains_key((s, d)));
                }
            }
        }
        let ghost jc = g.edges();
        let ub_up: Vec<VertId> = moved_bounds(&gx, &gy, Side::Right, true, sz);
        let ub_down: Vec<VertId> = moved_bounds(&gx, &gy, Side::Right, false, sz);
        let lb_down: Vec<VertId> = moved_bounds(&gx, &gy, Side::Left, true, sz);
        let lb_up: Vec<VertId> = moved_bounds(&gx, &gy, Side::Left, false, sz);
        reapply(&mut g, &gx, &gy, &lb_up, &ub_up, sz);
        let ghost g1 = g.edges();
        reapply(&mut g, &gx, &gy, &lb_down, &ub_down, sz);
        proof {
            let f = g.edges();
            let up = reapplied(x, y, true);
            let down = reapplied(x, y, false);
            assert forall|k: (u64, u64)| #[trigger] between(lb_up@, ub_up@)(k) == up(k) by {}
            assert forall|k: (u64, u64)| #[trigger] between(lb_down@, ub_down@)(k) == down(k) by {}
            lemma_same_keys(jc, x, y, between(lb_up@, ub_up@), up);
            lemma_same_keys(g1, x, y, between(lb_down@, ub_down@), down);
            assert(side_closed(x, y, cl.edges(), sz as nat) && side_closed(y, x, cr.edges(), sz as nat));
            assert(f == joined_edges(x, y, cl.edges(), cr.edges()));
            lemma_tight_trans(f, g1, jc);
            lemma_tight_trans(f, jc, j);
            assert forall|s: u64, d: u64| #![trigger f.contains_key((s, d))] s == 0 || d == 0 implies f.contains_key((s, d)) == j.contains_key((s, d))
                && (f.contains_key((s, d)) ==> f[(s, d)] == j[(s, d)]) by {
                assert(g1.contains_key((s, d)) == jc.contains_key((s, d)));
                assert(jc.contains_key((s, d)) == j.contains_key((s, d)));
            }
        }
        SplitDBM { g, potential: pot_left, unstable: VertSet::new() }
    }

    /// The widening of two aligned matrices: the constraints of the left one
    /// that the right one keeps, closed.
    pub fn widen(aligned: &AlignedPair) -> (r: SplitDBM)
        requires aligned.wf(),
        ensures
            r.wf(),
            r.stable(),
            r.gsize() == aligned.left_perm@.len(),
            forall|v: u64| #[trigger] r.live(v) <==> v < aligned.left_perm@.len(),
            constraints::entails(aligned.left_edges(), r.edges()),
            constraints::entails(aligned.right_edges(), r.edges()),
            constraints::equivalent(r.edges(), graph_ops::widen_edges(aligned.left_edges(), aligned.right_edges())),
            graph_ops::at_least_as_tight(r.edges(), graph_ops::widen_edges(aligned.left_edges(), aligned.right_edges())),
            widening_closed(aligned, r.edges()),
            r.pot() == aligned_pots(aligned.left.pot(), aligned.left_perm@),
    {
        let pot: Vec<Weight> = aligned_potentials(aligned.left, &aligned.left_perm);
        let gx = GraphPerm::new(&aligned.left_perm, &aligned.left.g);
        let gy = GraphPerm::new(&aligned.right_perm, &aligned.right.g);
        let mut unstable: VertSet = aligned.left.unstable.copy();
        let g: Graph = graph_ops::graph_widen(&gx, &gy, &mut unstable);
        let ghost w = g.edges();
        let ghost widened = g;
        let ghost unstable_set = unstable@;
        let r = SplitDBM::from_parts(g, pot, unstable);
        proof {
            let x = gx.shown();
            let y = gy.shown();
            constraints::lemma_entails_tighter(x, w);
            constraints::lemma_entails_tighter(y, w);
            constraints::lemma_entails_trans(x, w, r.edges());
            constraints::lemma_entails_trans(y, w, r.edges());
            let un = to_close(aligned);
            gx.lemma_shown();
            gy.lemma_shown();
            assert(unstable_set =~= un) by {
                assert forall|v: u64| unstable_set.contains(v) <==> un.contains(v) by {
                    if exists|d: u64| #[trigger] x.contains_key((v, d)) && !w.contains_key((v, d)) {
                        let d = choose|d: u64| #[trigger] x.contains_key((v, d)) && !w.contains_key((v, d));
                        assert(gx.shows(v));
                    }
                }
            }
            assert forall|v: u64| #[trigger] un.contains(v) && 0 < v < aligned.left_perm@.len() implies
                closed_from(graph_views::edges_without(w, 0), un, v, r.edges()) by {
                assert(widened.live(v));
            }
        }
        r
    }

    /// The meet of two aligned matrices, or nothing where they contradict each other.
    pub fn meet(aligned: &mut AlignedPair) -> (r: Option<SplitDBM>)
        requires
            old(aligned).wf(),
            old(aligned).initial_potentials@.len() == old(aligned).left_perm@.len(),
        ensures
            r is None ==> !constraints::feasible(graph_ops::meet_edges(old(aligned).left_edges(), old(aligned).right_edges())),
            r matches Some(m) ==> {
                &&& m.wf()
                &&& m.stable()
                &&& m.gsize() == old(aligned).left_perm@.len()
                &&& forall|v: u64| #[trigger] m.live(v) <==> v < old(aligned).left_perm@.len()
                &&& constraints::equivalent(m.edges(), graph_ops::meet_edges(old(aligned).left_edges(), old(aligned).right_edges()))
                &&& graph_ops::at_least_as_tight(m.edges(), graph_ops::meet_edges(old(aligned).left_edges(), old(aligned).right_edges()))
                &&& forall|v: u64| v != 0 && #[trigger] m.live(v) ==> met_closed_from(
                        graph_views::edges_without(graph_ops::meet_edges(old(aligned).left_edges(), old(aligned).right_edges()), 0),
                        old(aligned).left_edges(), old(aligned).right_edges(), v, m.edges())
                &&& bounds_carried(m.edges(), graph_ops::meet_edges(old(aligned).left_edges(), old(aligned).right_edges()))
                &&& graph_ops::solves(m.edges(), m.pot())
                &&& constraints::feasible(m.edges())
            },
            *final(aligned) == *old(aligned),
    {
        let gx = GraphPerm::new(&aligned.left_perm, &aligned.left.g);
        let gy = GraphPerm::new(&aligned.right_perm, &aligned.right.g);
        let (mut g, _closed) = graph_ops::graph_meet(&gx, &gy);
        let ghost m = g.edges();
        let mut scratch = ScratchSpace::new();
        let mut pot: Vec<Weight> = aligned.initial_potentials.clone();
        if !graph_ops::select_potentials(&mut scratch, &g, &mut pot) {
            return None;
        }
        let sg = SubGraph::new(&g, 0);
        let ghost sg_shows = |v: u64| sg.shows(v);
        let delta: EdgeVector = graph_ops::close_after_meet(&mut scratch, &sg, &pot, &gx, &gy);
        proof {
            assert forall|k: int| 0 <= k < delta@.len() implies (#[trigger] delta@[k]).0 != 0 && delta@[k].1 != 0 && g.live(delta@[k].0) && g.live(delta@[k].1) by {
                assert(sg.shows(delta@[k].0) && sg.shows(delta@[k].1));
            }
            lemma_sub_tightens(m, 0, delta@);
            graph_ops::lemma_tightened(m, delta@);
        }
        graph_ops::apply_delta(&mut g, &delta);
        let ghost m1 = g.edges();
        let rest: EdgeVector = graph_ops::close_after_assign(&mut scratch, &g, &pot, 0);
        proof {
            graph_ops::lemma_tightened(m1, rest@);
            lemma_zero_kept(m, delta@);
            lemma_bounds_carried(m, m1, rest@);
        }
        graph_ops::apply_delta(&mut g, &rest);
        proof {
            constraints::lemma_equivalent_trans(g.edges(), m1, m);
            lemma_tight_trans(g.edges(), m1, m);
        }
        let ghost closed = g.edges();
        if !graph_ops::settle(&g, &mut pot) {
            proof {
                if constraints::feasible(m) {
                    let x = choose|x: constraints::Val| constraints::tame(x) && #[trigger] constraints::models(m, x);
                    constraints::lemma_entails_use(m, closed, x);
                }
            }
            return None;
        }
        proof {
            let inner = graph_views::edges_without(m, 0);
            let l = gx.shown();
            let r = gy.shown();
            assert(graph_ops::coloured(inner, l, r)) by {
                assert forall|s: u64, d: u64| #![trigger inner.contains_key((s, d))] inner.contains_key((s, d)) implies graph_ops::colour(inner, l, r, s, d) != 0 by {
                    assert(m.contains_key((s, d)));
                }
            }
            assert forall|v: u64| v != 0 && #[trigger] g.live(v) implies met_closed_from(inner, l, r, v, closed) by {
                assert(sg_shows(v));
                assert(graph_ops::met_from(inner, l, r, delta@, v));
                let best = choose|best: Seq<Option<Weight>>| #[trigger] graph_ops::alternates(inner, l, r, v, best)
                    && forall|d: u64| #![trigger best[d as int]] d < best.len() && best[d as int] is Some ==> graph_ops::provides(inner, delta@, v, d, best[d as int].unwrap()@);
                lemma_held(m, delta@, v, best, closed);
            }
        }
        Some(SplitDBM { g, potential: pot, unstable: VertSet::new() })
    }

    pub fn copy(&self) -> (r: SplitDBM)
        requires self.wf(),
        ensures
            r.wf(),
            r.edges() == self.edges(),
            r.gsize() == self.gsize(),
            r.freed() == self.freed(),
            r.pot() == self.pot(),
            r.stable() == self.stable(),
            forall|v: u64| #[trigger] r.live(v) == self.live(v),
    {
        let r = SplitDBM { g: self.g.copy(), potential: self.potential.clone(), unstable: self.unstable.copy() };
        assert(r.potential@ =~= self.potential@);
        r
    }
}

impl Default for SplitDBM {
    fn default() -> (r: Self)
        ensures r.wf(), r.edges() == Edges::empty(), r.gsize() == 1,
    {
        Self::new()
    }
}

}
