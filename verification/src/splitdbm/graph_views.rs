//! Views that present a graph differently without copying it.
use vstd::prelude::*;
use crate::splitdbm::graph;
use crate::splitdbm::graph::{AdaptGraph, EdgeRef, Edges};
use crate::splitdbm::{VertId, Weight};

verus! {

/// Read access to a weighted graph, as the graph algorithms need it.
pub trait ReadableGraph {
    /// Consistency of the representation.
    spec fn ok(&self) -> bool;

    /// The number of vertex slots.
    spec fn slots(&self) -> nat;

    /// Whether the view shows a vertex.
    spec fn shows(&self, v: u64) -> bool;

    /// The weighted edges that the view shows.
    spec fn shown(&self) -> Edges;

    /// Shown edges join shown vertices, and shown vertices have slots.
    proof fn lemma_shown(&self)
        requires self.ok(),
        ensures
            forall|s: u64, d: u64| #![trigger self.shown().contains_key((s, d))]
                self.shown().contains_key((s, d)) ==> self.shows(s) && self.shows(d),
            forall|v: u64| #![trigger self.shows(v)] self.shows(v) ==> v < self.slots(),
    ;

    fn size(&self) -> (r: usize)
        requires self.ok(),
        ensures r == self.slots(),
    ;

    fn elem(&self, s: VertId, d: VertId) -> (r: bool)
        requires self.ok(), s < self.slots(), d < self.slots(),
        ensures r == self.shown().contains_key((s, d)),
    ;

    fn edge_val(&self, s: VertId, d: VertId) -> (r: Weight)
        requires self.ok(), self.shown().contains_key((s, d)),
        ensures r == self.shown()[(s, d)],
    ;

    fn lookup(&self, s: VertId, d: VertId) -> (r: Option<Weight>)
        requires self.ok(), s < self.slots(), d < self.slots(),
        ensures r == (if self.shown().contains_key((s, d)) { Some(self.shown()[(s, d)]) } else { None }),
    ;

    fn verts(&self) -> (r: Vec<VertId>)
        requires self.ok(),
        ensures
            r@.no_duplicates(),
            forall|v: u64| #[trigger] r@.contains(v) <==> self.shows(v),
    ;

    fn succs(&self, v: VertId) -> (r: Vec<VertId>)
        requires self.ok(), self.shows(v),
        ensures graph::lists_verts(r@, self.shown(), v, true),
    ;

    fn preds(&self, v: VertId) -> (r: Vec<VertId>)
        requires self.ok(), self.shows(v),
        ensures graph::lists_verts(r@, self.shown(), v, false),
    ;

    fn e_succs(&self, v: VertId) -> (r: Vec<EdgeRef>)
        requires self.ok(), self.shows(v),
        ensures graph::lists_edges(r@, self.shown(), v, true),
    ;

    fn e_preds(&self, v: VertId) -> (r: Vec<EdgeRef>)
        requires self.ok(), self.shows(v),
        ensures graph::lists_edges(r@, self.shown(), v, false),
    ;
}

impl ReadableGraph for AdaptGraph {
    open spec fn ok(&self) -> bool {
        self.wf()
    }

    open spec fn slots(&self) -> nat {
        self.gsize()
    }

    open spec fn shows(&self, v: u64) -> bool {
        self.live(v)
    }

    open spec fn shown(&self) -> Edges {
        self.edges()
    }

    proof fn lemma_shown(&self) {
        self.lemma_edge_live();
    }

    fn size(&self) -> (r: usize) {
        AdaptGraph::size(self)
    }

    fn elem(&self, s: VertId, d: VertId) -> (r: bool) {
        AdaptGraph::elem(self, s, d)
    }

    fn edge_val(&self, s: VertId, d: VertId) -> (r: Weight) {
        AdaptGraph::edge_val(self, s, d)
    }

    fn lookup(&self, s: VertId, d: VertId) -> (r: Option<Weight>) {
        AdaptGraph::lookup(self, s, d)
    }

    fn verts(&self) -> (r: Vec<VertId>) {
        AdaptGraph::verts(self)
    }

    fn succs(&self, v: VertId) -> (r: Vec<VertId>) {
        proof { self.lemma_edge_live(); }
        AdaptGraph::succs(self, v)
    }

    fn preds(&self, v: VertId) -> (r: Vec<VertId>) {
        proof { self.lemma_edge_live(); }
        AdaptGraph::preds(self, v)
    }

    fn e_succs(&self, v: VertId) -> (r: Vec<EdgeRef>) {
        proof { self.lemma_edge_live(); }
        AdaptGraph::e_succs(self, v)
    }

    fn e_preds(&self, v: VertId) -> (r: Vec<EdgeRef>) {
        proof { self.lemma_edge_live(); }
        AdaptGraph::e_preds(self, v)
    }
}

/// Marks a vertex of a view that the graph does not have.
pub const INVALID_VERT: VertId = 0xffff_ffff_ffff_ffff;

/// Whether `perm` maps view vertices to distinct vertices of a graph with `n`
/// slots, or to none.
pub open spec fn perm_ok(perm: Seq<u64>, n: nat) -> bool {
    &&& forall|i: int| 0 <= i < perm.len() ==> #[trigger] perm[i] == INVALID_VERT || perm[i] < n
    &&& forall|i: int, j: int| 0 <= i < j < perm.len() && #[trigger] perm[i] != INVALID_VERT ==> perm[i] != #[trigger] perm[j]
}

/// The edges of a graph, renamed by a permutation.
pub open spec fn permuted_edges(perm: Seq<u64>, edges: Edges) -> Edges {
    Map::new(
        |e: (u64, u64)| e.0 < perm.len() && e.1 < perm.len() && perm[e.0 as int] != INVALID_VERT
            && perm[e.1 as int] != INVALID_VERT && edges.contains_key((perm[e.0 as int], perm[e.1 as int])),
        |e: (u64, u64)| edges[(perm[e.0 as int], perm[e.1 as int])],
    )
}

/// A graph under a renaming of its vertices: `perm[external]` is the vertex of
/// the graph, `inv[internal]` the vertex of the view.
pub struct GraphPerm<'a> {
    g: &'a AdaptGraph,
    perm: Vec<VertId>,
    inv: Vec<VertId>,
}

impl<'a> GraphPerm<'a> {
    pub closed spec fn graph(&self) -> AdaptGraph {
        *self.g
    }

    pub closed spec fn renaming(&self) -> Seq<u64> {
        self.perm@
    }

    closed spec fn inverse_ok(&self) -> bool {
        &&& self.inv@.len() == self.g.gsize()
        &&& forall|p: u64| #![trigger self.inv@[p as int]] p < self.inv@.len() ==> {
            let x = self.inv@[p as int];
            if x == INVALID_VERT {
                !self.perm@.contains(p)
            } else {
                x < self.perm@.len() && self.perm@[x as int] == p
            }
        }
    }

    pub fn new(perm: &Vec<VertId>, g: &'a AdaptGraph) -> (r: Self)
        requires
            g.wf(),
            perm_ok(perm@, g.gsize()),
        ensures
            r.ok(),
            r.graph() == *g,
            r.renaming() == perm@,
    {
        let n: usize = g.size();
        let mut inv: Vec<VertId> = Vec::new();
        let mut k: usize = 0;
        while k < n
            invariant
                k <= n,
                inv@.len() == k,
                forall|p: int| 0 <= p < k ==> #[trigger] inv@[p] == INVALID_VERT,
            decreases n - k,
        {
            inv.push(INVALID_VERT);
            k = k + 1;
        }
        let mut vi: usize = 0;
        while vi < perm.len()
            invariant
                vi <= perm@.len(),
                inv@.len() == n,
                n == g.gsize(),
                perm_ok(perm@, n as nat),
                forall|p: u64| #![trigger inv@[p as int]] p < n ==> {
                    let x = inv@[p as int];
                    if x == INVALID_VERT {
                        !perm@.take(vi as int).contains(p)
                    } else {
                        x < vi && perm@[x as int] == p
                    }
                },
            decreases perm@.len() - vi,
        {
            let pi: VertId = perm[vi];
            let ghost before = inv@;
            assert(vi < perm.len());
            assert(perm@.take(vi + 1) =~= perm@.take(vi as int).push(pi));
            if pi != INVALID_VERT {
                inv.set(pi as usize, vi as VertId);
            }
            proof {
                assert forall|p: u64| #![trigger inv@[p as int]] p < n implies ({
                    let x = inv@[p as int];
                    if x == INVALID_VERT {
                        !perm@.take(vi + 1).contains(p)
                    } else {
                        x < vi + 1 && perm@[x as int] == p
                    }
                }) by {
                    if p == pi {
                    } else {
                        assert(before[p as int] == inv@[p as int]);
                        if inv@[p as int] == INVALID_VERT && perm@.take(vi + 1).contains(p) {
                            lemma_push_contains(perm@.take(vi as int), pi);
                        }
                    }
                }
            }
            vi = vi + 1;
        }
        proof {
            assert(perm@.take(perm@.len() as int) =~= perm@);
        }
        let r = GraphPerm { g, perm: perm.clone(), inv };
        assert(r.perm@ =~= perm@);
        r
    }

    /// The vertex of the graph, if the view vertex has one.
    fn perm_vert(&self, v: VertId) -> (r: Option<VertId>)
        requires v < self.renaming().len(),
        ensures r == (if self.renaming()[v as int] == INVALID_VERT { None } else { Some(self.renaming()[v as int]) }),
    {
        assert(v < self.perm.len());
        let pv: VertId = self.perm[v as usize];
        if pv == INVALID_VERT { None } else { Some(pv) }
    }

    /// View vertices of graph vertices; those outside the view are skipped.
    fn map_verts(&self, v: VertId, vs: Vec<VertId>, out: bool) -> (r: Vec<VertId>)
        requires
            self.ok(),
            v < self.renaming().len(),
            self.renaming()[v as int] != INVALID_VERT,
            graph::lists_verts(vs@, self.graph().edges(), self.renaming()[v as int], out),
        ensures graph::lists_verts(r@, self.shown(), v, out),
    {
        let ghost pv = self.perm@[v as int];
        let ghost edges = self.g.edges();
        proof { self.g.lemma_edge_live(); }
        let mut r: Vec<VertId> = Vec::new();
        let mut i: usize = 0;
        while i < vs.len()
            invariant
                i <= vs@.len(),
                self.ok(),
                pv == self.perm@[v as int],
                pv != INVALID_VERT,
                v < self.perm@.len(),
                edges == self.g.edges(),
                graph::lists_verts(vs@, edges, pv, out),
                forall|s: u64, d: u64| #![trigger edges.contains_key((s, d))]
                    edges.contains_key((s, d)) ==> self.g.live(s) && self.g.live(d),
                forall|x: u64| #![trigger self.g.live(x)] self.g.live(x) ==> x < self.g.gsize(),
                r@.no_duplicates(),
                forall|u: u64| #[trigger] r@.contains(u) <==> u < self.perm@.len() && self.perm@[u as int] != INVALID_VERT
                    && vs@.take(i as int).contains(self.perm@[u as int]),
            decreases vs@.len() - i,
        {
            let d: VertId = vs[i];
            let ghost before = r@;
            proof {
                assert(vs@.contains(d));
                assert(edges.contains_key(graph::edge_key(pv, d, out)));
                assert(edges.contains_key((graph::edge_key(pv, d, out).0, graph::edge_key(pv, d, out).1)));
                assert(self.g.live(d));
                assert(vs@.take(i + 1) =~= vs@.take(i as int).push(d));
                assert(!vs@.take(i as int).contains(d)) by {
                    if vs@.take(i as int).contains(d) {
                        let j = choose|j: int| 0 <= j < i && vs@.take(i as int)[j] == d;
                        assert(vs@[j] == vs@[i as int]);
                    }
                }
                assert(d < self.inv.len());
            }
            let mapped: VertId = self.inv[d as usize];
            if mapped != INVALID_VERT {
                r.push(mapped);
                proof {
                    assert(self.perm@[mapped as int] == d);
                    assert(!before.contains(mapped));
                }
            }
            proof {
                lemma_push_contains(vs@.take(i as int), d);
                if mapped != INVALID_VERT { lemma_push_contains(before, mapped); }
                assert forall|u: u64| #[trigger] r@.contains(u) <==> u < self.perm@.len() && self.perm@[u as int] != INVALID_VERT
                    && vs@.take(i + 1).contains(self.perm@[u as int]) by {
                    if u < self.perm@.len() && self.perm@[u as int] == d && d != INVALID_VERT {
                        assert(self.perm@.contains(d));
                        assert(mapped != INVALID_VERT);
                        assert(self.perm@[mapped as int] == d);
                        if u < mapped { assert(self.perm@[u as int] != self.perm@[mapped as int]); }
                        if mapped < u { assert(self.perm@[mapped as int] != self.perm@[u as int]); }
                        assert(u == mapped);
                    }
                }
            }
            i = i + 1;
        }
        proof {
            assert(vs@.take(vs@.len() as int) =~= vs@);
            let sh = self.shown();
            assert forall|u: u64| #![trigger sh.contains_key(graph::edge_key(v, u, out))] #![trigger r@.contains(u)]
                sh.contains_key(graph::edge_key(v, u, out)) <==> r@.contains(u) by {
                if u < self.perm@.len() && self.perm@[u as int] != INVALID_VERT {
                    let pu = self.perm@[u as int];
                    assert(sh.contains_key(graph::edge_key(v, u, out)) == edges.contains_key(graph::edge_key(pv, pu, out)));
                    assert(edges.contains_key(graph::edge_key(pv, pu, out)) <==> vs@.contains(pu));
                }
            }
        }
        r
    }

    /// The listed neighbours with their weights.
    fn map_edges(&self, v: VertId, vs: Vec<VertId>, out: bool) -> (r: Vec<EdgeRef>)
        requires
            self.ok(),
            self.shows(v),
            graph::lists_verts(vs@, self.shown(), v, out),
        ensures graph::lists_edges(r@, self.shown(), v, out),
    {
        let mut r: Vec<EdgeRef> = Vec::new();
        let mut i: usize = 0;
        while i < vs.len()
            invariant
                i <= vs@.len(),
                self.ok(),
                graph::lists_verts(vs@, self.shown(), v, out),
                r@.len() == i,
                forall|j: int| #![trigger r@[j]] 0 <= j < i ==> r@[j].vert == vs@[j]
                    && self.shown()[graph::edge_key(v, vs@[j], out)] == r@[j].val,
            decreases vs@.len() - i,
        {
            assert(vs@.contains(vs@[i as int]));
            assert(self.shown().contains_key(graph::edge_key(v, vs@[i as int], out)));
            let val: Weight = if out { self.edge_val(v, vs[i]) } else { self.edge_val(vs[i], v) };
            r.push(EdgeRef { vert: vs[i], val });
            i = i + 1;
        }
        proof { graph::lemma_listed(r@, vs@, self.shown(), v, out); }
        r
    }

    fn no_verts(&self, v: VertId, out: bool) -> (r: Vec<VertId>)
        requires self.ok(), v < self.renaming().len(), self.renaming()[v as int] == INVALID_VERT,
        ensures graph::lists_verts(r@, self.shown(), v, out),
    {
        let r: Vec<VertId> = Vec::new();
        assert forall|u: u64| #![trigger self.shown().contains_key(graph::edge_key(v, u, out))]
            !self.shown().contains_key(graph::edge_key(v, u, out)) by {}
        r
    }
}

/// Membership after a push.
pub proof fn lemma_push_contains<A>(s: Seq<A>, x: A)
    ensures forall|y: A| #[trigger] s.push(x).contains(y) <==> s.contains(y) || y == x,
{
    assert forall|y: A| #[trigger] s.push(x).contains(y) <==> s.contains(y) || y == x by {
        if s.contains(y) {
            let i = choose|i: int| 0 <= i < s.len() && s[i] == y;
            assert(s.push(x)[i] == y);
        }
        if y == x { assert(s.push(x)[s.len() as int] == x); }
    }
}

impl<'a> ReadableGraph for GraphPerm<'a> {
    closed spec fn ok(&self) -> bool {
        self.g.wf() && perm_ok(self.perm@, self.g.gsize()) && self.inverse_ok()
    }

    open spec fn slots(&self) -> nat {
        self.renaming().len()
    }

    open spec fn shows(&self, v: u64) -> bool {
        v < self.renaming().len()
    }

    open spec fn shown(&self) -> Edges {
        permuted_edges(self.renaming(), self.graph().edges())
    }

    proof fn lemma_shown(&self) {
    }

    fn size(&self) -> (r: usize) {
        self.perm.len()
    }

    fn elem(&self, x: VertId, y: VertId) -> (r: bool) {
        assert(x < self.perm.len() && y < self.perm.len());
        let px: VertId = self.perm[x as usize];
        let py: VertId = self.perm[y as usize];
        if px == INVALID_VERT || py == INVALID_VERT {
            return false;
        }
        self.g.elem(px, py)
    }

    fn edge_val(&self, x: VertId, y: VertId) -> (r: Weight) {
        assert(x < self.perm.len() && y < self.perm.len());
        self.g.edge_val(self.perm[x as usize], self.perm[y as usize])
    }

    fn lookup(&self, x: VertId, y: VertId) -> (r: Option<Weight>) {
        assert(x < self.perm.len() && y < self.perm.len());
        let px: VertId = self.perm[x as usize];
        let py: VertId = self.perm[y as usize];
        if px == INVALID_VERT || py == INVALID_VERT {
            return None;
        }
        self.g.lookup(px, py)
    }

    fn verts(&self) -> (r: Vec<VertId>) {
        let mut r: Vec<VertId> = Vec::new();
        let n: usize = self.perm.len();
        let mut i: usize = 0;
        while i < n
            invariant
                i <= n,
                r@.len() == i,
                forall|j: int| 0 <= j < i ==> #[trigger] r@[j] == j,
            decreases n - i,
        {
            r.push(i as VertId);
            i = i + 1;
        }
        assert forall|v: u64| #[trigger] r@.contains(v) <==> self.shows(v) by {
            if v < n { assert(r@[v as int] == v); }
        }
        r
    }

    fn succs(&self, v: VertId) -> (r: Vec<VertId>) {
        match self.perm_vert(v) {
            Some(pv) => self.map_verts(v, self.g.succs(pv), true),
            None => self.no_verts(v, true),
        }
    }

    fn preds(&self, v: VertId) -> (r: Vec<VertId>) {
        match self.perm_vert(v) {
            Some(pv) => self.map_verts(v, self.g.preds(pv), false),
            None => self.no_verts(v, false),
        }
    }

    fn e_succs(&self, v: VertId) -> (r: Vec<EdgeRef>) {
        self.map_edges(v, self.succs(v), true)
    }

    fn e_preds(&self, v: VertId) -> (r: Vec<EdgeRef>) {
        self.map_edges(v, self.preds(v), false)
    }
}

/// The edges that avoid a vertex.
pub open spec fn edges_without(edges: Edges, v_ex: u64) -> Edges {
    edges.remove_keys(Set::new(|e: (u64, u64)| e.0 == v_ex || e.1 == v_ex))
}

/// A graph with one vertex hidden.
pub struct SubGraph<'a> {
    g: &'a AdaptGraph,
    v_ex: VertId,
}

impl<'a> SubGraph<'a> {
    pub closed spec fn graph(&self) -> AdaptGraph {
        *self.g
    }

    pub closed spec fn hidden(&self) -> u64 {
        self.v_ex
    }

    pub fn new(g: &'a AdaptGraph, v_ex: VertId) -> (r: Self)
        ensures r.graph() == *g, r.hidden() == v_ex,
    {
        SubGraph { g, v_ex }
    }

    fn visible_verts(&self, v: VertId, vs: Vec<VertId>, out: bool) -> (r: Vec<VertId>)
        requires
            v != self.hidden(),
            graph::lists_verts(vs@, self.graph().edges(), v, out),
        ensures graph::lists_verts(r@, edges_without(self.graph().edges(), self.hidden()), v, out),
    {
        let ghost edges = self.g.edges();
        let mut r: Vec<VertId> = Vec::new();
        let mut i: usize = 0;
        while i < vs.len()
            invariant
                i <= vs@.len(),
                vs@.no_duplicates(),
                r@.no_duplicates(),
                forall|u: u64| #[trigger] r@.contains(u) <==> u != self.v_ex && vs@.take(i as int).contains(u),
            decreases vs@.len() - i,
        {
            let d: VertId = vs[i];
            proof {
                assert(vs@.take(i + 1) =~= vs@.take(i as int).push(d));
                lemma_push_contains(vs@.take(i as int), d);
                lemma_push_contains(r@, d);
                assert(!vs@.take(i as int).contains(d)) by {
                    if vs@.take(i as int).contains(d) {
                        let j = choose|j: int| 0 <= j < i && vs@.take(i as int)[j] == d;
                        assert(vs@[j] == vs@[i as int]);
                    }
                }
            }
            assert(!r@.contains(d));
            if d != self.v_ex {
                r.push(d);
            }
            i = i + 1;
        }
        proof {
            assert(vs@.take(vs@.len() as int) =~= vs@);
            let sh = edges_without(edges, self.v_ex);
            assert forall|u: u64| #![trigger sh.contains_key(graph::edge_key(v, u, out))] #![trigger r@.contains(u)]
                sh.contains_key(graph::edge_key(v, u, out)) <==> r@.contains(u) by {
                assert(edges.contains_key(graph::edge_key(v, u, out)) <==> vs@.contains(u));
            }
        }
        r
    }

    fn visible_edges(&self, v: VertId, vs: Vec<VertId>, out: bool) -> (r: Vec<EdgeRef>)
        requires
            self.ok(),
            self.shows(v),
            graph::lists_verts(vs@, self.shown(), v, out),
        ensures graph::lists_edges(r@, self.shown(), v, out),
    {
        let mut r: Vec<EdgeRef> = Vec::new();
        let mut i: usize = 0;
        while i < vs.len()
            invariant
                i <= vs@.len(),
                self.ok(),
                graph::lists_verts(vs@, self.shown(), v, out),
                r@.len() == i,
                forall|j: int| #![trigger r@[j]] 0 <= j < i ==> r@[j].vert == vs@[j]
                    && self.shown()[graph::edge_key(v, vs@[j], out)] == r@[j].val,
            decreases vs@.len() - i,
        {
            assert(vs@.contains(vs@[i as int]));
            assert(self.shown().contains_key(graph::edge_key(v, vs@[i as int], out)));
            let val: Weight = if out { self.edge_val(v, vs[i]) } else { self.edge_val(vs[i], v) };
            r.push(EdgeRef { vert: vs[i], val });
            i = i + 1;
        }
        proof { graph::lemma_listed(r@, vs@, self.shown(), v, out); }
        r
    }
}

impl<'a> ReadableGraph for SubGraph<'a> {
    open spec fn ok(&self) -> bool {
        self.graph().wf()
    }

    open spec fn slots(&self) -> nat {
        self.graph().gsize()
    }

    open spec fn shows(&self, v: u64) -> bool {
        v != self.hidden() && self.graph().live(v)
    }

    open spec fn shown(&self) -> Edges {
        edges_without(self.graph().edges(), self.hidden())
    }

    proof fn lemma_shown(&self) {
        self.g.lemma_edge_live();
        assert forall|s: u64, d: u64| #![trigger self.shown().contains_key((s, d))]
            self.shown().contains_key((s, d)) implies self.shows(s) && self.shows(d) by {
            assert(self.g.edges().contains_key((s, d)));
        }
    }

    fn size(&self) -> (r: usize) {
        self.g.size()
    }

    fn elem(&self, x: VertId, y: VertId) -> (r: bool) {
        x != self.v_ex && y != self.v_ex && self.g.elem(x, y)
    }

    fn edge_val(&self, x: VertId, y: VertId) -> (r: Weight) {
        self.g.edge_val(x, y)
    }

    fn lookup(&self, x: VertId, y: VertId) -> (r: Option<Weight>) {
        if x == self.v_ex || y == self.v_ex {
            return None;
        }
        self.g.lookup(x, y)
    }

    fn verts(&self) -> (r: Vec<VertId>) {
        let vs: Vec<VertId> = self.g.verts();
        let mut r: Vec<VertId> = Vec::new();
        let mut i: usize = 0;
        while i < vs.len()
            invariant
                i <= vs@.len(),
                vs@.no_duplicates(),
                r@.no_duplicates(),
                forall|u: u64| #[trigger] r@.contains(u) <==> u != self.v_ex && vs@.take(i as int).contains(u),
            decreases vs@.len() - i,
        {
            let d: VertId = vs[i];
            proof {
                assert(vs@.take(i + 1) =~= vs@.take(i as int).push(d));
                lemma_push_contains(vs@.take(i as int), d);
                lemma_push_contains(r@, d);
                assert(!vs@.take(i as int).contains(d)) by {
                    if vs@.take(i as int).contains(d) {
                        let j = choose|j: int| 0 <= j < i && vs@.take(i as int)[j] == d;
                        assert(vs@[j] == vs@[i as int]);
                    }
                }
            }
            assert(!r@.contains(d));
            if d != self.v_ex {
                r.push(d);
            }
            i = i + 1;
        }
        assert(vs@.take(vs@.len() as int) =~= vs@);
        r
    }

    fn succs(&self, v: VertId) -> (r: Vec<VertId>) {
        proof { self.g.lemma_edge_live(); }
        self.visible_verts(v, self.g.succs(v), true)
    }

    fn preds(&self, v: VertId) -> (r: Vec<VertId>) {
        proof { self.g.lemma_edge_live(); }
        self.visible_verts(v, self.g.preds(v), false)
    }

    fn e_succs(&self, v: VertId) -> (r: Vec<EdgeRef>) {
        self.visible_edges(v, self.succs(v), true)
    }

    fn e_preds(&self, v: VertId) -> (r: Vec<EdgeRef>) {
        self.visible_edges(v, self.preds(v), false)
    }
}

/// The edges turned around.
pub open spec fn reversed_edges(edges: Edges) -> Edges {
    Map::new(|e: (u64, u64)| edges.contains_key((e.1, e.0)), |e: (u64, u64)| edges[(e.1, e.0)])
}

/// A graph with its edges turned around.
pub struct GraphRev<'a, G: ReadableGraph> {
    g: &'a G,
}

impl<'a, G: ReadableGraph> GraphRev<'a, G> {
    pub closed spec fn graph(&self) -> G {
        *self.g
    }

    pub fn new(g: &'a G) -> (r: Self)
        ensures r.graph() == *g,
    {
        GraphRev { g }
    }
}

proof fn lemma_reversed_verts(r: Seq<u64>, edges: Edges, v: u64, out: bool)
    requires graph::lists_verts(r, edges, v, !out),
    ensures graph::lists_verts(r, reversed_edges(edges), v, out),
{
    let rev = reversed_edges(edges);
    assert forall|u: u64| #![trigger rev.contains_key(graph::edge_key(v, u, out))] #![trigger r.contains(u)]
        rev.contains_key(graph::edge_key(v, u, out)) <==> r.contains(u) by {
        assert(edges.contains_key(graph::edge_key(v, u, !out)) <==> r.contains(u));
    }
}

proof fn lemma_reversed_edges(r: Seq<EdgeRef>, edges: Edges, v: u64, out: bool)
    requires graph::lists_edges(r, edges, v, !out),
    ensures graph::lists_edges(r, reversed_edges(edges), v, out),
{
    let rev = reversed_edges(edges);
    assert forall|u: u64| #![trigger rev.contains_key(graph::edge_key(v, u, out))]
        rev.contains_key(graph::edge_key(v, u, out)) implies exists|i: int| 0 <= i < r.len() && (#[trigger] r[i]).vert == u by {
        assert(edges.contains_key(graph::edge_key(v, u, !out)));
    }
    assert forall|i: int| #![trigger r[i]] 0 <= i < r.len() implies rev.contains_key(graph::edge_key(v, r[i].vert, out))
        && rev[graph::edge_key(v, r[i].vert, out)] == r[i].val by {
        assert(edges.contains_key(graph::edge_key(v, r[i].vert, !out)));
    }
}

impl<'a, G: ReadableGraph> ReadableGraph for GraphRev<'a, G> {
    open spec fn ok(&self) -> bool {
        self.graph().ok()
    }

    open spec fn slots(&self) -> nat {
        self.graph().slots()
    }

    open spec fn shows(&self, v: u64) -> bool {
        self.graph().shows(v)
    }

    open spec fn shown(&self) -> Edges {
        reversed_edges(self.graph().shown())
    }

    proof fn lemma_shown(&self) {
        self.g.lemma_shown();
        assert forall|s: u64, d: u64| #![trigger self.shown().contains_key((s, d))]
            self.shown().contains_key((s, d)) implies self.shows(s) && self.shows(d) by {
            assert(self.g.shown().contains_key((d, s)));
        }
    }

    fn size(&self) -> (r: usize) {
        self.g.size()
    }

    fn elem(&self, x: VertId, y: VertId) -> (r: bool) {
        self.g.elem(y, x)
    }

    fn edge_val(&self, x: VertId, y: VertId) -> (r: Weight) {
        self.g.edge_val(y, x)
    }

    fn lookup(&self, x: VertId, y: VertId) -> (r: Option<Weight>) {
        self.g.lookup(y, x)
    }

    fn verts(&self) -> (r: Vec<VertId>) {
        self.g.verts()
    }

    fn succs(&self, v: VertId) -> (r: Vec<VertId>) {
        let r: Vec<VertId> = self.g.preds(v);
        proof { lemma_reversed_verts(r@, self.g.shown(), v, true); }
        r
    }

    fn preds(&self, v: VertId) -> (r: Vec<VertId>) {
        let r: Vec<VertId> = self.g.succs(v);
        proof { lemma_reversed_verts(r@, self.g.shown(), v, false); }
        r
    }

    fn e_succs(&self, v: VertId) -> (r: Vec<EdgeRef>) {
        let r: Vec<EdgeRef> = self.g.e_preds(v);
        proof { lemma_reversed_edges(r@, self.g.shown(), v, true); }
        r
    }

    fn e_preds(&self, v: VertId) -> (r: Vec<EdgeRef>) {
        let r: Vec<EdgeRef> = self.g.e_succs(v);
        proof { lemma_reversed_edges(r@, self.g.shown(), v, false); }
        r
    }
}

}
