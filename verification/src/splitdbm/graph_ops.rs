//! Graph algorithms: join, meet, widening, closure and potentials.
use vstd::prelude::*;
use crate::arith::number;
use crate::arith::number::Number;
use crate::splitdbm::constraints;
use crate::splitdbm::constraints::Val;
use crate::splitdbm::graph;
use crate::splitdbm::graph::{EdgeRef, Edges, Graph};
use crate::splitdbm::graph_views;
use crate::splitdbm::graph_views::{GraphRev, ReadableGraph};
use crate::splitdbm::heap::WeightHeap;
use crate::splitdbm::{VertId, VertSet, Weight};

verus! {

/// A batch of edge updates: source, destination and weight.
pub type EdgeVector = Vec<(VertId, VertId, Weight)>;

/// Reusable temporary storage of the graph algorithms.
#[derive(Debug)]
pub struct ScratchSpace {
    best: Vec<Option<Weight>>,
    dists: Vec<Weight>,
    costs: Vec<Weight>,
    marks: Vec<u8>,
}

impl ScratchSpace {
    pub fn new() -> (r: Self)
        ensures r.fits(0),
    {
        ScratchSpace { best: Vec::new(), dists: Vec::new(), costs: Vec::new(), marks: Vec::new() }
    }

    /// Whether there is room for `n` vertices.
    pub closed spec fn fits(&self, n: nat) -> bool {
        self.best@.len() >= n && self.dists@.len() >= n && self.costs@.len() >= n && self.marks@.len() >= n
    }

    /// Clears the storage and makes room for `sz` vertices.
    fn grow(&mut self, sz: usize)
        ensures
            final(self).best@ == Seq::new(sz as nat, |i: int| None::<Weight>),
            final(self).dists@ == Seq::new(sz as nat, |i: int| Number { n: 0 }),
            final(self).costs@ == Seq::new(sz as nat, |i: int| Number { n: 0 }),
            final(self).marks@ == Seq::new(sz as nat, |i: int| 0u8),
    {
        self.best.clear();
        self.dists.clear();
        self.costs.clear();
        self.marks.clear();
        let mut i: usize = 0;
        while i < sz
            invariant
                i <= sz,
                self.best@ == Seq::new(i as nat, |i: int| None::<Weight>),
                self.dists@ == Seq::new(i as nat, |i: int| Number { n: 0 }),
                self.costs@ == Seq::new(i as nat, |i: int| Number { n: 0 }),
                self.marks@ == Seq::new(i as nat, |i: int| 0u8),
            decreases sz - i,
        {
            self.best.push(None);
            self.dists.push(Number { n: 0 });
            self.costs.push(Number { n: 0 });
            self.marks.push(0);
            i = i + 1;
            assert(self.best@ =~= Seq::new(i as nat, |i: int| None::<Weight>));
            assert(self.dists@ =~= Seq::new(i as nat, |i: int| Number { n: 0 }));
            assert(self.costs@ =~= Seq::new(i as nat, |i: int| Number { n: 0 }));
            assert(self.marks@ =~= Seq::new(i as nat, |i: int| 0u8));
        }
        assert(self.best@ =~= Seq::new(sz as nat, |i: int| None::<Weight>));
        assert(self.dists@ =~= Seq::new(sz as nat, |i: int| Number { n: 0 }));
        assert(self.costs@ =~= Seq::new(sz as nat, |i: int| Number { n: 0 }));
        assert(self.marks@ =~= Seq::new(sz as nat, |i: int| 0u8));
    }
}

impl Default for ScratchSpace {
    fn default() -> (r: Self)
        ensures r.fits(0),
    {
        Self::new()
    }
}

/// Common edges with the larger weight.
pub open spec fn join_edges(l: Edges, r: Edges) -> Edges {
    Map::new(
        |e: (u64, u64)| l.contains_key(e) && r.contains_key(e),
        |e: (u64, u64)| if l[e]@ >= r[e]@ { l[e] } else { r[e] },
    )
}

/// All edges, with the smaller weight where both have one.
pub open spec fn meet_edges(l: Edges, r: Edges) -> Edges {
    Map::new(
        |e: (u64, u64)| l.contains_key(e) || r.contains_key(e),
        |e: (u64, u64)| if !r.contains_key(e) || (l.contains_key(e) && l[e]@ <= r[e]@) { l[e] } else { r[e] },
    )
}

/// Edges of the left graph that the right graph does not exceed.
pub open spec fn widen_edges(l: Edges, r: Edges) -> Edges {
    Map::new(
        |e: (u64, u64)| l.contains_key(e) && r.contains_key(e) && r[e]@ <= l[e]@,
        |e: (u64, u64)| l[e],
    )
}

/// A graph with `sz` allocated vertices and no edges.
fn blank(sz: usize) -> (g: Graph)
    ensures
        g.wf(),
        g.gsize() == sz,
        g.edges() == Edges::empty(),
        forall|v: u64| #[trigger] g.live(v) <==> v < sz,
{
    let mut g = Graph::new();
    g.grow_to(sz);
    g
}

/// `r` lists every edge once.
pub open spec fn lists_all(r: Seq<(u64, u64, Number)>, edges: Edges) -> bool {
    &&& forall|i: int, j: int| #![trigger r[i], r[j]] 0 <= i < j < r.len() ==> (r[i].0, r[i].1) != (r[j].0, r[j].1)
    &&& forall|i: int| #![trigger r[i]] 0 <= i < r.len() ==> edges.contains_key((r[i].0, r[i].1)) && edges[(r[i].0, r[i].1)] == r[i].2
    &&& forall|s: u64, d: u64| #![trigger edges.contains_key((s, d))] edges.contains_key((s, d)) ==> listed(r, s, d)
}

/// An entry of `r` joins `s` to `d`.
pub open spec fn listed(r: Seq<(u64, u64, Number)>, s: u64, d: u64) -> bool {
    exists|i: int| 0 <= i < r.len() && (#[trigger] r[i]).0 == s && r[i].1 == d
}

proof fn lemma_listed_push(r: Seq<(u64, u64, Number)>, x: (u64, u64, Number))
    ensures forall|s: u64, d: u64| #[trigger] listed(r.push(x), s, d) <==> listed(r, s, d) || (s == x.0 && d == x.1),
{
    assert forall|s: u64, d: u64| #[trigger] listed(r.push(x), s, d) <==> listed(r, s, d) || (s == x.0 && d == x.1) by {
        if listed(r, s, d) {
            let i = choose|i: int| 0 <= i < r.len() && (#[trigger] r[i]).0 == s && r[i].1 == d;
            assert(r.push(x)[i].0 == s);
        }
        if s == x.0 && d == x.1 {
            assert(r.push(x)[r.len() as int].0 == s);
        }
    }
}

/// All edges of a graph, source by source.
pub fn all_edges<G: ReadableGraph>(g: &G) -> (r: EdgeVector)
    requires g.ok(),
    ensures lists_all(r@, g.shown()),
{
    let mut r: EdgeVector = Vec::new();
    let vs: Vec<VertId> = g.verts();
    proof { g.lemma_shown(); }
    let ghost edges = g.shown();
    let mut i: usize = 0;
    while i < vs.len()
        invariant
            i <= vs@.len(),
            g.ok(),
            edges == g.shown(),
            vs@.no_duplicates(),
            forall|v: u64| #[trigger] vs@.contains(v) <==> g.shows(v),
            forall|a: int, b: int| #![trigger r@[a], r@[b]] 0 <= a < b < r@.len() ==> (r@[a].0, r@[a].1) != (r@[b].0, r@[b].1),
            forall|a: int| #![trigger r@[a]] 0 <= a < r@.len() ==> edges.contains_key((r@[a].0, r@[a].1)) && edges[(r@[a].0, r@[a].1)] == r@[a].2,
            forall|s: u64, d: u64| #[trigger] listed(r@, s, d) <==> edges.contains_key((s, d)) && vs@.take(i as int).contains(s),
        decreases vs@.len() - i,
    {
        let s: VertId = vs[i];
        assert(vs@.contains(s));
        let es: Vec<EdgeRef> = g.e_succs(s);
        proof {
            assert(vs@.take(i + 1) =~= vs@.take(i as int).push(s));
            graph_views::lemma_push_contains(vs@.take(i as int), s);
            assert(!vs@.take(i as int).contains(s)) by {
                if vs@.take(i as int).contains(s) {
                    let q = choose|q: int| 0 <= q < i && vs@.take(i as int)[q] == s;
                    assert(vs@[q] == vs@[i as int]);
                }
            }
        }
        let mut k: usize = 0;
        while k < es.len()
            invariant
                k <= es@.len(),
                i < vs@.len(),
                s == vs@[i as int],
                !vs@.take(i as int).contains(s),
                g.ok(),
                edges == g.shown(),
                graph::lists_edges(es@, edges, s, true),
                forall|a: int, b: int| #![trigger r@[a], r@[b]] 0 <= a < b < r@.len() ==> (r@[a].0, r@[a].1) != (r@[b].0, r@[b].1),
                forall|a: int| #![trigger r@[a]] 0 <= a < r@.len() ==> edges.contains_key((r@[a].0, r@[a].1)) && edges[(r@[a].0, r@[a].1)] == r@[a].2,
                forall|a: u64, d: u64| #[trigger] listed(r@, a, d) <==> edges.contains_key((a, d)) && (vs@.take(i as int).contains(a)
                    || (a == s && exists|q: int| 0 <= q < k && (#[trigger] es@[q]).vert == d)),
            decreases es@.len() - k,
        {
            let e: EdgeRef = es[k];
            let ghost before = r@;
            assert(edges.contains_key(graph::edge_key(s, e.vert, true)));
            assert(!listed(before, s, e.vert)) by {
                if listed(before, s, e.vert) {
                    let q = choose|q: int| 0 <= q < k && (#[trigger] es@[q]).vert == e.vert;
                    assert(es@[q].vert != es@[k as int].vert);
                }
            }
            r.push((s, e.vert, e.val));
            proof {
                lemma_listed_push(before, (s, e.vert, e.val));
                assert forall|a: int, b: int| #![trigger r@[a], r@[b]] 0 <= a < b < r@.len() implies (r@[a].0, r@[a].1) != (r@[b].0, r@[b].1) by {
                    if b == before.len() {
                        if r@[a].0 == s && r@[a].1 == e.vert {
                            assert(before[a].0 == s);
                        }
                    } else {
                        assert(before[a] == r@[a] && before[b] == r@[b]);
                    }
                }
                assert forall|a: int| #![trigger r@[a]] 0 <= a < r@.len() implies edges.contains_key((r@[a].0, r@[a].1)) && edges[(r@[a].0, r@[a].1)] == r@[a].2 by {
                    if a < before.len() { assert(before[a] == r@[a]); }
                }
                assert forall|a: u64, d: u64| #[trigger] listed(r@, a, d) <==> edges.contains_key((a, d)) && (vs@.take(i as int).contains(a)
                    || (a == s && exists|q: int| 0 <= q < k + 1 && (#[trigger] es@[q]).vert == d)) by {
                    if a == s && d == e.vert {
                        assert(es@[k as int].vert == d);
                    } else {
                        if a == s && exists|q: int| 0 <= q < k + 1 && (#[trigger] es@[q]).vert == d {
                            let q = choose|q: int| 0 <= q < k + 1 && (#[trigger] es@[q]).vert == d;
                            assert(q < k);
                        }
                    }
                }
            }
            k = k + 1;
        }
        proof {
            assert forall|a: u64, d: u64| #[trigger] listed(r@, a, d) <==> edges.contains_key((a, d)) && vs@.take(i + 1).contains(a) by {
                if edges.contains_key((a, d)) && a == s {
                    assert(edges.contains_key(graph::edge_key(s, d, true)));
                    let q = choose|q: int| 0 <= q < es@.len() && (#[trigger] es@[q]).vert == d;
                }
            }
        }
        i = i + 1;
    }
    proof {
        assert(vs@.take(vs@.len() as int) =~= vs@);
        assert forall|s: u64, d: u64| #![trigger edges.contains_key((s, d))] edges.contains_key((s, d)) implies listed(r@, s, d) by {
            assert(vs@.contains(s));
        }
    }
    r
}

/// Syntactic join: the common edges with the larger weight.
pub fn graph_join<L: ReadableGraph, R: ReadableGraph>(l: &L, r: &R) -> (g: Graph)
    requires l.ok(), r.ok(), l.slots() == r.slots(),
    ensures
        g.wf(),
        g.gsize() == l.slots(),
        forall|v: u64| #[trigger] g.live(v) <==> v < l.slots(),
        g.edges() == join_edges(l.shown(), r.shown()),
{
    let sz: usize = l.size();
    let mut g = blank(sz);
    let es: EdgeVector = all_edges(l);
    let ghost j = join_edges(l.shown(), r.shown());
    proof { l.lemma_shown(); }
    let mut k: usize = 0;
    while k < es.len()
        invariant
            k <= es@.len(),
            l.ok(), r.ok(), l.slots() == r.slots(), sz == l.slots(),
            g.wf(),
            g.gsize() == sz,
            forall|v: u64| #[trigger] g.live(v) <==> v < sz,
            lists_all(es@, l.shown()),
            j == join_edges(l.shown(), r.shown()),
            forall|a: u64, d: u64| #![trigger l.shown().contains_key((a, d))]
                l.shown().contains_key((a, d)) ==> l.shows(a) && l.shows(d),
            forall|v: u64| #![trigger l.shows(v)] l.shows(v) ==> v < l.slots(),
            forall|a: u64, d: u64| #[trigger] g.edges().contains_key((a, d)) <==> j.contains_key((a, d)) && listed(es@.take(k as int), a, d),
            forall|a: u64, d: u64| #[trigger] g.edges().contains_key((a, d)) ==> g.edges()[(a, d)] == j[(a, d)],
        decreases es@.len() - k,
    {
        let (s, d, w) = es[k];
        proof { lemma_next_edge(es@, l.shown(), k as int); }
        if let Some(rw) = r.lookup(s, d) {
            assert(j.contains_key((s, d)));
            g.add_edge(s, w.max(rw), d);
        }
        k = k + 1;
    }
    proof {
        assert(es@.take(es@.len() as int) =~= es@);
        assert forall|e: (u64, u64)| g.edges().contains_key(e) <==> j.contains_key(e) by {
            assert(g.edges().contains_key((e.0, e.1)) <==> j.contains_key((e.0, e.1)) && listed(es@, e.0, e.1));
            if j.contains_key(e) {
                assert(l.shown().contains_key((e.0, e.1)));
            }
        }
        assert forall|e: (u64, u64)| g.edges().contains_key(e) implies g.edges()[e] == j[e] by {
            assert(g.edges().contains_key((e.0, e.1)));
        }
        assert(g.edges() =~= j);
    }
    g
}

/// The next listed edge is new, and joins known vertices.
pub proof fn lemma_next_edge(es: Seq<(u64, u64, Number)>, edges: Edges, k: int)
    requires lists_all(es, edges), 0 <= k < es.len(),
    ensures
        edges.contains_key((es[k].0, es[k].1)),
        edges[(es[k].0, es[k].1)] == es[k].2,
        !listed(es.take(k), es[k].0, es[k].1),
        forall|s: u64, d: u64| #[trigger] listed(es.take(k + 1), s, d) <==> listed(es.take(k), s, d) || (s == es[k].0 && d == es[k].1),
{
    assert(es.take(k + 1) =~= es.take(k).push(es[k]));
    lemma_listed_push(es.take(k), es[k]);
    if listed(es.take(k), es[k].0, es[k].1) {
        let i = choose|i: int| 0 <= i < es.take(k).len() && (#[trigger] es.take(k)[i]).0 == es[k].0 && es.take(k)[i].1 == es[k].1;
        assert(es[i] == es.take(k)[i]);
        assert((es[i].0, es[i].1) != (es[k].0, es[k].1));
    }
}

/// A graph with the edges of a view.
fn copy_from<G: ReadableGraph>(v: &G) -> (g: Graph)
    requires v.ok(),
    ensures
        g.wf(),
        g.gsize() == v.slots(),
        forall|x: u64| #[trigger] g.live(x) <==> x < v.slots(),
        g.edges() == v.shown(),
{
    let sz: usize = v.size();
    let mut g = blank(sz);
    let es: EdgeVector = all_edges(v);
    let ghost j = v.shown();
    proof { v.lemma_shown(); }
    let mut k: usize = 0;
    while k < es.len()
        invariant
            k <= es@.len(),
            v.ok(), sz == v.slots(),
            g.wf(),
            g.gsize() == sz,
            forall|x: u64| #[trigger] g.live(x) <==> x < sz,
            lists_all(es@, j),
            j == v.shown(),
            forall|a: u64, d: u64| #![trigger j.contains_key((a, d))] j.contains_key((a, d)) ==> v.shows(a) && v.shows(d),
            forall|x: u64| #![trigger v.shows(x)] v.shows(x) ==> x < v.slots(),
            forall|a: u64, d: u64| #[trigger] g.edges().contains_key((a, d)) <==> j.contains_key((a, d)) && listed(es@.take(k as int), a, d),
            forall|a: u64, d: u64| #[trigger] g.edges().contains_key((a, d)) ==> g.edges()[(a, d)] == j[(a, d)],
        decreases es@.len() - k,
    {
        let (s, d, w) = es[k];
        proof { lemma_next_edge(es@, j, k as int); }
        g.add_edge(s, w, d);
        k = k + 1;
    }
    proof {
        assert(es@.take(es@.len() as int) =~= es@);
        assert forall|e: (u64, u64)| g.edges().contains_key(e) <==> j.contains_key(e) by {
            assert(g.edges().contains_key((e.0, e.1)) <==> j.contains_key((e.0, e.1)) && listed(es@, e.0, e.1));
            assert(j.contains_key((e.0, e.1)) ==> listed(es@, e.0, e.1));
        }
        assert forall|e: (u64, u64)| g.edges().contains_key(e) implies g.edges()[e] == j[e] by {
            assert(g.edges().contains_key((e.0, e.1)));
        }
        assert(g.edges() =~= j);
    }
    g
}

/// Syntactic meet: all edges, with the smaller weight on overlaps. The flag
/// says whether the result is closed; it never claims so.
pub fn graph_meet<L: ReadableGraph, R: ReadableGraph>(l: &L, r: &R) -> (res: (Graph, bool))
    requires l.ok(), r.ok(), l.slots() == r.slots(),
    ensures
        res.0.wf(),
        res.0.gsize() == l.slots(),
        forall|v: u64| #[trigger] res.0.live(v) <==> v < l.slots(),
        res.0.edges() == meet_edges(l.shown(), r.shown()),
        !res.1,
{
    let sz: usize = l.size();
    let mut g = copy_from(l);
    let es: EdgeVector = all_edges(r);
    let ghost lw = l.shown();
    let ghost rw = r.shown();
    let ghost j = meet_edges(lw, rw);
    proof { r.lemma_shown(); }
    let mut k: usize = 0;
    while k < es.len()
        invariant
            k <= es@.len(),
            r.ok(), sz == r.slots(),
            g.wf(),
            g.gsize() == sz,
            forall|x: u64| #[trigger] g.live(x) <==> x < sz,
            lists_all(es@, rw),
            rw == r.shown(),
            j == meet_edges(lw, rw),
            forall|a: u64, d: u64| #![trigger rw.contains_key((a, d))] rw.contains_key((a, d)) ==> r.shows(a) && r.shows(d),
            forall|x: u64| #![trigger r.shows(x)] r.shows(x) ==> x < r.slots(),
            forall|a: u64, d: u64| #[trigger] g.edges().contains_key((a, d)) <==> lw.contains_key((a, d)) || listed(es@.take(k as int), a, d),
            forall|a: u64, d: u64| #[trigger] g.edges().contains_key((a, d)) ==> g.edges()[(a, d)]
                == (if listed(es@.take(k as int), a, d) { j[(a, d)] } else { lw[(a, d)] }),
            forall|a: u64, d: u64| #[trigger] listed(es@.take(k as int), a, d) ==> rw.contains_key((a, d)),
        decreases es@.len() - k,
    {
        let (s, d, w) = es[k];
        let ghost before = g.edges();
        proof { lemma_next_edge(es@, rw, k as int); }
        g.update_edge(s, w, d);
        proof {
            assert forall|a: u64, b: u64| #[trigger] g.edges().contains_key((a, b)) implies g.edges()[(a, b)]
                == (if listed(es@.take(k + 1), a, b) { j[(a, b)] } else { lw[(a, b)] }) by {
                if (a, b) == (s, d) {
                    assert(before.contains_key((s, d)) == lw.contains_key((s, d)));
                } else {
                    assert(before.contains_key((a, b)));
                }
            }
        }
        k = k + 1;
    }
    proof {
        assert(es@.take(es@.len() as int) =~= es@);
        assert forall|e: (u64, u64)| g.edges().contains_key(e) <==> j.contains_key(e) by {
            assert(g.edges().contains_key((e.0, e.1)) <==> lw.contains_key((e.0, e.1)) || listed(es@, e.0, e.1));
            assert(rw.contains_key((e.0, e.1)) <==> listed(es@, e.0, e.1));
        }
        assert forall|e: (u64, u64)| g.edges().contains_key(e) implies g.edges()[e] == j[e] by {
            assert(g.edges().contains_key((e.0, e.1)));
            assert(rw.contains_key((e.0, e.1)) <==> listed(es@, e.0, e.1));
        }
        assert(g.edges() =~= j);
    }
    (g, false)
}

/// Vertices that lose an outgoing edge in a widening.
pub open spec fn destabilized<L: ReadableGraph, R: ReadableGraph>(l: &L, r: &R, s: u64) -> bool {
    r.shows(s) && l.shows(s) && exists|d: u64| #[trigger] l.shown().contains_key((s, d)) && !widen_edges(l.shown(), r.shown()).contains_key((s, d))
}

/// Syntactic widening: edges of the left graph that the right graph does not
/// exceed. Vertices that lose an edge are recorded as unstable.
pub fn graph_widen<L: ReadableGraph, R: ReadableGraph>(l: &L, r: &R, unstable: &mut VertSet) -> (g: Graph)
    requires l.ok(), r.ok(), l.slots() == r.slots(),
    ensures
        g.wf(),
        g.gsize() == l.slots(),
        forall|v: u64| #[trigger] g.live(v) <==> v < l.slots(),
        g.edges() == widen_edges(l.shown(), r.shown()),
        forall|s: u64| #[trigger] final(unstable)@.contains(s) <==> old(unstable)@.contains(s) || destabilized(l, r, s),
{
    let sz: usize = l.size();
    let mut g = blank(sz);
    let es: EdgeVector = all_edges(r);
    let ghost lw = l.shown();
    let ghost rw = r.shown();
    let ghost j = widen_edges(lw, rw);
    proof { r.lemma_shown(); l.lemma_shown(); }
    let mut k: usize = 0;
    while k < es.len()
        invariant
            k <= es@.len(),
            r.ok(), sz == r.slots(), l.ok(), sz == l.slots(),
            g.wf(),
            g.gsize() == sz,
            forall|x: u64| #[trigger] g.live(x) <==> x < sz,
            lists_all(es@, rw),
            rw == r.shown(),
            lw == l.shown(),
            j == widen_edges(lw, rw),
            forall|a: u64, d: u64| #![trigger rw.contains_key((a, d))] rw.contains_key((a, d)) ==> r.shows(a) && r.shows(d),
            forall|x: u64| #![trigger r.shows(x)] r.shows(x) ==> x < r.slots(),
            forall|a: u64, d: u64| #[trigger] g.edges().contains_key((a, d)) <==> j.contains_key((a, d)) && listed(es@.take(k as int), a, d),
            forall|a: u64, d: u64| #[trigger] g.edges().contains_key((a, d)) ==> g.edges()[(a, d)] == j[(a, d)],
        decreases es@.len() - k,
    {
        let (s, d, w) = es[k];
        proof { lemma_next_edge(es@, rw, k as int); }
        if let Some(wl) = l.lookup(s, d) {
            if w.le(wl) {
                assert(j.contains_key((s, d)));
                g.add_edge(s, wl, d);
            }
        }
        k = k + 1;
    }
    proof {
        assert(es@.take(es@.len() as int) =~= es@);
        assert forall|e: (u64, u64)| g.edges().contains_key(e) <==> j.contains_key(e) by {
            assert(g.edges().contains_key((e.0, e.1)) <==> j.contains_key((e.0, e.1)) && listed(es@, e.0, e.1));
            if j.contains_key(e) { assert(rw.contains_key((e.0, e.1))); }
        }
        assert forall|e: (u64, u64)| g.edges().contains_key(e) implies g.edges()[e] == j[e] by {
            assert(g.edges().contains_key((e.0, e.1)));
        }
        assert(g.edges() =~= j);
    }
    let ls: EdgeVector = all_edges(l);
    let rv: Vec<VertId> = r.verts();
    let mut k: usize = 0;
    while k < ls.len()
        invariant
            k <= ls@.len(),
            r.ok(), sz == r.slots(), l.ok(), sz == l.slots(),
            g.wf(),
            g.gsize() == sz,
            g.edges() == j,
            lists_all(ls@, lw),
            rw == r.shown(),
            lw == l.shown(),
            j == widen_edges(lw, rw),
            forall|a: u64, d: u64| #![trigger lw.contains_key((a, d))] lw.contains_key((a, d)) ==> l.shows(a) && l.shows(d),
            forall|x: u64| #![trigger l.shows(x)] l.shows(x) ==> x < l.slots(),
            forall|v: u64| #[trigger] rv@.contains(v) <==> r.shows(v),
            forall|s: u64| #[trigger] unstable@.contains(s) <==> old(unstable)@.contains(s)
                || (r.shows(s) && exists|d: u64| #[trigger] listed(ls@.take(k as int), s, d) && !j.contains_key((s, d))),
        decreases ls@.len() - k,
    {
        let (s, d, _w) = ls[k];
        let ghost before = unstable@;
        proof { lemma_next_edge(ls@, lw, k as int); }
        if !g.elem(s, d) && contains_vertex(&rv, s) {
            unstable.insert(s);
        }
        proof {
            let now = ls@.take(k + 1);
            let was = ls@.take(k as int);
            assert(listed(now, s, d));
            assert forall|x: u64| #[trigger] unstable@.contains(x) <==> old(unstable)@.contains(x)
                || (r.shows(x) && exists|y: u64| #[trigger] listed(now, x, y) && !j.contains_key((x, y))) by {
                assert(before.contains(x) <==> old(unstable)@.contains(x)
                    || (r.shows(x) && exists|y: u64| #[trigger] listed(was, x, y) && !j.contains_key((x, y))));
                if exists|y: u64| #[trigger] listed(was, x, y) && !j.contains_key((x, y)) {
                    let y = choose|y: u64| #[trigger] listed(was, x, y) && !j.contains_key((x, y));
                    assert(listed(now, x, y));
                }
                if exists|y: u64| #[trigger] listed(now, x, y) && !j.contains_key((x, y)) {
                    let y = choose|y: u64| #[trigger] listed(now, x, y) && !j.contains_key((x, y));
                    if !(x == s && y == d) { assert(listed(was, x, y)); }
                }
            }
        }
        k = k + 1;
    }
    proof {
        assert(ls@.take(ls@.len() as int) =~= ls@);
        assert forall|s: u64| #[trigger] unstable@.contains(s) <==> old(unstable)@.contains(s) || destabilized(l, r, s) by {
            if r.shows(s) && exists|d: u64| #[trigger] listed(ls@, s, d) && !j.contains_key((s, d)) {
                let d = choose|d: u64| #[trigger] listed(ls@, s, d) && !j.contains_key((s, d));
                let i = choose|i: int| 0 <= i < ls@.len() && (#[trigger] ls@[i]).0 == s && ls@[i].1 == d;
                assert(lw.contains_key((s, d)));
            }
            if destabilized(l, r, s) {
                let d = choose|d: u64| #[trigger] lw.contains_key((s, d)) && !j.contains_key((s, d));
                assert(listed(ls@, s, d));
            }
        }
    }
    g
}

/// Membership in a list of vertices.
fn contains_vertex(vs: &Vec<VertId>, v: VertId) -> (r: bool)
    ensures r == vs@.contains(v),
{
    let mut i: usize = 0;
    while i < vs.len()
        invariant
            i <= vs@.len(),
            forall|j: int| 0 <= j < i ==> vs@[j] != v,
        decreases vs@.len() - i,
    {
        if vs[i] == v {
            return true;
        }
        i = i + 1;
    }
    false
}

/// The edges after a batch of updates.
pub open spec fn updated(edges: Edges, delta: Seq<(u64, u64, Number)>) -> Edges
    decreases delta.len(),
{
    if delta.len() == 0 {
        edges
    } else {
        let (s, d, w) = delta.last();
        updated(edges, delta.drop_last()).insert((s, d), w)
    }
}

/// Every update follows from the edges and is no weaker than the edge it replaces.
pub open spec fn tightens(edges: Edges, delta: Seq<(u64, u64, Number)>) -> bool {
    forall|i: int| 0 <= i < delta.len() ==> {
        let (s, d, w) = #[trigger] delta[i];
        constraints::implied(edges, s, d, w@) && (edges.contains_key((s, d)) ==> w@ <= edges[(s, d)]@)
    }
}

/// Applies a batch of edge updates.
pub fn apply_delta(g: &mut Graph, delta: &EdgeVector)
    requires
        old(g).wf(),
        forall|i: int| 0 <= i < delta@.len() ==> old(g).live((#[trigger] delta@[i]).0) && old(g).live(delta@[i].1),
    ensures
        final(g).wf(),
        final(g).gsize() == old(g).gsize(),
        final(g).freed() == old(g).freed(),
        forall|v: u64| #[trigger] final(g).live(v) == old(g).live(v),
        final(g).edges() == updated(old(g).edges(), delta@),
{
    let mut i: usize = 0;
    assert(delta@.take(0) =~= Seq::<(u64, u64, Number)>::empty());
    while i < delta.len()
        invariant
            i <= delta@.len(),
            g.wf(),
            g.gsize() == old(g).gsize(),
            g.freed() == old(g).freed(),
            forall|v: u64| #[trigger] g.live(v) == old(g).live(v),
            forall|k: int| 0 <= k < delta@.len() ==> old(g).live((#[trigger] delta@[k]).0) && old(g).live(delta@[k].1),
            g.edges() == updated(old(g).edges(), delta@.take(i as int)),
        decreases delta@.len() - i,
    {
        let (s, d, w) = delta[i];
        assert(old(g).live(delta@[i as int].0));
        g.set_edge(s, w, d);
        assert(delta@.take(i + 1).drop_last() =~= delta@.take(i as int));
        assert(delta@.take(i + 1).last() == delta@[i as int]);
        i = i + 1;
    }
    assert(delta@.take(delta@.len() as int) =~= delta@);
}

/// Tightening updates change nothing of what the edges say, keep every edge and
/// raise no weight; each update is in effect.
pub proof fn lemma_tightened(edges: Edges, delta: Seq<(u64, u64, Number)>)
    requires tightens(edges, delta),
    ensures
        constraints::equivalent(updated(edges, delta), edges),
        forall|s: u64, d: u64| #![trigger edges.contains_key((s, d))] edges.contains_key((s, d)) ==> updated(edges, delta).contains_key((s, d))
            && updated(edges, delta)[(s, d)]@ <= edges[(s, d)]@,
        forall|s: u64, d: u64| #![trigger updated(edges, delta).contains_key((s, d))] updated(edges, delta).contains_key((s, d)) ==>
            (edges.contains_key((s, d)) && updated(edges, delta)[(s, d)] == edges[(s, d)])
            || exists|i: int| 0 <= i < delta.len() && (#[trigger] delta[i]) == (s, d, updated(edges, delta)[(s, d)]),
{
    lemma_updated(edges, delta);
    let t = updated(edges, delta);
    assert forall|s: u64, d: u64| #![trigger t.contains_key((s, d))] t.contains_key((s, d)) implies constraints::implied(edges, s, d, t[(s, d)]@) by {
        if edges.contains_key((s, d)) && t[(s, d)] == edges[(s, d)] {
            constraints::lemma_implied_edge(edges, s, d);
        } else {
            let i = choose|i: int| 0 <= i < delta.len() && (#[trigger] delta[i]) == (s, d, t[(s, d)]);
        }
    }
    constraints::lemma_entails_each(edges, t);
    assert forall|s: u64, d: u64| #![trigger edges.contains_key((s, d))] edges.contains_key((s, d)) implies t.contains_key((s, d)) && t[(s, d)]@ <= edges[(s, d)]@ by {
        assert(t.contains_key((s, d)));
    }
    constraints::lemma_entails_tighter(t, edges);
}

proof fn lemma_updated(edges: Edges, delta: Seq<(u64, u64, Number)>)
    ensures
        forall|s: u64, d: u64| #![trigger edges.contains_key((s, d))] edges.contains_key((s, d)) ==> updated(edges, delta).contains_key((s, d)),
        forall|s: u64, d: u64| #![trigger updated(edges, delta).contains_key((s, d))] updated(edges, delta).contains_key((s, d)) ==>
            (edges.contains_key((s, d)) && updated(edges, delta)[(s, d)] == edges[(s, d)])
            || exists|i: int| 0 <= i < delta.len() && (#[trigger] delta[i]) == (s, d, updated(edges, delta)[(s, d)]),
    decreases delta.len(),
{
    if delta.len() > 0 {
        let pre = delta.drop_last();
        lemma_updated(edges, pre);
        let t = updated(edges, delta);
        let u = updated(edges, pre);
        let (a, b, w) = delta.last();
        assert forall|s: u64, d: u64| #![trigger t.contains_key((s, d))] t.contains_key((s, d)) implies
            (edges.contains_key((s, d)) && t[(s, d)] == edges[(s, d)])
            || exists|i: int| 0 <= i < delta.len() && (#[trigger] delta[i]) == (s, d, t[(s, d)]) by {
            if (s, d) == (a, b) {
                assert(delta[delta.len() - 1] == (s, d, t[(s, d)]));
            } else {
                assert(u.contains_key((s, d)));
                if !(edges.contains_key((s, d)) && u[(s, d)] == edges[(s, d)]) {
                    let i = choose|i: int| 0 <= i < pre.len() && (#[trigger] pre[i]) == (s, d, u[(s, d)]);
                    assert(delta[i] == pre[i]);
                }
            }
        }
    }
}

/// Lowers the weight of `s -> d` to `w` where that is an improvement; says whether it did.
fn tighten(g: &mut Graph, s: VertId, w: Weight, d: VertId, Ghost(base): Ghost<Edges>) -> (r: bool)
    requires
        old(g).wf(),
        old(g).live(s),
        old(g).live(d),
        constraints::equivalent(old(g).edges(), base),
        constraints::implied(base, s, d, w@),
    ensures
        final(g).wf(),
        final(g).gsize() == old(g).gsize(),
        final(g).freed() == old(g).freed(),
        forall|v: u64| #[trigger] final(g).live(v) == old(g).live(v),
        constraints::equivalent(final(g).edges(), base),
        final(g).edges() == (if r { old(g).edges().insert((s, d), w) } else { old(g).edges() }),
        r == !(old(g).edges().contains_key((s, d)) && old(g).edges()[(s, d)]@ <= w@),
        final(g).edges().contains_key((s, d)) && final(g).edges()[(s, d)]@ <= w@,
{
    proof {
        g.lemma_edge_live();
        constraints::lemma_implied_mono(g.edges(), base, s, d, w@);
    }
    if let Some(pw) = g.lookup(s, d) {
        if pw.le(w) {
            return false;
        }
    }
    proof {
        constraints::lemma_insert_implied(g.edges(), s, d, w);
        constraints::lemma_equivalent_trans(g.edges().insert((s, d), w), g.edges(), base);
    }
    g.set_edge(s, w, d);
    true
}

/// `b` has every edge of `a`, none heavier.
pub open spec fn at_least_as_tight(b: Edges, a: Edges) -> bool {
    forall|s: u64, d: u64| #![trigger a.contains_key((s, d))] a.contains_key((s, d)) ==> b.contains_key((s, d)) && b[(s, d)]@ <= a[(s, d)]@
}

/// Every path `s -> ii -> jj -> d` of `b` that avoids the vertex zero is an edge of `a`, no heavier.
pub open spec fn closed_through(a: Edges, b: Edges, ii: u64, jj: u64) -> bool {
    forall|s: u64, d: u64| #![trigger b.contains_key((s, ii)), b.contains_key((jj, d))]
        s != 0 && d != 0 && s != d && s != jj && d != ii && b.contains_key((s, ii)) && b.contains_key((jj, d)) ==>
            a.contains_key((s, d)) && a[(s, d)]@ <= number::saturate(number::saturate(b[(s, ii)]@ + b[(ii, jj)]@) + b[(jj, d)]@)
}

/// Every path of `b` over its edge `ii -> jj` that avoids the vertex zero, with at most one edge
/// before it and one behind it, is an edge of `a`, no heavier.
pub open spec fn closed_over(a: Edges, b: Edges, ii: u64, jj: u64) -> bool {
    &&& forall|s: u64| #![trigger b.contains_key((s, ii))] s != 0 && s != jj && b.contains_key((s, ii)) ==>
            a.contains_key((s, jj)) && a[(s, jj)]@ <= number::saturate(b[(s, ii)]@ + b[(ii, jj)]@)
    &&& forall|d: u64| #![trigger b.contains_key((jj, d))] d != 0 && d != ii && b.contains_key((jj, d)) ==>
            a.contains_key((ii, d)) && a[(ii, d)]@ <= number::saturate(b[(jj, d)]@ + b[(ii, jj)]@)
    &&& closed_through(a, b, ii, jj)
}

/// The edges of a list other than those at the vertex zero.
fn without_zero(es: Vec<EdgeRef>) -> (r: Vec<EdgeRef>)
    ensures
        forall|i: int| 0 <= i < r@.len() ==> (#[trigger] r@[i]).vert != 0 && es@.contains(r@[i]),
        forall|i: int| 0 <= i < es@.len() && (#[trigger] es@[i]).vert != 0 ==> r@.contains(es@[i]),
{
    let mut r: Vec<EdgeRef> = Vec::new();
    let mut i: usize = 0;
    while i < es.len()
        invariant
            i <= es@.len(),
            forall|k: int| 0 <= k < r@.len() ==> (#[trigger] r@[k]).vert != 0 && es@.contains(r@[k]),
            forall|k: int| 0 <= k < i && (#[trigger] es@[k]).vert != 0 ==> r@.contains(es@[k]),
        decreases es@.len() - i,
    {
        if es[i].vert != 0 {
            let ghost before = r@;
            r.push(es[i]);
            proof {
                graph_views::lemma_push_contains(before, es@[i as int]);
                assert forall|k: int| 0 <= k < r@.len() implies (#[trigger] r@[k]).vert != 0 && es@.contains(r@[k]) by {
                    if k < before.len() { assert(r@[k] == before[k]); } else { assert(es@[i as int] == r@[k]); }
                }
            }
        }
        i = i + 1;
    }
    r
}

/// Closes the graph over the edge `ii -> jj`: paths `s -> ii -> jj`,
/// `ii -> jj -> d` and `s -> ii -> jj -> d` that avoid the vertex zero become edges.
pub fn close_over_edge(g: &mut Graph, ii: VertId, jj: VertId)
    requires
        old(g).wf(),
        ii != 0,
        jj != 0,
        old(g).edges().contains_key((ii, jj)),
    ensures
        final(g).wf(),
        final(g).gsize() == old(g).gsize(),
        final(g).freed() == old(g).freed(),
        forall|v: u64| #[trigger] final(g).live(v) == old(g).live(v),
        constraints::equivalent(final(g).edges(), old(g).edges()),
        at_least_as_tight(final(g).edges(), old(g).edges()),
        forall|s: u64, d: u64| #![trigger final(g).edges().contains_key((s, d))] (s == 0 || d == 0) && final(g).edges().contains_key((s, d))
            ==> old(g).edges().contains_key((s, d)) && final(g).edges()[(s, d)] == old(g).edges()[(s, d)],
        closed_over(final(g).edges(), old(g).edges(), ii, jj),
{
    let ghost base = g.edges();
    let ghost o = *g;
    proof {
        g.lemma_edge_live();
        constraints::lemma_entails_refl(base);
        constraints::lemma_implied_edge(base, ii, jj);
    }
    let c: Weight = g.edge_val(ii, jj);
    let preds_all: Vec<EdgeRef> = g.e_preds(ii);
    let preds_ii: Vec<EdgeRef> = without_zero(preds_all);
    let mut i: usize = 0;
    while i < preds_ii.len()
        invariant
            i <= preds_ii@.len(),
            base == o.edges(),
            o.wf(),
            ii != 0, jj != 0,
            base.contains_key((ii, jj)),
            c == base[(ii, jj)],
            constraints::implied(base, ii, jj, c@),
            g.wf(),
            g.gsize() == o.gsize(),
            g.freed() == o.freed(),
            forall|v: u64| #[trigger] g.live(v) == o.live(v),
            constraints::equivalent(g.edges(), base),
            graph::lists_edges(preds_all@, base, ii, false),
            forall|k: int| 0 <= k < preds_ii@.len() ==> (#[trigger] preds_ii@[k]).vert != 0 && preds_all@.contains(preds_ii@[k]),
            forall|s: u64, d: u64| #![trigger base.contains_key((s, d))] base.contains_key((s, d)) ==> o.live(s) && o.live(d),
            at_least_as_tight(g.edges(), base),
            forall|s: u64, d: u64| #![trigger g.edges().contains_key((s, d))] g.edges().contains_key((s, d)) && (s == 0 || s == jj || d != jj) ==> base.contains_key((s, d)) && g.edges()[(s, d)] == base[(s, d)],
            forall|k: int| #![trigger preds_ii@[k]] 0 <= k < i && preds_ii@[k].vert != jj ==>
                g.edges().contains_key((preds_ii@[k].vert, jj)) && g.edges()[(preds_ii@[k].vert, jj)]@ <= number::saturate(preds_ii@[k].val@ + c@),
        decreases preds_ii@.len() - i,
    {
        let e: EdgeRef = preds_ii[i];
        let wt: Weight = e.val.add(c);
        let ghost before = g.edges();
        proof {
            let q = choose|q: int| 0 <= q < preds_all@.len() && preds_all@[q] == e;
            assert(base.contains_key(graph::edge_key(ii, preds_all@[q].vert, false)));
            constraints::lemma_implied_edge(base, e.vert, ii);
            constraints::lemma_implied_path(base, e.vert, ii, jj, e.val@, c@);
        }
        if e.vert != jj {
            let _t: bool = tighten(g, e.vert, wt, jj, Ghost(base));
        }
        proof {
            assert forall|k: int| #![trigger preds_ii@[k]] 0 <= k < i + 1 && preds_ii@[k].vert != jj implies
                g.edges().contains_key((preds_ii@[k].vert, jj)) && g.edges()[(preds_ii@[k].vert, jj)]@ <= number::saturate(preds_ii@[k].val@ + c@) by {
                if k < i { assert(before.contains_key((preds_ii@[k].vert, jj))); }
            }
        }
        i = i + 1;
    }
    let ghost first = *g;
    let succs_all: Vec<EdgeRef> = g.e_succs(jj);
    let succs_jj: Vec<EdgeRef> = without_zero(succs_all);
    let mut i: usize = 0;
    while i < succs_jj.len()
        invariant
            i <= succs_jj@.len(),
            base == o.edges(),
            o.wf(),
            ii != 0, jj != 0,
            c == base[(ii, jj)],
            constraints::implied(base, ii, jj, c@),
            base.contains_key((ii, jj)),
            g.wf(),
            g.gsize() == o.gsize(),
            g.freed() == o.freed(),
            forall|v: u64| #[trigger] g.live(v) == o.live(v),
            constraints::equivalent(g.edges(), base),
            constraints::equivalent(first.edges(), base),
            first.wf(),
            forall|v: u64| #[trigger] first.live(v) == o.live(v),
            graph::lists_edges(succs_all@, first.edges(), jj, true),
            forall|k: int| 0 <= k < succs_jj@.len() ==> (#[trigger] succs_jj@[k]).vert != 0 && succs_all@.contains(succs_jj@[k]),
            forall|s: u64, d: u64| #![trigger base.contains_key((s, d))] base.contains_key((s, d)) ==> o.live(s) && o.live(d),
            at_least_as_tight(g.edges(), first.edges()),
            forall|s: u64, d: u64| #![trigger g.edges().contains_key((s, d))] g.edges().contains_key((s, d)) && (s != ii || d == 0) ==> first.edges().contains_key((s, d)) && g.edges()[(s, d)] == first.edges()[(s, d)],
            forall|k: int| #![trigger succs_jj@[k]] 0 <= k < i && succs_jj@[k].vert != ii ==>
                g.edges().contains_key((ii, succs_jj@[k].vert)) && g.edges()[(ii, succs_jj@[k].vert)]@ <= number::saturate(succs_jj@[k].val@ + c@),
        decreases succs_jj@.len() - i,
    {
        let e: EdgeRef = succs_jj[i];
        let wt: Weight = e.val.add(c);
        let ghost before = g.edges();
        proof {
            first.lemma_edge_live();
            let q = choose|q: int| 0 <= q < succs_all@.len() && succs_all@[q] == e;
            assert(first.edges().contains_key(graph::edge_key(jj, succs_all@[q].vert, true)));
            assert(first.edges().contains_key((jj, e.vert)));
            constraints::lemma_implied_edge(first.edges(), jj, e.vert);
            constraints::lemma_implied_mono(base, first.edges(), jj, e.vert, e.val@);
            constraints::lemma_implied_path(base, ii, jj, e.vert, c@, e.val@);
            assert(o.live(ii));
        }
        if e.vert != ii {
            let _t: bool = tighten(g, ii, wt, e.vert, Ghost(base));
        }
        proof {
            assert forall|k: int| #![trigger succs_jj@[k]] 0 <= k < i + 1 && succs_jj@[k].vert != ii implies
                g.edges().contains_key((ii, succs_jj@[k].vert)) && g.edges()[(ii, succs_jj@[k].vert)]@ <= number::saturate(succs_jj@[k].val@ + c@) by {
                if k < i { assert(before.contains_key((ii, succs_jj@[k].vert))); }
            }
        }
        i = i + 1;
    }
    let ghost second = *g;
    proof {
        assert forall|k: int| 0 <= k < preds_ii@.len() && preds_ii@[k].vert != jj implies src_ok(base, ii, jj, #[trigger] preds_ii@[k]) by {
            let q = choose|q: int| 0 <= q < preds_all@.len() && preds_all@[q] == preds_ii@[k];
            assert(base.contains_key(graph::edge_key(ii, preds_all@[q].vert, false)));
        }
        assert forall|k: int| 0 <= k < succs_jj@.len() implies succ_ok(base, jj, #[trigger] succs_jj@[k]) by {
            let q = choose|q: int| 0 <= q < succs_all@.len() && succs_all@[q] == succs_jj@[k];
            assert(first.edges().contains_key(graph::edge_key(jj, succs_all@[q].vert, true)));
            assert(first.edges().contains_key((jj, succs_all@[q].vert)));
        }
    }
    connect(g, &preds_ii, &succs_jj, ii, jj, c, Ghost(base));
    proof {
        let f = g.edges();
        assert(at_least_as_tight(f, base)) by {
            assert forall|s: u64, d: u64| #![trigger base.contains_key((s, d))] base.contains_key((s, d)) implies f.contains_key((s, d)) && f[(s, d)]@ <= base[(s, d)]@ by {
                assert(first.edges().contains_key((s, d)));
                assert(second.edges().contains_key((s, d)));
            }
        }
        assert(closed_through(f, base, ii, jj)) by {
            assert forall|s: u64, d: u64| #![trigger base.contains_key((s, ii)), base.contains_key((jj, d))]
                s != 0 && d != 0 && s != d && s != jj && d != ii && base.contains_key((s, ii)) && base.contains_key((jj, d)) implies
                f.contains_key((s, d)) && f[(s, d)]@ <= number::saturate(number::saturate(base[(s, ii)]@ + c@) + base[(jj, d)]@) by {
                assert(base.contains_key(graph::edge_key(ii, s, false)));
                let q = choose|q: int| 0 <= q < preds_all@.len() && (#[trigger] preds_all@[q]).vert == s;
                assert(preds_ii@.contains(preds_all@[q]));
                let k = choose|k: int| 0 <= k < preds_ii@.len() && preds_ii@[k] == preds_all@[q];
                assert(first.edges().contains_key((jj, d)));
                assert(first.edges().contains_key(graph::edge_key(jj, d, true)));
                let p = choose|p: int| 0 <= p < succs_all@.len() && (#[trigger] succs_all@[p]).vert == d;
                assert(succs_jj@.contains(succs_all@[p]));
                let n = choose|n: int| 0 <= n < succs_jj@.len() && succs_jj@[n] == succs_all@[p];
                assert(joined_over(f, c, preds_ii@[k], succs_jj@[n]));
                assert(preds_ii@[k].val == base[(s, ii)] && succs_jj@[n].val == base[(jj, d)]);
            }
        }
        assert forall|s: u64, d: u64| #![trigger f.contains_key((s, d))] (s == 0 || d == 0) && f.contains_key((s, d))
            implies base.contains_key((s, d)) && f[(s, d)] == base[(s, d)] by {
            assert(second.edges().contains_key((s, d)));
            assert(first.edges().contains_key((s, d)));
        }
        assert forall|s: u64| #![trigger base.contains_key((s, ii))] s != 0 && s != jj && base.contains_key((s, ii)) implies
            f.contains_key((s, jj)) && f[(s, jj)]@ <= number::saturate(base[(s, ii)]@ + c@) by {
            assert(base.contains_key(graph::edge_key(ii, s, false)));
            let q = choose|q: int| 0 <= q < preds_all@.len() && (#[trigger] preds_all@[q]).vert == s;
            assert(preds_ii@.contains(preds_all@[q]));
            let k = choose|k: int| 0 <= k < preds_ii@.len() && preds_ii@[k] == preds_all@[q];
            assert(preds_ii@[k].vert == s);
            assert(first.edges().contains_key((s, jj)));
            assert(second.edges().contains_key((s, jj)));
        }
        assert forall|d: u64| #![trigger base.contains_key((jj, d))] d != 0 && d != ii && base.contains_key((jj, d)) implies
            f.contains_key((ii, d)) && f[(ii, d)]@ <= number::saturate(base[(jj, d)]@ + c@) by {
            assert(first.edges().contains_key((jj, d)));
            assert(first.edges().contains_key(graph::edge_key(jj, d, true)));
            let q = choose|q: int| 0 <= q < succs_all@.len() && (#[trigger] succs_all@[q]).vert == d;
            assert(succs_jj@.contains(succs_all@[q]));
            let k = choose|k: int| 0 <= k < succs_jj@.len() && succs_jj@[k] == succs_all@[q];
            assert(succs_jj@[k].vert == d);
            assert(second.edges().contains_key((ii, d)));
        }
    }
}

spec fn src_ok(base: Edges, ii: u64, jj: u64, e: EdgeRef) -> bool {
    e.vert != 0 && e.vert != jj && base.contains_key((e.vert, ii)) && base[(e.vert, ii)] == e.val
}

spec fn succ_ok(base: Edges, jj: u64, e: EdgeRef) -> bool {
    e.vert != 0 && base.contains_key((jj, e.vert)) && base[(jj, e.vert)] == e.val
}

/// The path over an edge into one end and an edge out of the other is an edge.
spec fn joined_over(f: Edges, c: Weight, p: EdgeRef, q: EdgeRef) -> bool {
    f.contains_key((p.vert, q.vert)) && f[(p.vert, q.vert)]@ <= number::saturate(number::saturate(p.val@ + c@) + q.val@)
}

/// Makes edges of the paths over `ii -> jj` from vertices before it to other vertices behind it.
fn connect(g: &mut Graph, before: &Vec<EdgeRef>, behind: &Vec<EdgeRef>, ii: VertId, jj: VertId, c: Weight, Ghost(base): Ghost<Edges>)
    requires
        old(g).wf(),
        constraints::equivalent(old(g).edges(), base),
        constraints::implied(base, ii, jj, c@),
        forall|k: int| 0 <= k < before@.len() && before@[k].vert != jj ==> src_ok(base, ii, jj, #[trigger] before@[k]),
        forall|k: int| 0 <= k < before@.len() ==> (#[trigger] before@[k]).vert != 0,
        forall|k: int| 0 <= k < behind@.len() ==> succ_ok(base, jj, #[trigger] behind@[k]),
        forall|s: u64, d: u64| #![trigger base.contains_key((s, d))] base.contains_key((s, d)) ==> old(g).live(s) && old(g).live(d),
    ensures
        final(g).wf(),
        final(g).gsize() == old(g).gsize(),
        final(g).freed() == old(g).freed(),
        forall|v: u64| #[trigger] final(g).live(v) == old(g).live(v),
        constraints::equivalent(final(g).edges(), base),
        at_least_as_tight(final(g).edges(), old(g).edges()),
        forall|s: u64, d: u64| #![trigger final(g).edges().contains_key((s, d))] final(g).edges().contains_key((s, d)) && (s == 0 || d == 0)
            ==> old(g).edges().contains_key((s, d)) && final(g).edges()[(s, d)] == old(g).edges()[(s, d)],
        forall|i: int, j: int| #![trigger before@[i], behind@[j]] 0 <= i < before@.len() && 0 <= j < behind@.len() && before@[i].vert != jj
            && behind@[j].vert != ii && before@[i].vert != behind@[j].vert ==> joined_over(final(g).edges(), c, before@[i], behind@[j]),
{
    let ghost o = *g;
    let mut a: usize = 0;
    while a < before.len()
        invariant
            a <= before@.len(),
            constraints::implied(base, ii, jj, c@),
            forall|k: int| 0 <= k < before@.len() && before@[k].vert != jj ==> src_ok(base, ii, jj, #[trigger] before@[k]),
            forall|k: int| 0 <= k < before@.len() ==> (#[trigger] before@[k]).vert != 0,
            forall|k: int| 0 <= k < behind@.len() ==> succ_ok(base, jj, #[trigger] behind@[k]),
            forall|s: u64, d: u64| #![trigger base.contains_key((s, d))] base.contains_key((s, d)) ==> o.live(s) && o.live(d),
            g.wf(),
            g.gsize() == o.gsize(),
            g.freed() == o.freed(),
            forall|v: u64| #[trigger] g.live(v) == o.live(v),
            constraints::equivalent(g.edges(), base),
            at_least_as_tight(g.edges(), o.edges()),
            forall|s: u64, d: u64| #![trigger g.edges().contains_key((s, d))] g.edges().contains_key((s, d)) && (s == 0 || d == 0) ==> o.edges().contains_key((s, d)) && g.edges()[(s, d)] == o.edges()[(s, d)],
            forall|i: int, j: int| #![trigger before@[i], behind@[j]] 0 <= i < a && 0 <= j < behind@.len() && before@[i].vert != jj
                && behind@[j].vert != ii && before@[i].vert != behind@[j].vert ==> joined_over(g.edges(), c, before@[i], behind@[j]),
        decreases before@.len() - a,
    {
        let p: EdgeRef = before[a];
        if p.vert != jj {
            let half: Weight = p.val.add(c);
            proof {
                assert(src_ok(base, ii, jj, before@[a as int]));
                constraints::lemma_implied_edge(base, p.vert, ii);
                constraints::lemma_implied_path(base, p.vert, ii, jj, p.val@, c@);
            }
            let mut b: usize = 0;
            while b < behind.len()
                invariant
                    a < before@.len(),
                    b <= behind@.len(),
                    p == before@[a as int],
                    p.vert != 0,
                    half@ == number::saturate(p.val@ + c@),
                    o.live(p.vert),
                    constraints::implied(base, p.vert, jj, half@),
                    forall|k: int| 0 <= k < behind@.len() ==> succ_ok(base, jj, #[trigger] behind@[k]),
                    forall|s: u64, d: u64| #![trigger base.contains_key((s, d))] base.contains_key((s, d)) ==> o.live(s) && o.live(d),
                    g.wf(),
                    g.gsize() == o.gsize(),
                    g.freed() == o.freed(),
                    forall|v: u64| #[trigger] g.live(v) == o.live(v),
                    constraints::equivalent(g.edges(), base),
                    at_least_as_tight(g.edges(), o.edges()),
                    forall|s: u64, d: u64| #![trigger g.edges().contains_key((s, d))] g.edges().contains_key((s, d)) && (s == 0 || d == 0) ==> o.edges().contains_key((s, d)) && g.edges()[(s, d)] == o.edges()[(s, d)],
                    forall|i: int, j: int| #![trigger before@[i], behind@[j]] 0 <= i < a && 0 <= j < behind@.len() && before@[i].vert != jj
                        && behind@[j].vert != ii && before@[i].vert != behind@[j].vert ==> joined_over(g.edges(), c, before@[i], behind@[j]),
                    forall|j: int| #![trigger behind@[j]] 0 <= j < b && behind@[j].vert != ii && p.vert != behind@[j].vert ==> joined_over(g.edges(), c, p, behind@[j]),
                decreases behind@.len() - b,
            {
                let q: EdgeRef = behind[b];
                let ghost e0 = g.edges();
                if q.vert != ii && p.vert != q.vert {
                    proof {
                        assert(succ_ok(base, jj, behind@[b as int]));
                        constraints::lemma_implied_edge(base, jj, q.vert);
                        constraints::lemma_implied_path(base, p.vert, jj, q.vert, half@, q.val@);
                    }
                    let _t: bool = tighten(g, p.vert, half.add(q.val), q.vert, Ghost(base));
                }
                proof {
                    assert forall|s: EdgeRef, d: EdgeRef| #[trigger] joined_over(e0, c, s, d) implies joined_over(g.edges(), c, s, d) by {
                        assert(e0.contains_key((s.vert, d.vert)));
                    }
                }
                b = b + 1;
            }
        }
        a = a + 1;
    }
}

/// Inserts `d` into a list sorted by increasing key.
fn insert_by_key(queue: &mut Vec<VertId>, keys: &mut Vec<Weight>, d: VertId, k: Weight)
    requires old(queue)@.len() == old(keys)@.len(),
    ensures
        final(queue)@.len() == final(keys)@.len(),
        final(queue)@.len() == old(queue)@.len() + 1,
        forall|x: u64| #[trigger] final(queue)@.contains(x) <==> old(queue)@.contains(x) || x == d,
        old(queue)@.no_duplicates() && !old(queue)@.contains(d) ==> final(queue)@.no_duplicates(),
{
    let mut p: usize = 0;
    while p < keys.len() && keys[p].le(k)
        invariant
            p <= keys@.len(),
            queue@.len() == keys@.len(),
            queue@ == old(queue)@,
        decreases keys@.len() - p,
    {
        p = p + 1;
    }
    queue.insert(p, d);
    keys.insert(p, k);
    proof {
        let o = old(queue)@;
        let f = queue@;
        assert forall|x: u64| #[trigger] f.contains(x) <==> o.contains(x) || x == d by {
            if f.contains(x) {
                let q = choose|q: int| 0 <= q < f.len() && f[q] == x;
                if q < p { assert(o[q] == x); } else if q > p { assert(o[q - 1] == x); }
            }
            if o.contains(x) {
                let q = choose|q: int| 0 <= q < o.len() && o[q] == x;
                if q < p { assert(f[q] == x); } else { assert(f[q + 1] == x); }
            }
            if x == d { assert(f[p as int] == d); }
        }
        if o.no_duplicates() && !o.contains(d) {
            assert forall|a: int, b: int| 0 <= a < f.len() && 0 <= b < f.len() && a != b implies f[a] != f[b] by {
                let x = if a < p { a } else { a - 1 };
                let y = if b < p { b } else { b - 1 };
                if a == p { assert(o.contains(o[y])); } else if b == p { assert(o.contains(o[x])); } else { assert(o[x] != o[y]); }
            }
        }
    }
}

/// `aux` lists the vertices that `v` reaches by one or two edges, each once, with
/// a weight that follows from the edges and exceeds no such path.
pub open spec fn reaches(edges: Edges, v: u64, aux: Seq<(u64, Number)>) -> bool {
    &&& forall|i: int, j: int| #![trigger aux[i], aux[j]] 0 <= i < j < aux.len() ==> aux[i].0 != aux[j].0
    &&& forall|i: int| #![trigger aux[i]] 0 <= i < aux.len() ==> constraints::implied(edges, v, aux[i].0, aux[i].1@)
        && has_source(edges, aux[i].0)
    &&& forall|d: u64| #![trigger edges.contains_key((v, d))] edges.contains_key((v, d)) ==> has_bound(aux, d, edges[(v, d)]@)
    &&& forall|m: u64, d: u64| #![trigger edges.contains_key((v, m)), edges.contains_key((m, d))]
        edges.contains_key((v, m)) && edges.contains_key((m, d)) && d != v
            ==> has_bound(aux, d, number::saturate(edges[(v, m)]@ + edges[(m, d)]@))
}

/// Some edge leads to `d`.
pub open spec fn has_source(edges: Edges, d: u64) -> bool {
    exists|s: u64| #[trigger] edges.contains_key((s, d))
}

/// `aux` lists `d` with a weight of at most `w`.
pub open spec fn has_bound(aux: Seq<(u64, Number)>, d: u64, w: int) -> bool {
    exists|i: int| 0 <= i < aux.len() && (#[trigger] aux[i]).0 == d && aux[i].1@ <= w
}

/// The weight recorded for a vertex exceeds neither bound.
spec fn recorded(best: Seq<Option<Weight>>, d: u64, w: int) -> bool {
    best[d as int] matches Some(x) && x@ <= w
}

/// Forward pass of the closure after an assignment. `negated` turns the
/// potentials around, for the pass over the reversed graph.
fn close_after_assign_fwd<G: ReadableGraph>(
    scratch: &mut ScratchSpace,
    g: &G,
    p: &Vec<Weight>,
    negated: bool,
    v: VertId,
) -> (aux: Vec<(VertId, Weight)>)
    requires
        g.ok(),
        g.shows(v),
        p@.len() >= g.slots(),
    ensures
        reaches(g.shown(), v, aux@),
        forall|i: int| 0 <= i < aux@.len() ==> g.shows((#[trigger] aux@[i]).0),
{
    let sz: usize = g.size();
    let ghost edges = g.shown();
    scratch.grow(sz);
    proof { g.lemma_shown(); }
    let first: Vec<EdgeRef> = g.e_succs(v);
    let mut queue: Vec<VertId> = Vec::new();
    let mut keys: Vec<Weight> = Vec::new();
    let mut i: usize = 0;
    while i < first.len()
        invariant
            i <= first@.len(),
            g.ok(),
            g.shows(v),
            edges == g.shown(),
            sz == g.slots(),
            p@.len() >= sz,
            scratch.best@.len() == sz,
            graph::lists_edges(first@, edges, v, true),
            forall|a: u64, b: u64| #![trigger edges.contains_key((a, b))] edges.contains_key((a, b)) ==> g.shows(a) && g.shows(b),
            forall|x: u64| #![trigger g.shows(x)] g.shows(x) ==> x < sz,
            queue@.len() == keys@.len(),
            queue@.no_duplicates(),
            forall|x: u64| #[trigger] queue@.contains(x) <==> exists|k: int| 0 <= k < i && (#[trigger] first@[k]).vert == x,
            forall|x: u64| #![trigger scratch.best@[x as int]] x < sz ==> (scratch.best@[x as int] is Some <==> queue@.contains(x)),
            forall|x: u64| #![trigger scratch.best@[x as int]] x < sz && scratch.best@[x as int] is Some ==>
                edges.contains_key((v, x)) && scratch.best@[x as int] == Some(edges[(v, x)]),
        decreases first@.len() - i,
    {
        let e: EdgeRef = first[i];
        let d: VertId = e.vert;
        assert(edges.contains_key(graph::edge_key(v, d, true)));
        assert(edges.contains_key((v, d)));
        assert(d < scratch.best.len());
        let du: usize = d as usize;
        let ghost qb = queue@;
        assert(!queue@.contains(d)) by {
            if queue@.contains(d) {
                let k = choose|k: int| 0 <= k < i && (#[trigger] first@[k]).vert == d;
                assert(first@[k].vert != first@[i as int].vert);
            }
        }
        scratch.best.set(du, Some(e.val));
        assert(d < p.len());
        let key: Weight = if negated { e.val.add(p[du]) } else { e.val.sub(p[du]) };
        insert_by_key(&mut queue, &mut keys, d, key);
        proof {
            assert forall|x: u64| #[trigger] queue@.contains(x) <==> exists|k: int| 0 <= k < i + 1 && (#[trigger] first@[k]).vert == x by {
                if x == d {
                    assert(first@[i as int].vert == d);
                } else {
                    assert(queue@.contains(x) <==> qb.contains(x));
                    if exists|k: int| 0 <= k < i + 1 && (#[trigger] first@[k]).vert == x {
                        let k = choose|k: int| 0 <= k < i + 1 && (#[trigger] first@[k]).vert == x;
                        assert(k < i);
                    }
                }
            }
        }
        i = i + 1;
    }
    proof {
        assert forall|x: u64| #[trigger] queue@.contains(x) <==> edges.contains_key((v, x)) by {
            if queue@.contains(x) {
                let k = choose|k: int| 0 <= k < first@.len() && (#[trigger] first@[k]).vert == x;
                assert(edges.contains_key(graph::edge_key(v, first@[k].vert, true)));
            }
            if edges.contains_key((v, x)) {
                assert(edges.contains_key(graph::edge_key(v, x, true)));
            }
        }
        assert forall|x: u64| #![trigger scratch.best@[x as int]] x < sz && scratch.best@[x as int] is Some implies
            constraints::implied(edges, v, x, scratch.best@[x as int].unwrap()@) by {
            constraints::lemma_implied_edge(edges, v, x);
        }
    }
    let mut reach: Vec<VertId> = Vec::new();
    let mut i: usize = 0;
    while i < queue.len()
        invariant
            i <= queue@.len(),
            g.ok(),
            g.shows(v),
            edges == g.shown(),
            sz == g.slots(),
            scratch.best@.len() == sz,
            forall|a: u64, b: u64| #![trigger edges.contains_key((a, b))] edges.contains_key((a, b)) ==> g.shows(a) && g.shows(b),
            forall|x: u64| #![trigger g.shows(x)] g.shows(x) ==> x < sz,
            queue@.no_duplicates(),
            reach@.no_duplicates(),
            forall|x: u64| #[trigger] queue@.contains(x) <==> edges.contains_key((v, x)),
            forall|x: u64| #[trigger] reach@.contains(x) ==> !queue@.contains(x) && x < sz && has_source(edges, x),
            forall|x: u64| #![trigger scratch.best@[x as int]] x < sz ==> (scratch.best@[x as int] is Some <==> queue@.contains(x) || reach@.contains(x)),
            forall|x: u64| #![trigger scratch.best@[x as int]] x < sz && scratch.best@[x as int] is Some ==>
                constraints::implied(edges, v, x, scratch.best@[x as int].unwrap()@),
            forall|d: u64| #![trigger edges.contains_key((v, d))] edges.contains_key((v, d)) ==> recorded(scratch.best@, d, edges[(v, d)]@),
            forall|k: int, d: u64| #![trigger queue@[k], edges.contains_key((queue@[k], d))] 0 <= k < i && edges.contains_key((queue@[k], d)) && d != v ==>
                recorded(scratch.best@, d, number::saturate(edges[(v, queue@[k])]@ + edges[(queue@[k], d)]@)),
        decreases queue@.len() - i,
    {
        let m: VertId = queue[i];
        assert(queue@.contains(m));
        assert(edges.contains_key((v, m)));
        assert(m < scratch.best.len());
        assert(recorded(scratch.best@, m, edges[(v, m)]@));
        let m_wt: Weight = scratch.best[m as usize].unwrap();
        let es: Vec<EdgeRef> = g.e_succs(m);
        let mut k: usize = 0;
        while k < es.len()
            invariant
                k <= es@.len(),
                i < queue@.len(),
                m == queue@[i as int],
                g.ok(),
                g.shows(v),
                edges == g.shown(),
                sz == g.slots(),
                scratch.best@.len() == sz,
                m_wt@ <= edges[(v, m)]@,
                constraints::implied(edges, v, m, m_wt@),
                graph::lists_edges(es@, edges, m, true),
                forall|a: u64, b: u64| #![trigger edges.contains_key((a, b))] edges.contains_key((a, b)) ==> g.shows(a) && g.shows(b),
                forall|x: u64| #![trigger g.shows(x)] g.shows(x) ==> x < sz,
                reach@.no_duplicates(),
                forall|x: u64| #[trigger] queue@.contains(x) <==> edges.contains_key((v, x)),
                forall|x: u64| #[trigger] reach@.contains(x) ==> !queue@.contains(x) && x < sz && has_source(edges, x),
                forall|x: u64| #![trigger scratch.best@[x as int]] x < sz ==> (scratch.best@[x as int] is Some <==> queue@.contains(x) || reach@.contains(x)),
                forall|x: u64| #![trigger scratch.best@[x as int]] x < sz && scratch.best@[x as int] is Some ==>
                    constraints::implied(edges, v, x, scratch.best@[x as int].unwrap()@),
                forall|d: u64| #![trigger edges.contains_key((v, d))] edges.contains_key((v, d)) ==> recorded(scratch.best@, d, edges[(v, d)]@),
                forall|q: int, d: u64| #![trigger queue@[q], edges.contains_key((queue@[q], d))] 0 <= q < i && edges.contains_key((queue@[q], d)) && d != v ==>
                    recorded(scratch.best@, d, number::saturate(edges[(v, queue@[q])]@ + edges[(queue@[q], d)]@)),
                forall|q: int| #![trigger es@[q]] 0 <= q < k && es@[q].vert != v ==>
                    recorded(scratch.best@, es@[q].vert, number::saturate(edges[(v, m)]@ + es@[q].val@)),
            decreases es@.len() - k,
        {
            let e: EdgeRef = es[k];
            let d: VertId = e.vert;
            assert(edges.contains_key(graph::edge_key(m, d, true)));
            assert(edges.contains_key((m, d)));
            assert(d < scratch.best.len());
            let du: usize = d as usize;
            let ghost before = scratch.best@;
            let ghost rb = reach@;
            if d != v {
                let wt: Weight = m_wt.add(e.val);
                proof {
                    constraints::lemma_implied_edge(edges, m, d);
                    constraints::lemma_implied_path(edges, v, m, d, m_wt@, e.val@);
                }
                match scratch.best[du] {
                    None => {
                        scratch.best.set(du, Some(wt));
                        assert(!reach@.contains(d));
                        reach.push(d);
                        proof { graph_views::lemma_push_contains(rb, d); }
                    },
                    Some(x) => {
                        if wt.lt(x) {
                            scratch.best.set(du, Some(wt));
                        }
                    },
                }
                assert(recorded(scratch.best@, d, number::saturate(edges[(v, m)]@ + e.val@)));
            }
            proof {
                assert forall|y: u64, w: int| #[trigger] recorded(before, y, w) && y < sz implies recorded(scratch.best@, y, w) by {}
            }
            k = k + 1;
        }
        proof {
            assert forall|q: int, d: u64| #![trigger queue@[q], edges.contains_key((queue@[q], d))] 0 <= q < i + 1 && edges.contains_key((queue@[q], d)) && d != v implies
                recorded(scratch.best@, d, number::saturate(edges[(v, queue@[q])]@ + edges[(queue@[q], d)]@)) by {
                if q == i {
                    assert(edges.contains_key(graph::edge_key(m, d, true)));
                    let z = choose|z: int| 0 <= z < es@.len() && (#[trigger] es@[z]).vert == d;
                    assert(edges.contains_key(graph::edge_key(m, es@[z].vert, true)));
                }
            }
        }
        i = i + 1;
    }
    let mut aux: Vec<(VertId, Weight)> = Vec::new();
    let ghost all = queue@ + reach@;
    let total: usize = queue.len();
    let mut i: usize = 0;
    while i < total
        invariant
            i <= total,
            total == queue@.len(),
            all == queue@ + reach@,
            scratch.best@.len() == sz,
            sz == g.slots(),
            forall|x: u64| #[trigger] queue@.contains(x) ==> x < sz,
            forall|x: u64| #![trigger scratch.best@[x as int]] x < sz ==> (scratch.best@[x as int] is Some <==> queue@.contains(x) || reach@.contains(x)),
            aux@.len() == i,
            forall|k: int| 0 <= k < i ==> (#[trigger] aux@[k]).0 == all[k] && scratch.best@[all[k] as int] == Some(aux@[k].1),
        decreases total - i,
    {
        let d: VertId = queue[i];
        assert(queue@.contains(d));
        assert(d < scratch.best.len());
        aux.push((d, scratch.best[d as usize].unwrap()));
        i = i + 1;
    }
    let mut i: usize = 0;
    while i < reach.len()
        invariant
            i <= reach@.len(),
            all == queue@ + reach@,
            scratch.best@.len() == sz,
            sz == g.slots(),
            forall|x: u64| #[trigger] reach@.contains(x) ==> x < sz,
            forall|x: u64| #![trigger scratch.best@[x as int]] x < sz ==> (scratch.best@[x as int] is Some <==> queue@.contains(x) || reach@.contains(x)),
            aux@.len() == queue@.len() + i,
            forall|k: int| 0 <= k < aux@.len() ==> (#[trigger] aux@[k]).0 == all[k] && scratch.best@[all[k] as int] == Some(aux@[k].1),
        decreases reach@.len() - i,
    {
        let d: VertId = reach[i];
        assert(reach@.contains(d));
        assert(d < scratch.best.len());
        aux.push((d, scratch.best[d as usize].unwrap()));
        i = i + 1;
    }
    proof {
        assert forall|a: int, b: int| #![trigger aux@[a], aux@[b]] 0 <= a < b < aux@.len() implies aux@[a].0 != aux@[b].0 by {
            assert(aux@[a].0 == all[a] && aux@[b].0 == all[b]);
            if b < queue@.len() {
            } else if a >= queue@.len() {
                assert(reach@[a - queue@.len()] != reach@[b - queue@.len()]);
            } else {
                assert(queue@.contains(all[a]));
                assert(reach@.contains(all[b]));
            }
        }
        assert forall|a: int| #![trigger aux@[a]] 0 <= a < aux@.len() implies constraints::implied(edges, v, aux@[a].0, aux@[a].1@)
            && g.shows(aux@[a].0) && has_source(edges, aux@[a].0) by {
            assert(aux@[a].0 == all[a]);
            if a < queue@.len() { assert(queue@.contains(all[a])); assert(edges.contains_key((v, all[a]))); } else { assert(reach@.contains(all[a])); }
        }
        assert forall|d: u64, w: int| d < sz && recorded(scratch.best@, d, w) implies #[trigger] has_bound(aux@, d, w) by {
            if queue@.contains(d) {
                let k = choose|k: int| 0 <= k < queue@.len() && queue@[k] == d;
                assert(all[k] == d);
                assert(aux@[k].0 == d);
            } else {
                assert(reach@.contains(d));
                let k = choose|k: int| 0 <= k < reach@.len() && reach@[k] == d;
                assert(all[k + queue@.len()] == d);
                assert(aux@[k + queue@.len()].0 == d);
            }
        }
        assert forall|m: u64, d: u64| #![trigger edges.contains_key((v, m)), edges.contains_key((m, d))]
            edges.contains_key((v, m)) && edges.contains_key((m, d)) && d != v
                implies has_bound(aux@, d, number::saturate(edges[(v, m)]@ + edges[(m, d)]@)) by {
            assert(queue@.contains(m));
            let k = choose|k: int| 0 <= k < queue@.len() && queue@[k] == m;
            assert(edges.contains_key((queue@[k], d)));
            assert(recorded(scratch.best@, d, number::saturate(edges[(v, m)]@ + edges[(m, d)]@)));
        }
        assert forall|d: u64| #![trigger edges.contains_key((v, d))] edges.contains_key((v, d)) implies has_bound(aux@, d, edges[(v, d)]@) by {
            assert(recorded(scratch.best@, d, edges[(v, d)]@));
        }
    }
    aux
}

/// `delta` gives an edge from `s` to `d` of weight at most `w`.
pub open spec fn gives(delta: Seq<(u64, u64, Number)>, s: u64, d: u64, w: int) -> bool {
    exists|i: int| 0 <= i < delta.len() && (#[trigger] delta[i]).0 == s && delta[i].1 == d && delta[i].2@ <= w
}

/// No two updates are of one edge, loops aside.
pub open spec fn updates_once(delta: Seq<(u64, u64, Number)>) -> bool {
    forall|i: int, j: int| #![trigger delta[i], delta[j]] 0 <= i < j < delta.len() && delta[i].0 != delta[i].1
        ==> (delta[i].0, delta[i].1) != (delta[j].0, delta[j].1)
}

/// An update that occurs once is in effect.
pub proof fn lemma_update_given(edges: Edges, delta: Seq<(u64, u64, Number)>, s: u64, d: u64, w: int)
    requires updates_once(delta), gives(delta, s, d, w), s != d,
    ensures
        updated(edges, delta).contains_key((s, d)),
        updated(edges, delta)[(s, d)]@ <= w,
    decreases delta.len(),
{
    let i = choose|i: int| 0 <= i < delta.len() && (#[trigger] delta[i]).0 == s && delta[i].1 == d && delta[i].2@ <= w;
    let pre = delta.drop_last();
    if i < delta.len() - 1 {
        assert(pre[i] == delta[i]);
        assert(updates_once(pre)) by {
            assert forall|a: int, b: int| #![trigger pre[a], pre[b]] 0 <= a < b < pre.len() && pre[a].0 != pre[a].1
                implies (pre[a].0, pre[a].1) != (pre[b].0, pre[b].1) by {
                assert(pre[a] == delta[a] && pre[b] == delta[b]);
            }
        }
        lemma_update_given(edges, pre, s, d, w);
        assert((delta[i].0, delta[i].1) != (delta[delta.len() - 1].0, delta[delta.len() - 1].1));
    }
}

/// Closure after the vertex `v` was assigned: for every path of two edges out
/// of `v` or into `v` an edge that is no heavier.
pub fn close_after_assign<G: ReadableGraph>(scratch: &mut ScratchSpace, g: &G, p: &Vec<Weight>, v: VertId) -> (delta: EdgeVector)
    requires
        g.ok(),
        g.shows(v),
        p@.len() >= g.slots(),
    ensures
        tightens(g.shown(), delta@),
        forall|i: int| 0 <= i < delta@.len() ==> g.shows((#[trigger] delta@[i]).0) && g.shows(delta@[i].1)
            && (delta@[i].0 == v || delta@[i].1 == v),
        updates_once(delta@),
        forall|m: u64, d: u64| #![trigger g.shown().contains_key((v, m)), g.shown().contains_key((m, d))]
            g.shown().contains_key((v, m)) && g.shown().contains_key((m, d)) && d != v
                ==> gives(delta@, v, d, number::saturate(g.shown()[(v, m)]@ + g.shown()[(m, d)]@)),
        forall|s: u64, m: u64| #![trigger g.shown().contains_key((s, m)), g.shown().contains_key((m, v))]
            g.shown().contains_key((s, m)) && g.shown().contains_key((m, v)) && s != v
                ==> gives(delta@, s, v, number::saturate(g.shown()[(m, v)]@ + g.shown()[(s, m)]@)),
{
    let ghost edges = g.shown();
    let mut delta: EdgeVector = Vec::new();
    let out: Vec<(VertId, Weight)> = close_after_assign_fwd(scratch, g, p, false, v);
    let mut i: usize = 0;
    while i < out.len()
        invariant
            i <= out@.len(),
            delta@.len() == i,
            forall|k: int| 0 <= k < i ==> #[trigger] delta@[k] == (v, out@[k].0, out@[k].1),
        decreases out@.len() - i,
    {
        delta.push((v, out[i].0, out[i].1));
        i = i + 1;
    }
    let rev = GraphRev::new(g);
    let inc: Vec<(VertId, Weight)> = close_after_assign_fwd(scratch, &rev, p, true, v);
    let mut i: usize = 0;
    while i < inc.len()
        invariant
            i <= inc@.len(),
            delta@.len() == out@.len() + i,
            forall|k: int| 0 <= k < out@.len() ==> #[trigger] delta@[k] == (v, out@[k].0, out@[k].1),
            forall|k: int| out@.len() <= k < delta@.len() ==> #[trigger] delta@[k] == (inc@[k - out@.len()].0, v, inc@[k - out@.len()].1),
        decreases inc@.len() - i,
    {
        delta.push((inc[i].0, v, inc[i].1));
        i = i + 1;
    }
    proof {
        let redges = rev.shown();
        assert forall|k: int| 0 <= k < delta@.len() implies ({
            let (s, d, w) = #[trigger] delta@[k];
            constraints::implied(edges, s, d, w@) && (edges.contains_key((s, d)) ==> w@ <= edges[(s, d)]@)
        }) by {
            if k < out@.len() {
                let d = out@[k].0;
                assert(constraints::implied(edges, v, d, out@[k].1@));
                if edges.contains_key((v, d)) {
                    let q = choose|q: int| 0 <= q < out@.len() && (#[trigger] out@[q]).0 == d && out@[q].1@ <= edges[(v, d)]@;
                    if q < k { assert(out@[q].0 != out@[k].0); } else if k < q { assert(out@[k].0 != out@[q].0); }
                }
            } else {
                let r = k - out@.len();
                let s = inc@[r].0;
                lemma_implied_reversed(edges, v, s, inc@[r].1@);
                if edges.contains_key((s, v)) {
                    assert(redges.contains_key((v, s)));
                    let q = choose|q: int| 0 <= q < inc@.len() && (#[trigger] inc@[q]).0 == s && inc@[q].1@ <= redges[(v, s)]@;
                    if q < r { assert(inc@[q].0 != inc@[r].0); } else if r < q { assert(inc@[r].0 != inc@[q].0); }
                }
            }
        }
        assert forall|a: int, b: int| #![trigger delta@[a], delta@[b]] 0 <= a < b < delta@.len() && delta@[a].0 != delta@[a].1
            implies (delta@[a].0, delta@[a].1) != (delta@[b].0, delta@[b].1) by {
            let n = out@.len();
            if b < n {
                assert(out@[a].0 != out@[b].0);
            } else if a >= n {
                assert(inc@[a - n].0 != inc@[b - n].0);
            } else {
                assert(delta@[a] == (v, out@[a].0, out@[a].1));
                assert(delta@[b] == (inc@[b - n].0, v, inc@[b - n].1));
            }
        }
        assert forall|k: int| 0 <= k < delta@.len() implies g.shows((#[trigger] delta@[k]).0) && g.shows(delta@[k].1)
            && (delta@[k].0 == v || delta@[k].1 == v) by {
            if k < out@.len() { assert(g.shows(out@[k].0)); } else { assert(rev.shows(inc@[k - out@.len()].0)); }
        }
        assert forall|m: u64, d: u64| #![trigger edges.contains_key((v, m)), edges.contains_key((m, d))]
            edges.contains_key((v, m)) && edges.contains_key((m, d)) && d != v
                implies gives(delta@, v, d, number::saturate(edges[(v, m)]@ + edges[(m, d)]@)) by {
            let w = number::saturate(edges[(v, m)]@ + edges[(m, d)]@);
            assert(has_bound(out@, d, w));
            let q = choose|q: int| 0 <= q < out@.len() && (#[trigger] out@[q]).0 == d && out@[q].1@ <= w;
            assert(delta@[q] == (v, out@[q].0, out@[q].1));
        }
        assert forall|s: u64, m: u64| #![trigger edges.contains_key((s, m)), edges.contains_key((m, v))]
            edges.contains_key((s, m)) && edges.contains_key((m, v)) && s != v
                implies gives(delta@, s, v, number::saturate(edges[(m, v)]@ + edges[(s, m)]@)) by {
            let w = number::saturate(edges[(m, v)]@ + edges[(s, m)]@);
            assert(redges.contains_key((v, m)) && redges.contains_key((m, s)));
            assert(has_bound(inc@, s, w));
            let q = choose|q: int| 0 <= q < inc@.len() && (#[trigger] inc@[q]).0 == s && inc@[q].1@ <= w;
            assert(delta@[q + out@.len()] == (inc@[q].0, v, inc@[q].1));
        }
    }
    delta
}

/// What follows from the reversed edges, reversed, follows from the edges.
proof fn lemma_implied_reversed(edges: Edges, v: u64, s: u64, w: int)
    requires constraints::implied(graph_views::reversed_edges(edges), v, s, w),
    ensures constraints::implied(edges, s, v, w),
{
    reveal(constraints::implied);
    let rev = graph_views::reversed_edges(edges);
    assert forall|x: Val| constraints::wide(x) && #[trigger] constraints::models(edges, x) implies x(v) - x(s) <= w by {
        let y = |u: u64| -x(u);
        assert(constraints::wide(y)) by {
            assert forall|a: u64, b: u64| #![trigger y(a), y(b)] constraints::near_or_far(y(a) - y(b)) by {
                assert(constraints::near_or_far(x(b) - x(a)));
            }
        }
        assert(constraints::models(rev, y)) by {
            assert forall|a: u64, b: u64| #![trigger rev.contains_key((a, b))] rev.contains_key((a, b)) implies y(b) - y(a) <= rev[(a, b)]@ by {
                assert(edges.contains_key((b, a)));
            }
        }
        assert(y(s) - y(v) <= w);
    }
}

/// Colour of an edge that the left graph contributes.
const E_LEFT: u8 = 1;

/// Colour of an edge that the right graph contributes.
const E_RIGHT: u8 = 2;

/// Colour of an edge that both graphs contribute.
const E_BOTH: u8 = 3;

/// Mark of a vertex whose best path needs no further search.
const V_STABLE: u8 = 1;

/// Which of two graphs contributes the edge `s -> d` of weight `w`.
fn edge_colour<L: ReadableGraph, R: ReadableGraph>(l: &L, r: &R, s: VertId, d: VertId, w: Weight) -> (m: u8)
    requires l.ok(), r.ok(), s < l.slots(), d < l.slots(), s < r.slots(), d < r.slots(),
    ensures
        m == (if l.shown().contains_key((s, d)) && l.shown()[(s, d)] == w { 1int } else { 0 })
            + (if r.shown().contains_key((s, d)) && r.shown()[(s, d)] == w { 2int } else { 0 }),
{
    let mut m: u8 = 0;
    if let Some(x) = l.lookup(s, d) {
        if x == w {
            m = m + 1;
        }
    }
    if let Some(x) = r.lookup(s, d) {
        if x == w {
            m = m + 2;
        }
    }
    m
}

/// Merges two marks.
fn merge_marks(a: u8, b: u8) -> (r: u8)
    ensures r == a | b,
{
    a | b
}

/// The search state is sound: recorded costs follow from the edges, and the
/// heap holds visible vertices with a cost.
spec fn search_ok<G: ReadableGraph>(g: &G, src: u64, scratch: ScratchSpace, heap: WeightHeap) -> bool {
    &&& scratch.best@.len() == g.slots()
    &&& scratch.dists@.len() == g.slots()
    &&& scratch.marks@.len() == g.slots()
    &&& heap.wf(scratch.dists@.len())
    &&& forall|x: u64| #![trigger scratch.best@[x as int]] x < g.slots() && scratch.best@[x as int] is Some ==>
        g.shows(x) && constraints::implied(g.shown(), src, x, scratch.best@[x as int].unwrap()@)
    &&& forall|x: u64| #[trigger] heap.items().contains(x) ==> x < g.slots() && scratch.best@[x as int] is Some
}

/// A vertex was reached at a cost of at most `w`.
pub open spec fn reached(best: Seq<Option<Weight>>, d: u64, w: int) -> bool {
    d < best.len() && (best[d as int] matches Some(c) && c@ <= w)
}

/// How much the cost of a vertex can still fall.
spec fn room(c: Option<Weight>) -> nat {
    match c {
        Some(w) => (w@ - i128::MIN) as nat,
        None => (i128::MAX - i128::MIN + 1) as nat,
    }
}

/// How much the costs of the first `n` vertices can still fall.
spec fn total_room(best: Seq<Option<Weight>>, n: nat) -> nat
    decreases n,
{
    if n == 0 { 0 } else { total_room(best, (n - 1) as nat) + room(best[n - 1]) }
}

proof fn lemma_room_falls(a: Seq<Option<Weight>>, b: Seq<Option<Weight>>, d: int, n: nat)
    requires
        a.len() == b.len(),
        n <= a.len(),
        0 <= d < a.len(),
        forall|i: int| 0 <= i < a.len() && i != d ==> a[i] == b[i],
        room(b[d]) < room(a[d]),
    ensures
        d < n ==> total_room(b, n) < total_room(a, n),
        d >= n ==> total_room(b, n) == total_room(a, n),
    decreases n,
{
    if n > 0 {
        lemma_room_falls(a, b, d, (n - 1) as nat);
    }
}

/// What one visit changes: the vertex is reached at the cost or a lower one. Where its cost fell it
/// is in the heap with the new mark; otherwise its mark may have been merged.
spec fn visited(a: ScratchSpace, ha: WeightHeap, d: u64, cost: Weight, mark: u8, b: ScratchSpace, hb: WeightHeap) -> bool {
    &&& b.best@.len() == a.best@.len()
    &&& b.marks@.len() == a.marks@.len()
    &&& forall|x: u64| #![trigger b.best@[x as int]] x < a.best@.len() && x != d ==> b.best@[x as int] == a.best@[x as int]
    &&& forall|x: u64| #![trigger b.marks@[x as int]] x < a.marks@.len() && x != d ==> b.marks@[x as int] == a.marks@[x as int]
    &&& if reached(a.best@, d, cost@) {
            &&& b.best@ == a.best@
            &&& hb.items() == ha.items()
            &&& b.marks@[d as int] == a.marks@[d as int] || b.marks@[d as int] == a.marks@[d as int] | mark
        } else {
            &&& b.best@[d as int] == Some(cost)
            &&& b.marks@[d as int] == mark
            &&& hb.items() == ha.items().insert(d)
            &&& total_room(b.best@, b.best@.len()) < total_room(a.best@, a.best@.len())
        }
}

/// Records the cost `cost` of reaching `d` where it improves on what is known.
fn visit<G: ReadableGraph>(
    scratch: &mut ScratchSpace,
    heap: &mut WeightHeap,
    g: &G,
    p: &Vec<Weight>,
    src: VertId,
    d: VertId,
    cost: Weight,
    mark: u8,
)
    requires
        g.ok(),
        g.shows(src),
        g.shows(d),
        p@.len() >= g.slots(),
        search_ok(g, src, *old(scratch), *old(heap)),
        constraints::implied(g.shown(), src, d, cost@),
    ensures
        search_ok(g, src, *final(scratch), *final(heap)),
        visited(*old(scratch), *old(heap), d, cost, mark, *final(scratch), *final(heap)),
{
    proof { g.lemma_shown(); }
    assert(d < scratch.best.len());
    assert(d < p.len() && src < p.len());
    let du: usize = d as usize;
    let ghost os = *scratch;
    let ghost oh = *heap;
    match scratch.best[du] {
        Some(c) => {
            if c.le(cost) {
                if c == cost {
                    let m: u8 = merge_marks(scratch.marks[du], mark);
                    scratch.marks.set(du, m);
                }
                return;
            }
        }
        None => {}
    }
    let key: Weight = cost.add(p[src as usize]).sub(p[du]);
    scratch.best.set(du, Some(cost));
    scratch.dists.set(du, key);
    scratch.marks.set(du, mark);
    if heap.in_heap(d) {
        heap.decrease(d, &scratch.dists);
        assert(oh.items().insert(d) =~= oh.items());
    } else {
        heap.insert(d, &scratch.dists);
    }
    proof {
        assert forall|x: u64| #[trigger] heap.items().contains(x) implies x < g.slots() && scratch.best@[x as int] is Some by {
            if x != d { assert(oh.items().contains(x)); }
        }
        lemma_room_falls(os.best@, scratch.best@, d as int, os.best@.len());
    }
}

/// Every listed vertex is visible, its weight follows from the edges, and it
/// improves on the edge from `src`.
spec fn improvements<G: ReadableGraph>(g: &G, src: u64, out: Seq<(u64, Number)>) -> bool {
    forall|i: int| #![trigger out[i]] 0 <= i < out.len() ==> g.shows(out[i].0)
        && constraints::implied(g.shown(), src, out[i].0, out[i].1@)
        && (g.shown().contains_key((src, out[i].0)) ==> out[i].1@ < g.shown()[(src, out[i].0)]@)
}

/// The weights listed for a vertex do not rise.
pub open spec fn falling(out: Seq<(u64, Number)>) -> bool {
    forall|i: int, j: int| #![trigger out[i], out[j]] 0 <= i < j < out.len() && out[i].0 == out[j].0 ==> out[j].1@ <= out[i].1@
}

/// What is listed is no lower than what was reached.
spec fn above(out: Seq<(u64, Number)>, best: Seq<Option<Weight>>) -> bool {
    falling(out) && forall|i: int| #![trigger out[i]] 0 <= i < out.len() ==> reached(best, out[i].0, out[i].1@)
}

/// The edges from `src` to `d`, and those listed, hold one of weight at most `w`.
pub open spec fn offers(edges: Edges, src: u64, out: Seq<(u64, Number)>, d: u64, w: int) -> bool {
    ||| edges.contains_key((src, d)) && edges[(src, d)]@ <= w
    ||| exists|i: int| 0 <= i < out.len() && (#[trigger] out[i]).0 == d && out[i].1@ <= w
}

/// Every edge from `m` was followed from the cost of `m`.
pub open spec fn followed(edges: Edges, best: Seq<Option<Weight>>, m: u64) -> bool {
    forall|d: u64| #![trigger edges.contains_key((m, d))] edges.contains_key((m, d)) ==> reached(best, d, number::saturate(best[m as int].unwrap()@ + edges[(m, d)]@))
}

/// Some stable vertex that was reached has an edge to `m`.
pub open spec fn behind_stable(edges: Edges, unstable: Set<u64>, best: Seq<Option<Weight>>, m: u64) -> bool {
    exists|b: u64| #![trigger edges.contains_key((b, m))] b < best.len() && best[b as int] is Some && !unstable.contains(b) && edges.contains_key((b, m))
}

/// Costs of reaching vertices from `src` that are closed: every edge from `src` was followed, and
/// every edge from a vertex that was reached, unless a stable vertex leads to it.
pub open spec fn recovers(edges: Edges, unstable: Set<u64>, src: u64, best: Seq<Option<Weight>>) -> bool {
    &&& forall|d: u64| #![trigger edges.contains_key((src, d))] edges.contains_key((src, d)) ==> reached(best, d, edges[(src, d)]@)
    &&& forall|m: u64| #![trigger best[m as int]] m < best.len() && best[m as int] is Some ==> followed(edges, best, m) || behind_stable(edges, unstable, best, m)
}

/// A visit takes no vertex away that was reached.
proof fn lemma_visited_keeps(a: ScratchSpace, ha: WeightHeap, d: u64, cost: Weight, mark: u8, b: ScratchSpace, hb: WeightHeap)
    requires visited(a, ha, d, cost, mark, b, hb), d < a.best@.len(),
    ensures
        reached(b.best@, d, cost@),
        forall|x: u64, w: int| #[trigger] reached(a.best@, x, w) ==> reached(b.best@, x, w),
        forall|x: u64| #![trigger b.best@[x as int]] x < a.best@.len() && a.best@[x as int] is Some ==> b.best@[x as int] is Some,
        forall|x: u64| #![trigger hb.items().contains(x)] !hb.items().contains(x) && x < a.best@.len() ==> !ha.items().contains(x) && b.best@[x as int] == a.best@[x as int],
{
    assert forall|x: u64, w: int| #[trigger] reached(a.best@, x, w) implies reached(b.best@, x, w) by {
        assert(b.best@[x as int] is Some);
    }
    assert forall|x: u64| #![trigger hb.items().contains(x)] !hb.items().contains(x) && x < a.best@.len() implies !ha.items().contains(x) && b.best@[x as int] == a.best@[x as int] by {
        if x != d { assert(b.best@[x as int] == a.best@[x as int]); }
    }
}

/// The state of the search from `src` after a widening. Vertices that are not in the heap, other
/// than `busy`, have been dealt with.
spec fn recovering<G: ReadableGraph>(g: &G, unstable: Set<u64>, src: u64, s: ScratchSpace, heap: WeightHeap, out: Seq<(u64, Number)>, busy: Option<u64>) -> bool {
    let edges = g.shown();
    &&& search_ok(g, src, s, heap)
    &&& improvements(g, src, out)
    &&& above(out, s.best@)
    &&& forall|m: u64| #![trigger s.marks@[m as int]] m < g.slots() ==> s.marks@[m as int] == 0 || s.marks@[m as int] == V_STABLE
    &&& forall|m: u64| #![trigger s.marks@[m as int]] m < g.slots() && s.marks@[m as int] == V_STABLE ==> behind_stable(edges, unstable, s.best@, m)
    &&& forall|m: u64| #![trigger s.best@[m as int]] m < g.slots() && s.best@[m as int] is Some && !heap.items().contains(m) ==>
        offers(edges, src, out, m, s.best@[m as int].unwrap()@) && (busy == Some(m) || s.marks@[m as int] == V_STABLE || followed(edges, s.best@, m))
}

proof fn lemma_recovering_visit<G: ReadableGraph>(g: &G, unstable: Set<u64>, src: u64, a: ScratchSpace, ha: WeightHeap, out: Seq<(u64, Number)>, busy: Option<u64>, d: u64, cost: Weight, mark: u8, b: ScratchSpace, hb: WeightHeap)
    requires
        recovering(g, unstable, src, a, ha, out, busy),
        search_ok(g, src, b, hb),
        visited(a, ha, d, cost, mark, b, hb),
        d < g.slots(),
        mark == 0 || (mark == V_STABLE && behind_stable(g.shown(), unstable, a.best@, d)),
    ensures
        recovering(g, unstable, src, b, hb, out, busy),
        reached(b.best@, d, cost@),
        forall|x: u64, w: int| #[trigger] reached(a.best@, x, w) ==> reached(b.best@, x, w),
{
    let edges = g.shown();
    lemma_visited_keeps(a, ha, d, cost, mark, b, hb);
    assert(above(out, b.best@)) by {
        assert forall|i: int| #![trigger out[i]] 0 <= i < out.len() implies reached(b.best@, out[i].0, out[i].1@) by { assert(reached(a.best@, out[i].0, out[i].1@)); }
    }
    assert(0u8 | 0u8 == 0u8 && 0u8 | 1u8 == 1u8 && 1u8 | 0u8 == 1u8 && 1u8 | 1u8 == 1u8) by (bit_vector);
    assert forall|m: u64| behind_stable(edges, unstable, a.best@, m) implies behind_stable(edges, unstable, b.best@, m) by {
        let s = choose|s: u64| #![trigger edges.contains_key((s, m))] s < a.best@.len() && a.best@[s as int] is Some && !unstable.contains(s) && edges.contains_key((s, m));
        assert(b.best@[s as int] is Some);
    }
    assert forall|m: u64| #![trigger b.marks@[m as int]] m < g.slots() implies (b.marks@[m as int] == 0 || b.marks@[m as int] == V_STABLE)
        && (b.marks@[m as int] == V_STABLE ==> behind_stable(edges, unstable, b.best@, m)) by {
        assert(a.marks@[m as int] == 0 || a.marks@[m as int] == V_STABLE);
        if m != d { assert(b.marks@[m as int] == a.marks@[m as int]); }
    }
    assert forall|m: u64| #![trigger b.best@[m as int]] m < g.slots() && b.best@[m as int] is Some && !hb.items().contains(m) implies
        offers(edges, src, out, m, b.best@[m as int].unwrap()@) && (busy == Some(m) || b.marks@[m as int] == V_STABLE || followed(edges, b.best@, m)) by {
        assert(b.best@[m as int] == a.best@[m as int]);
        assert(a.marks@[m as int] == 0 || a.marks@[m as int] == V_STABLE);
        if m != d { assert(b.marks@[m as int] == a.marks@[m as int]); }
        if followed(edges, a.best@, m) {
            assert forall|t: u64| #![trigger edges.contains_key((m, t))] edges.contains_key((m, t)) implies
                reached(b.best@, t, number::saturate(b.best@[m as int].unwrap()@ + edges[(m, t)]@)) by {
                assert(reached(a.best@, t, number::saturate(a.best@[m as int].unwrap()@ + edges[(m, t)]@)));
            }
        }
    }
}

/// Shortest-path search from an unstable vertex, for the closure after a
/// widening: a path that came through a stable vertex is not continued.
fn dijkstra_recover<G: ReadableGraph>(
    scratch: &mut ScratchSpace,
    g: &G,
    p: &Vec<Weight>,
    unstable: &VertSet,
    src: VertId,
) -> (r: (Vec<(VertId, Weight)>, Ghost<Seq<Option<Weight>>>))
    requires
        g.ok(),
        g.shows(src),
        p@.len() >= g.slots(),
        unstable@.contains(src),
    ensures
        improvements(g, src, r.0@),
        falling(r.0@),
        r.1@.len() == g.slots(),
        recovers(g.shown(), unstable@, src, r.1@),
        forall|d: u64| #![trigger r.1@[d as int]] d < g.slots() && r.1@[d as int] is Some ==> offers(g.shown(), src, r.0@, d, r.1@[d as int].unwrap()@),
{
    let sz: usize = g.size();
    scratch.grow(sz);
    let mut heap = WeightHeap::new();
    let mut out: Vec<(VertId, Weight)> = Vec::new();
    let ghost edges = g.shown();
    proof { g.lemma_shown(); }
    let first: Vec<EdgeRef> = g.e_succs(src);
    let mut i: usize = 0;
    while i < first.len()
        invariant
            i <= first@.len(),
            g.ok(),
            g.shows(src),
            p@.len() >= g.slots(),
            edges == g.shown(),
            graph::lists_edges(first@, edges, src, true),
            recovering(g, unstable@, src, *scratch, heap, out@, None),
            forall|k: int| #![trigger first@[k]] 0 <= k < i ==> reached(scratch.best@, first@[k].vert, first@[k].val@),
        decreases first@.len() - i,
    {
        let e: EdgeRef = first[i];
        assert(edges.contains_key(graph::edge_key(src, e.vert, true)));
        proof { g.lemma_shown(); assert(edges.contains_key((src, e.vert))); constraints::lemma_implied_edge(edges, src, e.vert); }
        let ghost s0 = *scratch;
        let ghost h0 = heap;
        visit(scratch, &mut heap, g, p, src, e.vert, e.val, 0);
        proof { lemma_recovering_visit(g, unstable@, src, s0, h0, out@, None, e.vert, e.val, 0, *scratch, heap); }
        i = i + 1;
    }
    proof {
        assert forall|d: u64| #![trigger edges.contains_key((src, d))] edges.contains_key((src, d)) implies reached(scratch.best@, d, edges[(src, d)]@) by {
            assert(edges.contains_key(graph::edge_key(src, d, true)));
            let k = choose|k: int| 0 <= k < first@.len() && (#[trigger] first@[k]).vert == d;
            assert(edges[graph::edge_key(src, first@[k].vert, true)] == first@[k].val);
        }
        heap.lemma_finite();
    }
    while !heap.empty()
        invariant
            g.ok(),
            g.shows(src),
            p@.len() >= g.slots(),
            edges == g.shown(),
            recovering(g, unstable@, src, *scratch, heap, out@, None),
            forall|d: u64| #![trigger edges.contains_key((src, d))] edges.contains_key((src, d)) ==> reached(scratch.best@, d, edges[(src, d)]@),
            heap.items().finite(),
        decreases total_room(scratch.best@, scratch.best@.len()), heap.items().len(),
    {
        let ghost s_top = *scratch;
        let ghost h_top = heap;
        let es: VertId = heap.remove_min(&scratch.dists);
        proof { g.lemma_shown(); heap.lemma_finite(); }
        assert(es < scratch.best.len());
        let cost: Weight = scratch.best[es as usize].unwrap();
        assert(g.shows(es));
        let improves: bool = match g.lookup(src, es) {
            None => true,
            Some(w) => cost.lt(w),
        };
        let ghost before = out@;
        if improves {
            out.push((es, cost));
        }
        proof { lemma_popped(g, src, scratch.best@, before, out@, es, cost, improves); }
        assert(recovering(g, unstable@, src, *scratch, heap, out@, Some(es))) by {
            assert forall|m: u64| #![trigger scratch.best@[m as int]] m < g.slots() && scratch.best@[m as int] is Some && !heap.items().contains(m) implies
                offers(edges, src, out@, m, scratch.best@[m as int].unwrap()@)
                && (Some(es) == Some(m) || scratch.marks@[m as int] == V_STABLE || followed(edges, scratch.best@, m)) by {
                if m != es {
                    assert(!h_top.items().contains(m));
                    assert(offers(edges, src, before, m, scratch.best@[m as int].unwrap()@));
                }
            }
        }
        let stopped: bool = scratch.marks[es as usize] == V_STABLE;
        if !stopped {
            let mark: u8 = if unstable.contains(es) { 0 } else { V_STABLE };
            let nexts: Vec<EdgeRef> = g.e_succs(es);
            let mut k: usize = 0;
            while k < nexts.len()
                invariant
                    k <= nexts@.len(),
                    g.ok(),
                    g.shows(src),
                    g.shows(es),
                    es < g.slots(),
                    p@.len() >= g.slots(),
                    edges == g.shown(),
                    graph::lists_edges(nexts@, edges, es, true),
                    constraints::implied(edges, src, es, cost@),
                    mark == 0 || (mark == V_STABLE && !unstable@.contains(es)),
                    recovering(g, unstable@, src, *scratch, heap, out@, Some(es)),
                    forall|d: u64| #![trigger edges.contains_key((src, d))] edges.contains_key((src, d)) ==> reached(scratch.best@, d, edges[(src, d)]@),
                    forall|q: int| #![trigger nexts@[q]] 0 <= q < k ==> reached(scratch.best@, nexts@[q].vert, number::saturate(cost@ + nexts@[q].val@)),
                    scratch.best@[es as int] is Some,
                    heap.items().contains(es) || scratch.best@[es as int] == Some(cost),
                    heap.items().finite(),
                    s_top.best@.len() == g.slots(),
                    total_room(scratch.best@, scratch.best@.len()) < total_room(s_top.best@, s_top.best@.len())
                        || (scratch.best@ == s_top.best@ && heap.items() == h_top.items().remove(es)),
                decreases nexts@.len() - k,
            {
                let e: EdgeRef = nexts[k];
                assert(edges.contains_key(graph::edge_key(es, e.vert, true)));
                proof {
                    g.lemma_shown();
                    assert(edges.contains_key((es, e.vert)));
                    constraints::lemma_implied_edge(edges, es, e.vert);
                    constraints::lemma_implied_path(edges, src, es, e.vert, cost@, e.val@);
                }
                let ghost s0 = *scratch;
                let ghost h0 = heap;
                let next: Weight = cost.add(e.val);
                visit(scratch, &mut heap, g, p, src, e.vert, next, mark);
                proof {
                    lemma_recovering_visit(g, unstable@, src, s0, h0, out@, Some(es), e.vert, next, mark, *scratch, heap);
                    lemma_visited_keeps(s0, h0, e.vert, next, mark, *scratch, heap);
                    heap.lemma_finite();
                    if !heap.items().contains(es) {
                        assert(scratch.best@[es as int] == s0.best@[es as int]);
                    }
                    assert(scratch.best@[es as int] is Some);
                    assert forall|q: int| #![trigger nexts@[q]] 0 <= q < k + 1 implies reached(scratch.best@, nexts@[q].vert, number::saturate(cost@ + nexts@[q].val@)) by {
                        if q < k { assert(reached(s0.best@, nexts@[q].vert, number::saturate(cost@ + nexts@[q].val@))); }
                    }
                    assert forall|d: u64| #![trigger edges.contains_key((src, d))] edges.contains_key((src, d)) implies reached(scratch.best@, d, edges[(src, d)]@) by {
                        assert(reached(s0.best@, d, edges[(src, d)]@));
                    }
                }
                k = k + 1;
            }
            proof {
                if !heap.items().contains(es) {
                    assert forall|d: u64| #![trigger edges.contains_key((es, d))] edges.contains_key((es, d)) implies
                        reached(scratch.best@, d, number::saturate(scratch.best@[es as int].unwrap()@ + edges[(es, d)]@)) by {
                        assert(edges.contains_key(graph::edge_key(es, d, true)));
                        let q = choose|q: int| 0 <= q < nexts@.len() && (#[trigger] nexts@[q]).vert == d;
                        assert(edges[graph::edge_key(es, nexts@[q].vert, true)] == nexts@[q].val);
                    }
                    assert(followed(edges, scratch.best@, es));
                }
            }
        }
        proof {
            assert(h_top.items().remove(es).len() < h_top.items().len());
            assert(recovering(g, unstable@, src, *scratch, heap, out@, None)) by {
                assert forall|m: u64| #![trigger scratch.best@[m as int]] m < g.slots() && scratch.best@[m as int] is Some && !heap.items().contains(m) implies
                    offers(edges, src, out@, m, scratch.best@[m as int].unwrap()@)
                    && (None::<u64> == Some(m) || scratch.marks@[m as int] == V_STABLE || followed(edges, scratch.best@, m)) by {}
            }
        }
    }
    let ghost best = scratch.best@;
    assert(recovers(edges, unstable@, src, best)) by {
        assert forall|m: u64| #![trigger best[m as int]] m < best.len() && best[m as int] is Some implies followed(edges, best, m) || behind_stable(edges, unstable@, best, m) by {
            assert(!heap.items().contains(m));
            assert(scratch.marks@[m as int] == 0 || scratch.marks@[m as int] == V_STABLE);
        }
    }
    (out, Ghost(best))
}

/// A vertex taken from the heap is listed where it improves on the edge to it.
proof fn lemma_popped<G: ReadableGraph>(g: &G, src: u64, best: Seq<Option<Weight>>, before: Seq<(u64, Number)>, out: Seq<(u64, Number)>, es: u64, cost: Weight, improves: bool)
    requires
        improvements(g, src, before),
        above(before, best),
        es < best.len(),
        best[es as int] == Some(cost),
        g.shows(es),
        constraints::implied(g.shown(), src, es, cost@),
        improves == (g.shown().contains_key((src, es)) ==> cost@ < g.shown()[(src, es)]@),
        out == (if improves { before.push((es, cost)) } else { before }),
    ensures
        improvements(g, src, out),
        above(out, best),
        offers(g.shown(), src, out, es, cost@),
        forall|d: u64, w: int| #[trigger] offers(g.shown(), src, before, d, w) ==> offers(g.shown(), src, out, d, w),
{
    let edges = g.shown();
    assert forall|k: int| #![trigger out[k]] 0 <= k < out.len() implies g.shows(out[k].0) && constraints::implied(edges, src, out[k].0, out[k].1@)
        && (edges.contains_key((src, out[k].0)) ==> out[k].1@ < edges[(src, out[k].0)]@) by {
        if k < before.len() { assert(out[k] == before[k]); }
    }
    assert forall|k: int| #![trigger out[k]] 0 <= k < out.len() implies reached(best, out[k].0, out[k].1@) by {
        if k < before.len() { assert(out[k] == before[k]); }
    }
    assert forall|i: int, j: int| #![trigger out[i], out[j]] 0 <= i < j < out.len() && out[i].0 == out[j].0 implies out[j].1@ <= out[i].1@ by {
        assert(out[i] == before[i]);
        if j < before.len() { assert(out[j] == before[j]); } else { assert(reached(best, before[i].0, before[i].1@)); }
    }
    if improves {
        assert(out[before.len() as int] == (es, cost));
    }
    assert forall|d: u64, w: int| #[trigger] offers(edges, src, before, d, w) implies offers(edges, src, out, d, w) by {
        if !(edges.contains_key((src, d)) && edges[(src, d)]@ <= w) {
            let i = choose|i: int| 0 <= i < before.len() && (#[trigger] before[i]).0 == d && before[i].1@ <= w;
            assert(out[i] == before[i]);
        }
    }
}

/// Which of two edge sets contribute the edge `s -> d` with the weight that it has in `edges`: the
/// left one counts one, the right one two.
pub open spec fn colour(edges: Edges, l: Edges, r: Edges, s: u64, d: u64) -> int {
    (if l.contains_key((s, d)) && l[(s, d)] == edges[(s, d)] { 1int } else { 0 })
        + (if r.contains_key((s, d)) && r[(s, d)] == edges[(s, d)] { 2int } else { 0 })
}

/// Every edge comes from one of two edge sets.
pub open spec fn coloured(edges: Edges, l: Edges, r: Edges) -> bool {
    forall|s: u64, d: u64| #![trigger edges.contains_key((s, d))] edges.contains_key((s, d)) ==> colour(edges, l, r, s, d) != 0
}

/// Every edge from `m` of one colour alone was followed from the cost of `m`.
pub open spec fn followed_in(edges: Edges, l: Edges, r: Edges, best: Seq<Option<Weight>>, m: u64, c: int) -> bool {
    forall|d: u64| #![trigger edges.contains_key((m, d))] edges.contains_key((m, d)) && colour(edges, l, r, m, d) == c
        ==> reached(best, d, number::saturate(best[m as int].unwrap()@ + edges[(m, d)]@))
}

/// An edge that has a colour, `c` or both, leads to `m` from `src` or from a vertex that was
/// reached.
pub open spec fn entered(edges: Edges, l: Edges, r: Edges, src: u64, best: Seq<Option<Weight>>, m: u64, c: int) -> bool {
    exists|b: u64| #![trigger edges.contains_key((b, m))] edges.contains_key((b, m)) && (b == src || (b < best.len() && best[b as int] is Some))
        && (colour(edges, l, r, b, m) == c || colour(edges, l, r, b, m) == 3)
}

/// Costs of reaching vertices from `src` that are closed: every edge from `src` was followed; from
/// a vertex that was reached over an edge of one colour, every edge of the other was, unless edges
/// of both colours lead to it.
pub open spec fn alternates(edges: Edges, l: Edges, r: Edges, src: u64, best: Seq<Option<Weight>>) -> bool {
    &&& forall|d: u64| #![trigger edges.contains_key((src, d))] edges.contains_key((src, d)) ==> reached(best, d, edges[(src, d)]@)
    &&& forall|m: u64| #![trigger best[m as int]] m < best.len() && best[m as int] is Some ==> {
            ||| entered(edges, l, r, src, best, m, 1) && entered(edges, l, r, src, best, m, 2)
            ||| entered(edges, l, r, src, best, m, 1) && followed_in(edges, l, r, best, m, 2)
            ||| entered(edges, l, r, src, best, m, 2) && followed_in(edges, l, r, best, m, 1)
        }
}

/// The mark of a vertex is justified by the edges that lead to it.
spec fn mark_ok(edges: Edges, l: Edges, r: Edges, src: u64, best: Seq<Option<Weight>>, m: u64, mark: u8) -> bool {
    &&& 1 <= mark <= 3
    &&& mark != E_RIGHT ==> entered(edges, l, r, src, best, m, 1)
    &&& mark != E_LEFT ==> entered(edges, l, r, src, best, m, 2)
}

/// A vertex with a mark was dealt with.
spec fn dealt_with(edges: Edges, l: Edges, r: Edges, best: Seq<Option<Weight>>, m: u64, mark: u8) -> bool {
    &&& mark == E_LEFT ==> followed_in(edges, l, r, best, m, 2)
    &&& mark == E_RIGHT ==> followed_in(edges, l, r, best, m, 1)
}

/// The state of the search from `src` after a meet. Vertices that are not in the heap, other than
/// `busy`, have been dealt with.
spec fn alternating<G: ReadableGraph>(g: &G, l: Edges, r: Edges, src: u64, s: ScratchSpace, heap: WeightHeap, out: Seq<(u64, Number)>, busy: Option<u64>) -> bool {
    let edges = g.shown();
    &&& search_ok(g, src, s, heap)
    &&& improvements(g, src, out)
    &&& above(out, s.best@)
    &&& coloured(edges, l, r) ==> forall|m: u64| #![trigger s.marks@[m as int]] m < g.slots() && s.best@[m as int] is Some ==> mark_ok(edges, l, r, src, s.best@, m, s.marks@[m as int])
    &&& forall|m: u64| #![trigger s.best@[m as int]] m < g.slots() && s.best@[m as int] is Some && !heap.items().contains(m) ==>
        offers(edges, src, out, m, s.best@[m as int].unwrap()@)
        && (coloured(edges, l, r) ==> busy == Some(m) || dealt_with(edges, l, r, s.best@, m, s.marks@[m as int]))
}

proof fn lemma_alternating_visit<G: ReadableGraph>(g: &G, l: Edges, r: Edges, src: u64, a: ScratchSpace, ha: WeightHeap, out: Seq<(u64, Number)>, busy: Option<u64>, d: u64, cost: Weight, mark: u8, b: ScratchSpace, hb: WeightHeap)
    requires
        alternating(g, l, r, src, a, ha, out, busy),
        search_ok(g, src, b, hb),
        visited(a, ha, d, cost, mark, b, hb),
        d < g.slots(),
        coloured(g.shown(), l, r) ==> mark_ok(g.shown(), l, r, src, a.best@, d, mark),
    ensures
        alternating(g, l, r, src, b, hb, out, busy),
        reached(b.best@, d, cost@),
        forall|x: u64, w: int| #[trigger] reached(a.best@, x, w) ==> reached(b.best@, x, w),
{
    let edges = g.shown();
    lemma_visited_keeps(a, ha, d, cost, mark, b, hb);
    assert(above(out, b.best@)) by {
        assert forall|i: int| #![trigger out[i]] 0 <= i < out.len() implies reached(b.best@, out[i].0, out[i].1@) by { assert(reached(a.best@, out[i].0, out[i].1@)); }
    }
    assert(1u8 | 1u8 == 1u8 && 1u8 | 2u8 == 3u8 && 1u8 | 3u8 == 3u8 && 2u8 | 1u8 == 3u8 && 2u8 | 2u8 == 2u8 && 2u8 | 3u8 == 3u8
        && 3u8 | 1u8 == 3u8 && 3u8 | 2u8 == 3u8 && 3u8 | 3u8 == 3u8) by (bit_vector);
    assert forall|m: u64, c: int| entered(edges, l, r, src, a.best@, m, c) implies #[trigger] entered(edges, l, r, src, b.best@, m, c) by {
        let s = choose|s: u64| #![trigger edges.contains_key((s, m))] edges.contains_key((s, m)) && (s == src || (s < a.best@.len() && a.best@[s as int] is Some))
            && (colour(edges, l, r, s, m) == c || colour(edges, l, r, s, m) == 3);
        if s != src { assert(b.best@[s as int] is Some); }
    }
    if coloured(edges, l, r) {
        assert forall|m: u64| #![trigger b.marks@[m as int]] m < g.slots() && b.best@[m as int] is Some implies mark_ok(edges, l, r, src, b.best@, m, b.marks@[m as int]) by {
            if m != d {
                assert(b.marks@[m as int] == a.marks@[m as int] && b.best@[m as int] == a.best@[m as int]);
                assert(mark_ok(edges, l, r, src, a.best@, m, a.marks@[m as int]));
            } else if reached(a.best@, d, cost@) {
                assert(mark_ok(edges, l, r, src, a.best@, m, a.marks@[m as int]));
            }
        }
    }
    assert forall|m: u64| #![trigger b.best@[m as int]] m < g.slots() && b.best@[m as int] is Some && !hb.items().contains(m) implies
        offers(edges, src, out, m, b.best@[m as int].unwrap()@)
        && (coloured(edges, l, r) ==> busy == Some(m) || dealt_with(edges, l, r, b.best@, m, b.marks@[m as int])) by {
        assert(b.best@[m as int] == a.best@[m as int]);
        if coloured(edges, l, r) && busy != Some(m) {
            assert(dealt_with(edges, l, r, a.best@, m, a.marks@[m as int]));
            assert(mark_ok(edges, l, r, src, a.best@, m, a.marks@[m as int]));
            if m != d { assert(b.marks@[m as int] == a.marks@[m as int]); }
            assert forall|c: int| followed_in(edges, l, r, a.best@, m, c) implies #[trigger] followed_in(edges, l, r, b.best@, m, c) by {
                assert forall|t: u64| #![trigger edges.contains_key((m, t))] edges.contains_key((m, t)) && colour(edges, l, r, m, t) == c implies
                    reached(b.best@, t, number::saturate(b.best@[m as int].unwrap()@ + edges[(m, t)]@)) by {
                    assert(reached(a.best@, t, number::saturate(a.best@[m as int].unwrap()@ + edges[(m, t)]@)));
                }
            }
            assert(followed_in(edges, l, r, a.best@, m, 1) ==> followed_in(edges, l, r, b.best@, m, 1));
            assert(followed_in(edges, l, r, a.best@, m, 2) ==> followed_in(edges, l, r, b.best@, m, 2));
        }
    }
}

/// Shortest-path search over two colours, for the closure after a meet: a path
/// continues only with edges of the other colour, since each graph is closed.
fn chrome_dijkstra<G: ReadableGraph, L: ReadableGraph, R: ReadableGraph>(
    scratch: &mut ScratchSpace,
    g: &G,
    p: &Vec<Weight>,
    l: &L,
    r: &R,
    src: VertId,
) -> (o: (Vec<(VertId, Weight)>, Ghost<Seq<Option<Weight>>>))
    requires
        g.ok(), l.ok(), r.ok(),
        l.slots() >= g.slots(), r.slots() >= g.slots(),
        g.shows(src),
        p@.len() >= g.slots(),
    ensures
        improvements(g, src, o.0@),
        falling(o.0@),
        o.1@.len() == g.slots(),
        coloured(g.shown(), l.shown(), r.shown()) ==> alternates(g.shown(), l.shown(), r.shown(), src, o.1@),
        forall|d: u64| #![trigger o.1@[d as int]] d < g.slots() && o.1@[d as int] is Some ==> offers(g.shown(), src, o.0@, d, o.1@[d as int].unwrap()@),
{
    let sz: usize = g.size();
    scratch.grow(sz);
    let mut heap = WeightHeap::new();
    let mut out: Vec<(VertId, Weight)> = Vec::new();
    let ghost edges = g.shown();
    let ghost le = l.shown();
    let ghost re = r.shown();
    proof { g.lemma_shown(); }
    let first: Vec<EdgeRef> = g.e_succs(src);
    let mut i: usize = 0;
    while i < first.len()
        invariant
            i <= first@.len(),
            g.ok(), l.ok(), r.ok(),
            l.slots() >= g.slots(), r.slots() >= g.slots(),
            g.shows(src),
            p@.len() >= g.slots(),
            edges == g.shown(), le == l.shown(), re == r.shown(),
            graph::lists_edges(first@, edges, src, true),
            alternating(g, le, re, src, *scratch, heap, out@, None),
            forall|k: int| #![trigger first@[k]] 0 <= k < i ==> reached(scratch.best@, first@[k].vert, first@[k].val@),
        decreases first@.len() - i,
    {
        let e: EdgeRef = first[i];
        assert(edges.contains_key(graph::edge_key(src, e.vert, true)));
        proof { g.lemma_shown(); assert(edges.contains_key((src, e.vert))); constraints::lemma_implied_edge(edges, src, e.vert); }
        let mark: u8 = edge_colour(l, r, src, e.vert, e.val);
        let ghost s0 = *scratch;
        let ghost h0 = heap;
        visit(scratch, &mut heap, g, p, src, e.vert, e.val, mark);
        proof {
            assert(mark == colour(edges, le, re, src, e.vert));
            lemma_alternating_visit(g, le, re, src, s0, h0, out@, None, e.vert, e.val, mark, *scratch, heap);
        }
        i = i + 1;
    }
    proof {
        assert forall|d: u64| #![trigger edges.contains_key((src, d))] edges.contains_key((src, d)) implies reached(scratch.best@, d, edges[(src, d)]@) by {
            assert(edges.contains_key(graph::edge_key(src, d, true)));
            let k = choose|k: int| 0 <= k < first@.len() && (#[trigger] first@[k]).vert == d;
            assert(edges[graph::edge_key(src, first@[k].vert, true)] == first@[k].val);
        }
        heap.lemma_finite();
    }
    while !heap.empty()
        invariant
            g.ok(), l.ok(), r.ok(),
            l.slots() >= g.slots(), r.slots() >= g.slots(),
            g.shows(src),
            p@.len() >= g.slots(),
            edges == g.shown(), le == l.shown(), re == r.shown(),
            alternating(g, le, re, src, *scratch, heap, out@, None),
            forall|d: u64| #![trigger edges.contains_key((src, d))] edges.contains_key((src, d)) ==> reached(scratch.best@, d, edges[(src, d)]@),
            heap.items().finite(),
        decreases total_room(scratch.best@, scratch.best@.len()), heap.items().len(),
    {
        let ghost s_top = *scratch;
        let ghost h_top = heap;
        let es: VertId = heap.remove_min(&scratch.dists);
        proof { g.lemma_shown(); heap.lemma_finite(); }
        assert(es < scratch.best.len());
        let cost: Weight = scratch.best[es as usize].unwrap();
        assert(g.shows(es));
        let improves: bool = match g.lookup(src, es) {
            None => true,
            Some(w) => cost.lt(w),
        };
        let ghost before = out@;
        if improves {
            out.push((es, cost));
        }
        proof { lemma_popped(g, src, scratch.best@, before, out@, es, cost, improves); }
        assert(alternating(g, le, re, src, *scratch, heap, out@, Some(es))) by {
            assert forall|m: u64| #![trigger scratch.best@[m as int]] m < g.slots() && scratch.best@[m as int] is Some && !heap.items().contains(m) implies
                offers(edges, src, out@, m, scratch.best@[m as int].unwrap()@)
                && (coloured(edges, le, re) ==> Some(es) == Some(m) || dealt_with(edges, le, re, scratch.best@, m, scratch.marks@[m as int])) by {
                if m != es {
                    assert(!h_top.items().contains(m));
                    assert(offers(edges, src, before, m, scratch.best@[m as int].unwrap()@));
                }
            }
        }
        let mark: u8 = scratch.marks[es as usize];
        if mark != E_BOTH {
            let wanted: u8 = if mark == E_LEFT { E_RIGHT } else { E_LEFT };
            let nexts: Vec<EdgeRef> = g.e_succs(es);
            let mut k: usize = 0;
            while k < nexts.len()
                invariant
                    k <= nexts@.len(),
                    g.ok(), l.ok(), r.ok(),
                    l.slots() >= g.slots(), r.slots() >= g.slots(),
                    g.shows(src),
                    g.shows(es),
                    es < g.slots(),
                    p@.len() >= g.slots(),
                    edges == g.shown(), le == l.shown(), re == r.shown(),
                    graph::lists_edges(nexts@, edges, es, true),
                    constraints::implied(edges, src, es, cost@),
                    wanted == E_LEFT || wanted == E_RIGHT,
                    alternating(g, le, re, src, *scratch, heap, out@, Some(es)),
                    forall|d: u64| #![trigger edges.contains_key((src, d))] edges.contains_key((src, d)) ==> reached(scratch.best@, d, edges[(src, d)]@),
                    forall|q: int| #![trigger nexts@[q]] 0 <= q < k && colour(edges, le, re, es, nexts@[q].vert) == wanted
                        ==> reached(scratch.best@, nexts@[q].vert, number::saturate(cost@ + nexts@[q].val@)),
                    scratch.best@[es as int] is Some,
                    heap.items().contains(es) || (scratch.best@[es as int] == Some(cost)
                        && (coloured(edges, le, re) ==> scratch.marks@[es as int] == mark || scratch.marks@[es as int] == E_BOTH)),
                    coloured(edges, le, re) ==> 1 <= mark < 3,
                    mark == E_LEFT ==> wanted == E_RIGHT,
                    mark == E_RIGHT ==> wanted == E_LEFT,
                    heap.items().finite(),
                    s_top.best@.len() == g.slots(),
                    total_room(scratch.best@, scratch.best@.len()) < total_room(s_top.best@, s_top.best@.len())
                        || (scratch.best@ == s_top.best@ && heap.items() == h_top.items().remove(es)),
                decreases nexts@.len() - k,
            {
                let e: EdgeRef = nexts[k];
                assert(edges.contains_key(graph::edge_key(es, e.vert, true)));
                proof {
                    g.lemma_shown();
                    assert(edges.contains_key((es, e.vert)));
                    constraints::lemma_implied_edge(edges, es, e.vert);
                    constraints::lemma_implied_path(edges, src, es, e.vert, cost@, e.val@);
                }
                let hue: u8 = edge_colour(l, r, es, e.vert, e.val);
                assert(hue == colour(edges, le, re, es, e.vert));
                if hue == wanted {
                    let ghost s0 = *scratch;
                    let ghost h0 = heap;
                    let next: Weight = cost.add(e.val);
                    visit(scratch, &mut heap, g, p, src, e.vert, next, hue);
                    proof {
                        lemma_alternating_visit(g, le, re, src, s0, h0, out@, Some(es), e.vert, next, hue, *scratch, heap);
                        lemma_visited_keeps(s0, h0, e.vert, next, hue, *scratch, heap);
                        heap.lemma_finite();
                        if !heap.items().contains(es) {
                            assert(scratch.best@[es as int] == s0.best@[es as int]);
                            if e.vert != es { assert(scratch.marks@[es as int] == s0.marks@[es as int]); }
                            if coloured(edges, le, re) { lemma_merged(s0.marks@[es as int], hue); }
                        }
                        assert(scratch.best@[es as int] is Some);
                        assert forall|q: int| #![trigger nexts@[q]] 0 <= q < k + 1 && colour(edges, le, re, es, nexts@[q].vert) == wanted implies
                            reached(scratch.best@, nexts@[q].vert, number::saturate(cost@ + nexts@[q].val@)) by {
                            if q < k { assert(reached(s0.best@, nexts@[q].vert, number::saturate(cost@ + nexts@[q].val@))); }
                        }
                        assert forall|d: u64| #![trigger edges.contains_key((src, d))] edges.contains_key((src, d)) implies reached(scratch.best@, d, edges[(src, d)]@) by {
                            assert(reached(s0.best@, d, edges[(src, d)]@));
                        }
                    }
                }
                k = k + 1;
            }
            proof {
                if !heap.items().contains(es) && coloured(edges, le, re) {
                    assert forall|d: u64| #![trigger edges.contains_key((es, d))] edges.contains_key((es, d)) && colour(edges, le, re, es, d) == wanted implies
                        reached(scratch.best@, d, number::saturate(scratch.best@[es as int].unwrap()@ + edges[(es, d)]@)) by {
                        assert(edges.contains_key(graph::edge_key(es, d, true)));
                        let q = choose|q: int| 0 <= q < nexts@.len() && (#[trigger] nexts@[q]).vert == d;
                        assert(edges[graph::edge_key(es, nexts@[q].vert, true)] == nexts@[q].val);
                    }
                    assert(followed_in(edges, le, re, scratch.best@, es, wanted as int));
                    assert(dealt_with(edges, le, re, scratch.best@, es, scratch.marks@[es as int]));
                }
            }
        }
        proof {
            assert(h_top.items().remove(es).len() < h_top.items().len());
            assert(alternating(g, le, re, src, *scratch, heap, out@, None)) by {
                assert forall|m: u64| #![trigger scratch.best@[m as int]] m < g.slots() && scratch.best@[m as int] is Some && !heap.items().contains(m) implies
                    offers(edges, src, out@, m, scratch.best@[m as int].unwrap()@)
                    && (coloured(edges, le, re) ==> None::<u64> == Some(m) || dealt_with(edges, le, re, scratch.best@, m, scratch.marks@[m as int])) by {}
            }
        }
    }
    let ghost best = scratch.best@;
    proof {
        if coloured(edges, le, re) {
            assert forall|m: u64| #![trigger best[m as int]] m < best.len() && best[m as int] is Some implies ({
                ||| entered(edges, le, re, src, best, m, 1) && entered(edges, le, re, src, best, m, 2)
                ||| entered(edges, le, re, src, best, m, 1) && followed_in(edges, le, re, best, m, 2)
                ||| entered(edges, le, re, src, best, m, 2) && followed_in(edges, le, re, best, m, 1)
            }) by {
                assert(!heap.items().contains(m));
                assert(mark_ok(edges, le, re, src, best, m, scratch.marks@[m as int]));
                assert(dealt_with(edges, le, re, best, m, scratch.marks@[m as int]));
            }
        }
    }
    (out, Ghost(best))
}

proof fn lemma_merged(a: u8, b: u8)
    requires 1 <= a <= 3, b == 1 || b == 2,
    ensures a | b == a || a | b == 3,
{
    assert(1 <= a <= 3 && (b == 1 || b == 2) ==> a | b == a || a | b == 3) by (bit_vector);
}

/// Appends the improvements found from `v` to a batch of updates.
fn push_improvements<G: ReadableGraph>(delta: &mut EdgeVector, g: &G, v: VertId, found: &Vec<(VertId, Weight)>)
    requires
        g.ok(),
        g.shows(v),
        improvements(g, v, found@),
        tightens(g.shown(), old(delta)@),
        forall|i: int| 0 <= i < old(delta)@.len() ==> g.shows((#[trigger] old(delta)@[i]).0) && g.shows(old(delta)@[i].1),
    ensures
        tightens(g.shown(), final(delta)@),
        forall|i: int| 0 <= i < final(delta)@.len() ==> g.shows((#[trigger] final(delta)@[i]).0) && g.shows(final(delta)@[i].1),
        final(delta)@.len() == old(delta)@.len() + found@.len(),
        forall|i: int| 0 <= i < old(delta)@.len() ==> #[trigger] final(delta)@[i] == old(delta)@[i],
        forall|i: int| 0 <= i < found@.len() ==> final(delta)@[old(delta)@.len() + i] == (v, (#[trigger] found@[i]).0, found@[i].1),
{
    let mut i: usize = 0;
    while i < found.len()
        invariant
            i <= found@.len(),
            g.shows(v),
            improvements(g, v, found@),
            tightens(g.shown(), delta@),
            forall|k: int| 0 <= k < delta@.len() ==> g.shows((#[trigger] delta@[k]).0) && g.shows(delta@[k].1),
            delta@.len() == old(delta)@.len() + i,
            forall|k: int| 0 <= k < old(delta)@.len() ==> #[trigger] delta@[k] == old(delta)@[k],
            forall|k: int| 0 <= k < i ==> delta@[old(delta)@.len() + k] == (v, (#[trigger] found@[k]).0, found@[k].1),
        decreases found@.len() - i,
    {
        let ghost before = delta@;
        let (d, w) = found[i];
        assert(found@[i as int] == (d, w));
        delta.push((v, d, w));
        proof {
            assert forall|k: int| 0 <= k < delta@.len() implies ({
                let (s, t, x) = #[trigger] delta@[k];
                constraints::implied(g.shown(), s, t, x@) && (g.shown().contains_key((s, t)) ==> x@ <= g.shown()[(s, t)]@)
            }) by {
                if k < before.len() { assert(delta@[k] == before[k]); }
            }
            assert forall|k: int| 0 <= k < delta@.len() implies g.shows((#[trigger] delta@[k]).0) && g.shows(delta@[k].1) by {
                if k < before.len() { assert(delta@[k] == before[k]); }
            }
        }
        i = i + 1;
    }
}

/// Closure after a meet of two closed graphs. Every update follows from the
/// edges and tightens them.
pub fn close_after_meet<G: ReadableGraph, L: ReadableGraph, R: ReadableGraph>(
    scratch: &mut ScratchSpace,
    g: &G,
    pots: &Vec<Weight>,
    l: &L,
    r: &R,
) -> (delta: EdgeVector)
    requires
        g.ok(), l.ok(), r.ok(),
        l.slots() >= g.slots(), r.slots() >= g.slots(),
        pots@.len() >= g.slots(),
    ensures
        tightens(g.shown(), delta@),
        lowering(delta@),
        forall|i: int| 0 <= i < delta@.len() ==> g.shows((#[trigger] delta@[i]).0) && g.shows(delta@[i].1),
        coloured(g.shown(), l.shown(), r.shown()) ==> forall|v: u64| #[trigger] g.shows(v) ==> met_from(g.shown(), l.shown(), r.shown(), delta@, v),
{
    let mut delta: EdgeVector = Vec::new();
    let vs: Vec<VertId> = g.verts();
    let ghost edges = g.shown();
    let mut i: usize = 0;
    while i < vs.len()
        invariant
            i <= vs@.len(),
            g.ok(), l.ok(), r.ok(),
            l.slots() >= g.slots(), r.slots() >= g.slots(),
            pots@.len() >= g.slots(),
            forall|v: u64| #[trigger] vs@.contains(v) <==> g.shows(v),
            tightens(g.shown(), delta@),
            vs@.no_duplicates(),
            lowering_from(delta@, vs@, i as int),
            forall|k: int| 0 <= k < delta@.len() ==> g.shows((#[trigger] delta@[k]).0) && g.shows(delta@[k].1),
            edges == g.shown(),
            coloured(edges, l.shown(), r.shown()) ==> forall|k: int| 0 <= k < i ==> met_from(edges, l.shown(), r.shown(), delta@, #[trigger] vs@[k]),
        decreases vs@.len() - i,
    {
        let v: VertId = vs[i];
        assert(vs@.contains(v));
        let ghost before = delta@;
        let (found, best) = chrome_dijkstra(scratch, g, pots, l, r, v);
        push_improvements(&mut delta, g, v, &found);
        proof {
            lemma_provided(edges, before, delta@, v, found@);
            lemma_lowering(before, delta@, vs@, i as int, found@);
            if coloured(edges, l.shown(), r.shown()) {
                assert(met_from(edges, l.shown(), r.shown(), delta@, v)) by {
                    let c = best@;
                    assert forall|d: u64| #![trigger c[d as int]] d < c.len() && c[d as int] is Some implies provides(edges, delta@, v, d, c[d as int].unwrap()@) by {
                        assert(offers(edges, v, found@, d, c[d as int].unwrap()@));
                    }
                }
                assert forall|k: int| 0 <= k < i + 1 implies met_from(edges, l.shown(), r.shown(), delta@, #[trigger] vs@[k]) by {
                    if k < i {
                        let c = choose|c: Seq<Option<Weight>>| #[trigger] alternates(edges, l.shown(), r.shown(), vs@[k], c)
                            && forall|d: u64| #![trigger c[d as int]] d < c.len() && c[d as int] is Some ==> provides(edges, before, vs@[k], d, c[d as int].unwrap()@);
                        assert forall|d: u64| #![trigger c[d as int]] d < c.len() && c[d as int] is Some implies provides(edges, delta@, vs@[k], d, c[d as int].unwrap()@) by {
                            assert(provides(edges, before, vs@[k], d, c[d as int].unwrap()@));
                        }
                    }
                }
            }
        }
        i = i + 1;
    }
    proof {
        if coloured(edges, l.shown(), r.shown()) {
            assert forall|v: u64| #[trigger] g.shows(v) implies met_from(edges, l.shown(), r.shown(), delta@, v) by {
                assert(vs@.contains(v));
                let k = choose|k: int| 0 <= k < vs@.len() && vs@[k] == v;
                assert(met_from(edges, l.shown(), r.shown(), delta@, vs@[k]));
            }
        }
    }
    delta
}

/// The edges, and the updates, hold an edge from `s` to `d` of weight at most `w`.
pub open spec fn provides(edges: Edges, delta: Seq<(u64, u64, Number)>, s: u64, d: u64, w: int) -> bool {
    (edges.contains_key((s, d)) && edges[(s, d)]@ <= w) || gives(delta, s, d, w)
}

/// The weights of updates of one edge do not rise.
pub open spec fn lowering(delta: Seq<(u64, u64, Number)>) -> bool {
    forall|i: int, j: int| #![trigger delta[i], delta[j]] 0 <= i < j < delta.len() && delta[i].0 == delta[j].0 && delta[i].1 == delta[j].1 ==> delta[j].2@ <= delta[i].2@
}

/// One of the first `n` listed vertices.
spec fn among(vs: Seq<u64>, n: int, v: u64) -> bool {
    exists|j: int| #![trigger vs[j]] 0 <= j < n && vs[j] == v
}

/// The updates are of edges from the first `n` listed vertices, and do not rise.
spec fn lowering_from(delta: Seq<(u64, u64, Number)>, vs: Seq<u64>, n: int) -> bool {
    lowering(delta) && forall|k: int| #![trigger delta[k]] 0 <= k < delta.len() ==> among(vs, n, delta[k].0)
}

proof fn lemma_lowering(a: Seq<(u64, u64, Number)>, b: Seq<(u64, u64, Number)>, vs: Seq<u64>, n: int, found: Seq<(u64, Number)>)
    requires
        vs.no_duplicates(),
        0 <= n < vs.len(),
        lowering_from(a, vs, n),
        falling(found),
        b.len() == a.len() + found.len(),
        forall|i: int| 0 <= i < a.len() ==> #[trigger] b[i] == a[i],
        forall|i: int| 0 <= i < found.len() ==> b[a.len() + i] == (vs[n], (#[trigger] found[i]).0, found[i].1),
    ensures lowering_from(b, vs, n + 1),
{
    assert forall|k: int| #![trigger b[k]] 0 <= k < b.len() implies among(vs, n + 1, b[k].0) by {
        if k < a.len() {
            assert(b[k] == a[k]);
            let j = choose|j: int| #![trigger vs[j]] 0 <= j < n && vs[j] == a[k].0;
            assert(vs[j] == b[k].0);
        } else {
            assert(b[k] == (vs[n], found[k - a.len()].0, found[k - a.len()].1));
        }
    }
    assert forall|i: int, j: int| #![trigger b[i], b[j]] 0 <= i < j < b.len() && b[i].0 == b[j].0 && b[i].1 == b[j].1 implies b[j].2@ <= b[i].2@ by {
        if j < a.len() {
            assert(b[i] == a[i] && b[j] == a[j]);
        } else {
            assert(b[j] == (vs[n], found[j - a.len()].0, found[j - a.len()].1));
            if i < a.len() {
                assert(b[i] == a[i]);
                let q = choose|q: int| #![trigger vs[q]] 0 <= q < n && vs[q] == a[i].0;
                assert(vs[q] == vs[n]);
            } else {
                assert(b[i] == (vs[n], found[i - a.len()].0, found[i - a.len()].1));
            }
        }
    }
}

/// After updates that do not rise, what they provide is in effect.
pub proof fn lemma_provided_holds(edges: Edges, delta: Seq<(u64, u64, Number)>, s: u64, d: u64, w: int)
    requires lowering(delta), tightens(edges, delta), provides(edges, delta, s, d, w),
    ensures updated(edges, delta).contains_key((s, d)), updated(edges, delta)[(s, d)]@ <= w,
    decreases delta.len(),
{
    if delta.len() > 0 {
        let rest = delta.drop_last();
        let last = delta.last();
        assert forall|i: int, j: int| #![trigger rest[i], rest[j]] 0 <= i < j < rest.len() && rest[i].0 == rest[j].0 && rest[i].1 == rest[j].1 implies rest[j].2@ <= rest[i].2@ by {
            assert(rest[i] == delta[i] && rest[j] == delta[j]);
        }
        assert(tightens(edges, rest)) by {
            assert forall|k: int| 0 <= k < rest.len() implies ({
                let (p, q, x) = #[trigger] rest[k];
                constraints::implied(edges, p, q, x@) && (edges.contains_key((p, q)) ==> x@ <= edges[(p, q)]@)
            }) by { assert(rest[k] == delta[k]); }
        }
        assert(delta[delta.len() - 1] == last);
        if (last.0, last.1) == (s, d) {
            if gives(delta, s, d, w) {
                let i = choose|i: int| 0 <= i < delta.len() && (#[trigger] delta[i]).0 == s && delta[i].1 == d && delta[i].2@ <= w;
                if i < delta.len() - 1 { assert(delta[delta.len() - 1].2@ <= delta[i].2@); }
            }
        } else {
            if gives(delta, s, d, w) {
                let i = choose|i: int| 0 <= i < delta.len() && (#[trigger] delta[i]).0 == s && delta[i].1 == d && delta[i].2@ <= w;
                assert(rest[i] == delta[i]);
                assert(gives(rest, s, d, w));
            }
            lemma_provided_holds(edges, rest, s, d, w);
        }
    }
}

/// The updates provide what a closed search from `v` reaches.
pub open spec fn recovered(edges: Edges, unstable: Set<u64>, delta: Seq<(u64, u64, Number)>, v: u64) -> bool {
    exists|best: Seq<Option<Weight>>| #[trigger] recovers(edges, unstable, v, best)
        && forall|d: u64| #![trigger best[d as int]] d < best.len() && best[d as int] is Some ==> provides(edges, delta, v, d, best[d as int].unwrap()@)
}

/// The updates provide what a closed search over two colours reaches from `v`.
pub open spec fn met_from(edges: Edges, l: Edges, r: Edges, delta: Seq<(u64, u64, Number)>, v: u64) -> bool {
    exists|best: Seq<Option<Weight>>| #[trigger] alternates(edges, l, r, v, best)
        && forall|d: u64| #![trigger best[d as int]] d < best.len() && best[d as int] is Some ==> provides(edges, delta, v, d, best[d as int].unwrap()@)
}

/// What is provided stays so, and what was found is provided.
proof fn lemma_provided(edges: Edges, a: Seq<(u64, u64, Number)>, b: Seq<(u64, u64, Number)>, v: u64, found: Seq<(u64, Number)>)
    requires
        b.len() == a.len() + found.len(),
        forall|i: int| 0 <= i < a.len() ==> #[trigger] b[i] == a[i],
        forall|i: int| 0 <= i < found.len() ==> b[a.len() + i] == (v, (#[trigger] found[i]).0, found[i].1),
    ensures
        forall|s: u64, d: u64, w: int| #[trigger] provides(edges, a, s, d, w) ==> provides(edges, b, s, d, w),
        forall|d: u64, w: int| #[trigger] offers(edges, v, found, d, w) ==> provides(edges, b, v, d, w),
{
    assert forall|s: u64, d: u64, w: int| #[trigger] provides(edges, a, s, d, w) implies provides(edges, b, s, d, w) by {
        if gives(a, s, d, w) {
            let i = choose|i: int| 0 <= i < a.len() && (#[trigger] a[i]).0 == s && a[i].1 == d && a[i].2@ <= w;
            assert(b[i] == a[i]);
        }
    }
    assert forall|d: u64, w: int| #[trigger] offers(edges, v, found, d, w) implies provides(edges, b, v, d, w) by {
        if !(edges.contains_key((v, d)) && edges[(v, d)]@ <= w) {
            let i = choose|i: int| 0 <= i < found.len() && (#[trigger] found[i]).0 == d && found[i].1@ <= w;
            assert(b[a.len() + i] == (v, found[i].0, found[i].1));
        }
    }
}

/// Closure after a widening: recovers shortest paths from the unstable
/// vertices. Every update follows from the edges and tightens them.
pub fn close_after_widen<G: ReadableGraph>(scratch: &mut ScratchSpace, g: &G, p: &Vec<Weight>, unstable: &VertSet) -> (delta: EdgeVector)
    requires
        g.ok(),
        p@.len() >= g.slots(),
    ensures
        tightens(g.shown(), delta@),
        lowering(delta@),
        forall|i: int| 0 <= i < delta@.len() ==> g.shows((#[trigger] delta@[i]).0) && g.shows(delta@[i].1),
        forall|v: u64| #[trigger] g.shows(v) && unstable@.contains(v) ==> recovered(g.shown(), unstable@, delta@, v),
{
    let mut delta: EdgeVector = Vec::new();
    let vs: Vec<VertId> = g.verts();
    let ghost edges = g.shown();
    let mut i: usize = 0;
    while i < vs.len()
        invariant
            i <= vs@.len(),
            g.ok(),
            p@.len() >= g.slots(),
            edges == g.shown(),
            forall|v: u64| #[trigger] vs@.contains(v) <==> g.shows(v),
            tightens(g.shown(), delta@),
            vs@.no_duplicates(),
            lowering_from(delta@, vs@, i as int),
            forall|k: int| 0 <= k < delta@.len() ==> g.shows((#[trigger] delta@[k]).0) && g.shows(delta@[k].1),
            forall|k: int| 0 <= k < i && unstable@.contains(#[trigger] vs@[k]) ==> recovered(edges, unstable@, delta@, vs@[k]),
        decreases vs@.len() - i,
    {
        let v: VertId = vs[i];
        assert(vs@.contains(v));
        if unstable.contains(v) {
            let ghost before = delta@;
            let (found, best) = dijkstra_recover(scratch, g, p, unstable, v);
            push_improvements(&mut delta, g, v, &found);
            proof {
                lemma_provided(edges, before, delta@, v, found@);
                lemma_lowering(before, delta@, vs@, i as int, found@);
                assert(recovered(edges, unstable@, delta@, v)) by {
                    let c = best@;
                    assert forall|d: u64| #![trigger c[d as int]] d < c.len() && c[d as int] is Some implies provides(edges, delta@, v, d, c[d as int].unwrap()@) by {
                        assert(offers(edges, v, found@, d, c[d as int].unwrap()@));
                    }
                }
                assert forall|k: int| 0 <= k < i + 1 && unstable@.contains(#[trigger] vs@[k]) implies recovered(edges, unstable@, delta@, vs@[k]) by {
                    if k < i {
                        let c = choose|c: Seq<Option<Weight>>| #[trigger] recovers(edges, unstable@, vs@[k], c)
                            && forall|d: u64| #![trigger c[d as int]] d < c.len() && c[d as int] is Some ==> provides(edges, before, vs@[k], d, c[d as int].unwrap()@);
                        assert forall|d: u64| #![trigger c[d as int]] d < c.len() && c[d as int] is Some implies provides(edges, delta@, vs@[k], d, c[d as int].unwrap()@) by {
                            assert(provides(edges, before, vs@[k], d, c[d as int].unwrap()@));
                        }
                    }
                }
            }
        }
        i = i + 1;
    }
    proof {
        assert forall|v: u64| #[trigger] g.shows(v) && unstable@.contains(v) implies recovered(edges, unstable@, delta@, v) by {
            assert(vs@.contains(v));
            let k = choose|k: int| 0 <= k < vs@.len() && vs@[k] == v;
            assert(unstable@.contains(vs@[k]));
        }
    }
    delta
}

/// An edge does not contradict the potentials.
pub open spec fn relaxed(p: Seq<Weight>, s: u64, d: u64, w: int) -> bool {
    p[d as int]@ <= number::saturate(p[s as int]@ + w)
}

/// The potentials meet every edge.
pub open spec fn valid_potentials(edges: Edges, p: Seq<Weight>) -> bool {
    forall|s: u64, d: u64| #![trigger edges.contains_key((s, d))] edges.contains_key((s, d)) ==> relaxed(p, s, d, edges[(s, d)]@)
}

/// The state of the search for potentials, against a solution `x`: the vertices
/// of `done` have their final potentials, and no other vertex lies nearer to `x`.
spec fn settled(es: Seq<(u64, u64, Number)>, verts: Set<u64>, done: Set<u64>, p: Seq<Weight>, x: Val) -> bool {
    &&& done.subset_of(verts)
    &&& forall|k: int| #![trigger es[k]] 0 <= k < es.len() && done.contains(es[k].0) ==> relaxed(p, es[k].0, es[k].1, es[k].2@)
    &&& forall|s: u64, u: u64| #![trigger done.contains(s), verts.contains(u)] done.contains(s) && verts.contains(u) && !done.contains(u)
        ==> p[s as int]@ - x(s) <= p[u as int]@ - x(u)
}

/// A vertex that is not settled yet and lies nearest to the solution.
proof fn lemma_nearest(verts: Set<u64>, done: Set<u64>, p: Seq<Weight>, x: Val) -> (u: u64)
    requires
        verts.finite(),
        done.subset_of(verts),
        done != verts,
    ensures
        verts.contains(u),
        !done.contains(u),
        forall|v: u64| #[trigger] verts.contains(v) && !done.contains(v) ==> p[u as int]@ - x(u) <= p[v as int]@ - x(v),
{
    let rest = verts.difference(done);
    assert(rest.finite());
    assert(exists|v: u64| #[trigger] rest.contains(v)) by {
        if forall|v: u64| !(#[trigger] rest.contains(v)) {
            assert forall|v: u64| verts.contains(v) implies done.contains(v) by {
                assert(!rest.contains(v));
            }
            assert(done =~= verts);
        }
    }
    lemma_least(rest, p, x);
    let u = choose|u: u64| #[trigger] rest.contains(u) && forall|v: u64| #[trigger] rest.contains(v) ==> p[u as int]@ - x(u) <= p[v as int]@ - x(v);
    assert forall|v: u64| #[trigger] verts.contains(v) && !done.contains(v) implies p[u as int]@ - x(u) <= p[v as int]@ - x(v) by {
        assert(rest.contains(v));
    }
    u
}

proof fn lemma_least(rest: Set<u64>, p: Seq<Weight>, x: Val)
    requires
        rest.finite(),
        exists|v: u64| #[trigger] rest.contains(v),
    ensures
        exists|u: u64| #[trigger] rest.contains(u) && forall|v: u64| #[trigger] rest.contains(v) ==> p[u as int]@ - x(u) <= p[v as int]@ - x(v),
    decreases rest.len(),
{
    let a = choose|v: u64| #[trigger] rest.contains(v);
    let fewer = rest.remove(a);
    if exists|v: u64| #[trigger] fewer.contains(v) {
        lemma_least(fewer, p, x);
        let u = choose|u: u64| #[trigger] fewer.contains(u) && forall|v: u64| #[trigger] fewer.contains(v) ==> p[u as int]@ - x(u) <= p[v as int]@ - x(v);
        if p[a as int]@ - x(a) <= p[u as int]@ - x(u) {
            assert forall|v: u64| #[trigger] rest.contains(v) implies p[a as int]@ - x(a) <= p[v as int]@ - x(v) by {
                if v != a { assert(fewer.contains(v)); }
            }
            assert(rest.contains(a));
        } else {
            assert forall|v: u64| #[trigger] rest.contains(v) implies p[u as int]@ - x(u) <= p[v as int]@ - x(v) by {
                if v != a { assert(fewer.contains(v)); }
            }
            assert(rest.contains(u));
        }
    } else {
        assert forall|v: u64| #[trigger] rest.contains(v) implies p[a as int]@ - x(a) <= p[v as int]@ - x(v) by {
            if v != a { assert(fewer.contains(v)); }
        }
    }
}

/// The potential of `v` is no lower than a path from some vertex allows, against a solution `x`.
pub open spec fn grounded(start: Seq<Weight>, p: Seq<Weight>, x: Val, v: u64) -> bool {
    exists|u: u64| #![trigger start[u as int]] u < start.len() && start[u as int]@ - x(u) <= p[v as int]@ - x(v)
}

/// The differences of a solution can be added to the potentials within the range of numbers.
pub open spec fn keeps_room(start: Seq<Weight>, x: Val) -> bool {
    forall|u: u64, v: u64| #![trigger x(u), x(v)] u < start.len() && v < start.len() ==> start[u as int]@ + x(v) - x(u) >= i128::MIN
}

/// Some solution can be reached from the potentials without any rounding.
pub open spec fn spare(edges: Edges, start: Seq<Weight>) -> bool {
    exists|x: Val| #[trigger] constraints::models(edges, x) && keeps_room(start, x)
}

/// All potentials are grounded, against any solution.
pub open spec fn all_grounded(edges: Edges, start: Seq<Weight>, p: Seq<Weight>) -> bool {
    forall|x: Val, v: u64| #![trigger grounded(start, p, x, v)] constraints::models(edges, x) && v < p.len() ==> grounded(start, p, x, v)
}

/// Bellman-Ford: lowers the potentials until they meet every edge, with sums that are cut off at
/// the least number. Returns false where the edges contradict each other.
fn lower_potentials<G: ReadableGraph>(g: &G, potentials: &mut Vec<Weight>) -> (r: bool)
    requires
        g.ok(),
        old(potentials)@.len() >= g.slots(),
    ensures
        final(potentials)@.len() == old(potentials)@.len(),
        r ==> valid_potentials(g.shown(), final(potentials)@),
        !r ==> !constraints::solvable(g.shown()),
        forall|v: int| 0 <= v < old(potentials)@.len() ==> (#[trigger] final(potentials)@[v])@ <= old(potentials)@[v]@,
        all_grounded(g.shown(), old(potentials)@, final(potentials)@),
{
    let vs: Vec<VertId> = g.verts();
    let es: EdgeVector = all_edges(g);
    let n: usize = vs.len();
    let ghost edges = g.shown();
    let ghost verts = vs@.to_set();
    let ghost possible = constraints::solvable(edges);
    let ghost x: Val = choose|x: Val| #[trigger] constraints::models(edges, x);
    let ghost mut done: Set<u64> = Set::empty();
    proof {
        g.lemma_shown();
        vs@.unique_seq_to_set();
        assert forall|k: int| #![trigger es@[k]] 0 <= k < es@.len() implies verts.contains(es@[k].0) && verts.contains(es@[k].1)
            && es@[k].0 < g.slots() && es@[k].1 < g.slots() by {
            assert(edges.contains_key((es@[k].0, es@[k].1)));
            assert(g.shows(es@[k].0) && g.shows(es@[k].1));
            assert(vs@.contains(es@[k].0) && vs@.contains(es@[k].1));
        }
        assert forall|v: u64| #[trigger] verts.contains(v) implies v < g.slots() by {
            assert(vs@.contains(v));
        }
    }
    assert(all_grounded(edges, old(potentials)@, potentials@)) by {
        let start = old(potentials)@;
        assert forall|y: Val, v: u64| #![trigger grounded(start, potentials@, y, v)] constraints::models(edges, y) && v < potentials@.len() implies
            grounded(start, potentials@, y, v) by {
            assert(start[v as int]@ - y(v) <= potentials@[v as int]@ - y(v));
        }
    }
    let mut round: usize = 0;
    let mut changed: bool = true;
    while round < n && changed
        invariant
            round <= n,
            n == verts.len(),
            verts.finite(),
            done.finite(),
            forall|v: u64| #[trigger] verts.contains(v) ==> v < g.slots(),
            potentials@.len() == old(potentials)@.len(),
            potentials@.len() >= g.slots(),
            lists_all(es@, edges),
            forall|k: int| #![trigger es@[k]] 0 <= k < es@.len() ==> verts.contains(es@[k].0) && verts.contains(es@[k].1)
                && es@[k].0 < g.slots() && es@[k].1 < g.slots(),
            possible ==> constraints::models(edges, x),
            possible ==> settled(es@, verts, done, potentials@, x),
            all_grounded(edges, old(potentials)@, potentials@),
            forall|v: int| 0 <= v < potentials@.len() ==> (#[trigger] potentials@[v])@ <= old(potentials)@[v]@,
            possible ==> done == verts || done.len() >= round,
            !changed ==> forall|k: int| #![trigger es@[k]] 0 <= k < es@.len() ==> relaxed(potentials@, es@[k].0, es@[k].1, es@[k].2@),
        decreases n - round,
    {
        changed = false;
        let ghost start = potentials@;
        let ghost full = done == verts;
        let ghost u: u64 = 0;
        proof {
            if possible && !full {
                u = lemma_nearest(verts, done, potentials@, x);
            }
        }
        let mut k: usize = 0;
        while k < es.len()
            invariant
                k <= es@.len(),
                potentials@.len() == old(potentials)@.len(),
                potentials@.len() == start.len(),
                potentials@.len() >= g.slots(),
                forall|v: u64| #[trigger] verts.contains(v) ==> v < g.slots(),
                lists_all(es@, edges),
                forall|q: int| #![trigger es@[q]] 0 <= q < es@.len() ==> verts.contains(es@[q].0) && verts.contains(es@[q].1)
                    && es@[q].0 < g.slots() && es@[q].1 < g.slots(),
                possible ==> constraints::models(edges, x),
                possible ==> done.subset_of(verts),
                all_grounded(edges, old(potentials)@, potentials@),
                forall|v: int| 0 <= v < potentials@.len() ==> (#[trigger] potentials@[v])@ <= old(potentials)@[v]@,
                possible ==> forall|q: int| #![trigger es@[q]] 0 <= q < es@.len() && done.contains(es@[q].0)
                    ==> relaxed(potentials@, es@[q].0, es@[q].1, es@[q].2@),
                possible && !full ==> verts.contains(u) && !done.contains(u),
                full == (done == verts),
                possible ==> forall|v: u64| #![trigger done.contains(v)] done.contains(v) ==> potentials@[v as int] == start[v as int],
                possible && !full ==> potentials@[u as int] == start[u as int],
                possible && !full ==> forall|s: u64| #![trigger done.contains(s)] done.contains(s) ==> potentials@[s as int]@ - x(s) <= potentials@[u as int]@ - x(u),
                possible && !full ==> forall|v: u64| #![trigger verts.contains(v)] verts.contains(v) && !done.contains(v) ==> potentials@[u as int]@ - x(u) <= potentials@[v as int]@ - x(v),
                possible && !full ==> forall|q: int| #![trigger es@[q]] 0 <= q < k && es@[q].0 == u ==> relaxed(potentials@, es@[q].0, es@[q].1, es@[q].2@),
                !changed ==> potentials@ == start,
                !changed ==> forall|q: int| #![trigger es@[q]] 0 <= q < k ==> relaxed(potentials@, es@[q].0, es@[q].1, es@[q].2@),
            decreases es@.len() - k,
        {
            let (s, d, w) = es[k];
            assert(es@[k as int] == (s, d, w));
            assert(edges.contains_key((s, d)));
            assert(s < potentials.len() && d < potentials.len());
            let c: Weight = potentials[s as usize].add(w);
            let ghost before = potentials@;
            if c.lt(potentials[d as usize]) {
                proof {
                    if possible {
                        assert(!done.contains(s));
                        assert(!full);
                        assert(x(d) - x(s) <= w@);
                        assert(before[u as int]@ - x(u) <= before[s as int]@ - x(s));
                        assert(!done.contains(d));
                        assert(d != u);
                    }
                }
                potentials.set(d as usize, c);
                changed = true;
                proof {
                    let origin = old(potentials)@;
                    assert forall|y: Val, v: u64| #![trigger grounded(origin, potentials@, y, v)] constraints::models(edges, y) && v < potentials@.len() implies
                        grounded(origin, potentials@, y, v) by {
                        assert(grounded(origin, before, y, v));
                        assert(grounded(origin, before, y, s));
                        assert(y(d) - y(s) <= w@);
                    }
                }
            }
            k = k + 1;
        }
        proof {
            if possible && !full {
                done = done.insert(u);
                assert(settled(es@, verts, done, potentials@, x));
            }
        }
        round = round + 1;
    }
    proof {
        if possible && changed && done != verts {
            vstd::set_lib::lemma_len_subset(done, verts);
            vstd::set_lib::lemma_subset_equality(done, verts);
        }
    }
    let mut k: usize = 0;
    while k < es.len()
        invariant
            k <= es@.len(),
            potentials@.len() == old(potentials)@.len(),
            potentials@.len() >= g.slots(),
            lists_all(es@, edges),
            edges == g.shown(),
            possible == constraints::solvable(edges),
            all_grounded(edges, old(potentials)@, potentials@),
            forall|v: int| 0 <= v < potentials@.len() ==> (#[trigger] potentials@[v])@ <= old(potentials)@[v]@,
            forall|q: int| #![trigger es@[q]] 0 <= q < es@.len() ==> verts.contains(es@[q].0) && verts.contains(es@[q].1)
                && es@[q].0 < g.slots() && es@[q].1 < g.slots(),
            possible ==> forall|q: int| #![trigger es@[q]] 0 <= q < es@.len() ==> relaxed(potentials@, es@[q].0, es@[q].1, es@[q].2@),
            forall|q: int| #![trigger es@[q]] 0 <= q < k ==> relaxed(potentials@, es@[q].0, es@[q].1, es@[q].2@),
        decreases es@.len() - k,
    {
        let (s, d, w) = es[k];
        assert(es@[k as int] == (s, d, w));
        assert(s < potentials.len() && d < potentials.len());
        if potentials[s as usize].add(w).lt(potentials[d as usize]) {
            return false;
        }
        k = k + 1;
    }
    proof {
        assert forall|s: u64, d: u64| #![trigger edges.contains_key((s, d))] edges.contains_key((s, d)) implies relaxed(potentials@, s, d, edges[(s, d)]@) by {
            assert(listed(es@, s, d));
            let q = choose|q: int| 0 <= q < es@.len() && (#[trigger] es@[q]).0 == s && es@[q].1 == d;
            assert(edges[(es@[q].0, es@[q].1)] == es@[q].2);
        }
    }
    true
}

/// The potentials are a solution: they meet every edge, without any rounding.
pub open spec fn solves(edges: Edges, p: Seq<Weight>) -> bool {
    forall|s: u64, d: u64| #![trigger edges.contains_key((s, d))] edges.contains_key((s, d)) ==> p[d as int]@ - p[s as int]@ <= edges[(s, d)]@
}

/// An edge that the potentials miss, or meet only because a sum was cut off at the least number.
spec fn misses(p: Seq<Weight>, e: (u64, u64, Number)) -> bool {
    p[e.1 as int]@ - p[e.0 as int]@ > e.2@
}

/// Whether the potentials are seen to be a solution.
fn seen_to_solve<G: ReadableGraph>(g: &G, es: &EdgeVector, potentials: &Vec<Weight>) -> (r: bool)
    requires
        g.ok(),
        lists_all(es@, g.shown()),
        potentials@.len() >= g.slots(),
    ensures
        r == solves(g.shown(), potentials@),
        !r ==> exists|k: int| 0 <= k < es@.len() && misses(potentials@, #[trigger] es@[k]),
{
    let ghost edges = g.shown();
    proof { g.lemma_shown(); }
    let mut k: usize = 0;
    while k < es.len()
        invariant
            k <= es@.len(),
            g.ok(),
            edges == g.shown(),
            lists_all(es@, edges),
            potentials@.len() >= g.slots(),
            forall|q: int| 0 <= q < k ==> !misses(potentials@, #[trigger] es@[q]),
        decreases es@.len() - k,
    {
        let (s, d, w) = es[k];
        proof {
            g.lemma_shown();
            assert(es@[k as int] == (s, d, w));
            assert(edges.contains_key((s, d)));
        }
        assert(s < potentials.len() && d < potentials.len());
        let c: Weight = potentials[s as usize].add(w);
        let least: Weight = Number::of(i128::MIN);
        if c.lt(potentials[d as usize]) || (c == least && least.sub(w) != potentials[s as usize]) {
            assert(misses(potentials@, es@[k as int]));
            return false;
        }
        k = k + 1;
    }
    proof {
        assert forall|s: u64, d: u64| #![trigger edges.contains_key((s, d))] edges.contains_key((s, d)) implies
            potentials@[d as int]@ - potentials@[s as int]@ <= edges[(s, d)]@ by {
            assert(listed(es@, s, d));
            let q = choose|q: int| 0 <= q < es@.len() && (#[trigger] es@[q]).0 == s && es@[q].1 == d;
            assert(edges[(es@[q].0, es@[q].1)] == es@[q].2);
            assert(!misses(potentials@, es@[q]));
        }
    }
    true
}

/// The differences of potentials are within reach.
pub open spec fn ranged(p: Seq<Weight>) -> bool {
    forall|u: int, v: int| #![trigger p[u], p[v]] 0 <= u < p.len() && 0 <= v < p.len() ==> p[u]@ - p[v]@ <= constraints::REACH
}

/// Whether the differences of potentials are within reach.
fn within_range(p: &Vec<Weight>) -> (r: bool)
    ensures r == ranged(p@),
{
    if p.len() == 0 {
        return true;
    }
    let mut low: Weight = p[0];
    let mut high: Weight = p[0];
    let ghost mut i_low: int = 0;
    let ghost mut i_high: int = 0;
    let mut i: usize = 1;
    while i < p.len()
        invariant
            1 <= i <= p@.len(),
            0 <= i_low < p@.len(),
            0 <= i_high < p@.len(),
            low == p@[i_low],
            high == p@[i_high],
            forall|v: int| 0 <= v < i ==> low@ <= (#[trigger] p@[v])@ <= high@,
        decreases p@.len() - i,
    {
        if p[i].lt(low) {
            low = p[i];
            proof { i_low = i as int; }
        }
        if high.lt(p[i]) {
            high = p[i];
            proof { i_high = i as int; }
        }
        i = i + 1;
    }
    let r: bool = high.le(Number::of(constraints::REACH).add(low));
    proof {
        if !r {
            assert(!(p@[i_high]@ - p@[i_low]@ <= constraints::REACH));
        }
    }
    r
}

/// Potentials that are a solution show that there is one.
proof fn lemma_solved(edges: Edges, p: Seq<Weight>)
    requires
        solves(edges, p),
        ranged(p),
        forall|s: u64, d: u64| #![trigger edges.contains_key((s, d))] edges.contains_key((s, d)) ==> s < p.len() && d < p.len(),
    ensures constraints::feasible(edges),
{
    let x: Val = |u: u64| if u < p.len() { p[u as int]@ } else if p.len() > 0 { p[0]@ } else { 0 };
    assert(constraints::tame(x));
    assert(constraints::models(edges, x));
}

/// Decides whether the edges have a solution, and leaves one in the potentials. Potentials that
/// are a solution stay.
pub fn settle<G: ReadableGraph>(g: &G, potentials: &mut Vec<Weight>) -> (r: bool)
    requires
        g.ok(),
        old(potentials)@.len() >= g.slots(),
    ensures
        final(potentials)@.len() == old(potentials)@.len(),
        r == constraints::feasible(g.shown()),
        r ==> solves(g.shown(), final(potentials)@) && ranged(final(potentials)@),
        !r ==> final(potentials)@ == old(potentials)@,
{
    let es: EdgeVector = all_edges(g);
    let ghost edges = g.shown();
    proof {
        g.lemma_shown();
        assert forall|s: u64, d: u64| #![trigger edges.contains_key((s, d))] edges.contains_key((s, d)) implies s < potentials@.len() && d < potentials@.len() by {
            assert(g.shows(s) && g.shows(d));
        }
    }
    if within_range(potentials) && seen_to_solve(g, &es, potentials) {
        proof { lemma_solved(edges, potentials@); }
        return true;
    }
    let n: usize = potentials.len();
    let mut fresh: Vec<Weight> = Vec::new();
    let mut i: usize = 0;
    while i < n
        invariant
            i <= n,
            i == fresh@.len(),
            forall|v: int| 0 <= v < i ==> (#[trigger] fresh@[v])@ == 0,
        decreases n - i,
    {
        fresh.push(Number::of(0));
        i = i + 1;
    }
    let ghost zeros = fresh@;
    if !lower_potentials(g, &mut fresh) {
        return false;
    }
    let r: bool = within_range(&fresh) && seen_to_solve(g, &es, &fresh);
    proof {
        if r {
            lemma_solved(edges, fresh@);
        } else if constraints::feasible(edges) {
            let p = fresh@;
            let x = choose|x: Val| constraints::tame(x) && #[trigger] constraints::models(edges, x);
            assert forall|v: int| 0 <= v < p.len() implies -constraints::REACH <= (#[trigger] p[v])@ <= 0 by {
                assert(grounded(zeros, p, x, v as u64));
                let u = choose|u: u64| #![trigger zeros[u as int]] u < zeros.len() && zeros[u as int]@ - x(u) <= p[v as u64 as int]@ - x(v as u64);
                assert(x(u) - x(v as u64) <= constraints::REACH);
                assert(zeros[v]@ == 0);
            }
            assert(ranged(p));
            let k = choose|k: int| 0 <= k < es@.len() && misses(p, #[trigger] es@[k]);
            let (s, d, w) = es@[k];
            assert(edges.contains_key((s, d)));
            assert(relaxed(p, s, d, w@));
            assert(grounded(zeros, p, x, s));
            let u = choose|u: u64| #![trigger zeros[u as int]] u < zeros.len() && zeros[u as int]@ - x(u) <= p[s as int]@ - x(s);
            assert(x(u) - x(d) <= constraints::REACH);
            assert(x(d) - x(s) <= w@);
        }
    }
    if r {
        *potentials = fresh;
    }
    r
}

/// Bellman-Ford: lowers the potentials until they meet every edge. Returns false where the edges
/// contradict each other. Where a sum was cut off at the least number, the potentials start over
/// from zero.
pub fn select_potentials<G: ReadableGraph>(_scratch: &mut ScratchSpace, g: &G, potentials: &mut Vec<Weight>) -> (r: bool)
    requires
        g.ok(),
        old(potentials)@.len() >= g.slots(),
    ensures
        final(potentials)@.len() == old(potentials)@.len(),
        r ==> solves(g.shown(), final(potentials)@),
        !r ==> !constraints::feasible(g.shown()) && !spare(g.shown(), old(potentials)@),
        !r || spare(g.shown(), old(potentials)@) ==> forall|v: int| 0 <= v < old(potentials)@.len() ==> (#[trigger] final(potentials)@[v])@ <= old(potentials)@[v]@,
        spare(g.shown(), old(potentials)@) ==> all_grounded(g.shown(), old(potentials)@, final(potentials)@),
{
    let ghost edges = g.shown();
    let ghost start = potentials@;
    if !lower_potentials(g, potentials) {
        proof {
            if constraints::feasible(edges) || spare(edges, start) {
                assert(constraints::solvable(edges));
            }
        }
        return false;
    }
    let es: EdgeVector = all_edges(g);
    let exact: bool = seen_to_solve(g, &es, potentials);
    proof {
        if spare(edges, start) && !exact {
            let p = potentials@;
            let x = choose|x: Val| #[trigger] constraints::models(edges, x) && keeps_room(start, x);
            let k = choose|k: int| 0 <= k < es@.len() && misses(p, #[trigger] es@[k]);
            let (s, d, w) = es@[k];
            g.lemma_shown();
            assert(edges.contains_key((s, d)));
            assert(g.shows(s) && g.shows(d));
            assert(relaxed(p, s, d, w@));
            assert(grounded(start, p, x, s));
            let u = choose|u: u64| #![trigger start[u as int]] u < start.len() && start[u as int]@ - x(u) <= p[s as int]@ - x(s);
            assert(start[u as int]@ + x(d) - x(u) >= i128::MIN);
        }
    }
    if exact {
        return true;
    }
    settle(g, potentials)
}

/// The potentials meet every edge other than `ii -> jj`.
pub open spec fn valid_but(edges: Edges, p: Seq<Weight>, ii: u64, jj: u64) -> bool {
    forall|s: u64, d: u64| #![trigger edges.contains_key((s, d))] edges.contains_key((s, d)) && (s, d) != (ii, jj) ==> relaxed(p, s, d, edges[(s, d)]@)
}

/// By how much the potentials exceed the weight of an edge; negative where they miss it.
pub open spec fn slack(edges: Edges, p: Seq<Weight>, ii: u64, jj: u64) -> int {
    p[ii as int]@ + edges[(ii, jj)]@ - p[jj as int]@
}

/// Lowering every potential by what the edge `ii -> jj` misses stays above the least number.
pub open spec fn repair_fits(edges: Edges, p: Seq<Weight>, ii: u64, jj: u64) -> bool {
    let gap = slack(edges, p, ii, jj);
    gap >= i128::MIN && forall|v: int| 0 <= v < p.len() ==> (#[trigger] p[v])@ + (if gap < 0 { gap } else { 0 }) > i128::MIN
}

/// Progress of a repair that has not run into a contradiction: potentials of
/// finished vertices meet their edges, and unfinished ones are no nearer.
spec fn repairing(edges: Edges, n: nat, p: Seq<Weight>, cand: Seq<Weight>, dists: Seq<Weight>, done: Set<u64>, heap: WeightHeap) -> bool {
    &&& heap.ordered(dists)
    &&& forall|v: u64| #![trigger dists[v as int]] v < n ==> dists[v as int]@ == cand[v as int]@ - p[v as int]@
    &&& forall|s: u64, v: u64| #![trigger done.contains(s), heap.items().contains(v)] done.contains(s) && heap.items().contains(v) ==> dists[s as int]@ <= dists[v as int]@
    &&& forall|s: u64, d: u64| #![trigger edges.contains_key((s, d))] edges.contains_key((s, d)) && done.contains(s) ==> cand[d as int]@ <= cand[s as int]@ + edges[(s, d)]@
}

/// Repairs the potentials after the edge `ii -> jj` was added. Returns false
/// where the edge contradicts the others.
pub fn repair_potential<G: ReadableGraph>(scratch: &mut ScratchSpace, g: &G, p: &mut Vec<Weight>, ii: VertId, jj: VertId) -> (r: bool)
    requires
        g.ok(),
        g.shown().contains_key((ii, jj)),
        old(p)@.len() >= g.slots(),
    ensures
        final(p)@.len() == old(p)@.len(),
        !r ==> !constraints::solvable(g.shown()),
        !r ==> final(p)@ == old(p)@,
        r ==> relaxed(final(p)@, ii, jj, g.shown()[(ii, jj)]@),
        forall|v: int| 0 <= v < old(p)@.len() ==> (#[trigger] final(p)@[v])@ <= old(p)@[v]@,
        valid_but(g.shown(), old(p)@, ii, jj) && repair_fits(g.shown(), old(p)@, ii, jj) ==>
            r == constraints::solvable(g.shown()) && (r ==> solves(g.shown(), final(p)@)),
{
    let sz: usize = g.size();
    let ghost edges = g.shown();
    let ghost old_p = p@;
    scratch.grow(sz);
    proof { g.lemma_shown(); assert(g.shows(ii) && g.shows(jj)); }
    let w: Weight = g.edge_val(ii, jj);
    assert(ii < p.len() && jj < p.len());
    let first: Weight = p[ii as usize].add(w);
    if !first.lt(p[jj as usize]) {
        proof {
            if valid_but(edges, p@, ii, jj) && repair_fits(edges, p@, ii, jj) {
                lemma_uncut(edges, p@);
            }
        }
        return true;
    }
    let vs: Vec<VertId> = g.verts();
    let ghost verts = vs@.to_set();
    let mut cand: Vec<Weight> = p.clone();
    let mut alt: Vec<Weight> = p.clone();
    assert(cand@ =~= p@);
    assert(alt@ =~= p@);
    cand.set(jj as usize, first);
    assert(jj < scratch.dists.len());
    scratch.dists.set(jj as usize, first.sub(p[jj as usize]));
    let mut heap = WeightHeap::new();
    heap.insert(jj, &scratch.dists);
    let ghost mut done: Set<u64> = Set::empty();
    let ghost possible = constraints::solvable(edges);
    let ghost x: Val = choose|x: Val| #[trigger] constraints::models(edges, x);
    let ghost gap = slack(edges, p@, ii, jj);
    let ghost base = valid_but(edges, p@, ii, jj) && repair_fits(edges, p@, ii, jj) && ii != jj;
    proof {
        vs@.unique_seq_to_set();
        assert forall|v: u64| #[trigger] verts.contains(v) <==> g.shows(v) by {
            assert(vs@.contains(v) <==> g.shows(v));
        }
        assert(edges.contains_key((ii, jj)));
        if base {
            assert(repairing(edges, sz as nat, p@, cand@, scratch.dists@, done, heap));
        }
    }
    while !heap.empty()
        invariant
            g.ok(),
            edges == g.shown(),
            sz == g.slots(),
            p@ == old_p,
            p@.len() >= sz,
            cand@.len() == p@.len(),
            alt@.len() == p@.len(),
            scratch.dists@.len() == sz,
            heap.wf(sz as nat),
            verts.finite(),
            done.finite(),
            done.subset_of(verts),
            edges.contains_key((ii, jj)),
            w == edges[(ii, jj)],
            forall|v: u64| #[trigger] verts.contains(v) <==> g.shows(v),
            forall|a: u64, b: u64| #![trigger edges.contains_key((a, b))] edges.contains_key((a, b)) ==> g.shows(a) && g.shows(b),
            forall|v: u64| #![trigger g.shows(v)] g.shows(v) ==> v < sz,
            possible == constraints::solvable(edges),
            possible ==> constraints::models(edges, x),
            base ==> valid_but(edges, p@, ii, jj) && repair_fits(edges, p@, ii, jj) && ii != jj,
            gap == slack(edges, p@, ii, jj),
            gap < 0,
            base ==> forall|v: int| 0 <= v < p@.len() ==> (#[trigger] cand@[v])@ >= p@[v]@ + gap,
            base ==> forall|v: u64| #[trigger] heap.items().contains(v) ==> v == jj || done.contains(jj),
            forall|v: int| 0 <= v < p@.len() ==> (#[trigger] cand@[v])@ <= p@[v]@,
            forall|v: u64| #[trigger] heap.items().contains(v) ==> verts.contains(v) && !done.contains(v) && cand@[v as int]@ < p@[v as int]@,
            forall|v: u64| #![trigger cand@[v as int]] v < p@.len() && cand@[v as int]@ < p@[v as int]@ ==> heap.items().contains(v) || done.contains(v),
            forall|v: u64| #![trigger done.contains(v)] done.contains(v) ==> alt@[v as int] == cand@[v as int] && cand@[v as int]@ < p@[v as int]@,
            forall|v: u64| #![trigger alt@[v as int]] v < p@.len() && !done.contains(v) ==> alt@[v as int] == p@[v as int],
            cand@[jj as int]@ <= number::saturate(p@[ii as int]@ + w@),
            possible ==> forall|v: u64| #![trigger cand@[v as int]] v < p@.len() && cand@[v as int]@ < p@[v as int]@
                ==> cand@[v as int]@ - x(v) >= p@[ii as int]@ - x(ii),
            base && cand@[ii as int]@ == p@[ii as int]@ ==> repairing(edges, sz as nat, p@, cand@, scratch.dists@, done, heap),
        decreases verts.len() - done.len(),
    {
        let es: VertId = heap.remove_min(&scratch.dists);
        let ghost d0 = done;
        proof {
            assert(verts.contains(es) && !done.contains(es));
            vstd::set_lib::lemma_len_subset(done.insert(es), verts);
        }
        assert(es < p.len());
        let c: Weight = cand[es as usize];
        alt.set(es as usize, c);
        proof { done = done.insert(es); }
        let nexts: Vec<EdgeRef> = g.e_succs(es);
        let ghost cand0 = cand@;
        let ghost healthy = base && cand0[ii as int]@ == p@[ii as int]@;
        let mut k: usize = 0;
        while k < nexts.len()
            invariant
                k <= nexts@.len(),
                g.ok(),
                edges == g.shown(),
                sz == g.slots(),
                p@ == old_p,
                p@.len() >= sz,
                cand@.len() == p@.len(),
                cand0.len() == p@.len(),
                alt@.len() == p@.len(),
                scratch.dists@.len() == sz,
                heap.wf(sz as nat),
                verts.finite(),
                done == d0.insert(es),
                !d0.contains(es),
                verts.contains(es),
                es < p@.len(),
                done.subset_of(verts),
                graph::lists_edges(nexts@, edges, es, true),
                c == cand@[es as int],
                c@ < p@[es as int]@,
                edges.contains_key((ii, jj)),
                w == edges[(ii, jj)],
                forall|v: u64| #[trigger] verts.contains(v) <==> g.shows(v),
                forall|a: u64, b: u64| #![trigger edges.contains_key((a, b))] edges.contains_key((a, b)) ==> g.shows(a) && g.shows(b),
                forall|v: u64| #![trigger g.shows(v)] g.shows(v) ==> v < sz,
                possible ==> constraints::models(edges, x),
                base ==> valid_but(edges, p@, ii, jj) && repair_fits(edges, p@, ii, jj) && ii != jj,
                gap == slack(edges, p@, ii, jj),
                gap < 0,
                base ==> forall|v: int| 0 <= v < p@.len() ==> (#[trigger] cand@[v])@ >= p@[v]@ + gap,
                base ==> done.contains(jj),
                forall|v: int| 0 <= v < p@.len() ==> (#[trigger] cand@[v])@ <= p@[v]@,
                forall|v: int| 0 <= v < p@.len() ==> (#[trigger] cand@[v])@ <= cand0[v]@,
                forall|v: u64| #[trigger] heap.items().contains(v) ==> verts.contains(v) && !done.contains(v) && cand@[v as int]@ < p@[v as int]@,
                forall|v: u64| #![trigger cand@[v as int]] v < p@.len() && cand@[v as int]@ < p@[v as int]@ ==> heap.items().contains(v) || done.contains(v),
                forall|v: u64| #![trigger done.contains(v)] done.contains(v) ==> alt@[v as int] == cand@[v as int] && cand@[v as int]@ < p@[v as int]@,
                forall|v: u64| #![trigger alt@[v as int]] v < p@.len() && !done.contains(v) ==> alt@[v as int] == p@[v as int],
                cand@[jj as int]@ <= number::saturate(p@[ii as int]@ + w@),
                possible ==> forall|v: u64| #![trigger cand@[v as int]] v < p@.len() && cand@[v as int]@ < p@[v as int]@
                    ==> cand@[v as int]@ - x(v) >= p@[ii as int]@ - x(ii),
                base && cand@[ii as int]@ == p@[ii as int]@ ==> ({
                    &&& heap.ordered(scratch.dists@)
                    &&& forall|v: u64| #![trigger scratch.dists@[v as int]] v < sz ==> scratch.dists@[v as int]@ == cand@[v as int]@ - p@[v as int]@
                    &&& forall|s: u64, v: u64| #![trigger done.contains(s), heap.items().contains(v)] done.contains(s) && heap.items().contains(v) ==> scratch.dists@[s as int]@ <= scratch.dists@[v as int]@
                    &&& forall|s: u64| #![trigger done.contains(s)] done.contains(s) ==> scratch.dists@[s as int]@ <= scratch.dists@[es as int]@
                    &&& forall|s: u64, d: u64| #![trigger edges.contains_key((s, d))] edges.contains_key((s, d)) && d0.contains(s) ==> cand@[d as int]@ <= cand@[s as int]@ + edges[(s, d)]@
                    &&& forall|q: int| #![trigger nexts@[q]] 0 <= q < k ==> cand@[nexts@[q].vert as int]@ <= c@ + nexts@[q].val@
                }),
            decreases nexts@.len() - k,
        {
            let e: EdgeRef = nexts[k];
            let d: VertId = e.vert;
            assert(edges.contains_key(graph::edge_key(es, d, true)));
            assert(edges.contains_key((es, d)));
            assert(g.shows(d));
            assert(d < p.len() && d < scratch.dists.len());
            let du: usize = d as usize;
            let ghost cb = cand@;
            let ghost db = scratch.dists@;
            let ghost hb = heap;
            let t: Weight = c.add(e.val);
            if alt[du] == p[du] {
                assert(!done.contains(d));
                if t.lt(cand[du]) {
                    proof {
                        if possible {
                            assert(x(d) - x(es) <= e.val@);
                            assert(c@ - x(es) >= p@[ii as int]@ - x(ii));
                        }
                    }
                    cand.set(du, t);
                    scratch.dists.set(du, t.sub(p[du]));
                    if heap.in_heap(d) {
                        proof {
                            if base && cand@[ii as int]@ == p@[ii as int]@ {
                                hb.lemma_lowered(db, scratch.dists@, d);
                            }
                        }
                        heap.decrease(d, &scratch.dists);
                    } else {
                        proof {
                            if base && cand@[ii as int]@ == p@[ii as int]@ {
                                hb.lemma_outside(db, scratch.dists@, d);
                            }
                        }
                        heap.insert(d, &scratch.dists);
                    }
                }
            }
            proof {
                if base && cand@[ii as int]@ == p@[ii as int]@ {
                    assert((es, d) != (ii, jj));
                    assert(relaxed(p@, es, d, e.val@));
                    if done.contains(d) {
                        assert(db[d as int]@ <= db[es as int]@);
                    }
                    assert(cand@[d as int]@ <= c@ + e.val@);
                    assert forall|q: int| #![trigger nexts@[q]] 0 <= q < k + 1 implies cand@[nexts@[q].vert as int]@ <= c@ + nexts@[q].val@ by {
                        assert(edges.contains_key(graph::edge_key(es, nexts@[q].vert, true)));
                        assert(g.shows(nexts@[q].vert));
                    }
                    assert(scratch.dists@[es as int]@ == c@ - p@[es as int]@);
                    if d != es {
                        assert(scratch.dists@[d as int]@ == cand@[d as int]@ - p@[d as int]@);
                    }
                    assert forall|s: u64, v: u64| #![trigger done.contains(s), heap.items().contains(v)] done.contains(s) && heap.items().contains(v) implies scratch.dists@[s as int]@ <= scratch.dists@[v as int]@ by {
                        if v == d && cand@ != cb {
                            assert(scratch.dists@[s as int]@ <= scratch.dists@[es as int]@);
                            assert(t@ == c@ + e.val@);
                        }
                    }
                }
            }
            k = k + 1;
        }
        proof {
            if base && cand@[ii as int]@ == p@[ii as int]@ {
                assert forall|s: u64, d: u64| #![trigger edges.contains_key((s, d))] edges.contains_key((s, d)) && done.contains(s) implies cand@[d as int]@ <= cand@[s as int]@ + edges[(s, d)]@ by {
                    if s == es {
                        assert(edges.contains_key(graph::edge_key(es, d, true)));
                        let q = choose|q: int| 0 <= q < nexts@.len() && (#[trigger] nexts@[q]).vert == d;
                        assert(edges.contains_key(graph::edge_key(es, nexts@[q].vert, true)));
                    }
                }
            }
        }
    }
    if cand[ii as usize].lt(p[ii as usize]) {
        return false;
    }
    proof {
        assert forall|v: int| 0 <= v < p@.len() implies #[trigger] alt@[v] == cand@[v] by {
            let u = v as u64;
            assert(v < p.len());
            if !done.contains(u) {
                assert(!heap.items().contains(u));
                assert(cand@[u as int]@ <= p@[u as int]@);
                assert(alt@[u as int] == p@[u as int]);
            }
        }
        assert(alt@ =~= cand@);
        if valid_but(edges, old_p, ii, jj) && repair_fits(edges, old_p, ii, jj) {
            if ii == jj {
                assert(cand@[jj as int]@ <= number::saturate(p@[ii as int]@ + w@));
                assert(first@ < p@[jj as int]@);
                assert(false);
            }
            assert forall|s: u64, d: u64| #![trigger edges.contains_key((s, d))] edges.contains_key((s, d)) implies relaxed(alt@, s, d, edges[(s, d)]@) by {
                assert(g.shows(s) && g.shows(d));
                if done.contains(s) {
                    assert(cand@[d as int]@ <= cand@[s as int]@ + edges[(s, d)]@);
                } else {
                    assert(!heap.items().contains(s));
                    assert(cand@[s as int]@ == p@[s as int]@);
                    if (s, d) != (ii, jj) { assert(relaxed(p@, s, d, edges[(s, d)]@)); }
                }
            }
            lemma_uncut(edges, alt@);
        }
    }
    *p = alt;
    true
}

/// Potentials above the least number that meet every edge meet them without any rounding.
proof fn lemma_uncut(edges: Edges, p: Seq<Weight>)
    requires
        valid_potentials(edges, p),
        forall|s: u64, d: u64| #![trigger edges.contains_key((s, d))] edges.contains_key((s, d)) ==> d < p.len(),
        forall|v: int| 0 <= v < p.len() ==> (#[trigger] p[v])@ > i128::MIN,
    ensures solves(edges, p), constraints::solvable(edges),
{
    assert forall|s: u64, d: u64| #![trigger edges.contains_key((s, d))] edges.contains_key((s, d)) implies p[d as int]@ - p[s as int]@ <= edges[(s, d)]@ by {
        assert(relaxed(p, s, d, edges[(s, d)]@));
        assert(p[d as int]@ > i128::MIN);
    }
    let x: Val = |v: u64| p[v as int]@;
    assert(constraints::models(edges, x));
}

}
