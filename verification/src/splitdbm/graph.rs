//! A sparse weighted directed graph whose vertices can be freed and recycled.
use vstd::prelude::*;
use vstd::string::*;
use crate::arith::number::Number;
use crate::ord_map;
use crate::ord_map::OrdMap;
use crate::splitdbm::{VertId, Weight};
use crate::text;

verus! {

/// Sorted map from a vertex to the index of a weight.
#[derive(Debug)]
pub struct TreeSMap {
    pub map: OrdMap<usize>,
}

impl View for TreeSMap {
    type V = Map<u64, usize>;

    open spec fn view(&self) -> Map<u64, usize> {
        self.map@
    }
}

impl TreeSMap {
    pub fn new() -> (r: Self)
        ensures r@ == Map::<u64, usize>::empty(),
    {
        TreeSMap { map: OrdMap::new() }
    }

    /// The number of keys.
    pub fn size(&self) -> (n: usize)
        ensures
            n == self.map.entries().len(),
            self@.dom().finite(),
            n == self@.dom().len(),
            n == 0 <==> self@ == Map::<u64, usize>::empty(),
    {
        let n: usize = self.map.len();
        proof {
            ord_map::lemma_entries_count(self.map.entries());
            if n == 0 {
                assert(self@ =~= Map::<u64, usize>::empty());
            } else {
                ord_map::lemma_entry(self.map.entries(), 0);
            }
        }
        n
    }

    pub fn contains(&self, k: VertId) -> (r: bool)
        ensures r == self@.contains_key(k),
    {
        self.map.contains_key(k)
    }

    pub fn lookup(&self, k: VertId) -> (r: Option<usize>)
        ensures r == (if self@.contains_key(k) { Some(self@[k]) } else { None }),
    {
        self.map.get(k)
    }

    /// Inserts or overwrites.
    pub fn add(&mut self, k: VertId, v: usize)
        ensures final(self)@ == old(self)@.insert(k, v),
    {
        self.map.insert(k, v);
    }

    pub fn remove(&mut self, k: VertId)
        ensures final(self)@ == old(self)@.remove(k),
    {
        self.map.remove(k);
    }

    pub fn clear(&mut self)
        ensures final(self)@ == Map::<u64, usize>::empty(),
    {
        self.map = OrdMap::new();
    }

    /// The keys in increasing order.
    pub fn keys(&self) -> (r: Vec<VertId>)
        ensures
            forall|i: int, j: int| 0 <= i < j < r@.len() ==> r@[i] < r@[j],
            forall|k: u64| self@.contains_key(k) <==> r@.contains(k),
    {
        let mut r: Vec<VertId> = Vec::new();
        let n: usize = self.map.len();
        let ghost es = self.map.entries();
        let mut i: usize = 0;
        while i < n
            invariant
                i <= n,
                n == es.len(),
                es == self.map.entries(),
                ord_map::sorted_entries(es),
                self.map@ == ord_map::entries_map(es),
                r@.len() == i,
                forall|j: int| 0 <= j < i ==> r@[j] == (#[trigger] es[j]).0,
            decreases n - i,
        {
            r.push(self.map.key_at(i));
            i = i + 1;
        }
        proof {
            assert forall|a: int, b: int| 0 <= a < b < r@.len() implies r@[a] < r@[b] by {
                assert(es[a].0 < es[b].0);
            }
            assert forall|k: u64| self@.contains_key(k) <==> r@.contains(k) by {
                if self@.contains_key(k) {
                    let j = ord_map::lemma_key(es, k);
                    assert(r@[j] == k);
                }
                if r@.contains(k) {
                    let j = choose|j: int| 0 <= j < r@.len() && r@[j] == k;
                    ord_map::lemma_entry(es, j);
                }
            }
        }
        r
    }

    /// The associations in increasing order of the keys.
    pub fn entries(&self) -> (r: Vec<(VertId, usize)>)
        ensures
            r@ == self.map.entries(),
            ord_map::sorted_entries(r@),
            self@ == ord_map::entries_map(r@),
    {
        let mut r: Vec<(VertId, usize)> = Vec::new();
        let n: usize = self.map.len();
        let mut i: usize = 0;
        while i < n
            invariant
                i <= n,
                n == self.map.entries().len(),
                r@ == self.map.entries().take(i as int),
            decreases n - i,
        {
            r.push((self.map.key_at(i), self.map.value_at(i)));
            assert(self.map.entries().take(i + 1) =~= self.map.entries().take(i as int).push(self.map.entries()[i as int]));
            i = i + 1;
        }
        assert(r@ =~= self.map.entries());
        r
    }

    pub fn copy(&self) -> (r: Self)
        ensures r@ == self@,
    {
        TreeSMap { map: self.map.copy() }
    }
}

/// A neighbour and the weight of the edge to it.
#[derive(Clone, Copy, Debug)]
pub struct EdgeRef {
    pub vert: VertId,
    pub val: Weight,
}

/// Weighted edges, keyed by source and destination.
pub type Edges = Map<(u64, u64), Number>;

/// The key of the edge between `v` and `u`: out of `v`, or into it.
pub open spec fn edge_key(v: u64, u: u64, out: bool) -> (u64, u64) {
    if out { (v, u) } else { (u, v) }
}

/// `r` lists the neighbours of `v` and the weights, each neighbour once.
pub open spec fn lists_edges(r: Seq<EdgeRef>, edges: Edges, v: u64, out: bool) -> bool {
    &&& forall|i: int, j: int| #![trigger r[i], r[j]] 0 <= i < j < r.len() ==> r[i].vert != r[j].vert
    &&& forall|i: int| #![trigger r[i]] 0 <= i < r.len() ==> edges.contains_key(edge_key(v, r[i].vert, out))
        && edges[edge_key(v, r[i].vert, out)] == r[i].val
    &&& forall|u: u64| #![trigger edges.contains_key(edge_key(v, u, out))]
        edges.contains_key(edge_key(v, u, out)) ==> exists|i: int| 0 <= i < r.len() && (#[trigger] r[i]).vert == u
}

/// The neighbours of `v` over edges out of it, or into it.
pub open spec fn neighbours(edges: Edges, v: u64, out: bool) -> Set<u64> {
    Set::new(|u: u64| edges.contains_key(edge_key(v, u, out)))
}

/// `r` lists the neighbours of `v`, each once.
pub open spec fn lists_verts(r: Seq<u64>, edges: Edges, v: u64, out: bool) -> bool {
    &&& r.no_duplicates()
    &&& forall|u: u64| #![trigger edges.contains_key(edge_key(v, u, out))] #![trigger r.contains(u)]
        edges.contains_key(edge_key(v, u, out)) <==> r.contains(u)
}

/// Adaptive sparse weighted directed graph.
#[derive(Debug)]
pub struct AdaptGraph {
    preds: Vec<TreeSMap>,
    succs: Vec<TreeSMap>,
    ws: Vec<Weight>,
    edge_count: usize,
    is_free: Vec<bool>,
    free_id: Vec<VertId>,
    free_widx: Vec<usize>,
}

/// Shorthand used throughout.
pub type Graph = AdaptGraph;

impl AdaptGraph {
    /// The number of vertex slots.
    pub closed spec fn gsize(&self) -> nat {
        self.succs@.len()
    }

    /// Whether a vertex is allocated.
    pub closed spec fn live(&self, v: u64) -> bool {
        v < self.is_free@.len() && !self.is_free@[v as int]
    }

    /// The freed vertices, the one freed last at the end.
    pub closed spec fn freed(&self) -> Seq<u64> {
        self.free_id@
    }

    spec fn has(&self, s: u64, d: u64) -> bool {
        s < self.succs@.len() && self.succs@[s as int]@.contains_key(d)
    }

    spec fn idx(&self, s: u64, d: u64) -> int {
        self.succs@[s as int]@[d] as int
    }

    /// The weighted edges.
    pub closed spec fn edges(&self) -> Edges {
        Map::new(|e: (u64, u64)| self.has(e.0, e.1), |e: (u64, u64)| self.ws@[self.idx(e.0, e.1)])
    }

    /// Consistency of the adjacency maps, the weights and the free lists.
    pub closed spec fn wf(&self) -> bool {
        &&& self.preds@.len() == self.succs@.len()
        &&& self.is_free@.len() == self.succs@.len()
        &&& self.edge_count + self.free_widx@.len() == self.ws@.len()
        &&& self.edges().dom().finite()
        &&& self.edges().dom().len() == self.edge_count
        &&& forall|s: u64, d: u64| #[trigger] self.has(s, d) ==> {
            &&& self.live(s)
            &&& self.live(d)
            &&& self.idx(s, d) < self.ws@.len()
            &&& self.preds@[d as int]@.contains_key(s)
            &&& self.preds@[d as int]@[s] == self.succs@[s as int]@[d]
        }
        &&& forall|s: u64, d: u64| #![trigger self.preds@[d as int]@.contains_key(s)]
            d < self.preds@.len() && self.preds@[d as int]@.contains_key(s) ==> self.has(s, d)
        &&& forall|s: u64, d: u64, s2: u64, d2: u64| #![trigger self.has(s, d), self.has(s2, d2)]
            self.has(s, d) && self.has(s2, d2) && self.idx(s, d) == self.idx(s2, d2) ==> s == s2 && d == d2
        &&& forall|i: int| 0 <= i < self.free_widx@.len() ==> (#[trigger] self.free_widx@[i]) < self.ws@.len()
        &&& forall|i: int, j: int| 0 <= i < j < self.free_widx@.len() ==> self.free_widx@[i] != self.free_widx@[j]
        &&& forall|i: int, s: u64, d: u64| #![trigger self.free_widx@[i], self.has(s, d)]
            0 <= i < self.free_widx@.len() && self.has(s, d) ==> self.free_widx@[i] != self.idx(s, d)
        &&& forall|i: int| 0 <= i < self.free_id@.len() ==> (#[trigger] self.free_id@[i]) < self.is_free@.len()
            && self.is_free@[self.free_id@[i] as int]
        &&& forall|i: int, j: int| 0 <= i < j < self.free_id@.len() ==> self.free_id@[i] != self.free_id@[j]
        &&& forall|v: u64| #![trigger self.is_free@[v as int]] v < self.is_free@.len() && self.is_free@[v as int]
            ==> self.free_id@.contains(v)
    }

    /// Edges join allocated vertices, and allocated vertices have slots.
    pub proof fn lemma_edge_live(&self)
        requires self.wf(),
        ensures
            forall|s: u64, d: u64| #![trigger self.edges().contains_key((s, d))]
                self.edges().contains_key((s, d)) ==> self.live(s) && self.live(d),
            forall|v: u64| #![trigger self.live(v)] self.live(v) ==> v < self.gsize(),
    {
        assert forall|s: u64, d: u64| #![trigger self.edges().contains_key((s, d))]
            self.edges().contains_key((s, d)) implies self.live(s) && self.live(d) by {
            assert(self.has(s, d));
        }
    }

    pub fn new() -> (r: Self)
        ensures
            r.wf(),
            r.gsize() == 0,
            r.freed() == Seq::<u64>::empty(),
            r.edges() == Edges::empty(),
            forall|v: u64| !(#[trigger] r.live(v)),
    {
        let r = AdaptGraph {
            preds: Vec::new(),
            succs: Vec::new(),
            ws: Vec::new(),
            edge_count: 0,
            is_free: Vec::new(),
            free_id: Vec::new(),
            free_widx: Vec::new(),
        };
        assert(r.edges() =~= Edges::empty());
        assert(r.freed() =~= Seq::<u64>::empty());
        r
    }

    /// Allocates a vertex, reusing the one freed last if there is any.
    pub fn new_vertex(&mut self) -> (v: VertId)
        requires old(self).wf(),
        ensures
            final(self).wf(),
            !old(self).live(v),
            final(self).live(v),
            forall|u: u64| #![trigger final(self).live(u)] u != v ==> final(self).live(u) == old(self).live(u),
            final(self).edges() == old(self).edges(),
            v < old(self).gsize() ==> final(self).gsize() == old(self).gsize(),
            v >= old(self).gsize() ==> v == old(self).gsize() && final(self).gsize() == old(self).gsize() + 1,
            old(self).freed().len() > 0 ==> v == old(self).freed().last() && final(self).freed() == old(self).freed().drop_last(),
            old(self).freed().len() == 0 ==> v == old(self).gsize() && final(self).freed() == old(self).freed(),
    {
        match self.free_id.pop() {
            Some(v) => {
                let ghost o = *old(self);
                proof {
                    assert(o.free_id@[o.free_id@.len() - 1] == v);
                    assert(v < self.is_free.len());
                }
                self.is_free.set(v as usize, false);
                proof {
                    assert forall|s: u64, d: u64| #[trigger] self.has(s, d) == o.has(s, d) by {}
                    assert(self.edges() =~= o.edges());
                    assert forall|u: u64| #![trigger self.live(u)] u != v implies self.live(u) == o.live(u) by {}
                    assert forall|s: u64, d: u64| #[trigger] self.has(s, d) implies self.live(s) && self.live(d) by {
                        assert(o.has(s, d));
                    }
                    assert forall|i: int| 0 <= i < self.free_id@.len() implies (#[trigger] self.free_id@[i]) < self.is_free@.len()
                        && self.is_free@[self.free_id@[i] as int] by {
                        assert(o.free_id@[i] == self.free_id@[i]);
                        assert(o.free_id@[i] != o.free_id@[o.free_id@.len() - 1]);
                    }
                    assert forall|u: u64| #![trigger self.is_free@[u as int]] u < self.is_free@.len() && self.is_free@[u as int]
                        implies self.free_id@.contains(u) by {
                        assert(u != v);
                        assert(o.is_free@[u as int]);
                        let i = choose|i: int| 0 <= i < o.free_id@.len() && o.free_id@[i] == u;
                        assert(self.free_id@[i] == u);
                    }
                }
                v
            },
            None => {
                let ghost o = *old(self);
                let v: VertId = self.succs.len() as VertId;
                self.is_free.push(false);
                self.succs.push(TreeSMap::new());
                self.preds.push(TreeSMap::new());
                proof {
                    assert forall|s: u64, d: u64| #[trigger] self.has(s, d) == o.has(s, d) by {
                        if s < o.succs@.len() {
                            assert(self.succs@[s as int] == o.succs@[s as int]);
                        }
                    }
                    assert(self.edges() =~= o.edges());
                    assert forall|u: u64| #![trigger self.live(u)] u != v implies self.live(u) == o.live(u) by {}
                    assert forall|s: u64, d: u64| #[trigger] self.has(s, d) implies self.live(s) && self.live(d)
                        && self.preds@[d as int] == o.preds@[d as int] && self.succs@[s as int] == o.succs@[s as int] by {
                        assert(o.has(s, d));
                        assert(o.live(d));
                    }
                    assert forall|s: u64, d: u64| #[trigger] self.has(s, d) implies self.idx(s, d) < self.ws@.len()
                        && self.preds@[d as int]@.contains_key(s) by {
                        assert(o.has(s, d));
                    }
                    assert forall|s: u64, d: u64| #![trigger self.preds@[d as int]@.contains_key(s)]
                        d < self.preds@.len() && self.preds@[d as int]@.contains_key(s) implies self.has(s, d) by {
                        if d < o.preds@.len() {
                            assert(o.preds@[d as int]@.contains_key(s));
                            assert(o.has(s, d));
                        }
                    }
                    assert forall|u: u64| #![trigger self.is_free@[u as int]] u < self.is_free@.len() && self.is_free@[u as int]
                        implies self.free_id@.contains(u) by {
                        assert(o.is_free@[u as int]);
                    }
                }
                v
            },
        }
    }

    /// Allocates vertices until there are at least `sz` slots.
    pub fn grow_to(&mut self, sz: usize)
        requires old(self).wf(),
        ensures
            final(self).wf(),
            final(self).edges() == old(self).edges(),
            final(self).gsize() == (if old(self).gsize() >= sz { old(self).gsize() } else { sz as nat }),
            old(self).gsize() < sz ==> forall|v: u64| #[trigger] final(self).live(v) <==> v < sz,
            old(self).gsize() >= sz ==> forall|v: u64| #[trigger] final(self).live(v) == old(self).live(v),
            final(self).freed() == (if old(self).gsize() >= sz { old(self).freed() } else { Seq::<u64>::empty() }),
    {
        let ghost o = *old(self);
        while self.succs.len() < sz
            invariant
                self.wf(),
                self.edges() == o.edges(),
                self.gsize() >= o.gsize(),
                self.gsize() <= sz || self.gsize() == o.gsize(),
                o.gsize() >= sz ==> forall|v: u64| #[trigger] self.live(v) == o.live(v),
                o.gsize() >= sz ==> self.freed() == o.freed(),
                self.gsize() > o.gsize() ==> self.freed().len() == 0,
            decreases
                sz - self.gsize(), self.freed().len(),
        {
            let _v: VertId = self.new_vertex();
        }
        proof {
            if o.gsize() < sz {
                assert(self.freed() =~= Seq::<u64>::empty());
                assert forall|v: u64| #[trigger] self.live(v) <==> v < sz by {
                    if v < sz && !self.live(v) {
                        assert(self.is_free@[v as int]);
                    }
                }
            }
        }
    }

    /// Sets the weight of an existing edge.
    fn write_weight(&mut self, s: VertId, d: VertId, w: Weight)
        requires old(self).wf(), old(self).has(s, d),
        ensures
            final(self).wf(),
            final(self).edges() == old(self).edges().insert((s, d), w),
            final(self).gsize() == old(self).gsize(),
            final(self).freed() == old(self).freed(),
            forall|v: u64| #[trigger] final(self).live(v) == old(self).live(v),
    {
        let ghost o = *old(self);
        assert(s < self.succs.len());
        let idx: usize = self.succs[s as usize].lookup(d).unwrap();
        assert(idx == o.idx(s, d));
        self.ws.set(idx, w);
        proof {
            assert forall|a: u64, b: u64| #[trigger] self.has(a, b) == o.has(a, b) by {}
            assert forall|a: u64, b: u64| #[trigger] self.has(a, b) implies self.idx(a, b) == o.idx(a, b) && o.has(a, b) by {}
            assert(self.edges() =~= o.edges().insert((s, d), w)) by {
                assert forall|e: (u64, u64)| self.has(e.0, e.1) implies #[trigger] self.edges()[e] == o.edges().insert((s, d), w)[e] by {
                    if e != (s, d) {
                        assert(o.has(e.0, e.1) && o.has(s, d));
                        assert(o.idx(e.0, e.1) != idx);
                    }
                }
            }
            assert(o.edges().contains_key((s, d)));
            assert(self.edges().dom() =~= o.edges().dom());
        }
    }

    /// Adds an edge that is not there yet.
    pub fn add_edge(&mut self, s: VertId, w: Weight, d: VertId)
        requires
            old(self).wf(),
            old(self).live(s),
            old(self).live(d),
            !old(self).edges().contains_key((s, d)),
        ensures
            final(self).wf(),
            final(self).edges() == old(self).edges().insert((s, d), w),
            final(self).gsize() == old(self).gsize(),
            final(self).freed() == old(self).freed(),
            forall|v: u64| #[trigger] final(self).live(v) == old(self).live(v),
    {
        let ghost o = *old(self);
        assert(!o.has(s, d));
        assert(s < self.succs.len() && d < self.preds.len());
        let idx: usize = match self.free_widx.pop() {
            Some(widx) => {
                proof { assert(o.free_widx@[o.free_widx@.len() - 1] == widx); }
                self.ws.set(widx, w);
                widx
            },
            None => {
                let widx: usize = self.ws.len();
                self.ws.push(w);
                widx
            },
        };
        let ghost ws1 = self.ws@;
        let ghost fw1 = self.free_widx@;
        proof {
            assert(ws1[idx as int] == w);
            assert forall|a: u64, b: u64| #[trigger] o.has(a, b) implies o.idx(a, b) != idx && ws1[o.idx(a, b)] == o.ws@[o.idx(a, b)] by {
                if o.free_widx@.len() > 0 {
                    assert(o.free_widx@[o.free_widx@.len() - 1] != o.idx(a, b));
                }
            }
            assert forall|i: int| 0 <= i < fw1.len() implies (#[trigger] fw1[i]) != idx && fw1[i] == o.free_widx@[i] by {
                assert(o.free_widx@[i] < o.ws@.len());
            }
        }
        assert(self.edge_count + 1 <= self.ws.len());
        self.edge_count = self.edge_count + 1;
        let su: usize = s as usize;
        let du: usize = d as usize;
        self.succs[su].add(d, idx);
        self.preds[du].add(s, idx);
        proof {
            assert forall|a: u64, b: u64| #[trigger] self.has(a, b) == (o.has(a, b) || (a == s && b == d)) by {}
            assert forall|a: u64, b: u64| #[trigger] o.has(a, b) implies self.idx(a, b) == o.idx(a, b) by {}
            assert(self.has(s, d) && self.idx(s, d) == idx);
            assert(self.edges() =~= o.edges().insert((s, d), w)) by {
                assert forall|e: (u64, u64)| self.has(e.0, e.1) implies #[trigger] self.edges()[e] == o.edges().insert((s, d), w)[e] by {
                    if e != (s, d) {
                        assert(o.has(e.0, e.1));
                    }
                }
            }
            assert(self.edges().dom() =~= o.edges().dom().insert((s, d)));
            assert forall|v: u64| #[trigger] self.live(v) == o.live(v) by {}
            assert forall|a: u64, b: u64| #[trigger] self.has(a, b) implies
                self.live(a) && self.live(b) && self.idx(a, b) < self.ws@.len()
                && self.preds@[b as int]@.contains_key(a)
                && self.preds@[b as int]@[a] == self.succs@[a as int]@[b] by {
                if !(a == s && b == d) {
                    assert(o.has(a, b));
                }
            }
            assert forall|a: u64, b: u64| #![trigger self.preds@[b as int]@.contains_key(a)]
                b < self.preds@.len() && self.preds@[b as int]@.contains_key(a) implies self.has(a, b) by {
                if !(a == s && b == d) {
                    assert(o.preds@[b as int]@.contains_key(a));
                    assert(o.has(a, b));
                }
            }
            assert forall|a: u64, b: u64, a2: u64, b2: u64| #![trigger self.has(a, b), self.has(a2, b2)]
                self.has(a, b) && self.has(a2, b2) && self.idx(a, b) == self.idx(a2, b2) implies a == a2 && b == b2 by {
                if o.has(a, b) && o.has(a2, b2) {
                } else if o.has(a, b) {
                    assert(o.idx(a, b) != idx);
                } else if o.has(a2, b2) {
                    assert(o.idx(a2, b2) != idx);
                }
            }
            assert forall|i: int, a: u64, b: u64| #![trigger self.free_widx@[i], self.has(a, b)]
                0 <= i < self.free_widx@.len() && self.has(a, b) implies self.free_widx@[i] != self.idx(a, b) by {
                assert(fw1[i] != idx && fw1[i] == o.free_widx@[i]);
                if o.has(a, b) {
                    assert(o.free_widx@[i] != o.idx(a, b));
                }
            }
            assert forall|i: int, j: int| 0 <= i < j < self.free_widx@.len() implies self.free_widx@[i] != self.free_widx@[j] by {
                assert(o.free_widx@[i] != o.free_widx@[j]);
            }
        }
    }

    /// Lowers the weight of an edge to `w`, or adds the edge.
    pub fn update_edge(&mut self, s: VertId, w: Weight, d: VertId)
        requires old(self).wf(), old(self).live(s), old(self).live(d),
        ensures
            final(self).wf(),
            final(self).edges() == (if old(self).edges().contains_key((s, d)) && old(self).edges()[(s, d)]@ <= w@ {
                old(self).edges()
            } else {
                old(self).edges().insert((s, d), w)
            }),
            final(self).gsize() == old(self).gsize(),
            final(self).freed() == old(self).freed(),
            forall|v: u64| #[trigger] final(self).live(v) == old(self).live(v),
    {
        assert(s < self.succs.len());
        match self.lookup(s, d) {
            Some(x) => {
                assert(self.has(s, d));
                if w.lt(x) {
                    self.write_weight(s, d, w);
                }
            },
            None => self.add_edge(s, w, d),
        }
    }

    /// Sets the weight of an edge, adding it if absent.
    pub fn set_edge(&mut self, s: VertId, w: Weight, d: VertId)
        requires old(self).wf(), old(self).live(s), old(self).live(d),
        ensures
            final(self).wf(),
            final(self).edges() == old(self).edges().insert((s, d), w),
            final(self).gsize() == old(self).gsize(),
            final(self).freed() == old(self).freed(),
            forall|v: u64| #[trigger] final(self).live(v) == old(self).live(v),
    {
        if self.elem(s, d) {
            assert(self.has(s, d));
            self.write_weight(s, d, w);
        } else {
            self.add_edge(s, w, d);
        }
    }

    /// Removes an edge and recycles its weight slot.
    fn remove_edge(&mut self, s: VertId, d: VertId)
        requires old(self).wf(), old(self).has(s, d),
        ensures
            final(self).wf(),
            final(self).edges() == old(self).edges().remove((s, d)),
            final(self).gsize() == old(self).gsize(),
            final(self).is_free@ == old(self).is_free@,
            final(self).free_id@ == old(self).free_id@,
            forall|v: u64| #[trigger] final(self).live(v) == old(self).live(v),
    {
        let ghost o = *old(self);
        assert(o.live(s) && o.live(d));
        assert(s < self.succs.len() && d < self.preds.len());
        let idx: usize = self.succs[s as usize].lookup(d).unwrap();
        assert(idx == o.idx(s, d));
        assert(o.edges().contains_key((s, d)));
        self.free_widx.push(idx);
        self.edge_count = self.edge_count - 1;
        let su: usize = s as usize;
        let du: usize = d as usize;
        self.succs[su].remove(d);
        self.preds[du].remove(s);
        proof {
            assert forall|a: u64, b: u64| #[trigger] self.has(a, b) == (o.has(a, b) && !(a == s && b == d)) by {}
            assert forall|a: u64, b: u64| #[trigger] self.has(a, b) implies self.idx(a, b) == o.idx(a, b) && o.has(a, b) by {}
            assert(self.edges() =~= o.edges().remove((s, d)));
            assert(self.edges().dom() =~= o.edges().dom().remove((s, d)));
            assert forall|v: u64| #[trigger] self.live(v) == o.live(v) by {}
            assert forall|a: u64, b: u64| #[trigger] self.has(a, b) implies
                self.live(a) && self.live(b) && self.idx(a, b) < self.ws@.len()
                && self.preds@[b as int]@.contains_key(a)
                && self.preds@[b as int]@[a] == self.succs@[a as int]@[b] by {
                assert(o.has(a, b));
            }
            assert forall|a: u64, b: u64| #![trigger self.preds@[b as int]@.contains_key(a)]
                b < self.preds@.len() && self.preds@[b as int]@.contains_key(a) implies self.has(a, b) by {
                assert(o.preds@[b as int]@.contains_key(a));
                assert(o.has(a, b));
            }
            assert forall|a: u64, b: u64, a2: u64, b2: u64| #![trigger self.has(a, b), self.has(a2, b2)]
                self.has(a, b) && self.has(a2, b2) && self.idx(a, b) == self.idx(a2, b2) implies a == a2 && b == b2 by {
                assert(o.has(a, b) && o.has(a2, b2));
            }
            let n = o.free_widx@.len() as int;
            assert forall|i: int| 0 <= i < n implies o.free_widx@[i] == (#[trigger] self.free_widx@[i]) by {}
            assert(self.free_widx@[n] == idx);
            assert forall|i: int, a: u64, b: u64| #![trigger self.free_widx@[i], self.has(a, b)]
                0 <= i < self.free_widx@.len() && self.has(a, b) implies self.free_widx@[i] != self.idx(a, b) by {
                assert(o.has(a, b) && o.has(s, d));
                if i < n { assert(o.free_widx@[i] != o.idx(a, b)); }
            }
            assert forall|i: int, j: int| 0 <= i < j < self.free_widx@.len() implies self.free_widx@[i] != self.free_widx@[j] by {
                assert(o.has(s, d));
                assert(o.free_widx@[i] != o.idx(s, d));
            }
        }
    }

    /// Frees a vertex and removes its edges; a freed vertex stays as it is.
    pub fn forget(&mut self, v: VertId)
        requires old(self).wf(), v < old(self).gsize(),
        ensures
            final(self).wf(),
            !final(self).live(v),
            forall|u: u64| #![trigger final(self).live(u)] u != v ==> final(self).live(u) == old(self).live(u),
            final(self).gsize() == old(self).gsize(),
            final(self).edges() == old(self).edges().remove_keys(Set::new(|e: (u64, u64)| e.0 == v || e.1 == v)),
            final(self).freed() == (if old(self).live(v) { old(self).freed().push(v) } else { old(self).freed() }),
    {
        let ghost o = *old(self);
        assert(v < self.is_free.len() && v < self.succs.len() && v < self.preds.len());
        let vi: usize = v as usize;
        if self.is_free[vi] {
            proof {
                o.lemma_edge_live();
                assert(self.edges() =~= o.edges().remove_keys(Set::new(|e: (u64, u64)| e.0 == v || e.1 == v))) by {
                    assert forall|e: (u64, u64)| o.edges().contains_key(e) implies e.0 != v && e.1 != v by {
                        assert(o.edges().contains_key((e.0, e.1)));
                    }
                }
            }
            return;
        }
        let out: Vec<VertId> = self.succs[vi].keys();
        let mut i: usize = 0;
        while i < out.len()
            invariant
                self.wf(),
                i <= out@.len(),
                forall|a: int, b: int| 0 <= a < b < out@.len() ==> out@[a] < out@[b],
                forall|k: u64| #![trigger out@.contains(k)] o.has(v, k) <==> out@.contains(k),
                v < o.gsize(),
                self.gsize() == o.gsize(),
                self.is_free@ == o.is_free@,
                self.free_id@ == o.free_id@,
                forall|u: u64| #[trigger] self.live(u) == o.live(u),
                forall|e: (u64, u64)| #[trigger] self.edges().contains_key(e) <==> o.edges().contains_key(e)
                    && !(e.0 == v && out@.take(i as int).contains(e.1)),
                forall|e: (u64, u64)| #[trigger] self.edges().contains_key(e) ==> self.edges()[e] == o.edges()[e],
            decreases out@.len() - i,
        {
            let d: VertId = out[i];
            proof {
                assert(out@.contains(d));
                assert(o.has(v, d));
                assert(o.edges().contains_key((v, d)));
                assert(!out@.take(i as int).contains(d)) by {
                    if out@.take(i as int).contains(d) {
                        let j = choose|j: int| 0 <= j < i && out@.take(i as int)[j] == d;
                        assert(out@[j] < out@[i as int]);
                    }
                }
                assert(self.edges().contains_key((v, d)));
                assert(self.has(v, d));
                assert(out@.take(i + 1) =~= out@.take(i as int).push(d));
                assert forall|x: u64| out@.take(i + 1).contains(x) <==> out@.take(i as int).contains(x) || x == d by {
                    if out@.take(i as int).contains(x) {
                        let j = choose|j: int| 0 <= j < i && out@.take(i as int)[j] == x;
                        assert(out@.take(i + 1)[j] == x);
                    }
                    if x == d { assert(out@.take(i + 1)[i as int] == d); }
                }
            }
            self.remove_edge(v, d);
            i = i + 1;
        }
        let ghost mid = *self;
        proof {
            assert(out@.take(out@.len() as int) =~= out@);
            assert forall|e: (u64, u64)| #[trigger] mid.edges().contains_key(e) <==> o.edges().contains_key(e) && e.0 != v by {
                if o.edges().contains_key(e) && e.0 == v {
                    assert(o.has(v, e.1));
                    assert(out@.contains(e.1));
                }
            }
        }
        assert(v < self.preds.len());
        let inc: Vec<VertId> = self.preds[vi].keys();
        proof {
            assert forall|k: u64| #![trigger inc@.contains(k)] mid.has(k, v) <==> inc@.contains(k) by {
                if inc@.contains(k) {
                    assert(mid.preds@[v as int]@.contains_key(k));
                }
                if mid.has(k, v) {
                    assert(mid.preds@[v as int]@.contains_key(k));
                }
            }
        }
        let mut i: usize = 0;
        while i < inc.len()
            invariant
                self.wf(),
                i <= inc@.len(),
                forall|a: int, b: int| 0 <= a < b < inc@.len() ==> inc@[a] < inc@[b],
                forall|k: u64| #![trigger inc@.contains(k)] mid.has(k, v) <==> inc@.contains(k),
                self.gsize() == mid.gsize(),
                self.is_free@ == mid.is_free@,
                self.free_id@ == mid.free_id@,
                forall|u: u64| #[trigger] self.live(u) == mid.live(u),
                forall|e: (u64, u64)| #[trigger] self.edges().contains_key(e) <==> mid.edges().contains_key(e)
                    && !(e.1 == v && inc@.take(i as int).contains(e.0)),
                forall|e: (u64, u64)| #[trigger] self.edges().contains_key(e) ==> self.edges()[e] == mid.edges()[e],
            decreases inc@.len() - i,
        {
            let d: VertId = inc[i];
            proof {
                assert(inc@.contains(d));
                assert(mid.has(d, v));
                assert(mid.edges().contains_key((d, v)));
                assert(!inc@.take(i as int).contains(d)) by {
                    if inc@.take(i as int).contains(d) {
                        let j = choose|j: int| 0 <= j < i && inc@.take(i as int)[j] == d;
                        assert(inc@[j] < inc@[i as int]);
                    }
                }
                assert(self.edges().contains_key((d, v)));
                assert(self.has(d, v));
                assert(inc@.take(i + 1) =~= inc@.take(i as int).push(d));
                assert forall|x: u64| inc@.take(i + 1).contains(x) <==> inc@.take(i as int).contains(x) || x == d by {
                    if inc@.take(i as int).contains(x) {
                        let j = choose|j: int| 0 <= j < i && inc@.take(i as int)[j] == x;
                        assert(inc@.take(i + 1)[j] == x);
                    }
                    if x == d { assert(inc@.take(i + 1)[i as int] == d); }
                }
            }
            self.remove_edge(d, v);
            i = i + 1;
        }
        let ghost last = *self;
        proof {
            assert(inc@.take(inc@.len() as int) =~= inc@);
            assert forall|e: (u64, u64)| #[trigger] last.edges().contains_key(e) <==> o.edges().contains_key(e) && e.0 != v && e.1 != v by {
                if mid.edges().contains_key(e) && e.1 == v {
                    assert(mid.has(e.0, v));
                    assert(inc@.contains(e.0));
                }
            }
            assert(last.edges() =~= o.edges().remove_keys(Set::new(|e: (u64, u64)| e.0 == v || e.1 == v)));
            assert(v < self.is_free.len());
        }
        self.is_free.set(vi, true);
        self.free_id.push(v);
        proof {
            assert forall|a: u64, b: u64| #[trigger] self.has(a, b) == last.has(a, b) by {}
            assert forall|a: u64, b: u64| #[trigger] self.has(a, b) implies self.idx(a, b) == last.idx(a, b) && last.has(a, b) by {}
            assert(self.edges() =~= last.edges());
            assert forall|u: u64| #![trigger self.live(u)] u != v implies self.live(u) == o.live(u) by {
                assert(last.live(u) == o.live(u));
            }
            assert forall|a: u64, b: u64| #[trigger] self.has(a, b) implies self.live(a) && self.live(b) by {
                assert(last.has(a, b));
                assert(last.edges().contains_key((a, b)));
            }
            let n = last.free_id@.len() as int;
            assert forall|k: int| 0 <= k < n implies (#[trigger] last.free_id@[k]) != v by {
                assert(last.is_free@[last.free_id@[k] as int]);
            }
            assert forall|k: int| 0 <= k < self.free_id@.len() implies (#[trigger] self.free_id@[k]) < self.is_free@.len()
                && self.is_free@[self.free_id@[k] as int] by {
                if k < n { assert(self.free_id@[k] == last.free_id@[k]); }
            }
            assert forall|u: u64| #![trigger self.is_free@[u as int]] u < self.is_free@.len() && self.is_free@[u as int]
                implies self.free_id@.contains(u) by {
                if u == v {
                    assert(self.free_id@[n] == v);
                } else {
                    assert(last.is_free@[u as int]);
                    let k = choose|k: int| 0 <= k < n && last.free_id@[k] == u;
                    assert(self.free_id@[k] == u);
                }
            }
        }
    }

    /// Whether there are no edges.
    pub fn is_empty(&self) -> (r: bool)
        requires self.wf(),
        ensures r == (self.edges() == Edges::empty()),
    {
        proof {
            if self.edge_count == 0 {
                assert(self.edges().dom() =~= Set::<(u64, u64)>::empty());
                assert(self.edges() =~= Edges::empty());
            } else {
                if self.edges() == Edges::empty() {
                    assert(self.edges().dom() =~= Set::<(u64, u64)>::empty());
                }
            }
        }
        self.edge_count == 0
    }

    /// The number of vertex slots.
    pub fn size(&self) -> (r: usize)
        requires self.wf(),
        ensures r == self.gsize(),
    {
        self.succs.len()
    }

    pub fn num_edges(&self) -> (r: usize)
        requires self.wf(),
        ensures self.edges().dom().finite(), r == self.edges().dom().len(),
    {
        self.edge_count
    }

    pub fn elem(&self, s: VertId, d: VertId) -> (r: bool)
        requires self.wf(), s < self.gsize(),
        ensures r == self.edges().contains_key((s, d)),
    {
        assert(s < self.succs.len());
        let r: bool = self.succs[s as usize].contains(d);
        assert(r == self.has(s, d));
        r
    }

    /// The weight of an edge.
    pub fn edge_val(&self, s: VertId, d: VertId) -> (r: Weight)
        requires self.wf(), self.edges().contains_key((s, d)),
        ensures r == self.edges()[(s, d)],
    {
        assert(self.has(s, d));
        assert(s < self.succs.len());
        let idx: usize = self.succs[s as usize].lookup(d).unwrap();
        assert(idx == self.idx(s, d));
        self.ws[idx]
    }

    /// The weight of an edge, if there is one.
    pub fn lookup(&self, s: VertId, d: VertId) -> (r: Option<Weight>)
        requires self.wf(), s < self.gsize(),
        ensures r == (if self.edges().contains_key((s, d)) { Some(self.edges()[(s, d)]) } else { None }),
    {
        if self.elem(s, d) {
            Some(self.edge_val(s, d))
        } else {
            None
        }
    }

    /// The place that holds the weight of an edge, if there is one.
    pub fn lookup_mut(&mut self, s: VertId, d: VertId) -> (r: Option<&mut Weight>)
        requires old(self).wf(), s < old(self).gsize(),
        ensures
            r is Some <==> old(self).edges().contains_key((s, d)),
            r is None ==> *final(self) == *old(self),
            r matches Some(w) ==> *w == old(self).edges()[(s, d)]
                && final(self).wf()
                && final(self).edges() == old(self).edges().insert((s, d), *final(w))
                && final(self).gsize() == old(self).gsize()
                && forall|v: u64| #[trigger] final(self).live(v) == old(self).live(v),
    {
        assert(s < self.succs.len());
        let ghost o = *self;
        match self.succs[s as usize].lookup(d) {
            Some(idx) => {
                assert(o.has(s, d));
                assert(idx == o.idx(s, d));
                proof {
                    assert forall|w: Weight, g: AdaptGraph| #![trigger g.ws@, o.ws@.update(idx as int, w)]
                        g.preds == o.preds && g.succs == o.succs && g.edge_count == o.edge_count && g.is_free == o.is_free
                        && g.free_id == o.free_id && g.free_widx == o.free_widx && g.ws@ == o.ws@.update(idx as int, w)
                        implies g.wf() && g.edges() == o.edges().insert((s, d), w) && g.gsize() == o.gsize()
                        && (forall|v: u64| #[trigger] g.live(v) == o.live(v)) by {
                        o.lemma_write(g, s, d, idx, w);
                    }
                }
                Some(&mut self.ws[idx])
            },
            None => {
                assert(!o.has(s, d));
                None
            },
        }
    }

    proof fn lemma_write(&self, g: AdaptGraph, s: u64, d: u64, idx: usize, w: Weight)
        requires
            self.wf(),
            self.has(s, d),
            idx == self.idx(s, d),
            g.preds == self.preds,
            g.succs == self.succs,
            g.edge_count == self.edge_count,
            g.is_free == self.is_free,
            g.free_id == self.free_id,
            g.free_widx == self.free_widx,
            g.ws@ == self.ws@.update(idx as int, w),
        ensures
            g.wf(),
            g.edges() == self.edges().insert((s, d), w),
            g.gsize() == self.gsize(),
            forall|v: u64| #[trigger] g.live(v) == self.live(v),
    {
        assert forall|a: u64, b: u64| #[trigger] g.has(a, b) == self.has(a, b) by {}
        assert forall|a: u64, b: u64| #[trigger] g.has(a, b) implies g.idx(a, b) == self.idx(a, b) && self.has(a, b) by {}
        assert(g.edges() =~= self.edges().insert((s, d), w)) by {
            assert forall|e: (u64, u64)| g.has(e.0, e.1) implies #[trigger] g.edges()[e] == self.edges().insert((s, d), w)[e] by {
                if e != (s, d) {
                    assert(self.has(e.0, e.1) && self.has(s, d));
                    assert(self.idx(e.0, e.1) != idx);
                }
            }
        }
        assert(self.edges().contains_key((s, d)));
        assert(g.edges().dom() =~= self.edges().dom());
    }

    /// Removes every edge; the vertices stay.
    pub fn clear_edges(&mut self)
        requires old(self).wf(),
        ensures
            final(self).wf(),
            final(self).edges() == Edges::empty(),
            final(self).gsize() == old(self).gsize(),
            forall|v: u64| #[trigger] final(self).live(v) == old(self).live(v),
    {
        let ghost o = *old(self);
        self.ws.clear();
        self.free_widx.clear();
        let n: usize = self.is_free.len();
        let mut v: usize = 0;
        while v < n
            invariant
                v <= n,
                n == o.is_free@.len(),
                n == o.succs@.len(),
                n == o.preds@.len(),
                o.wf(),
                self.ws@.len() == 0,
                self.free_widx@.len() == 0,
                self.is_free == o.is_free,
                self.free_id == o.free_id,
                self.succs@.len() == n,
                self.preds@.len() == n,
                forall|u: int| 0 <= u < v ==> (#[trigger] self.succs@[u])@ == Map::<u64, usize>::empty(),
                forall|u: int| 0 <= u < v ==> (#[trigger] self.preds@[u])@ == Map::<u64, usize>::empty(),
                forall|u: int| v <= u < n ==> (#[trigger] self.succs@[u]) == o.succs@[u],
                forall|u: int| v <= u < n ==> (#[trigger] self.preds@[u]) == o.preds@[u],
            decreases n - v,
        {
            if !self.is_free[v] {
                self.succs[v].clear();
                self.preds[v].clear();
            } else {
                proof {
                    let x = v as u64;
                    assert(!o.live(x));
                    assert(self.succs@[v as int]@ =~= Map::<u64, usize>::empty()) by {
                        assert forall|k: u64| !self.succs@[v as int]@.contains_key(k) by {
                            if o.succs@[v as int]@.contains_key(k) { assert(o.has(x, k)); }
                        }
                    }
                    assert(self.preds@[v as int]@ =~= Map::<u64, usize>::empty()) by {
                        assert forall|k: u64| !self.preds@[v as int]@.contains_key(k) by {
                            if o.preds@[x as int]@.contains_key(k) { assert(o.has(k, x)); }
                        }
                    }
                }
            }
            v = v + 1;
        }
        self.edge_count = 0;
        proof {
            assert forall|a: u64, b: u64| !(#[trigger] self.has(a, b)) by {
                if a < n { assert(self.succs@[a as int]@ == Map::<u64, usize>::empty()); }
            }
            assert(self.edges() =~= Edges::empty());
            assert forall|a: u64, b: u64| #![trigger self.preds@[b as int]@.contains_key(a)]
                b < self.preds@.len() implies !self.preds@[b as int]@.contains_key(a) by {
                assert(self.preds@[b as int]@ == Map::<u64, usize>::empty());
            }
            assert forall|u: u64| #[trigger] self.live(u) == o.live(u) by {}
        }
    }

    /// Removes every vertex and edge.
    pub fn clear(&mut self)
        ensures
            final(self).wf(),
            final(self).edges() == Edges::empty(),
            final(self).gsize() == 0,
            forall|v: u64| !(#[trigger] final(self).live(v)),
    {
        *self = AdaptGraph::new();
    }

    /// The allocated vertices in increasing order.
    pub fn verts(&self) -> (r: Vec<VertId>)
        requires self.wf(),
        ensures
            forall|i: int, j: int| 0 <= i < j < r@.len() ==> r@[i] < r@[j],
            forall|v: u64| #[trigger] r@.contains(v) <==> self.live(v),
            r@.no_duplicates(),
    {
        let mut r: Vec<VertId> = Vec::new();
        let n: usize = self.is_free.len();
        let mut pos: usize = 0;
        while pos < n
            invariant
                pos <= n,
                n == self.is_free@.len(),
                forall|i: int, j: int| 0 <= i < j < r@.len() ==> r@[i] < r@[j],
                forall|i: int| 0 <= i < r@.len() ==> #[trigger] r@[i] < pos && self.live(r@[i]),
                forall|v: u64| v < pos && self.live(v) ==> r@.contains(v),
            decreases n - pos,
        {
            let ghost before = r@;
            if !self.is_free[pos] {
                r.push(pos as VertId);
                proof {
                    assert forall|v: u64| v < pos + 1 && self.live(v) implies r@.contains(v) by {
                        if v == pos {
                            assert(r@[before.len() as int] == v);
                        } else {
                            assert(before.contains(v));
                            let i = choose|i: int| 0 <= i < before.len() && before[i] == v;
                            assert(r@[i] == v);
                        }
                    }
                }
            }
            pos = pos + 1;
        }
        r
    }

    /// The successors of a vertex in increasing order.
    pub fn succs(&self, v: VertId) -> (r: Vec<VertId>)
        requires self.wf(), v < self.gsize(),
        ensures
            lists_verts(r@, self.edges(), v, true),
            forall|i: int, j: int| 0 <= i < j < r@.len() ==> r@[i] < r@[j],
    {
        assert(v < self.succs.len());
        let r: Vec<VertId> = self.succs[v as usize].keys();
        proof {
            assert forall|u: u64| #![trigger self.edges().contains_key(edge_key(v, u, true))] #![trigger r@.contains(u)]
                self.edges().contains_key(edge_key(v, u, true)) <==> r@.contains(u) by {
                assert(self.has(v, u) == self.succs@[v as int]@.contains_key(u));
            }
        }
        r
    }

    /// The predecessors of a vertex in increasing order.
    pub fn preds(&self, v: VertId) -> (r: Vec<VertId>)
        requires self.wf(), v < self.gsize(),
        ensures
            lists_verts(r@, self.edges(), v, false),
            forall|i: int, j: int| 0 <= i < j < r@.len() ==> r@[i] < r@[j],
    {
        assert(v < self.preds.len());
        let r: Vec<VertId> = self.preds[v as usize].keys();
        proof {
            assert forall|u: u64| #![trigger self.edges().contains_key(edge_key(v, u, false))] #![trigger r@.contains(u)]
                self.edges().contains_key(edge_key(v, u, false)) <==> r@.contains(u) by {
                if self.has(u, v) { assert(self.preds@[v as int]@.contains_key(u)); }
                if self.preds@[v as int]@.contains_key(u) { assert(self.has(u, v)); }
            }
        }
        r
    }

    /// The number of successors.
    pub fn succs_len(&self, v: VertId) -> (r: usize)
        requires self.wf(), v < self.gsize(),
        ensures
            neighbours(self.edges(), v, true).finite(),
            r == neighbours(self.edges(), v, true).len(),
            r == 0 <==> forall|u: u64| !(#[trigger] self.edges().contains_key((v, u))),
    {
        assert(v < self.succs.len());
        let r: usize = self.succs[v as usize].size();
        proof {
            let m = self.succs@[v as int]@;
            assert forall|u: u64| self.edges().contains_key((v, u)) == m.contains_key(u) by {
                assert(self.has(v, u) == m.contains_key(u));
            }
            assert(neighbours(self.edges(), v, true) =~= m.dom());
            if r == 0 {
                assert forall|u: u64| !(#[trigger] self.edges().contains_key((v, u))) by { assert(!m.contains_key(u)); }
            } else if forall|u: u64| !(#[trigger] self.edges().contains_key((v, u))) {
                assert forall|u: u64| !m.contains_key(u) by { assert(self.edges().contains_key((v, u)) == m.contains_key(u)); }
                assert(m =~= Map::<u64, usize>::empty());
            }
        }
        r
    }

    /// The number of predecessors.
    pub fn preds_len(&self, v: VertId) -> (r: usize)
        requires self.wf(), v < self.gsize(),
        ensures
            neighbours(self.edges(), v, false).finite(),
            r == neighbours(self.edges(), v, false).len(),
            r == 0 <==> forall|u: u64| !(#[trigger] self.edges().contains_key((u, v))),
    {
        assert(v < self.preds.len());
        let r: usize = self.preds[v as usize].size();
        proof {
            let m = self.preds@[v as int]@;
            assert forall|u: u64| self.has(u, v) == m.contains_key(u) by {
                if self.has(u, v) { assert(self.preds@[v as int]@.contains_key(u)); }
                if self.preds@[v as int]@.contains_key(u) { assert(self.has(u, v)); }
            }
            assert(neighbours(self.edges(), v, false) =~= m.dom());
            if r == 0 {
                assert forall|u: u64| !(#[trigger] self.edges().contains_key((u, v))) by { assert(!m.contains_key(u)); }
            } else if forall|u: u64| !(#[trigger] self.edges().contains_key((u, v))) {
                assert forall|u: u64| !m.contains_key(u) by { assert(self.edges().contains_key((u, v)) == m.contains_key(u)); }
                assert(m =~= Map::<u64, usize>::empty());
            }
        }
        r
    }

    /// The outgoing edges of a vertex, by increasing neighbours.
    pub fn e_succs(&self, v: VertId) -> (r: Vec<EdgeRef>)
        requires self.wf(), v < self.gsize(),
        ensures
            lists_edges(r@, self.edges(), v, true),
            forall|i: int, j: int| 0 <= i < j < r@.len() ==> r@[i].vert < r@[j].vert,
    {
        let vs: Vec<VertId> = self.succs(v);
        let mut r: Vec<EdgeRef> = Vec::new();
        let mut i: usize = 0;
        while i < vs.len()
            invariant
                i <= vs@.len(),
                self.wf(),
                lists_verts(vs@, self.edges(), v, true),
                forall|a: int, b: int| 0 <= a < b < vs@.len() ==> vs@[a] < vs@[b],
                r@.len() == i,
                forall|j: int| #![trigger r@[j]] 0 <= j < i ==> r@[j].vert == vs@[j]
                    && self.edges()[(v, vs@[j])] == r@[j].val,
            decreases vs@.len() - i,
        {
            assert(vs@.contains(vs@[i as int]));
            assert(self.edges().contains_key(edge_key(v, vs@[i as int], true)));
            r.push(EdgeRef { vert: vs[i], val: self.edge_val(v, vs[i]) });
            i = i + 1;
        }
        proof { lemma_listed(r@, vs@, self.edges(), v, true); }
        r
    }

    /// The incoming edges of a vertex, by increasing neighbours.
    pub fn e_preds(&self, v: VertId) -> (r: Vec<EdgeRef>)
        requires self.wf(), v < self.gsize(),
        ensures
            lists_edges(r@, self.edges(), v, false),
            forall|i: int, j: int| 0 <= i < j < r@.len() ==> r@[i].vert < r@[j].vert,
    {
        let vs: Vec<VertId> = self.preds(v);
        let mut r: Vec<EdgeRef> = Vec::new();
        let mut i: usize = 0;
        while i < vs.len()
            invariant
                i <= vs@.len(),
                self.wf(),
                lists_verts(vs@, self.edges(), v, false),
                forall|a: int, b: int| 0 <= a < b < vs@.len() ==> vs@[a] < vs@[b],
                r@.len() == i,
                forall|j: int| #![trigger r@[j]] 0 <= j < i ==> r@[j].vert == vs@[j]
                    && self.edges()[(vs@[j], v)] == r@[j].val,
            decreases vs@.len() - i,
        {
            assert(vs@.contains(vs@[i as int]));
            assert(self.edges().contains_key(edge_key(v, vs@[i as int], false)));
            r.push(EdgeRef { vert: vs[i], val: self.edge_val(vs[i], v) });
            i = i + 1;
        }
        proof { lemma_listed(r@, vs@, self.edges(), v, false); }
        r
    }

    fn push_row(&self, s: &mut String, v: VertId)
        requires self.wf(), v < self.gsize(),
        ensures final(s)@ == old(s)@ + row_text(self.edges(), v, self.gsize()),
    {
        let n: usize = self.size();
        let mut first: bool = true;
        let mut u: usize = 0;
        assert(s@ =~= s@ + row_text(self.edges(), v, 0));
        while u < n
            invariant
                u <= n,
                n == self.gsize(),
                v < n,
                self.wf(),
                s@ == old(s)@ + row_text(self.edges(), v, u as nat),
                first == (row_text(self.edges(), v, u as nat).len() == 0),
            decreases n - u,
        {
            let ghost before = s@;
            let ghost row = row_text(self.edges(), v, u as nat);
            if let Some(w) = self.lookup(v, u as VertId) {
                proof { reveal_strlit("("); }
                if !first { s.append(", "); }
                first = false;
                s.append("(");
                w.write_to(s);
                s.append(":");
                text::push_nat(s, u as u128);
                s.append(")");
                assert(row_text(self.edges(), v, (u + 1) as nat).len() > 0);
                assert(s@ =~= old(s)@ + row_text(self.edges(), v, (u + 1) as nat));
            }
            u = u + 1;
        }
    }

    /// The edges, by source and destination.
    pub fn to_string(&self) -> (r: String)
        requires self.wf(),
        ensures r@ == "[|"@ + rows_text(self.edges(), self.gsize(), self.gsize()) + "|]"@,
    {
        let mut s = String::new();
        s.append("[|");
        let n: usize = self.size();
        let mut first: bool = true;
        let mut v: usize = 0;
        assert(s@ =~= "[|"@ + rows_text(self.edges(), 0, n as nat));
        while v < n
            invariant
                v <= n,
                n == self.gsize(),
                self.wf(),
                s@ == "[|"@ + rows_text(self.edges(), v as nat, n as nat),
                first == (rows_text(self.edges(), v as nat, n as nat).len() == 0),
            decreases n - v,
        {
            let mut row = String::new();
            self.push_row(&mut row, v as VertId);
            assert(row@ =~= row_text(self.edges(), v as u64, n as nat));
            if row.as_str().unicode_len() > 0 {
                proof { reveal_strlit("]"); }
                if !first { s.append(", "); }
                first = false;
                s.append("[v");
                text::push_nat(&mut s, v as u128);
                s.append(" -> ");
                s.append(row.as_str());
                s.append("]");
                assert(s@ =~= "[|"@ + rows_text(self.edges(), (v + 1) as nat, n as nat));
            }
            v = v + 1;
        }
        s.append("|]");
        s
    }

    pub fn copy(&self) -> (r: Self)
        requires self.wf(),
        ensures
            r.wf(),
            r.edges() == self.edges(),
            r.gsize() == self.gsize(),
            r.freed() == self.freed(),
            forall|v: u64| #[trigger] r.live(v) == self.live(v),
    {
        let mut preds: Vec<TreeSMap> = Vec::new();
        let mut succs: Vec<TreeSMap> = Vec::new();
        let n: usize = self.succs.len();
        let mut i: usize = 0;
        while i < n
            invariant
                i <= n,
                n == self.succs@.len(),
                n == self.preds@.len(),
                preds@.len() == i,
                succs@.len() == i,
                forall|j: int| #![trigger preds@[j]] 0 <= j < i ==> preds@[j]@ == self.preds@[j]@,
                forall|j: int| #![trigger succs@[j]] 0 <= j < i ==> succs@[j]@ == self.succs@[j]@,
            decreases n - i,
        {
            preds.push(self.preds[i].copy());
            succs.push(self.succs[i].copy());
            i = i + 1;
        }
        let r = AdaptGraph {
            preds,
            succs,
            ws: self.ws.clone(),
            edge_count: self.edge_count,
            is_free: self.is_free.clone(),
            free_id: self.free_id.clone(),
            free_widx: self.free_widx.clone(),
        };
        proof {
            assert(r.ws@ =~= self.ws@);
            assert(r.is_free@ =~= self.is_free@);
            assert(r.free_id@ =~= self.free_id@);
            assert(r.free_widx@ =~= self.free_widx@);
            assert forall|a: u64, b: u64| #[trigger] r.has(a, b) == self.has(a, b) by {
                if a < n { assert(r.succs@[a as int]@ == self.succs@[a as int]@); }
            }
            assert forall|a: u64, b: u64| #[trigger] r.has(a, b) implies r.idx(a, b) == self.idx(a, b) && self.has(a, b)
                && r.preds@[b as int]@ == self.preds@[b as int]@ && r.live(a) == self.live(a) && r.live(b) == self.live(b) by {
                assert(r.succs@[a as int]@ == self.succs@[a as int]@);
                assert(self.live(b));
                assert(r.preds@[b as int]@ == self.preds@[b as int]@);
            }
            assert(r.edges() =~= self.edges());
            assert forall|a: u64, b: u64| #![trigger r.preds@[b as int]@.contains_key(a)]
                b < r.preds@.len() && r.preds@[b as int]@.contains_key(a) implies r.has(a, b) by {
                assert(self.preds@[b as int]@.contains_key(a));
                assert(self.has(a, b));
            }
        }
        r
    }
}

/// The text of an edge to `u`.
pub open spec fn edge_text(w: Number, u: u64) -> Seq<char> {
    "("@ + text::dec_int(w@) + ":"@ + text::dec_nat(u as nat) + ")"@
}

/// The text of the edges from `v` to vertices below `n`.
pub open spec fn row_text(edges: Edges, v: u64, n: nat) -> Seq<char>
    decreases n,
{
    if n == 0 {
        seq![]
    } else {
        let before = row_text(edges, v, (n - 1) as nat);
        let u = (n - 1) as u64;
        if !edges.contains_key((v, u)) {
            before
        } else if before.len() == 0 {
            edge_text(edges[(v, u)], u)
        } else {
            before + ", "@ + edge_text(edges[(v, u)], u)
        }
    }
}

/// The text of the edges out of vertices below `n`; there are `size` vertices.
pub open spec fn rows_text(edges: Edges, n: nat, size: nat) -> Seq<char>
    decreases n,
{
    if n == 0 {
        seq![]
    } else {
        let before = rows_text(edges, (n - 1) as nat, size);
        let v = (n - 1) as u64;
        let row = row_text(edges, v, size);
        if row.len() == 0 {
            before
        } else {
            before + (if before.len() == 0 { seq![] } else { ", "@ }) + "[v"@ + text::dec_nat(v as nat) + " -> "@ + row + "]"@
        }
    }
}

/// Edges built from the listed neighbours list the edges.
pub proof fn lemma_listed(r: Seq<EdgeRef>, vs: Seq<u64>, edges: Edges, v: u64, out: bool)
    requires
        lists_verts(vs, edges, v, out),
        r.len() == vs.len(),
        forall|j: int| #![trigger r[j]] 0 <= j < r.len() ==> r[j].vert == vs[j]
            && edges[edge_key(v, vs[j], out)] == r[j].val,
    ensures lists_edges(r, edges, v, out),
{
    assert forall|i: int| #![trigger r[i]] 0 <= i < r.len() implies edges.contains_key(edge_key(v, r[i].vert, out)) by {
        assert(vs.contains(vs[i]));
    }
    assert forall|u: u64| #![trigger edges.contains_key(edge_key(v, u, out))]
        edges.contains_key(edge_key(v, u, out)) implies exists|i: int| 0 <= i < r.len() && (#[trigger] r[i]).vert == u by {
        assert(vs.contains(u));
        let i = choose|i: int| 0 <= i < vs.len() && vs[i] == u;
        assert(r[i].vert == u);
    }
}

}
