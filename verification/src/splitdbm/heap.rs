//! Min-heap of vertices with decrease-key, ordered by an external array of weights.
use vstd::prelude::*;
use crate::splitdbm::{VertId, Weight};

verus! {

/// A min-heap of vertex ids. The weights that order it live with the caller,
/// who hands them to every operation that compares.
#[derive(Debug)]
pub struct WeightHeap {
    /// The heap array.
    heap: Vec<VertId>,
    /// Maps a vertex to its position in `heap`.
    indices: Vec<Option<usize>>,
}

/// The weight of a vertex.
pub open spec fn key(dists: Seq<Weight>, v: u64) -> int {
    dists[v as int]@
}

impl WeightHeap {
    pub open spec fn parent_of(i: int) -> int {
        (i - 1) / 2
    }

    /// The vertices in the heap.
    pub closed spec fn items(&self) -> Set<u64> {
        self.heap@.to_set()
    }

    /// Positions and vertices correspond, and every vertex has a weight among `n`.
    pub closed spec fn wf(&self, n: nat) -> bool {
        &&& forall|i: int| #![trigger self.heap@[i]] 0 <= i < self.heap@.len() ==> {
            &&& self.heap@[i] < n
            &&& self.heap@[i] < self.indices@.len()
            &&& self.at(self.heap@[i]) == i
        }
        &&& forall|v: int| #![trigger self.indices@[v]] 0 <= v < self.indices@.len() ==> (self.indices@[v] matches Some(i)
            ==> i < self.heap@.len() && self.heap@[i as int] == v)
        &&& self.indices@.len() <= n
        &&& n <= usize::MAX
    }

    /// The position of a vertex, or -1.
    spec fn at(&self, v: u64) -> int {
        match self.indices@[v as int] {
            Some(i) => i as int,
            None => -1,
        }
    }

    spec fn ordered_at(&self, dists: Seq<Weight>, i: int) -> bool {
        key(dists, self.heap@[Self::parent_of(i)]) <= key(dists, self.heap@[i])
    }

    /// No vertex weighs less than its parent.
    pub closed spec fn ordered(&self, dists: Seq<Weight>) -> bool {
        forall|i: int| 0 < i < self.heap@.len() ==> #[trigger] self.ordered_at(dists, i)
    }

    /// The order holds but for the position `p`, whose children stay above its parent.
    spec fn ordered_but_at(&self, dists: Seq<Weight>, p: int) -> bool {
        &&& forall|i: int| 0 < i < self.heap@.len() && i != p ==> #[trigger] self.ordered_at(dists, i)
        &&& forall|i: int| 0 < i < self.heap@.len() && Self::parent_of(i) == p && p > 0 ==>
            key(dists, self.heap@[Self::parent_of(p)]) <= key(dists, #[trigger] self.heap@[i])
    }

    /// The order holds but that the vertex `v` may weigh less than its parent.
    pub closed spec fn ordered_but(&self, dists: Seq<Weight>, v: u64) -> bool {
        exists|p: int| 0 <= p < self.heap@.len() && self.heap@[p] == v && #[trigger] self.ordered_but_at(dists, p)
    }

    /// Lowering the weight of one vertex leaves the order intact elsewhere.
    pub proof fn lemma_lowered(&self, before: Seq<Weight>, after: Seq<Weight>, v: u64)
        requires
            self.wf(before.len()),
            self.ordered(before),
            self.items().contains(v),
            after.len() == before.len(),
            forall|u: int| 0 <= u < before.len() && u != v ==> before[u] == after[u],
            key(after, v) <= key(before, v),
        ensures self.ordered_but(after, v),
    {
        let p = choose|p: int| 0 <= p < self.heap@.len() && self.heap@[p] == v;
        assert forall|i: int| 0 < i < self.heap@.len() && i != p implies #[trigger] self.ordered_at(after, i) by {
            assert(self.ordered_at(before, i));
            assert(self.heap@[i] != v);
        }
        assert forall|i: int| 0 < i < self.heap@.len() && Self::parent_of(i) == p && p > 0 implies
            key(after, self.heap@[Self::parent_of(p)]) <= key(after, #[trigger] self.heap@[i]) by {
            assert(self.ordered_at(before, i));
            assert(self.ordered_at(before, p));
            assert(self.heap@[i] != v);
            assert(self.heap@[Self::parent_of(p)] != v);
        }
        assert(self.ordered_but_at(after, p));
    }

    /// The weights of vertices outside the heap do not matter.
    pub proof fn lemma_outside(&self, before: Seq<Weight>, after: Seq<Weight>, v: u64)
        requires
            self.wf(before.len()),
            self.ordered(before),
            !self.items().contains(v),
            after.len() == before.len(),
            forall|u: int| 0 <= u < before.len() && u != v ==> before[u] == after[u],
        ensures self.ordered(after),
    {
        assert forall|i: int| 0 < i < self.heap@.len() implies #[trigger] self.ordered_at(after, i) by {
            assert(self.ordered_at(before, i));
            assert(self.heap@.to_set().contains(self.heap@[i]));
            assert(self.heap@.to_set().contains(self.heap@[Self::parent_of(i)]));
        }
    }

    /// The root weighs least.
    proof fn lemma_root(&self, dists: Seq<Weight>, i: int)
        requires self.ordered(dists), 0 <= i < self.heap@.len(),
        ensures key(dists, self.heap@[0]) <= key(dists, self.heap@[i]),
        decreases i,
    {
        if i > 0 {
            assert(self.ordered_at(dists, i));
            self.lemma_root(dists, Self::parent_of(i));
        }
    }

    pub fn new() -> (r: Self)
        ensures
            r.items() == Set::<u64>::empty(),
            forall|n: nat| n <= usize::MAX ==> #[trigger] r.wf(n),
            forall|d: Seq<Weight>| #[trigger] r.ordered(d),
    {
        let r = WeightHeap { heap: Vec::new(), indices: Vec::new() };
        assert(r.items() =~= Set::<u64>::empty());
        r
    }

    fn parent(i: usize) -> (r: usize)
        requires i > 0,
        ensures r == Self::parent_of(i as int), r < i,
    {
        (i - 1) / 2
    }

    /// Exchanges the vertices at two positions.
    fn exchange(&mut self, i: usize, j: usize, Ghost(n): Ghost<nat>)
        requires
            old(self).wf(n),
            i < old(self).heap@.len(),
            j < old(self).heap@.len(),
            i != j,
        ensures
            final(self).wf(n),
            final(self).items() == old(self).items(),
            final(self).heap@ == old(self).heap@.update(i as int, old(self).heap@[j as int]).update(j as int, old(self).heap@[i as int]),
            final(self).indices@.len() == old(self).indices@.len(),
    {
        let ghost h = self.heap@;
        let x: VertId = self.heap[i];
        let y: VertId = self.heap[j];
        assert(x != y) by { assert(self.at(h[i as int]) == i); assert(self.at(h[j as int]) == j); }
        self.heap.set(i, y);
        self.heap.set(j, x);
        assert(x < self.indices.len() && y < self.indices.len());
        self.indices.set(y as usize, Some(i));
        self.indices.set(x as usize, Some(j));
        proof {
            assert forall|k: int| #![trigger self.heap@[k]] 0 <= k < self.heap@.len() implies {
                &&& self.heap@[k] < n
                &&& self.heap@[k] < self.indices@.len()
                &&& self.at(self.heap@[k]) == k
            } by {
                assert(h[k] < n);
                if k != i && k != j {
                    assert(self.heap@[k] == h[k]);
                    assert(h[k] != x && h[k] != y) by {
                        assert(old(self).at(h[i as int]) == i);
                        assert(old(self).at(h[j as int]) == j);
                        assert(old(self).at(h[k]) == k);
                    }
                }
            }
            assert forall|v: u64| self.heap@.to_set().contains(v) <==> h.to_set().contains(v) by {
                if h.contains(v) {
                    let k = choose|k: int| 0 <= k < h.len() && h[k] == v;
                    if k == i { assert(self.heap@[j as int] == v); } else if k == j { assert(self.heap@[i as int] == v); } else { assert(self.heap@[k] == v); }
                }
                if self.heap@.contains(v) {
                    let k = choose|k: int| 0 <= k < self.heap@.len() && self.heap@[k] == v;
                    if k == i { assert(h[j as int] == v); } else if k == j { assert(h[i as int] == v); } else { assert(h[k] == v); }
                }
            }
            assert(self.items() =~= old(self).items());
        }
    }

    /// Moves the vertex at `i` towards the root until its parent weighs no more.
    fn percolate_up(&mut self, i: usize, dists: &Vec<Weight>)
        requires
            old(self).wf(dists@.len()),
            i < old(self).heap@.len(),
        ensures
            final(self).wf(dists@.len()),
            final(self).items() == old(self).items(),
            final(self).heap@.len() == old(self).heap@.len(),
            old(self).ordered_but_at(dists@, i as int) ==> final(self).ordered(dists@),
    {
        let mut i: usize = i;
        let ghost good = old(self).ordered_but_at(dists@, i as int);
        while i != 0
            invariant
                self.wf(dists@.len()),
                i < self.heap@.len(),
                self.items() == old(self).items(),
                self.heap@.len() == old(self).heap@.len(),
                good ==> self.ordered_but_at(dists@, i as int),
            ensures
                good ==> self.ordered(dists@),
            decreases i,
        {
            let p: usize = Self::parent(i);
            assert(self.heap@[i as int] < dists.len() && self.heap@[p as int] < dists.len());
            if !dists[self.heap[i] as usize].lt(dists[self.heap[p] as usize]) {
                proof {
                    if good {
                        assert forall|k: int| 0 < k < self.heap@.len() implies #[trigger] self.ordered_at(dists@, k) by {
                            if k == i { }
                        }
                    }
                }
                break;
            }
            let ghost before = *self;
            self.exchange(i, p, Ghost(dists@.len()));
            proof {
                if good {
                    let x = before.heap@[i as int];
                    let y = before.heap@[p as int];
                    assert forall|k: int| 0 < k < self.heap@.len() && k != p implies #[trigger] self.ordered_at(dists@, k) by {
                        if k == i {
                        } else if Self::parent_of(k) == i {
                            assert(key(dists@, before.heap@[Self::parent_of(i as int)]) <= key(dists@, before.heap@[k]));
                        } else if Self::parent_of(k) == p {
                            assert(before.ordered_at(dists@, k));
                        } else {
                            assert(before.ordered_at(dists@, k));
                        }
                    }
                    assert forall|k: int| 0 < k < self.heap@.len() && Self::parent_of(k) == p && p > 0 implies
                        key(dists@, self.heap@[Self::parent_of(p as int)]) <= key(dists@, #[trigger] self.heap@[k]) by {
                        assert(before.ordered_at(dists@, p as int));
                        if k != i { assert(before.ordered_at(dists@, k)); }
                    }
                    assert(self.ordered_but_at(dists@, p as int));
                }
            }
            i = p;
        }
        proof {
            if good {
                assert forall|k: int| 0 < k < self.heap@.len() implies #[trigger] self.ordered_at(dists@, k) by {}
            }
        }
    }

    /// The order holds below the root.
    spec fn ordered_below(&self, dists: Seq<Weight>, p: int) -> bool {
        &&& forall|i: int| 0 < i < self.heap@.len() && Self::parent_of(i) != p ==> #[trigger] self.ordered_at(dists, i)
        &&& forall|i: int| 0 < i < self.heap@.len() && Self::parent_of(i) == p && p > 0 ==>
            key(dists, self.heap@[Self::parent_of(p)]) <= key(dists, #[trigger] self.heap@[i])
    }

    /// Moves the root downwards until no child weighs less.
    fn percolate_down(&mut self, dists: &Vec<Weight>)
        requires
            old(self).wf(dists@.len()),
            old(self).heap@.len() > 0,
        ensures
            final(self).wf(dists@.len()),
            final(self).items() == old(self).items(),
            final(self).heap@.len() == old(self).heap@.len(),
            old(self).ordered_below(dists@, 0) ==> final(self).ordered(dists@),
    {
        let mut i: usize = 0;
        let size: usize = self.heap.len();
        let ghost good = old(self).ordered_below(dists@, 0);
        while i < size / 2
            invariant
                self.wf(dists@.len()),
                i < size,
                size == self.heap@.len(),
                self.items() == old(self).items(),
                self.heap@.len() == old(self).heap@.len(),
                good ==> self.ordered_below(dists@, i as int),
            ensures
                good ==> self.ordered(dists@),
            decreases size - i,
        {
            let li: usize = 2 * i + 1;
            let mut child: usize = li;
            assert(self.heap@[li as int] < dists.len());
            assert(self.heap@[i as int] < dists.len());
            if li + 1 < size {
                let ri: usize = li + 1;
                assert(self.heap@[ri as int] < dists.len());
                if dists[self.heap[ri] as usize].lt(dists[self.heap[li] as usize]) {
                    child = ri;
                }
            }
            if !dists[self.heap[child] as usize].lt(dists[self.heap[i] as usize]) {
                proof {
                    if good {
                        assert forall|k: int| 0 < k < self.heap@.len() implies #[trigger] self.ordered_at(dists@, k) by {
                            if Self::parent_of(k) == i { assert(k == li || k == li + 1); }
                        }
                    }
                }
                break;
            }
            let ghost before = *self;
            self.exchange(i, child, Ghost(dists@.len()));
            proof {
                if good {
                    assert forall|k: int| 0 < k < self.heap@.len() && Self::parent_of(k) != child implies #[trigger] self.ordered_at(dists@, k) by {
                        if Self::parent_of(k) == i {
                            assert(k == li || k == li + 1);
                        } else if k == i {
                            assert(Self::parent_of(child as int) == i);
                            assert(key(dists@, before.heap@[Self::parent_of(i as int)]) <= key(dists@, before.heap@[child as int]));
                        } else {
                            assert(before.ordered_at(dists@, k));
                        }
                    }
                    assert forall|k: int| 0 < k < self.heap@.len() && Self::parent_of(k) == child && child > 0 implies
                        key(dists@, self.heap@[Self::parent_of(child as int)]) <= key(dists@, #[trigger] self.heap@[k]) by {
                        assert(before.ordered_at(dists@, k));
                    }
                    assert(self.ordered_below(dists@, child as int));
                }
            }
            i = child;
        }
        proof {
            if good {
                assert forall|k: int| 0 < k < self.heap@.len() implies #[trigger] self.ordered_at(dists@, k) by {}
            }
        }
    }

    /// The heap holds finitely many vertices.
    pub proof fn lemma_finite(&self)
        ensures self.items().finite(),
    {
        vstd::seq_lib::seq_to_set_is_finite(self.heap@);
    }

    /// The number of vertices in the heap.
    pub fn size(&self) -> (r: usize)
        requires exists|n: nat| #[trigger] self.wf(n),
        ensures
            r == self.items().len(),
            self.items().finite(),
            r == 0 <==> self.items() == Set::<u64>::empty(),
    {
        proof {
            let n = choose|n: nat| #[trigger] self.wf(n);
            assert(self.heap@.no_duplicates()) by {
                assert forall|i: int, j: int| 0 <= i < self.heap@.len() && 0 <= j < self.heap@.len() && i != j implies self.heap@[i] != self.heap@[j] by {
                    assert(self.at(self.heap@[i]) == i);
                    assert(self.at(self.heap@[j]) == j);
                }
            }
            self.heap@.unique_seq_to_set();
            if self.heap@.len() == 0 {
                assert(self.items() =~= Set::<u64>::empty());
            } else {
                assert(self.heap@.to_set().contains(self.heap@[0]));
            }
        }
        self.heap.len()
    }

    pub fn empty(&self) -> (r: bool)
        ensures r == (self.items() == Set::<u64>::empty()),
    {
        proof {
            if self.heap@.len() == 0 {
                assert(self.items() =~= Set::<u64>::empty());
            } else {
                assert(self.heap@.to_set().contains(self.heap@[0]));
            }
        }
        self.heap.len() == 0
    }

    pub fn in_heap(&self, v: VertId) -> (r: bool)
        requires exists|n: nat| #[trigger] self.wf(n),
        ensures r == self.items().contains(v),
    {
        let r: bool = v < self.indices.len() as u64 && self.indices[v as usize].is_some();
        proof {
            if r {
                let i = self.indices@[v as int].unwrap();
                assert(self.heap@[i as int] == v);
            }
            if self.items().contains(v) {
                let i = choose|i: int| 0 <= i < self.heap@.len() && self.heap@[i] == v;
                assert(self.at(self.heap@[i]) == i);
            }
        }
        r
    }

    /// Adds a vertex that is not in the heap.
    pub fn insert(&mut self, v: VertId, dists: &Vec<Weight>)
        requires
            old(self).wf(dists@.len()),
            v < dists@.len(),
            !old(self).items().contains(v),
        ensures
            final(self).wf(dists@.len()),
            final(self).items() == old(self).items().insert(v),
            old(self).ordered(dists@) ==> final(self).ordered(dists@),
    {
        assert(v < dists.len());
        let nu: usize = v as usize;
        while self.indices.len() <= nu
            invariant
                self.wf(dists@.len()),
                nu < dists@.len(),
                self.heap@ == old(self).heap@,
            decreases dists@.len() - self.indices@.len(),
        {
            self.indices.push(None);
        }
        let ghost mid = *self;
        let p: usize = self.heap.len();
        self.indices.set(nu, Some(p));
        self.heap.push(v);
        proof {
            assert forall|k: int| #![trigger self.heap@[k]] 0 <= k < self.heap@.len() implies {
                &&& self.heap@[k] < dists@.len()
                &&& self.heap@[k] < self.indices@.len()
                &&& self.at(self.heap@[k]) == k
            } by {
                if k < p {
                    assert(self.heap@[k] == mid.heap@[k]);
                    assert(mid.heap@.to_set().contains(mid.heap@[k]));
                    assert(mid.heap@[k] != v);
                }
            }
            assert forall|x: int| #![trigger self.indices@[x]] 0 <= x < self.indices@.len() implies (self.indices@[x] matches Some(i)
                ==> i < self.heap@.len() && self.heap@[i as int] == x) by {
                if x != nu { assert(mid.indices@[x] == self.indices@[x]); }
            }
            assert(self.items() =~= old(self).items().insert(v)) by {
                crate::splitdbm::graph_views::lemma_push_contains(mid.heap@, v);
            }
            if old(self).ordered(dists@) {
                assert forall|i: int| 0 < i < self.heap@.len() && i != p implies #[trigger] self.ordered_at(dists@, i) by {
                    assert(old(self).ordered_at(dists@, i));
                }
                assert(self.ordered_but_at(dists@, p as int));
            }
        }
        self.percolate_up(p, dists);
    }

    /// Takes out a vertex of least weight.
    pub fn remove_min(&mut self, dists: &Vec<Weight>) -> (x: VertId)
        requires
            old(self).wf(dists@.len()),
            old(self).items() != Set::<u64>::empty(),
        ensures
            final(self).wf(dists@.len()),
            old(self).items().contains(x),
            x < dists@.len(),
            final(self).items() == old(self).items().remove(x),
            old(self).ordered(dists@) ==> final(self).ordered(dists@)
                && forall|u: u64| #[trigger] old(self).items().contains(u) ==> key(dists@, x) <= key(dists@, u),
    {
        let ghost o = *old(self);
        proof {
            if o.heap@.len() == 0 { assert(o.items() =~= Set::<u64>::empty()); }
            if o.ordered(dists@) {
                assert forall|u: u64| #[trigger] o.items().contains(u) implies key(dists@, o.heap@[0]) <= key(dists@, u) by {
                    let i = choose|i: int| 0 <= i < o.heap@.len() && o.heap@[i] == u;
                    o.lemma_root(dists@, i);
                }
            }
        }
        let n: usize = self.heap.len();
        if n > 1 {
            self.exchange(0, n - 1, Ghost(dists@.len()));
        }
        let ghost mid = *self;
        let x: VertId = self.heap.pop().unwrap();
        assert(x == mid.heap@[n - 1]);
        assert(x == o.heap@[0]);
        assert(mid.heap@[n - 1] < mid.indices@.len());
        assert(x < self.indices.len());
        self.indices.set(x as usize, None);
        proof {
            assert forall|k: int| #![trigger self.heap@[k]] 0 <= k < self.heap@.len() implies {
                &&& self.heap@[k] < dists@.len()
                &&& self.heap@[k] < self.indices@.len()
                &&& self.at(self.heap@[k]) == k
            } by {
                assert(self.heap@[k] == mid.heap@[k]);
                assert(mid.at(mid.heap@[k]) == k);
                assert(mid.at(mid.heap@[n - 1]) == n - 1);
            }
            assert forall|v: int| #![trigger self.indices@[v]] 0 <= v < self.indices@.len() implies (self.indices@[v] matches Some(i)
                ==> i < self.heap@.len() && self.heap@[i as int] == v) by {
                if v != x {
                    assert(mid.indices@[v] == self.indices@[v]);
                }
            }
            assert(self.items() =~= o.items().remove(x)) by {
                assert forall|v: u64| self.heap@.contains(v) <==> mid.heap@.contains(v) && v != x by {
                    if self.heap@.contains(v) {
                        let k = choose|k: int| 0 <= k < self.heap@.len() && self.heap@[k] == v;
                        assert(mid.heap@[k] == v);
                        assert(self.at(self.heap@[k]) == k);
                    }
                    if mid.heap@.contains(v) && v != x {
                        let k = choose|k: int| 0 <= k < mid.heap@.len() && mid.heap@[k] == v;
                        assert(self.heap@[k] == v);
                    }
                }
                assert forall|v: u64| o.heap@.contains(v) <==> mid.heap@.contains(v) by {
                    assert(o.heap@.to_set().contains(v) <==> mid.heap@.to_set().contains(v));
                }
            }
        }
        let ghost tail = *self;
        if self.heap.len() > 1 {
            proof {
                if o.ordered(dists@) {
                    assert forall|i: int| 0 < i < self.heap@.len() && Self::parent_of(i) != 0 implies #[trigger] self.ordered_at(dists@, i) by {
                        assert(o.ordered_at(dists@, i));
                    }
                    assert(self.ordered_below(dists@, 0));
                }
            }
            self.percolate_down(dists);
        }
        x
    }

    /// Restores the order after the weight of `v` went down.
    pub fn decrease(&mut self, v: VertId, dists: &Vec<Weight>)
        requires
            old(self).wf(dists@.len()),
            old(self).items().contains(v),
        ensures
            final(self).wf(dists@.len()),
            final(self).items() == old(self).items(),
            old(self).ordered_but(dists@, v) ==> final(self).ordered(dists@),
    {
        let ghost i = choose|i: int| 0 <= i < self.heap@.len() && self.heap@[i] == v;
        assert(self.at(self.heap@[i]) == i);
        assert(v < self.indices.len());
        let idx: usize = self.indices[v as usize].unwrap();
        proof {
            if old(self).ordered_but(dists@, v) {
                let p = choose|p: int| 0 <= p < self.heap@.len() && self.heap@[p] == v && #[trigger] self.ordered_but_at(dists@, p);
                assert(self.at(self.heap@[p]) == p);
                assert(p == idx);
            }
        }
        self.percolate_up(idx, dists);
    }
}

}
