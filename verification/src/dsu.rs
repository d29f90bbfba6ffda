//! A disjoint-set forest with path compression and union by rank.
use vstd::prelude::*;

verus! {

/// A partition of the elements `0..n` into disjoint sets.
pub struct DisjointSetUnion {
    parent: Vec<usize>,
    rank: Vec<usize>,
}

/// How many of the first `n` elements hang below another one.
pub open spec fn inner_count(parent: Seq<usize>, n: nat) -> nat
    decreases n,
{
    if n == 0 {
        0
    } else {
        inner_count(parent, (n - 1) as nat) + (if parent[n - 1] == n - 1 { 0nat } else { 1nat })
    }
}

/// Whether the parents form a forest in which the ranks grow towards the roots.
pub open spec fn is_forest(parent: Seq<usize>, rank: Seq<usize>) -> bool {
    &&& parent.len() == rank.len()
    &&& parent.len() <= usize::MAX
    &&& forall|x: int| 0 <= x < parent.len() ==> (#[trigger] parent[x]) < parent.len()
    &&& forall|x: int| 0 <= x < parent.len() && parent[x] != x ==> rank[x] < rank[(#[trigger] parent[x]) as int]
    &&& forall|x: int| 0 <= x < parent.len() ==> (#[trigger] rank[x]) <= inner_count(parent, parent.len())
}

/// The root above an element.
pub open spec fn root_of(parent: Seq<usize>, rank: Seq<usize>, x: int) -> int
    decreases usize::MAX - rank[x],
{
    if !is_forest(parent, rank) || !(0 <= x < parent.len()) || parent[x] == x {
        x
    } else {
        root_of(parent, rank, parent[x] as int)
    }
}

proof fn lemma_inner_bound(parent: Seq<usize>, n: nat, r: int)
    requires 0 <= r < n <= parent.len(), parent[r] == r,
    ensures inner_count(parent, n) < n,
    decreases n,
{
    if r < n - 1 {
        lemma_inner_bound(parent, (n - 1) as nat, r);
    } else {
        lemma_inner_le(parent, (n - 1) as nat);
    }
}

proof fn lemma_inner_le(parent: Seq<usize>, n: nat)
    ensures inner_count(parent, n) <= n,
    decreases n,
{
    if n > 0 {
        lemma_inner_le(parent, (n - 1) as nat);
    }
}

proof fn lemma_inner_update(parent: Seq<usize>, n: nat, x: int, p: usize)
    requires n <= parent.len(), 0 <= x < parent.len(),
    ensures
        inner_count(parent.update(x, p), n) + (if x < n && parent[x] != x { 1int } else { 0 })
            == inner_count(parent, n) + (if x < n && p != x { 1int } else { 0 }),
    decreases n,
{
    if n > 0 {
        lemma_inner_update(parent, (n - 1) as nat, x, p);
    }
}

proof fn lemma_inner_prefix(a: Seq<usize>, b: Seq<usize>, n: nat)
    requires n <= a.len(), n <= b.len(), forall|i: int| 0 <= i < n ==> a[i] == b[i],
    ensures inner_count(a, n) == inner_count(b, n),
    decreases n,
{
    if n > 0 {
        lemma_inner_prefix(a, b, (n - 1) as nat);
    }
}

/// The root is an element that is its own parent, and ranks do not fall on the way to it.
proof fn lemma_root(parent: Seq<usize>, rank: Seq<usize>, x: int)
    requires is_forest(parent, rank), 0 <= x < parent.len(),
    ensures
        0 <= root_of(parent, rank, x) < parent.len(),
        parent[root_of(parent, rank, x)] == root_of(parent, rank, x),
        rank[x] <= rank[root_of(parent, rank, x)],
        parent[x] != x ==> rank[x] < rank[root_of(parent, rank, x)],
        root_of(parent, rank, root_of(parent, rank, x)) == root_of(parent, rank, x),
    decreases usize::MAX - rank[x],
{
    if parent[x] != x {
        assert(rank[x] < rank[parent[x] as int]);
        lemma_root(parent, rank, parent[x] as int);
    }
}

/// Hanging an element directly below its root keeps every root.
proof fn lemma_compress(parent: Seq<usize>, rank: Seq<usize>, x: int, y: int)
    requires
        is_forest(parent, rank),
        0 <= x < parent.len(),
        0 <= y < parent.len(),
    ensures
        is_forest(parent.update(x, root_of(parent, rank, x) as usize), rank),
        root_of(parent.update(x, root_of(parent, rank, x) as usize), rank, y) == root_of(parent, rank, y),
    decreases usize::MAX - rank[y],
{
    let r = root_of(parent, rank, x);
    lemma_root(parent, rank, x);
    let q = parent.update(x, r as usize);
    lemma_inner_update(parent, parent.len(), x, r as usize);
    assert(is_forest(q, rank)) by {
        assert forall|z: int| 0 <= z < q.len() && q[z] != z implies rank[z] < rank[(#[trigger] q[z]) as int] by {
            if z != x {
                assert(q[z] == parent[z]);
            }
        }
        if parent[x] == x {
            assert(q =~= parent);
        }
    }
    if q[y] != y {
        if y == x {
            assert(q[y] == r);
            lemma_root(parent, rank, r);
            assert(q[r] == r);
            assert(root_of(q, rank, r) == r);
        } else {
            assert(q[y] == parent[y]);
            assert(rank[y] < rank[parent[y] as int]);
            lemma_compress(parent, rank, x, parent[y] as int);
        }
    } else if y == x {
        if parent[x] != x {
            assert(rank[x] < rank[r]);
            assert(q[x] == r);
        }
    }
}

/// Hanging one root below another moves the elements of its set to the other root.
proof fn lemma_link(parent: Seq<usize>, rank: Seq<usize>, rank2: Seq<usize>, a: int, b: int, y: int)
    requires
        is_forest(parent, rank),
        0 <= a < parent.len(), 0 <= b < parent.len(), a != b,
        parent[a] == a, parent[b] == b,
        is_forest(parent.update(a, b as usize), rank2),
        0 <= y < parent.len(),
    ensures
        root_of(parent.update(a, b as usize), rank2, y)
            == (if root_of(parent, rank, y) == a { b } else { root_of(parent, rank, y) }),
    decreases usize::MAX - rank[y],
{
    let q = parent.update(a, b as usize);
    if y == a {
        assert(q[a] == b);
        assert(q[b] == b);
        assert(root_of(q, rank2, b) == b);
    } else if parent[y] == y {
        assert(q[y] == y);
    } else {
        assert(q[y] == parent[y]);
        assert(rank[y] < rank[parent[y] as int]);
        lemma_link(parent, rank, rank2, a, b, parent[y] as int);
    }
}

/// An element added at the end leaves every root in place.
proof fn lemma_extend(parent: Seq<usize>, rank: Seq<usize>, y: int)
    requires
        is_forest(parent, rank),
        parent.len() < usize::MAX,
        is_forest(parent.push(parent.len() as usize), rank.push(0)),
        0 <= y < parent.len(),
    ensures
        root_of(parent.push(parent.len() as usize), rank.push(0), y) == root_of(parent, rank, y),
    decreases usize::MAX - rank[y],
{
    let q = parent.push(parent.len() as usize);
    assert(q[y] == parent[y]);
    if parent[y] != y {
        assert(rank[y] < rank[parent[y] as int]);
        lemma_extend(parent, rank, parent[y] as int);
    }
}

impl DisjointSetUnion {
    /// Whether the structure is a forest.
    pub closed spec fn wf(&self) -> bool {
        is_forest(self.parent@, self.rank@)
    }

    /// The number of elements.
    pub closed spec fn size(&self) -> nat {
        self.parent@.len()
    }

    /// The representative of an element's set.
    pub closed spec fn root(&self, x: int) -> int {
        root_of(self.parent@, self.rank@, x)
    }

    /// A representative is an element, and represents itself.
    pub proof fn root_is_fixed(&self, x: int)
        requires self.wf(), 0 <= x < self.size(),
        ensures
            0 <= self.root(x) < self.size(),
            self.root(self.root(x)) == self.root(x),
    {
        lemma_root(self.parent@, self.rank@, x);
    }

    /// `n` elements, each alone in its set.
    pub fn new(n: usize) -> (r: Self)
        ensures
            r.wf(),
            r.size() == n,
            forall|x: int| 0 <= x < n ==> #[trigger] r.root(x) == x,
    {
        let mut parent: Vec<usize> = Vec::new();
        let mut rank: Vec<usize> = Vec::new();
        let mut i: usize = 0;
        while i < n
            invariant
                i <= n,
                parent.len() == i,
                rank.len() == i,
                forall|x: int| 0 <= x < i ==> #[trigger] parent@[x] == x,
                forall|x: int| 0 <= x < i ==> #[trigger] rank@[x] == 0,
            decreases n - i,
        {
            parent.push(i);
            rank.push(0);
            i = i + 1;
        }
        DisjointSetUnion { parent, rank }
    }

    /// Number of elements.
    pub fn len(&self) -> (r: usize)
        ensures r == self.size(),
    {
        self.parent.len()
    }

    /// Finds the representative of `x` and hangs the elements on the way directly below it.
    pub fn find(&mut self, x: usize) -> (r: usize)
        requires old(self).wf(), x < old(self).size(),
        ensures
            final(self).wf(),
            final(self).size() == old(self).size(),
            r == old(self).root(x as int),
            r < old(self).size(),
            forall|y: int| 0 <= y < old(self).size() ==> #[trigger] final(self).root(y) == old(self).root(y),
            final(self).ranks() == old(self).ranks(),
        decreases usize::MAX - old(self).ranks()[x as int],
    {
        let p: usize = self.parent[x];
        if p != x {
            proof {
                assert(self.rank@[x as int] < self.rank@[self.parent@[x as int] as int]);
                lemma_root(self.parent@, self.rank@, x as int);
            }
            let r: usize = self.find(p);
            let ghost mid = *self;
            proof {
                assert(mid.root(x as int) == old(self).root(x as int));
                assert(old(self).root(x as int) == old(self).root(p as int));
                assert forall|y: int| 0 <= y < mid.size() implies
                    #[trigger] root_of(mid.parent@.update(x as int, r), mid.rank@, y) == mid.root(y) by {
                    lemma_compress(mid.parent@, mid.rank@, x as int, y);
                }
                lemma_compress(mid.parent@, mid.rank@, x as int, x as int);
            }
            self.parent.set(x, r);
            assert forall|y: int| 0 <= y < old(self).size() implies #[trigger] self.root(y) == old(self).root(y) by {
                assert(root_of(mid.parent@.update(x as int, r), mid.rank@, y) == mid.root(y));
                assert(mid.root(y) == old(self).root(y));
            }
            r
        } else {
            x
        }
    }

    /// The ranks of the elements, which bound the height of the trees.
    pub closed spec fn ranks(&self) -> Seq<usize> {
        self.rank@
    }

    /// Finds the representative of `x` and changes nothing.
    pub fn find_const(&self, x: usize) -> (r: usize)
        requires self.wf(), x < self.size(),
        ensures r == self.root(x as int), r < self.size(),
    {
        let mut cur: usize = x;
        while self.parent[cur] != cur
            invariant
                self.wf(),
                cur < self.parent@.len(),
                self.root(cur as int) == self.root(x as int),
            decreases usize::MAX - self.rank@[cur as int],
        {
            assert(self.rank@[cur as int] < self.rank@[self.parent@[cur as int] as int]);
            cur = self.parent[cur];
        }
        cur
    }

    /// Merges the sets of `x` and `y` and returns the representative of the result, which is the
    /// representative of one of the two.
    pub fn union(&mut self, x: usize, y: usize) -> (r: usize)
        requires old(self).wf(), x < old(self).size(), y < old(self).size(),
        ensures
            final(self).wf(),
            final(self).size() == old(self).size(),
            r == old(self).root(x as int) || r == old(self).root(y as int),
            forall|z: int| 0 <= z < old(self).size() ==> #[trigger] final(self).root(z) == (
                if old(self).root(z) == old(self).root(x as int) || old(self).root(z) == old(self).root(y as int) {
                    r as int
                } else {
                    old(self).root(z)
                }),
    {
        let rx: usize = self.find(x);
        let ghost mid = *self;
        let ry: usize = self.find(y);
        let ghost now = *self;
        proof {
            assert(mid.root(y as int) == old(self).root(y as int));
            assert forall|z: int| 0 <= z < old(self).size() implies #[trigger] now.root(z) == old(self).root(z) by {
                assert(now.root(z) == mid.root(z));
            }
            lemma_root(now.parent@, now.rank@, x as int);
            lemma_root(now.parent@, now.rank@, y as int);
            assert(now.root(x as int) == rx);
            assert(now.root(y as int) == ry);
            lemma_inner_bound(now.parent@, now.parent@.len(), rx as int);
            lemma_inner_update(now.parent@, now.parent@.len(), rx as int, ry);
            lemma_inner_update(now.parent@, now.parent@.len(), ry as int, rx);
        }
        if rx == ry {
            return rx;
        }
        if self.rank[rx] < self.rank[ry] {
            self.parent.set(rx, ry);
            proof {
                assert(is_forest(self.parent@, self.rank@));
                assert forall|z: int| 0 <= z < now.size() implies #[trigger] self.root(z)
                    == (if now.root(z) == rx { ry as int } else { now.root(z) }) by {
                    lemma_link(now.parent@, now.rank@, self.rank@, rx as int, ry as int, z);
                }
            }
            ry
        } else if self.rank[rx] > self.rank[ry] {
            self.parent.set(ry, rx);
            proof {
                assert(is_forest(self.parent@, self.rank@));
                assert forall|z: int| 0 <= z < now.size() implies #[trigger] self.root(z)
                    == (if now.root(z) == ry { rx as int } else { now.root(z) }) by {
                    lemma_link(now.parent@, now.rank@, self.rank@, ry as int, rx as int, z);
                }
            }
            rx
        } else {
            self.parent.set(ry, rx);
            let k: usize = self.rank[rx];
            self.rank.set(rx, k + 1);
            proof {
                let p = self.parent@;
                let q = self.rank@;
                assert forall|z: int| 0 <= z < p.len() && p[z] != z implies q[z] < q[(#[trigger] p[z]) as int] by {
                    assert(z != rx);
                    if z != ry {
                        assert(p[z] == now.parent@[z]);
                        assert(now.rank@[z] < now.rank@[now.parent@[z] as int]);
                    }
                }
                assert(is_forest(p, q));
                assert forall|z: int| 0 <= z < now.size() implies #[trigger] self.root(z)
                    == (if now.root(z) == ry { rx as int } else { now.root(z) }) by {
                    lemma_link(now.parent@, now.rank@, self.rank@, ry as int, rx as int, z);
                }
            }
            rx
        }
    }

    /// Whether `x` and `y` are in the same set.
    pub fn same_set(&self, x: usize, y: usize) -> (r: bool)
        requires self.wf(), x < self.size(), y < self.size(),
        ensures r == (self.root(x as int) == self.root(y as int)),
    {
        self.find_const(x) == self.find_const(y)
    }

    /// Adds an element that is alone in its set, and returns it.
    pub fn push(&mut self) -> (r: usize)
        requires old(self).wf(),
        ensures
            final(self).wf(),
            final(self).size() == old(self).size() + 1,
            r == old(self).size(),
            r < usize::MAX,
            final(self).root(r as int) == r,
            forall|y: int| 0 <= y < r ==> #[trigger] final(self).root(y) == old(self).root(y),
    {
        let id: usize = self.parent.len();
        self.parent.push(id);
        self.rank.push(0);
        let grown: usize = self.parent.len();
        proof {
            assert(grown == id + 1);
            lemma_inner_prefix(self.parent@, old(self).parent@, id as nat);
            let p = self.parent@;
            assert forall|z: int| 0 <= z < p.len() && p[z] != z implies self.rank@[z] < self.rank@[(#[trigger] p[z]) as int] by {
                assert(p[z] == old(self).parent@[z]);
            }
            assert(is_forest(self.parent@, self.rank@));
            assert forall|y: int| 0 <= y < id implies #[trigger] self.root(y) == old(self).root(y) by {
                lemma_extend(old(self).parent@, old(self).rank@, y);
            }
        }
        id
    }

    /// A copy with the same partition.
    pub fn copy(&self) -> (r: Self)
        requires self.wf(),
        ensures
            r.wf(),
            r.size() == self.size(),
            forall|x: int| #[trigger] r.root(x) == self.root(x),
    {
        let r = DisjointSetUnion { parent: self.parent.clone(), rank: self.rank.clone() };
        assert(r.parent@ =~= self.parent@);
        assert(r.rank@ =~= self.rank@);
        r
    }
}

}
