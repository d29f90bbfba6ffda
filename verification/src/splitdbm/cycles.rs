//! Potentials exist exactly where no cycle of the graph has a negative weight.
use vstd::prelude::*;
use crate::splitdbm::constraints;
use crate::splitdbm::constraints::Val;
use crate::splitdbm::graph::Edges;
use crate::splitdbm::graph_ops;
use crate::splitdbm::Weight;

verus! {

/// The `i`-th and the next vertex of a sequence are joined by an edge.
pub open spec fn steps(edges: Edges, p: Seq<u64>, i: int) -> bool {
    edges.contains_key((p[i], p[i + 1]))
}

/// A walk through the graph, by its vertices.
pub open spec fn is_walk(edges: Edges, p: Seq<u64>) -> bool {
    p.len() >= 1 && forall|i: int| 0 <= i < p.len() - 1 ==> #[trigger] steps(edges, p, i)
}

/// The sum of the weights of the edges of a walk.
pub open spec fn walk_weight(edges: Edges, p: Seq<u64>) -> int
    decreases p.len(),
{
    if p.len() <= 1 {
        0
    } else {
        walk_weight(edges, p.drop_last()) + edges[(p[p.len() - 2], p[p.len() - 1])]@
    }
}

/// A walk that ends where it starts.
pub open spec fn is_cycle(edges: Edges, p: Seq<u64>) -> bool {
    is_walk(edges, p) && p.len() >= 2 && p[0] == p[p.len() - 1]
}

/// No cycle has a negative weight.
pub open spec fn no_negative_cycle(edges: Edges) -> bool {
    forall|p: Seq<u64>| #[trigger] is_cycle(edges, p) ==> walk_weight(edges, p) >= 0
}

/// The edges join vertices below `n`, and no weight lies below `-m`.
pub open spec fn within(edges: Edges, n: nat, m: nat) -> bool {
    forall|s: u64, d: u64| #![trigger edges.contains_key((s, d))] edges.contains_key((s, d)) ==> s < n && d < n && edges[(s, d)]@ >= -m
}

/// A walk bounds the difference of its ends.
pub proof fn walks_bound_differences(edges: Edges, x: Val, p: Seq<u64>)
    requires constraints::models(edges, x), is_walk(edges, p),
    ensures x(p[p.len() - 1]) - x(p[0]) <= walk_weight(edges, p),
    decreases p.len(),
{
    if p.len() > 1 {
        let q = p.drop_last();
        assert forall|i: int| 0 <= i < q.len() - 1 implies #[trigger] steps(edges, q, i) by {
            assert(steps(edges, p, i));
        }
        walks_bound_differences(edges, x, q);
        assert(steps(edges, p, p.len() - 2));
    }
}

/// Where the edges have a solution no cycle has a negative weight.
pub proof fn solutions_exclude_negative_cycles(edges: Edges, x: Val)
    requires constraints::models(edges, x),
    ensures no_negative_cycle(edges),
{
    assert forall|p: Seq<u64>| #[trigger] is_cycle(edges, p) implies walk_weight(edges, p) >= 0 by {
        walks_bound_differences(edges, x, p);
    }
}

/// The part of a walk between two places is a walk.
proof fn lemma_part(edges: Edges, p: Seq<u64>, i: int, j: int)
    requires is_walk(edges, p), 0 <= i < j <= p.len(),
    ensures is_walk(edges, p.subrange(i, j)),
{
    let q = p.subrange(i, j);
    assert forall|k: int| 0 <= k < q.len() - 1 implies #[trigger] steps(edges, q, k) by {
        assert(steps(edges, p, i + k));
    }
}

/// The weight of a walk is the sum of the weights of its two parts.
proof fn lemma_split(edges: Edges, p: Seq<u64>, i: int)
    requires 0 <= i < p.len(),
    ensures walk_weight(edges, p) == walk_weight(edges, p.subrange(0, i + 1)) + walk_weight(edges, p.subrange(i, p.len() as int)),
    decreases p.len(),
{
    let n = p.len() as int;
    let back = p.subrange(i, n);
    if i == n - 1 {
        assert(p.subrange(0, i + 1) =~= p);
    } else {
        let q = p.drop_last();
        lemma_split(edges, q, i);
        assert(q.subrange(0, i + 1) =~= p.subrange(0, i + 1));
        assert(back.drop_last() =~= q.subrange(i, n - 1));
        assert(back[back.len() - 2] == p[n - 2] && back[back.len() - 1] == p[n - 1]);
    }
}

/// A walk without the cycle between two visits of a vertex is a walk, and lighter by the weight of
/// the cycle.
proof fn lemma_cut(edges: Edges, p: Seq<u64>, i: int, j: int) -> (q: Seq<u64>)
    requires is_walk(edges, p), 0 <= i < j < p.len(), p[i] == p[j],
    ensures
        is_walk(edges, q),
        q.len() < p.len(),
        walk_weight(edges, p) == walk_weight(edges, q) + walk_weight(edges, p.subrange(i, j + 1)),
        is_cycle(edges, p.subrange(i, j + 1)),
{
    let n = p.len() as int;
    let front = p.subrange(0, i + 1);
    let back = p.subrange(j, n);
    let q = front + p.subrange(j + 1, n);
    assert forall|k: int| 0 <= k < q.len() - 1 implies #[trigger] steps(edges, q, k) by {
        if k < i {
            assert(steps(edges, p, k));
        } else {
            assert(steps(edges, p, k - i + j));
            assert(q[k] == p[k - i + j]);
        }
    }
    lemma_part(edges, p, i, j + 1);
    lemma_split(edges, p, j);
    let upto = p.subrange(0, j + 1);
    lemma_split(edges, upto, i);
    assert(upto.subrange(0, i + 1) =~= front);
    assert(upto.subrange(i, j + 1) =~= p.subrange(i, j + 1));
    lemma_split(edges, q, i);
    assert(q.subrange(0, i + 1) =~= front);
    assert(q.subrange(i, q.len() as int) =~= back);
    q
}

/// Among more than `n` numbers below `n` one occurs twice.
proof fn lemma_twice(p: Seq<u64>, n: nat) -> (r: (int, int))
    requires p.len() > n, forall|i: int| 0 <= i < p.len() ==> #[trigger] p[i] < n,
    ensures 0 <= r.0 < r.1 < p.len(), p[r.0] == p[r.1],
{
    if !(exists|i: int, j: int| 0 <= i < j < p.len() && #[trigger] p[i] == #[trigger] p[j]) {
        let q = Seq::new(p.len(), |i: int| p[i] as int);
        assert(q.no_duplicates()) by {
            assert forall|i: int, j: int| 0 <= i < q.len() && 0 <= j < q.len() && i != j implies q[i] != q[j] by {
                if i < j { assert(p[i] != p[j]); } else { assert(p[j] != p[i]); }
            }
        }
        q.unique_seq_to_set();
        vstd::set_lib::lemma_int_range(0, n as int);
        assert(q.to_set().subset_of(vstd::set_lib::set_int_range(0, n as int)));
        vstd::set_lib::lemma_len_subset(q.to_set(), vstd::set_lib::set_int_range(0, n as int));
    }
    let (i, j) = choose|i: int, j: int| 0 <= i < j < p.len() && #[trigger] p[i] == #[trigger] p[j];
    (i, j)
}

/// A walk of few steps is not light.
proof fn lemma_few_steps(edges: Edges, p: Seq<u64>, n: nat, m: nat)
    requires is_walk(edges, p), within(edges, n, m),
    ensures walk_weight(edges, p) >= -((p.len() - 1) * m),
    decreases p.len(),
{
    if p.len() > 1 {
        let q = p.drop_last();
        assert(q =~= p.subrange(0, p.len() - 1));
        lemma_part(edges, p, 0, p.len() - 1);
        lemma_few_steps(edges, q, n, m);
        assert(steps(edges, p, p.len() - 2));
        let k = p.len() - 2;
        assert((k + 1) * m == k * m + m) by (nonlinear_arith);
    }
}

/// Without negative cycles no walk is lighter than one that visits every vertex.
proof fn lemma_floor(edges: Edges, p: Seq<u64>, n: nat, m: nat)
    requires is_walk(edges, p), within(edges, n, m), no_negative_cycle(edges),
    ensures walk_weight(edges, p) >= -(n * m),
    decreases p.len(),
{
    if p.len() <= n + 1 {
        lemma_few_steps(edges, p, n, m);
        let k = p.len() - 1;
        assert(k * m <= n * m) by (nonlinear_arith) requires 0 <= k <= n, 0 <= m;
    } else {
        assert forall|i: int| 0 <= i < p.len() implies #[trigger] p[i] < n by {
            if i < p.len() - 1 { assert(steps(edges, p, i)); } else { assert(steps(edges, p, i - 1)); }
        }
        let (i, j) = lemma_twice(p, n);
        let q = lemma_cut(edges, p, i, j);
        lemma_floor(edges, q, n, m);
    }
}

/// Some walk to a vertex has a weight.
spec fn reaches(edges: Edges, v: u64, w: int) -> bool {
    exists|p: Seq<u64>| #[trigger] is_walk(edges, p) && p[p.len() - 1] == v && walk_weight(edges, p) == w
}

/// The least weight of the walks to a vertex.
spec fn is_least(edges: Edges, v: u64, w: int) -> bool {
    reaches(edges, v, w) && forall|u: int| #[trigger] reaches(edges, v, u) ==> w <= u
}

proof fn lemma_least(edges: Edges, v: u64, w: int, n: nat, m: nat)
    requires within(edges, n, m), no_negative_cycle(edges), reaches(edges, v, w),
    ensures exists|u: int| #[trigger] is_least(edges, v, u),
    decreases w + n * m + 1,
{
    let p = choose|p: Seq<u64>| #[trigger] is_walk(edges, p) && p[p.len() - 1] == v && walk_weight(edges, p) == w;
    lemma_floor(edges, p, n, m);
    if exists|u: int| #[trigger] reaches(edges, v, u) && u < w {
        let u = choose|u: int| #[trigger] reaches(edges, v, u) && u < w;
        let q = choose|q: Seq<u64>| #[trigger] is_walk(edges, q) && q[q.len() - 1] == v && walk_weight(edges, q) == u;
        lemma_floor(edges, q, n, m);
        lemma_least(edges, v, u, n, m);
    } else {
        assert(is_least(edges, v, w));
    }
}

/// Without negative cycles the edges have a solution between zero and the least weight of a walk
/// through all vertices.
proof fn lemma_solution(edges: Edges, n: nat, m: nat) -> (x: Val)
    requires within(edges, n, m), no_negative_cycle(edges),
    ensures
        constraints::models(edges, x),
        forall|v: u64| -(n * m) <= #[trigger] x(v) <= 0,
{
    let x: Val = |v: u64| choose|w: int| #[trigger] is_least(edges, v, w);
    assert forall|v: u64| is_least(edges, v, #[trigger] x(v)) && -(n * m) <= x(v) <= 0 by {
        let alone = seq![v];
        assert(is_walk(edges, alone));
        assert(walk_weight(edges, alone) == 0);
        assert(reaches(edges, v, 0));
        lemma_least(edges, v, 0, n, m);
        let p = choose|p: Seq<u64>| #[trigger] is_walk(edges, p) && p[p.len() - 1] == v && walk_weight(edges, p) == x(v);
        lemma_floor(edges, p, n, m);
    }
    assert(constraints::models(edges, x)) by {
        assert forall|s: u64, d: u64| #![trigger edges.contains_key((s, d))] edges.contains_key((s, d)) implies x(d) - x(s) <= edges[(s, d)]@ by {
            assert(is_least(edges, s, x(s)) && is_least(edges, d, x(d)));
            let p = choose|p: Seq<u64>| #[trigger] is_walk(edges, p) && p[p.len() - 1] == s && walk_weight(edges, p) == x(s);
            let q = p.push(d);
            assert forall|k: int| 0 <= k < q.len() - 1 implies #[trigger] steps(edges, q, k) by {
                if k < p.len() - 1 { assert(steps(edges, p, k)); }
            }
            assert(q.drop_last() =~= p);
            assert(is_walk(edges, q));
            assert(reaches(edges, d, x(s) + edges[(s, d)]@));
        }
    }
    x
}

/// The edges have a solution exactly where no cycle has a negative weight. A repair of potentials
/// therefore fails exactly where the graph has a negative cycle.
pub proof fn solvable_without_negative_cycles(edges: Edges)
    ensures constraints::solvable(edges) <==> no_negative_cycle(edges),
{
    if constraints::solvable(edges) {
        let x = choose|x: Val| #[trigger] constraints::models(edges, x);
        solutions_exclude_negative_cycles(edges, x);
    }
    if no_negative_cycle(edges) {
        let n = 0x1_0000_0000_0000_0000nat;
        let m = 0x8000_0000_0000_0000_0000_0000_0000_0000nat;
        assert(within(edges, n, m));
        let x = lemma_solution(edges, n, m);
    }
}

/// The edges have a solution within reach exactly where no cycle has a negative weight, as long as
/// the weights of a walk through all vertices add up to a number.
pub proof fn feasible_without_negative_cycles(edges: Edges, n: nat, m: nat)
    requires within(edges, n, m), n * m <= constraints::REACH,
    ensures constraints::feasible(edges) <==> no_negative_cycle(edges),
{
    if constraints::feasible(edges) {
        let x = choose|x: Val| constraints::tame(x) && #[trigger] constraints::models(edges, x);
        solutions_exclude_negative_cycles(edges, x);
    }
    if no_negative_cycle(edges) {
        let x = lemma_solution(edges, n, m);
        assert(constraints::tame(x));
    }
}

/// The search for potentials succeeds where no cycle has a negative weight, and only lowers them, as
/// long as the weights of a walk through all vertices can be added to each of them.
pub proof fn searches_succeed_without_negative_cycles(edges: Edges, n: nat, m: nat, start: Seq<Weight>)
    requires
        within(edges, n, m),
        no_negative_cycle(edges),
        forall|v: int| 0 <= v < start.len() ==> (#[trigger] start[v])@ - n * m >= i128::MIN,
    ensures graph_ops::spare(edges, start),
{
    let x = lemma_solution(edges, n, m);
    assert(graph_ops::keeps_room(start, x)) by {
        assert forall|u: u64, v: u64| #![trigger x(u), x(v)] u < start.len() && v < start.len() implies start[u as int]@ + x(v) - x(u) >= i128::MIN by {
            assert(start[u as int]@ - n * m >= i128::MIN);
        }
    }
}

/// Potentials that solve the edges exclude negative cycles.
pub proof fn potentials_exclude_negative_cycles(edges: Edges, p: Seq<Weight>)
    requires graph_ops::solves(edges, p),
    ensures no_negative_cycle(edges),
{
    let x: Val = |v: u64| p[v as int]@;
    assert(constraints::models(edges, x));
    solutions_exclude_negative_cycles(edges, x);
}

/// A search for potentials that fails has met a negative cycle.
pub proof fn refused_searches_have_negative_cycles(edges: Edges, n: nat, m: nat, start: Seq<Weight>)
    requires
        within(edges, n, m),
        !graph_ops::spare(edges, start),
        forall|v: int| 0 <= v < start.len() ==> (#[trigger] start[v])@ - n * m >= i128::MIN,
    ensures exists|p: Seq<u64>| #[trigger] is_cycle(edges, p) && walk_weight(edges, p) < 0,
{
    if no_negative_cycle(edges) {
        searches_succeed_without_negative_cycles(edges, n, m, start);
    }
}

}
