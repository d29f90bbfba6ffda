//! How the constraints between vertices read as constraints between variables.
use vstd::prelude::*;
use crate::arith::linear_expression::Env;
use crate::arith::number;
use crate::arith::number::Number;
use crate::splitdbm::constraints;
use crate::splitdbm::constraints::Val;
use crate::splitdbm::graph::Edges;
use crate::splitdbm::graph_ops;
use crate::splitdbm::graph_views;
use crate::splitdbm::split_dbm;
use crate::splitdbm::split_dbm::Side;
use crate::zone_model;
use crate::zone_model::ZEdges;

verus! {

/// The vertex of each variable.
pub type VertexOf = Map<u64, u64>;

/// Whether a node has a vertex.
pub open spec fn on_map(vm: VertexOf, n: int) -> bool {
    n == 0 || (1 <= n <= u64::MAX + 1 && vm.contains_key((n - 1) as u64))
}

/// The vertex of a node.
pub open spec fn vert(vm: VertexOf, n: int) -> u64 {
    if n == 0 { 0 } else { vm[(n - 1) as u64] }
}

/// The constraints between variables that the edges stand for.
pub open spec fn zof(edges: Edges, vm: VertexOf) -> ZEdges {
    Map::new(
        |k: (int, int)| on_map(vm, k.0) && on_map(vm, k.1) && edges.contains_key((vert(vm, k.0), vert(vm, k.1))),
        |k: (int, int)| edges[(vert(vm, k.0), vert(vm, k.1))],
    )
}

/// Variables have vertices of their own, other than zero.
pub open spec fn one_to_one(vm: VertexOf) -> bool {
    &&& forall|k: u64| #[trigger] vm.contains_key(k) ==> vm[k] != 0
    &&& forall|j: u64, k: u64| #![trigger vm[j], vm[k]] vm.contains_key(j) && vm.contains_key(k) && vm[j] == vm[k] ==> j == k
}

/// The vertex is zero or some variable's.
pub open spec fn named(vm: VertexOf, u: u64) -> bool {
    u == 0 || exists|k: u64| #[trigger] vm.contains_key(k) && vm[k] == u
}

/// Every edge joins named vertices.
pub open spec fn covered(edges: Edges, vm: VertexOf) -> bool {
    forall|s: u64, d: u64| #![trigger edges.contains_key((s, d))] edges.contains_key((s, d)) ==> named(vm, s) && named(vm, d)
}

/// The node of a named vertex.
pub open spec fn node_of(vm: VertexOf, u: u64) -> int {
    if u == 0 { 0 } else { (choose|k: u64| #[trigger] vm.contains_key(k) && vm[k] == u) + 1 }
}

/// A valuation of the variables as one of the vertices.
pub open spec fn vertex_values(vm: VertexOf, env: Env) -> Val {
    |u: u64| if named(vm, u) { zone_model::node_value(env, node_of(vm, u)) } else { 0 }
}

pub proof fn lemma_node(vm: VertexOf, n: int)
    requires one_to_one(vm), on_map(vm, n),
    ensures named(vm, vert(vm, n)), node_of(vm, vert(vm, n)) == n,
{
    if n != 0 {
        let k = (n - 1) as u64;
        assert(vm.contains_key(k));
        let u = vm[k];
        let j = choose|j: u64| #[trigger] vm.contains_key(j) && vm[j] == u;
        assert(vm[j] == vm[k]);
    }
}

pub proof fn lemma_vert(vm: VertexOf, u: u64)
    requires one_to_one(vm), named(vm, u),
    ensures on_map(vm, node_of(vm, u)), vert(vm, node_of(vm, u)) == u,
{
    if u != 0 {
        let k = choose|k: u64| #[trigger] vm.contains_key(k) && vm[k] == u;
        assert(((k + 1) - 1) as u64 == k);
    }
}

pub proof fn lemma_tame(vm: VertexOf, env: Env)
    requires zone_model::mild(env),
    ensures constraints::tame(vertex_values(vm, env)),
{
    let x = vertex_values(vm, env);
    assert forall|a: u64, b: u64| #![trigger x(a), x(b)] x(a) - x(b) <= constraints::REACH by {
        let p = zone_model::node_value(env, node_of(vm, a));
        let q = zone_model::node_value(env, node_of(vm, b));
        assert(p - q <= constraints::REACH) by { zone_model::lemma_mild_nodes(env, node_of(vm, a), node_of(vm, b)); }
    }
}

pub proof fn lemma_wide(vm: VertexOf, env: Env)
    requires zone_model::broad(env),
    ensures constraints::wide(vertex_values(vm, env)),
{
    let x = vertex_values(vm, env);
    assert forall|a: u64, b: u64| #![trigger x(a), x(b)] constraints::near_or_far(x(a) - x(b)) by {
        let m = node_of(vm, a);
        let n = node_of(vm, b);
        if m > 0 { assert(constraints::near_or_far(env((m - 1) as u64))); }
        if n > 0 { assert(constraints::near_or_far(-env((n - 1) as u64))); }
        if m > 0 && n > 0 { assert(constraints::near_or_far(env((m - 1) as u64) - env((n - 1) as u64))); }
    }
}

/// A valuation meets the edges exactly where it meets the constraints that they stand for.
pub proof fn lemma_models(edges: Edges, vm: VertexOf, env: Env)
    requires one_to_one(vm), covered(edges, vm),
    ensures constraints::models(edges, vertex_values(vm, env)) == zone_model::zholds(zof(edges, vm), env),
{
    let x = vertex_values(vm, env);
    let z = zof(edges, vm);
    if constraints::models(edges, x) {
        assert forall|a: int, b: int| #![trigger z.contains_key((a, b))] z.contains_key((a, b)) implies
            zone_model::node_value(env, b) - zone_model::node_value(env, a) <= z[(a, b)]@ by {
            lemma_node(vm, a);
            lemma_node(vm, b);
            let s = vert(vm, a);
            let d = vert(vm, b);
            assert(edges.contains_key((s, d)));
            assert(x(d) - x(s) <= edges[(s, d)]@);
        }
    }
    if zone_model::zholds(z, env) {
        assert forall|s: u64, d: u64| #![trigger edges.contains_key((s, d))] edges.contains_key((s, d)) implies x(d) - x(s) <= edges[(s, d)]@ by {
            lemma_vert(vm, s);
            lemma_vert(vm, d);
            let a = node_of(vm, s);
            let b = node_of(vm, d);
            assert(z.contains_key((a, b)));
        }
    }
}

pub proof fn lemma_lift_entails(a: Edges, b: Edges, vm: VertexOf)
    requires one_to_one(vm), covered(a, vm), covered(b, vm), constraints::entails(a, b),
    ensures zone_model::zentails(zof(a, vm), zof(b, vm)),
{
    assert forall|env: Env| zone_model::broad(env) && #[trigger] zone_model::zholds(zof(a, vm), env) implies zone_model::zholds(zof(b, vm), env) by {
        lemma_models(a, vm, env);
        lemma_models(b, vm, env);
        lemma_wide(vm, env);
        constraints::lemma_entails_use(a, b, vertex_values(vm, env));
    }
}

pub proof fn lemma_lift_equiv(a: Edges, b: Edges, vm: VertexOf)
    requires one_to_one(vm), covered(a, vm), covered(b, vm), constraints::equivalent(a, b),
    ensures zone_model::zequiv(zof(a, vm), zof(b, vm)),
{
    lemma_lift_entails(a, b, vm);
    lemma_lift_entails(b, a, vm);
    assert forall|env: Env| zone_model::broad(env) implies #[trigger] zone_model::zholds(zof(a, vm), env) == zone_model::zholds(zof(b, vm), env) by {}
}

pub proof fn lemma_lift_tight(b: Edges, a: Edges, vm: VertexOf)
    requires graph_ops::at_least_as_tight(b, a),
    ensures zone_model::ztight(zof(b, vm), zof(a, vm)),
{
    let zb = zof(b, vm);
    let za = zof(a, vm);
    assert forall|s: int, d: int| #![trigger za.contains_key((s, d))] za.contains_key((s, d)) implies
        zb.contains_key((s, d)) && zb[(s, d)]@ <= za[(s, d)]@ by {
        assert(a.contains_key((vert(vm, s), vert(vm, d))));
    }
}

pub proof fn lemma_lift_closed_over(f: Edges, e: Edges, a: int, b: int, k: Number, vm: VertexOf)
    requires
        one_to_one(vm),
        on_map(vm, a),
        on_map(vm, b),
        graph_ops::closed_over(f, split_dbm::tightened(e, (vert(vm, a), vert(vm, b)), k), vert(vm, a), vert(vm, b)),
    ensures zone_model::zclosed_over(zof(f, vm), zof(e, vm), a, b, k@),
{
    let zf = zof(f, vm);
    let ze = zof(e, vm);
    let ii = vert(vm, a);
    let jj = vert(vm, b);
    let t = split_dbm::tightened(e, (ii, jj), k);
    assert(t.contains_key((ii, jj)) && t[(ii, jj)]@ <= k@);
    assert forall|p: u64, q: u64| #![trigger e.contains_key((p, q))] e.contains_key((p, q)) implies t.contains_key((p, q)) && t[(p, q)]@ <= e[(p, q)]@ by {}
    assert forall|s: int| #![trigger ze.contains_key((s, a))] s != 0 && s != b && ze.contains_key((s, a)) implies
        zone_model::holds_edge(zf, s, b, number::saturate(ze[(s, a)]@ + k@)) by {
        let p = vert(vm, s);
        lemma_node(vm, s);
        lemma_node(vm, b);
        assert(e.contains_key((p, ii)));
        assert(p != 0 && p != jj);
        assert(f.contains_key((p, jj)));
    }
    assert forall|d: int| #![trigger ze.contains_key((b, d))] d != 0 && d != a && ze.contains_key((b, d)) implies
        zone_model::holds_edge(zf, a, d, number::saturate(ze[(b, d)]@ + k@)) by {
        let q = vert(vm, d);
        lemma_node(vm, d);
        lemma_node(vm, a);
        assert(e.contains_key((jj, q)));
        assert(q != 0 && q != ii);
        assert(f.contains_key((ii, q)));
    }
    assert forall|s: int, d: int| #![trigger ze.contains_key((s, a)), ze.contains_key((b, d))]
        s != 0 && d != 0 && s != d && s != b && d != a && ze.contains_key((s, a)) && ze.contains_key((b, d)) implies
        zone_model::holds_edge(zf, s, d, number::saturate(number::saturate(ze[(s, a)]@ + k@) + ze[(b, d)]@)) by {
        let p = vert(vm, s);
        let q = vert(vm, d);
        lemma_node(vm, s);
        lemma_node(vm, d);
        lemma_node(vm, a);
        lemma_node(vm, b);
        assert(e.contains_key((p, ii)) && e.contains_key((jj, q)));
        assert(t.contains_key((p, ii)) && t.contains_key((jj, q)));
        assert(p != 0 && q != 0 && p != q && p != jj && q != ii);
        assert(f.contains_key((p, q)));
    }
}

pub proof fn lemma_lift_spread(f: Edges, e: Edges, n: int, side: Side, w: Number, vm: VertexOf)
    requires
        one_to_one(vm),
        on_map(vm, n),
        n != 0,
        split_dbm::spread(f, e, vert(vm, n), side, w),
        f.contains_key(split_dbm::bound_key(vert(vm, n), side)),
        f[split_dbm::bound_key(vert(vm, n), side)]@ <= w@,
    ensures
        side is Left ==> zone_model::lower_moved(zof(f, vm), zof(e, vm), n, w@),
        side is Right ==> zone_model::upper_moved(zof(f, vm), zof(e, vm), n, w@),
{
    let zf = zof(f, vm);
    let ze = zof(e, vm);
    let u = vert(vm, n);
    lemma_node(vm, n);
    match side {
        Side::Left => {
            assert forall|s: int| #![trigger ze.contains_key((s, n))] s != 0 && s != n && ze.contains_key((s, n)) implies
                zone_model::holds_edge(zf, s, 0, number::saturate(ze[(s, n)]@ + w@)) by {
                lemma_node(vm, s);
                let p = vert(vm, s);
                assert(p != 0 && p != u);
                assert(split_dbm::beside(u, p, side) == (p, u));
                assert(e.contains_key(split_dbm::beside(u, p, side)));
                assert(f.contains_key((p, 0)));
            }
        },
        Side::Right => {
            assert forall|d: int| #![trigger ze.contains_key((n, d))] d != 0 && d != n && ze.contains_key((n, d)) implies
                zone_model::holds_edge(zf, 0, d, number::saturate(ze[(n, d)]@ + w@)) by {
                lemma_node(vm, d);
                let p = vert(vm, d);
                assert(p != 0 && p != u);
                assert(split_dbm::beside(u, p, side) == (u, p));
                assert(e.contains_key(split_dbm::beside(u, p, side)));
                assert(f.contains_key((0, p)));
            }
        },
    }
}

pub proof fn lemma_lift_join(r: Edges, x: Edges, y: Edges, vm: VertexOf, sz: nat)
    requires one_to_one(vm), split_dbm::is_join(x, y, r, sz),
    ensures
        zone_model::ztight(zof(r, vm), zone_model::zjoin(zone_model::spelled_out(zof(x, vm), zof(y, vm)), zone_model::spelled_out(zof(y, vm), zof(x, vm)))),
        forall|s: int, d: int| #[trigger] zone_model::zapart(zof(x, vm), zof(y, vm), s, d) ==>
            zone_model::holds_edge(zof(r, vm), s, d, zone_model::zlooser(zof(x, vm), zof(y, vm), s, d)),
{
    let zx = zof(x, vm);
    let zy = zof(y, vm);
    let zr = zof(r, vm);
    split_dbm::lemma_join_says(x, y, r, sz);
    let a = split_dbm::spelled_out(x, y);
    let b = split_dbm::spelled_out(y, x);
    let j = graph_ops::join_edges(a, b);
    lemma_lift_spelled(x, y, vm);
    lemma_lift_spelled(y, x, vm);
    lemma_lift_tight(r, j, vm);
    assert(zof(j, vm) =~= zone_model::zjoin(zof(a, vm), zof(b, vm)));
    assert forall|s: int, d: int| #[trigger] zone_model::zapart(zx, zy, s, d) implies
        zone_model::holds_edge(zr, s, d, zone_model::zlooser(zx, zy, s, d)) by {
        lemma_node(vm, s);
        lemma_node(vm, d);
        let k = (vert(vm, s), vert(vm, d));
        assert(k.0 != k.1 && k.0 != 0 && k.1 != 0);
        assert(split_dbm::reapplied(x, y, true)(k) || split_dbm::reapplied(x, y, false)(k));
        assert(r.contains_key(k));
    }
}

proof fn lemma_lift_spelled(x: Edges, y: Edges, vm: VertexOf)
    requires one_to_one(vm),
    ensures zof(split_dbm::spelled_out(x, y), vm) == zone_model::spelled_out(zof(x, vm), zof(y, vm)),
{
    let zd = zone_model::zdeferred(zof(x, vm), zof(y, vm));
    let dfr = split_dbm::deferred_edges(x, y);
    assert forall|k: (int, int)| #![trigger zof(dfr, vm).contains_key(k)] #![trigger zd.contains_key(k)]
        zof(dfr, vm).contains_key(k) == zd.contains_key(k) && (zd.contains_key(k) ==> zof(dfr, vm)[k] == zd[k]) by {
        if on_map(vm, k.0) && on_map(vm, k.1) {
            lemma_node(vm, k.0);
            lemma_node(vm, k.1);
        }
    }
    assert(zof(dfr, vm) =~= zd);
    assert(zof(split_dbm::spelled_out(x, y), vm) =~= zone_model::spelled_out(zof(x, vm), zof(y, vm)));
}

pub proof fn lemma_lift_carried(a: Edges, b: Edges, vm: VertexOf)
    requires one_to_one(vm), split_dbm::bounds_carried(a, b),
    ensures zone_model::zcarried(zof(a, vm), zof(b, vm)),
{
    let za = zof(a, vm);
    let zb = zof(b, vm);
    assert forall|m: int| #![trigger zb.contains_key((0, m))] m != 0 && zb.contains_key((0, m)) implies zone_model::upper_carried(za, m, zb[(0, m)]@) by {
        assert forall|d: int| #![trigger za.contains_key((m, d))] d != 0 && za.contains_key((m, d)) implies
            zone_model::holds_edge(za, 0, d, number::saturate(zb[(0, m)]@ + za[(m, d)]@)) by {
            assert(b.contains_key((0, vert(vm, m))) && a.contains_key((vert(vm, m), vert(vm, d))));
            assert(vert(vm, m) != 0 && vert(vm, d) != 0);
            assert(a.contains_key((0, vert(vm, d))));
        }
    }
    assert forall|m: int| #![trigger zb.contains_key((m, 0))] m != 0 && zb.contains_key((m, 0)) implies zone_model::lower_carried(za, m, zb[(m, 0)]@) by {
        assert forall|s: int| #![trigger za.contains_key((s, m))] s != 0 && za.contains_key((s, m)) implies
            zone_model::holds_edge(za, s, 0, number::saturate(zb[(m, 0)]@ + za[(s, m)]@)) by {
            assert(b.contains_key((vert(vm, m), 0)) && a.contains_key((vert(vm, s), vert(vm, m))));
            assert(vert(vm, m) != 0 && vert(vm, s) != 0);
            assert(a.contains_key((vert(vm, s), 0)));
        }
    }
}

pub proof fn lemma_lift_infeasible(edges: Edges, vm: VertexOf)
    requires one_to_one(vm), covered(edges, vm), !constraints::feasible(edges),
    ensures !zone_model::zfeasible(zof(edges, vm)),
{
    if zone_model::zfeasible(zof(edges, vm)) {
        let env = choose|env: Env| zone_model::mild(env) && #[trigger] zone_model::zholds(zof(edges, vm), env);
        lemma_models(edges, vm, env);
        lemma_tame(vm, env);
        assert(constraints::models(edges, vertex_values(vm, env)));
    }
}

/// Where the edges have a solution, so have the constraints that they stand for.
pub proof fn lemma_lift_feasible(edges: Edges, vm: VertexOf)
    requires one_to_one(vm), constraints::feasible(edges),
    ensures zone_model::zfeasible(zof(edges, vm)),
{
    let z = zof(edges, vm);
    let x = choose|x: Val| constraints::tame(x) && #[trigger] constraints::models(edges, x);
    let env: Env = |k: u64| if vm.contains_key(k) { x(vm[k]) - x(0) } else { 0 };
    assert(zone_model::mild(env)) by {
        assert forall|k: u64| -constraints::REACH <= #[trigger] env(k) <= constraints::REACH by {
            if vm.contains_key(k) {
                assert(x(vm[k]) - x(0) <= constraints::REACH);
                assert(x(0) - x(vm[k]) <= constraints::REACH);
            }
        }
        assert forall|j: u64, k: u64| #![trigger env(j), env(k)] env(j) - env(k) <= constraints::REACH by {
            let a = if vm.contains_key(j) { vm[j] } else { 0 };
            let b = if vm.contains_key(k) { vm[k] } else { 0 };
            assert(x(a) - x(b) <= constraints::REACH);
        }
    }
    assert(zone_model::zholds(z, env)) by {
        assert forall|a: int, b: int| #![trigger z.contains_key((a, b))] z.contains_key((a, b)) implies
            zone_model::node_value(env, b) - zone_model::node_value(env, a) <= z[(a, b)]@ by {
            assert(edges.contains_key((vert(vm, a), vert(vm, b))));
        }
    }
}

pub proof fn lemma_zof_insert(edges: Edges, vm: VertexOf, a: int, b: int, w: Number)
    requires one_to_one(vm), on_map(vm, a), on_map(vm, b),
    ensures zof(edges.insert((vert(vm, a), vert(vm, b)), w), vm) == zof(edges, vm).insert((a, b), w),
{
    let l = zof(edges.insert((vert(vm, a), vert(vm, b)), w), vm);
    let r = zof(edges, vm).insert((a, b), w);
    lemma_node(vm, a);
    lemma_node(vm, b);
    assert forall|k: (int, int)| l.contains_key(k) == r.contains_key(k) && (l.contains_key(k) ==> l[k] == r[k]) by {
        if on_map(vm, k.0) && on_map(vm, k.1) {
            lemma_node(vm, k.0);
            lemma_node(vm, k.1);
        }
    }
    assert(l =~= r);
}

/// Inserting an edge between named vertices keeps every edge between named vertices.
pub proof fn lemma_covered_insert(edges: Edges, vm: VertexOf, s: u64, d: u64, w: Number)
    requires covered(edges, vm), named(vm, s), named(vm, d),
    ensures covered(edges.insert((s, d), w), vm),
{
}

pub proof fn lemma_zof_without(edges: Edges, vm: VertexOf, k: u64)
    requires one_to_one(vm), covered(edges, vm), vm.contains_key(k),
    ensures
        zof(graph_views::edges_without(edges, vm[k]), vm.remove(k)) == zone_model::zwithout(zof(edges, vm), zone_model::node(k)),
        one_to_one(vm.remove(k)),
        covered(graph_views::edges_without(edges, vm[k]), vm.remove(k)),
{
    let less = graph_views::edges_without(edges, vm[k]);
    let rm = vm.remove(k);
    let l = zof(less, rm);
    let r = zone_model::zwithout(zof(edges, vm), zone_model::node(k));
    assert forall|q: (int, int)| l.contains_key(q) == r.contains_key(q) && (l.contains_key(q) ==> l[q] == r[q]) by {
        if r.contains_key(q) {
            lemma_node(vm, q.0);
            lemma_node(vm, q.1);
            lemma_node(vm, zone_model::node(k));
            assert(on_map(rm, q.0) && on_map(rm, q.1));
        }
    }
    assert(l =~= r);
    assert forall|s: u64, d: u64| #![trigger less.contains_key((s, d))] less.contains_key((s, d)) implies named(rm, s) && named(rm, d) by {
        assert(edges.contains_key((s, d)));
        if s != 0 {
            let j = choose|j: u64| #[trigger] vm.contains_key(j) && vm[j] == s;
            assert(rm.contains_key(j) && rm[j] == s);
        }
        if d != 0 {
            let j = choose|j: u64| #[trigger] vm.contains_key(j) && vm[j] == d;
            assert(rm.contains_key(j) && rm[j] == d);
        }
    }
}

/// A variable that has no vertex has no constraints.
pub proof fn lemma_zof_absent(edges: Edges, vm: VertexOf, k: u64)
    requires !vm.contains_key(k),
    ensures zone_model::zwithout(zof(edges, vm), zone_model::node(k)) == zof(edges, vm),
{
    assert(zone_model::zwithout(zof(edges, vm), zone_model::node(k)) =~= zof(edges, vm)) by {
        assert forall|q: (int, int)| #[trigger] zof(edges, vm).contains_key(q) implies q.0 != zone_model::node(k) && q.1 != zone_model::node(k) by {
            assert(((k + 1) - 1) as u64 == k);
        }
    }
}

/// A fresh vertex without edges adds nothing.
pub proof fn lemma_zof_extend(edges: Edges, vm: VertexOf, k: u64, u: u64)
    requires
        one_to_one(vm),
        covered(edges, vm),
        !vm.contains_key(k),
        !named(vm, u),
    ensures
        zof(edges, vm.insert(k, u)) == zof(edges, vm),
        one_to_one(vm.insert(k, u)),
        covered(edges, vm.insert(k, u)),
{
    let big = vm.insert(k, u);
    let l = zof(edges, big);
    let r = zof(edges, vm);
    assert forall|q: (int, int)| l.contains_key(q) == r.contains_key(q) && (l.contains_key(q) ==> l[q] == r[q]) by {
        if l.contains_key(q) {
            let s = vert(big, q.0);
            let d = vert(big, q.1);
            assert(edges.contains_key((s, d)));
            assert(named(vm, s) && named(vm, d));
        }
        if r.contains_key(q) {
            assert(on_map(big, q.0) && on_map(big, q.1));
        }
    }
    assert(l =~= r);
    assert forall|i: u64, j: u64| #![trigger big[i], big[j]] big.contains_key(i) && big.contains_key(j) && big[i] == big[j] implies i == j by {
        if i == k && j != k { assert(vm.contains_key(j)); }
        if j == k && i != k { assert(vm.contains_key(i)); }
    }
    assert forall|s: u64, d: u64| #![trigger edges.contains_key((s, d))] edges.contains_key((s, d)) implies named(big, s) && named(big, d) by {
        lemma_named_mono(vm, big, s);
        lemma_named_mono(vm, big, d);
    }
}

pub proof fn lemma_named_mono(a: VertexOf, b: VertexOf, u: u64)
    requires named(a, u), forall|k: u64| #[trigger] a.contains_key(k) ==> b.contains_key(k) && b[k] == a[k],
    ensures named(b, u),
{
    if u != 0 {
        let k = choose|k: u64| #[trigger] a.contains_key(k) && a[k] == u;
        assert(b.contains_key(k) && b[k] == u);
    }
}

pub proof fn lemma_zof_empty(edges: Edges, vm: VertexOf)
    requires one_to_one(vm), covered(edges, vm),
    ensures (edges == Edges::empty()) == (zof(edges, vm) == ZEdges::empty()),
{
    if edges == Edges::empty() {
        assert(zof(edges, vm) =~= ZEdges::empty());
    }
    if zof(edges, vm) == ZEdges::empty() {
        assert forall|e: (u64, u64)| !edges.contains_key(e) by {
            if edges.contains_key((e.0, e.1)) {
                lemma_vert(vm, e.0);
                lemma_vert(vm, e.1);
                assert(zof(edges, vm).contains_key((node_of(vm, e.0), node_of(vm, e.1))));
            }
        }
        assert(edges =~= Edges::empty());
    }
}

/// The constraints between the nodes that have vertices.
pub open spec fn zrestrict(z: ZEdges, vm: VertexOf) -> ZEdges {
    Map::new(|k: (int, int)| z.contains_key(k) && on_map(vm, k.0) && on_map(vm, k.1), |k: (int, int)| z[k])
}

/// The positions of a list of variables, the first of which is skipped.
pub open spec fn positions(vars: Seq<u64>, vm: VertexOf) -> bool {
    &&& vars.len() <= u64::MAX
    &&& forall|i: int, j: int| 1 <= i < vars.len() && 1 <= j < vars.len() && #[trigger] vars[i] == #[trigger] vars[j] ==> i == j
    &&& forall|i: int| 1 <= i < vars.len() ==> vm.contains_key(#[trigger] vars[i]) && vm[vars[i]] == i
    &&& forall|k: u64| #[trigger] vm.contains_key(k) ==> 1 <= vm[k] < vars.len() && vars[vm[k] as int] == k
}

/// Whether a permutation gives the vertices of the variables of a list, and none where a variable
/// has none.
pub open spec fn perm_of(perm: Seq<u64>, vars: Seq<u64>, vm: VertexOf) -> bool {
    &&& perm.len() == vars.len()
    &&& perm.len() >= 1
    &&& perm[0] == 0
    &&& forall|i: int| 1 <= i < vars.len() ==> #[trigger] perm[i] == (if vm.contains_key(vars[i]) { vm[vars[i]] } else { graph_views::INVALID_VERT })
}

pub proof fn lemma_positions(vars: Seq<u64>, vm: VertexOf)
    requires positions(vars, vm),
    ensures one_to_one(vm), forall|u: u64| #[trigger] named(vm, u) <==> u == 0 || u < vars.len(),
{
    assert forall|j: u64, k: u64| #![trigger vm[j], vm[k]] vm.contains_key(j) && vm.contains_key(k) && vm[j] == vm[k] implies j == k by {
        assert(vars[vm[j] as int] == j);
        assert(vars[vm[k] as int] == k);
    }
    assert forall|u: u64| #[trigger] named(vm, u) <==> u == 0 || u < vars.len() by {
        if u != 0 && u < vars.len() {
            assert(vm.contains_key(vars[u as int]) && vm[vars[u as int]] == u);
        }
    }
}

/// A permuted graph reads as the part of the zone on the listed variables.
pub proof fn lemma_permuted(edges: Edges, from: VertexOf, perm: Seq<u64>, vars: Seq<u64>, to: VertexOf, n: nat)
    requires
        one_to_one(from),
        covered(edges, from),
        positions(vars, to),
        perm_of(perm, vars, from),
        forall|k: u64| #[trigger] from.contains_key(k) ==> from[k] < n,
        n <= graph_views::INVALID_VERT,
        n >= 1,
    ensures
        graph_views::perm_ok(perm, n),
        zof(graph_views::permuted_edges(perm, edges), to) == zrestrict(zof(edges, from), to),
        covered(graph_views::permuted_edges(perm, edges), to),
{
    let p = graph_views::permuted_edges(perm, edges);
    lemma_positions(vars, to);
    assert(graph_views::perm_ok(perm, n)) by {
        assert forall|i: int| 0 <= i < perm.len() implies #[trigger] perm[i] == graph_views::INVALID_VERT || perm[i] < n by {
            if i >= 1 && from.contains_key(vars[i]) {}
        }
        assert forall|i: int, j: int| 0 <= i < j < perm.len() && #[trigger] perm[i] != graph_views::INVALID_VERT implies perm[i] != #[trigger] perm[j] by {
            if i >= 1 {
                assert(from.contains_key(vars[i]));
                if perm[i] == perm[j] {
                    assert(from.contains_key(vars[j]));
                    assert(from[vars[i]] == from[vars[j]]);
                }
            } else {
                if from.contains_key(vars[j]) {
                    assert(from[vars[j]] != 0);
                }
            }
        }
    }
    let l = zof(p, to);
    let r = zrestrict(zof(edges, from), to);
    assert forall|q: (int, int)| l.contains_key(q) == r.contains_key(q) && (l.contains_key(q) ==> l[q] == r[q]) by {
        if on_map(to, q.0) && on_map(to, q.1) {
            let i = vert(to, q.0);
            let j = vert(to, q.1);
            if q.0 != 0 { assert(vars[i as int] == (q.0 - 1) as u64); }
            if q.1 != 0 { assert(vars[j as int] == (q.1 - 1) as u64); }
            assert(perm[i as int] == (if on_map(from, q.0) { vert(from, q.0) } else { graph_views::INVALID_VERT }));
            assert(perm[j as int] == (if on_map(from, q.1) { vert(from, q.1) } else { graph_views::INVALID_VERT }));
            if on_map(from, q.0) { assert(vert(from, q.0) < n); }
            if on_map(from, q.1) { assert(vert(from, q.1) < n); }
        }
    }
    assert(l =~= r);
}

/// The part of a zone on some variables holds wherever the zone holds.
pub proof fn lemma_restrict(z: ZEdges, vm: VertexOf)
    ensures zone_model::ztight(z, zrestrict(z, vm)), zone_model::zentails(z, zrestrict(z, vm)),
{
    zone_model::tighter_entails(z, zrestrict(z, vm));
}

/// Where every node of the zone is kept, the part is the whole.
pub proof fn lemma_restrict_whole(edges: Edges, vm: VertexOf, to: VertexOf)
    requires forall|k: u64| #[trigger] vm.contains_key(k) ==> to.contains_key(k),
    ensures zrestrict(zof(edges, vm), to) == zof(edges, vm),
{
    assert(zrestrict(zof(edges, vm), to) =~= zof(edges, vm));
}

pub proof fn lemma_proper(edges: Edges, vm: VertexOf)
    ensures zone_model::proper(zof(edges, vm)),
{
}

}
