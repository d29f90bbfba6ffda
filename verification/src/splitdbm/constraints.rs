//! The meaning of a weighted graph: an edge `s -> d` of weight `w` says that
//! `d - s <= w`.
use vstd::prelude::*;
use crate::arith::number;
use crate::arith::number::Number;
use crate::splitdbm::graph::Edges;

verus! {

/// A valuation of the vertices.
pub type Val = spec_fn(u64) -> int;

/// The greatest difference of two values: one below the greatest number.
pub const REACH: i128 = 0x7fff_ffff_ffff_ffff_ffff_ffff_ffff_fffe;

/// Every difference of two vertices is within reach.
pub open spec fn tame(x: Val) -> bool {
    forall|a: u64, b: u64| #![trigger x(a), x(b)] x(a) - x(b) <= REACH
}

/// A difference within reach, or further than any two edges reach together.
pub open spec fn near_or_far(d: int) -> bool {
    d <= REACH || d > 2 * i128::MAX
}

/// Every difference of two vertices is within reach, or further than any two edges reach together.
pub open spec fn wide(x: Val) -> bool {
    forall|a: u64, b: u64| #![trigger x(a), x(b)] near_or_far(x(a) - x(b))
}

/// A valuation meets every edge.
pub open spec fn models(edges: Edges, x: Val) -> bool {
    forall|s: u64, d: u64| #![trigger edges.contains_key((s, d))] edges.contains_key((s, d)) ==> x(d) - x(s) <= edges[(s, d)]@
}

/// Whether some valuation meets every edge.
pub open spec fn feasible(edges: Edges) -> bool {
    exists|x: Val| tame(x) && #[trigger] models(edges, x)
}

/// Whether some valuation meets every edge, however far apart its values are.
pub open spec fn solvable(edges: Edges) -> bool {
    exists|x: Val| #[trigger] models(edges, x)
}

/// Every valuation that meets the edges has `d - s <= w`. Among them are those that hold vertices
/// apart that no path joins, so a difference follows only where there is a path.
#[verifier::opaque]
pub open spec fn implied(edges: Edges, s: u64, d: u64, w: int) -> bool {
    forall|x: Val| wide(x) && #[trigger] models(edges, x) ==> x(d) - x(s) <= w
}

/// What the edges of `b` say follows from the edges of `a`.
#[verifier::opaque]
pub open spec fn entails(a: Edges, b: Edges) -> bool {
    forall|x: Val| wide(x) && #[trigger] models(a, x) ==> models(b, x)
}

/// Two sets of edges say the same.
pub open spec fn equivalent(a: Edges, b: Edges) -> bool {
    entails(a, b) && entails(b, a)
}

pub proof fn lemma_entails_refl(a: Edges)
    ensures entails(a, a),
{
    reveal(entails);
}

pub proof fn lemma_entails_trans(a: Edges, b: Edges, c: Edges)
    requires entails(a, b), entails(b, c),
    ensures entails(a, c),
{
    reveal(entails);
}

pub proof fn lemma_entails_use(a: Edges, b: Edges, x: Val)
    requires entails(a, b), wide(x), models(a, x),
    ensures models(b, x),
{
    reveal(entails);
}

/// More and tighter edges say at least as much.
pub proof fn lemma_entails_tighter(a: Edges, b: Edges)
    requires
        forall|s: u64, d: u64| #![trigger b.contains_key((s, d))] b.contains_key((s, d)) ==> a.contains_key((s, d)) && a[(s, d)]@ <= b[(s, d)]@,
    ensures entails(a, b),
{
    reveal(entails);
    assert forall|x: Val| wide(x) && #[trigger] models(a, x) implies models(b, x) by {
        assert forall|s: u64, d: u64| #![trigger b.contains_key((s, d))] b.contains_key((s, d)) implies x(d) - x(s) <= b[(s, d)]@ by {
            assert(a.contains_key((s, d)));
        }
    }
}

/// If every edge of `b` follows from `a`, then `a` entails `b`.
pub proof fn lemma_entails_each(a: Edges, b: Edges)
    requires
        forall|s: u64, d: u64| #![trigger b.contains_key((s, d))] b.contains_key((s, d)) ==> implied(a, s, d, b[(s, d)]@),
    ensures entails(a, b),
{
    reveal(entails);
    reveal(implied);
    assert forall|x: Val| wide(x) && #[trigger] models(a, x) implies models(b, x) by {
        assert forall|s: u64, d: u64| #![trigger b.contains_key((s, d))] b.contains_key((s, d)) implies x(d) - x(s) <= b[(s, d)]@ by {
            assert(implied(a, s, d, b[(s, d)]@));
        }
    }
}

pub proof fn lemma_implied_edge(edges: Edges, s: u64, d: u64)
    requires edges.contains_key((s, d)),
    ensures implied(edges, s, d, edges[(s, d)]@),
{
    reveal(implied);
}

pub proof fn lemma_implied_weaker(edges: Edges, s: u64, d: u64, w: int, v: int)
    requires implied(edges, s, d, w), w <= v,
    ensures implied(edges, s, d, v),
{
    reveal(implied);
}

/// A path of two steps; saturation of the sum loses nothing, because every
/// difference is a number or further than any two steps.
pub proof fn lemma_implied_path(edges: Edges, a: u64, b: u64, c: u64, v: int, w: int)
    requires implied(edges, a, b, v), implied(edges, b, c, w), v <= i128::MAX, w <= i128::MAX,
    ensures implied(edges, a, c, number::saturate(v + w)),
{
    reveal(implied);
    assert forall|x: Val| wide(x) && #[trigger] models(edges, x) implies x(c) - x(a) <= number::saturate(v + w) by {
        assert(x(b) - x(a) <= v);
        assert(x(c) - x(b) <= w);
        assert(near_or_far(x(c) - x(a)));
    }
}

/// What follows from fewer constraints follows from more.
pub proof fn lemma_implied_mono(a: Edges, b: Edges, s: u64, d: u64, w: int)
    requires entails(a, b), implied(b, s, d, w),
    ensures implied(a, s, d, w),
{
    reveal(implied);
    reveal(entails);
}

/// Adding an implied edge that is no weaker than the one it replaces changes nothing.
pub proof fn lemma_insert_implied(edges: Edges, s: u64, d: u64, w: Number)
    requires
        implied(edges, s, d, w@),
        edges.contains_key((s, d)) ==> w@ <= edges[(s, d)]@,
    ensures equivalent(edges.insert((s, d), w), edges),
{
    let t = edges.insert((s, d), w);
    assert(entails(edges, t)) by {
        assert forall|a: u64, b: u64| #![trigger t.contains_key((a, b))] t.contains_key((a, b)) implies implied(edges, a, b, t[(a, b)]@) by {
            if (a, b) != (s, d) {
                lemma_implied_edge(edges, a, b);
            }
        }
        lemma_entails_each(edges, t);
    }
    lemma_entails_tighter(t, edges);
}

/// Equivalence composes.
pub proof fn lemma_equivalent_trans(a: Edges, b: Edges, c: Edges)
    requires equivalent(a, b), equivalent(b, c),
    ensures equivalent(a, c),
{
    lemma_entails_trans(a, b, c);
    lemma_entails_trans(c, b, a);
}

}
