//! Split difference bound matrices: a sparse weighted graph of difference
//! constraints together with a potential function.
use vstd::prelude::*;
use crate::arith::number::Number;

pub mod constraints;
pub mod cycles;
pub mod graph;
pub mod graph_ops;
pub mod graph_views;
pub mod heap;
pub mod split_dbm;

verus! {

/// Weight of an edge.
pub type Weight = Number;

/// Identifier of a vertex.
pub type VertId = u64;

/// A set of vertices.
#[derive(Debug)]
pub struct VertSet {
    items: Vec<VertId>,
}

impl View for VertSet {
    type V = Set<u64>;

    closed spec fn view(&self) -> Set<u64> {
        self.items@.to_set()
    }
}

impl VertSet {
    pub fn new() -> (r: Self)
        ensures r@ == Set::<u64>::empty(),
    {
        let r = VertSet { items: Vec::new() };
        assert(r@ =~= Set::<u64>::empty());
        r
    }

    pub fn is_empty(&self) -> (r: bool)
        ensures r == (self@ == Set::<u64>::empty()),
    {
        proof {
            if self.items@.len() == 0 {
                assert(self@ =~= Set::<u64>::empty());
            } else {
                assert(self@.contains(self.items@[0]));
            }
        }
        self.items.len() == 0
    }

    pub fn contains(&self, v: VertId) -> (r: bool)
        ensures r == self@.contains(v),
    {
        let mut i: usize = 0;
        while i < self.items.len()
            invariant
                i <= self.items@.len(),
                forall|j: int| 0 <= j < i ==> self.items@[j] != v,
            decreases self.items@.len() - i,
        {
            if self.items[i] == v {
                return true;
            }
            i = i + 1;
        }
        false
    }

    pub fn insert(&mut self, v: VertId)
        ensures final(self)@ == old(self)@.insert(v),
    {
        if self.contains(v) {
            assert(self@ =~= self@.insert(v));
        } else {
            self.items.push(v);
            proof {
                graph_views::lemma_push_contains(old(self).items@, v);
                assert(self@ =~= old(self)@.insert(v));
            }
        }
    }

    pub fn clear(&mut self)
        ensures final(self)@ == Set::<u64>::empty(),
    {
        self.items.clear();
        assert(self@ =~= Set::<u64>::empty());
    }

    pub fn copy(&self) -> (r: Self)
        ensures r@ == self@,
    {
        let r = VertSet { items: self.items.clone() };
        assert(r.items@ =~= self.items@);
        r
    }
}

}
