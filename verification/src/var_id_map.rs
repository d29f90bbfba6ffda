//! A two-way map between variables and the elements of a disjoint-set forest.
use vstd::prelude::*;
use crate::arith::variable::Variable;
use crate::ord_map::OrdMap;

verus! {

/// A two-way map between variables and integer ids.
///
/// A slot is orphaned when its variable moves to another id.
pub struct VarIdMap {
    var_to_id: OrdMap<usize>,
    id_to_var: Vec<Option<Variable>>,
}

impl VarIdMap {
    /// The id of each registered variable, by the variable's number.
    pub closed spec fn ids(&self) -> Map<u64, usize> {
        self.var_to_id@
    }

    /// The variable that each id holds; `None` for an orphaned id.
    pub closed spec fn slots(&self) -> Seq<Option<Variable>> {
        self.id_to_var@
    }

    /// Whether the two directions agree: a variable has an id exactly where the id's slot holds
    /// that variable.
    pub open spec fn wf(&self) -> bool {
        &&& forall|v: u64| #[trigger] self.ids().contains_key(v) ==>
                self.ids()[v] < self.slots().len() && self.slots()[self.ids()[v] as int] == Some(Variable { id: v })
        &&& forall|i: int| 0 <= i < self.slots().len() && (#[trigger] self.slots()[i]) is Some ==>
                self.ids().contains_key(self.slots()[i]->Some_0.id) && self.ids()[self.slots()[i]->Some_0.id] == i
    }

    /// A map with `initial_capacity` orphaned slots and no variable.
    pub fn new(initial_capacity: usize) -> (r: Self)
        ensures
            r.wf(),
            r.ids() == Map::<u64, usize>::empty(),
            r.slots() == Seq::new(initial_capacity as nat, |i: int| None::<Variable>),
    {
        let mut id_to_var: Vec<Option<Variable>> = Vec::new();
        let mut i: usize = 0;
        while i < initial_capacity
            invariant
                i <= initial_capacity,
                id_to_var@ == Seq::new(i as nat, |j: int| None::<Variable>),
            decreases initial_capacity - i,
        {
            id_to_var.push(None);
            i = i + 1;
            assert(id_to_var@ =~= Seq::new(i as nat, |j: int| None::<Variable>));
        }
        VarIdMap { var_to_id: OrdMap::new(), id_to_var }
    }

    /// The id of a variable, if it is registered.
    pub fn find_id(&self, v: Variable) -> (r: Option<usize>)
        ensures r == (if self.ids().contains_key(v.id) { Some(self.ids()[v.id]) } else { None }),
    {
        self.var_to_id.get(v.id)
    }

    /// Gives a variable an id, with orphaned slots up to it where there were none.
    pub fn insert(&mut self, v: Variable, id: usize)
        requires id < usize::MAX,
        ensures
            final(self).ids() == old(self).ids().insert(v.id, id),
            final(self).slots().len() == (if old(self).slots().len() <= id { id + 1 } else { old(self).slots().len() as int }),
            forall|i: int| 0 <= i < final(self).slots().len() ==> #[trigger] final(self).slots()[i] == (
                if i == id { Some(v) } else if i < old(self).slots().len() { old(self).slots()[i] } else { None }),
    {
        self.var_to_id.insert(v.id, id);
        while self.id_to_var.len() <= id
            invariant
                id < usize::MAX,
                self.ids() == old(self).ids().insert(v.id, id),
                self.id_to_var@.len() >= old(self).id_to_var@.len(),
                self.id_to_var@.len() > old(self).id_to_var@.len() ==> self.id_to_var@.len() <= id + 1,
                forall|i: int| 0 <= i < self.id_to_var@.len() ==> #[trigger] self.id_to_var@[i]
                    == (if i < old(self).id_to_var@.len() { old(self).id_to_var@[i] } else { None }),
            decreases id + 1 - self.id_to_var@.len(),
        {
            self.id_to_var.push(None);
        }
        self.id_to_var.set(id, Some(v));
    }

    /// Orphans the id of a variable. The variable keeps the id until it is inserted anew.
    pub fn orphan_var(&mut self, v: Variable)
        requires
            old(self).ids().contains_key(v.id) ==> old(self).ids()[v.id] < old(self).slots().len(),
        ensures
            final(self).ids() == old(self).ids(),
            final(self).slots() == (if old(self).ids().contains_key(v.id) {
                old(self).slots().update(old(self).ids()[v.id] as int, None)
            } else {
                old(self).slots()
            }),
    {
        match self.var_to_id.get(v.id) {
            Some(old_id) => { self.id_to_var.set(old_id, None); }
            None => {}
        }
    }

    /// Removes a variable and orphans its id.
    pub fn remove(&mut self, v: Variable)
        requires
            old(self).ids().contains_key(v.id) ==> old(self).ids()[v.id] < old(self).slots().len(),
        ensures
            final(self).ids() == old(self).ids().remove(v.id),
            final(self).slots() == (if old(self).ids().contains_key(v.id) {
                old(self).slots().update(old(self).ids()[v.id] as int, None)
            } else {
                old(self).slots()
            }),
            old(self).wf() ==> final(self).wf(),
    {
        self.orphan_var(v);
        self.var_to_id.remove(v.id);
    }

    /// Whether a variable is registered.
    pub fn contains(&self, v: Variable) -> (r: bool)
        ensures r == self.ids().contains_key(v.id),
    {
        self.var_to_id.contains_key(v.id)
    }

    /// The number of slots.
    pub fn id_capacity(&self) -> (r: usize)
        ensures r == self.slots().len(),
    {
        self.id_to_var.len()
    }

    /// Lists the registered variables with their ids, by increasing variable number.
    pub fn vars(&self) -> (r: Vec<(Variable, usize)>)
        ensures
            forall|i: int| 0 <= i < r.len() ==> self.ids().contains_key((#[trigger] r@[i]).0.id)
                && self.ids()[r@[i].0.id] == r@[i].1,
            forall|v: u64| #[trigger] self.ids().contains_key(v) ==> exists|i: int| 0 <= i < r.len() && (#[trigger] r@[i]).0.id == v,
            forall|i: int, j: int| 0 <= i < j < r.len() ==> (#[trigger] r@[i]).0.id < (#[trigger] r@[j]).0.id,
    {
        let mut r: Vec<(Variable, usize)> = Vec::new();
        let n: usize = self.var_to_id.len();
        let mut k: usize = 0;
        self.var_to_id.reveal_entries();
        while k < n
            invariant
                k <= n,
                n == self.var_to_id.entries().len(),
                r.len() == k,
                forall|i: int| 0 <= i < k ==> (#[trigger] r@[i]).0.id == self.var_to_id.entries()[i].0
                    && r@[i].1 == self.var_to_id.entries()[i].1,
            decreases n - k,
        {
            r.push((Variable::new(self.var_to_id.key_at(k)), self.var_to_id.value_at(k)));
            k = k + 1;
        }
        proof {
            let s = self.var_to_id.entries();
            assert forall|i: int| 0 <= i < r.len() implies self.ids().contains_key((#[trigger] r@[i]).0.id)
                && self.ids()[r@[i].0.id] == r@[i].1 by {
                crate::ord_map::lemma_entry(s, i);
            }
            assert forall|v: u64| #[trigger] self.ids().contains_key(v) implies
                exists|i: int| 0 <= i < r.len() && (#[trigger] r@[i]).0.id == v by {
                let i = crate::ord_map::lemma_key(s, v);
                assert(r@[i].0.id == v);
            }
            assert forall|i: int, j: int| 0 <= i < j < r.len() implies (#[trigger] r@[i]).0.id < (#[trigger] r@[j]).0.id by {
                assert(s[i].0 < s[j].0);
            }
        }
        r
    }

    /// Whether an id's slot holds a variable.
    pub fn id_is_live(&self, id: usize) -> (r: bool)
        ensures r == (id < self.slots().len() && self.slots()[id as int] is Some),
    {
        id < self.id_to_var.len() && self.id_to_var[id].is_some()
    }

    /// A copy of the map.
    pub fn copy(&self) -> (r: Self)
        ensures r.ids() == self.ids(), r.slots() == self.slots(),
    {
        let mut id_to_var: Vec<Option<Variable>> = Vec::new();
        let mut i: usize = 0;
        while i < self.id_to_var.len()
            invariant
                i <= self.id_to_var@.len(),
                id_to_var@ == self.id_to_var@.take(i as int),
            decreases self.id_to_var@.len() - i,
        {
            id_to_var.push(self.id_to_var[i]);
            i = i + 1;
            assert(id_to_var@ =~= self.id_to_var@.take(i as int));
        }
        assert(id_to_var@ =~= self.id_to_var@);
        VarIdMap { var_to_id: self.var_to_id.copy(), id_to_var }
    }
}

/// Giving a variable a free id, after its former id was orphaned, keeps the two directions in
/// agreement.
pub proof fn reassigning_keeps_agreement(before: &VarIdMap, orphaned: &VarIdMap, after: &VarIdMap, v: Variable, id: usize)
    requires
        before.wf(),
        orphaned.ids() == before.ids(),
        orphaned.slots() == (if before.ids().contains_key(v.id) {
            before.slots().update(before.ids()[v.id] as int, None)
        } else {
            before.slots()
        }),
        id >= before.slots().len() || before.slots()[id as int] is None,
        after.ids() == orphaned.ids().insert(v.id, id),
        after.slots().len() == (if orphaned.slots().len() <= id { id + 1 } else { orphaned.slots().len() as int }),
        forall|i: int| 0 <= i < after.slots().len() ==> #[trigger] after.slots()[i] == (
            if i == id { Some(v) } else if i < orphaned.slots().len() { orphaned.slots()[i] } else { None }),
    ensures after.wf(),
{
    assert forall|w: u64| #[trigger] after.ids().contains_key(w) implies
        after.ids()[w] < after.slots().len() && after.slots()[after.ids()[w] as int] == Some(Variable { id: w }) by {
        if w != v.id {
            assert(before.ids().contains_key(w));
            let j = before.ids()[w] as int;
            assert(before.slots()[j] == Some(Variable { id: w }));
            if before.ids().contains_key(v.id) {
                assert(before.slots()[before.ids()[v.id] as int] == Some(Variable { id: v.id }));
            }
            assert(after.slots()[j] == orphaned.slots()[j]);
        }
    }
    assert forall|i: int| 0 <= i < after.slots().len() && (#[trigger] after.slots()[i]) is Some implies
        after.ids().contains_key(after.slots()[i]->Some_0.id) && after.ids()[after.slots()[i]->Some_0.id] == i by {
        if i != id {
            assert(orphaned.slots()[i] is Some);
            assert(before.slots()[i] is Some);
        }
    }
}

}
