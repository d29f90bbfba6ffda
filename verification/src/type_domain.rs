//! The domain of register types.
//!
//! Variables are divided into classes that must have the same type; each class has the set of the
//! types that it may have.
use vstd::prelude::*;
use vstd::string::*;
use crate::arith::linear_expression::LinearExpression;
use crate::arith::number;
use crate::arith::number::Number;
use crate::arith::variable::Variable;
use crate::dsu::DisjointSetUnion;
use crate::string_constraints::{LineSet, StringInvariant};
use crate::syntax::Reg;
use crate::text;
use crate::type_encoding;
use crate::type_encoding::{int_to_type_encoding, DataKind, TypeEncoding, TypeSet, T_NUM, T_UNINIT};
use crate::var_id_map;
use crate::var_id_map::VarIdMap;
use crate::var_registry;
use crate::var_registry::{RegistryView, VariableRegistry};

verus! {

/// The variable of a register's type.
pub open spec fn type_var_of(r: RegistryView, reg: Reg) -> Variable {
    r.var(var_registry::reg_name(DataKind::Types, reg.v as int))
}

/// The registry with the variable of a register's type.
pub open spec fn with_type_var(r: RegistryView, reg: Reg) -> RegistryView {
    r.interned(var_registry::reg_name(DataKind::Types, reg.v as int), var_registry::kind_meta(DataKind::Types, false))
}

/// The variable of a register's type.
pub fn reg_type(reg: &Reg, registry: &mut VariableRegistry) -> (r: Variable)
    ensures
        r == type_var_of(old(registry)@, *reg),
        final(registry)@ == with_type_var(old(registry)@, *reg),
{
    registry.type_reg(reg.v as i32)
}

/// Two sets are the same set of one type.
pub open spec fn same_lone_type(a: TypeSet, b: TypeSet) -> bool {
    exists|t: TypeEncoding| #[trigger] a.is_just(t) && b.is_just(t)
}

/// A division of the variables into classes with their types.
///
/// Eight elements of the forest stand for the types themselves: every class that has one possible
/// type is merged with the element of that type.
pub struct State {
    dsu: DisjointSetUnion,
    vars: VarIdMap,
    class_types: Vec<TypeSet>,
}

impl State {
    /// The types of the class of an element.
    spec fn at(&self, i: int) -> TypeSet {
        self.class_types@[self.dsu.root(i)]
    }

    spec fn together(&self, i: int, j: int) -> bool {
        self.dsu.root(i) == self.dsu.root(j)
    }

    /// All of the invariant but the merging of classes with one type.
    spec fn shape(&self) -> bool {
        &&& self.dsu.wf()
        &&& self.vars.wf()
        &&& self.class_types@.len() == self.dsu.size()
        &&& self.vars.slots().len() == self.dsu.size()
        &&& self.dsu.size() >= 8
        &&& forall|i: int| 0 <= i < 8 ==> (#[trigger] self.vars.slots()[i]) is None
        &&& forall|t: TypeEncoding| (#[trigger] self.at(t.rank())).is_just(t)
        &&& forall|i: int| 0 <= i < self.dsu.size() ==> (#[trigger] self.at(i)).inhabited()
    }

    /// Classes with one type, other than that of `i`, are merged with the element of the type.
    spec fn merged_but(&self, i: int) -> bool {
        forall|j: int, t: TypeEncoding| 0 <= j < self.dsu.size() && #[trigger] self.at(j).is_just(t) && !self.together(i, j) ==> self.together(j, t.rank())
    }

    pub closed spec fn wf(&self) -> bool {
        &&& self.shape()
        &&& forall|j: int, t: TypeEncoding| 0 <= j < self.dsu.size() && #[trigger] self.at(j).is_just(t) ==> self.together(j, t.rank())
    }

    /// Whether the state says anything of a variable.
    pub closed spec fn known(&self, v: u64) -> bool {
        self.vars.ids().contains_key(v)
    }

    /// The types that a variable may have.
    pub closed spec fn types_of(&self, v: u64) -> TypeSet {
        if self.vars.ids().contains_key(v) { self.at(self.vars.ids()[v] as int) } else { TypeSet::full() }
    }

    /// Whether two variables must have the same type.
    pub closed spec fn linked(&self, v: u64, w: u64) -> bool {
        self.known(v) && self.known(w) && self.together(self.vars.ids()[v] as int, self.vars.ids()[w] as int)
    }

    /// The classes partition the variables, linked variables have the same types, and a variable
    /// always has some possible type.
    pub proof fn classes(&self, u: u64, v: u64, w: u64)
        requires self.wf(),
        ensures
            self.known(u) ==> self.linked(u, u),
            self.linked(u, v) ==> self.linked(v, u),
            self.linked(u, v) && self.linked(v, w) ==> self.linked(u, w),
            self.linked(u, v) ==> self.known(u) && self.known(v) && self.types_of(u) == self.types_of(v),
            !self.known(u) ==> self.types_of(u) == TypeSet::full(),
            self.types_of(u).inhabited(),
    {
        if self.known(u) {
            assert(self.at(self.vars.ids()[u] as int).inhabited());
        } else {
            TypeSet::full().algebra(TypeSet::full(), TypeEncoding::TNum, TypeEncoding::TNum);
            assert(self.types_of(u).has(TypeEncoding::TNum));
        }
    }

    /// Variables whose types are known and equal are linked.
    pub proof fn lone_types_are_merged(&self, v: u64, w: u64)
        requires self.wf(), self.known(v), self.known(w), same_lone_type(self.types_of(v), self.types_of(w)),
        ensures self.linked(v, w),
    {
        let t = choose|t: TypeEncoding| #[trigger] self.types_of(v).is_just(t) && self.types_of(w).is_just(t);
        assert(self.at(self.vars.ids()[v] as int).is_just(t));
        assert(self.at(self.vars.ids()[w] as int).is_just(t));
    }

    /// The state that says nothing.
    pub fn top() -> (r: Self)
        ensures
            r.wf(),
            forall|v: u64| !(#[trigger] r.known(v)),
            forall|v: u64| #[trigger] r.types_of(v) == TypeSet::full(),
            forall|v: u64, w: u64| !(#[trigger] r.linked(v, w)),
    {
        let dsu = DisjointSetUnion::new(8);
        let mut class_types: Vec<TypeSet> = Vec::new();
        let mut i: usize = 0;
        while i < 8
            invariant
                i <= 8,
                class_types.len() == i,
                forall|t: TypeEncoding| t.rank() < i ==> #[trigger] class_types@[t.rank()].is_just(t),
            decreases 8 - i,
        {
            let t = TypeEncoding::at_position(i);
            let ghost before = class_types@;
            class_types.push(TypeSet::singleton(t));
            assert forall|u: TypeEncoding| u.rank() < i + 1 implies #[trigger] class_types@[u.rank()].is_just(u) by {
                if u.rank() < i {
                    assert(before[u.rank()].is_just(u));
                } else {
                    assert(u == t);
                }
            }
            i = i + 1;
        }
        let r = State { dsu, vars: VarIdMap::new(8), class_types };
        proof {
            assert forall|t: TypeEncoding| (#[trigger] r.at(t.rank())).is_just(t) by {
                assert(r.dsu.root(t.rank()) == t.rank());
            }
            assert forall|i: int| 0 <= i < r.dsu.size() implies (#[trigger] r.at(i)).inhabited() by {
                let t = TypeEncoding::of_rank(i);
                assert(r.at(t.rank()).is_just(t));
                assert(r.at(i).has(t));
            }
            assert forall|j: int, t: TypeEncoding| 0 <= j < r.dsu.size() && #[trigger] r.at(j).is_just(t) implies r.together(j, t.rank()) by {
                let u = TypeEncoding::of_rank(j);
                assert(r.at(u.rank()).is_just(u));
                assert(r.at(j).has(u));
            }
        }
        r
    }

    /// Merges the class of an element with the element of its type, where it has one type.
    fn merge_if_singleton(&mut self, id: usize)
        requires
            old(self).shape(),
            old(self).merged_but(id as int),
            id < old(self).dsu.size(),
        ensures
            final(self).wf(),
            final(self).dsu.size() == old(self).dsu.size(),
            final(self).vars == old(self).vars,
            forall|i: int| 0 <= i < old(self).dsu.size() ==> #[trigger] final(self).at(i) == old(self).at(i),
            forall|i: int, j: int| 0 <= i < old(self).dsu.size() && 0 <= j < old(self).dsu.size() ==>
                (#[trigger] final(self).together(i, j) <==> old(self).together(i, j) || same_lone_type(old(self).at(i), old(self).at(j))),
    {
        let ghost s0 = *self;
        let rep: usize = self.dsu.find(id);
        let ts: TypeSet = self.class_types[rep];
        proof {
            assert forall|i: int| 0 <= i < s0.dsu.size() implies #[trigger] self.at(i) == s0.at(i) && self.dsu.root(i) == s0.dsu.root(i) by {}
            s0.dsu.root_is_fixed(id as int);
            assert(s0.at(id as int) == ts);
        }
        match ts.as_singleton() {
            Some(te) => {
                let sentinel: usize = te.position();
                let ghost s1 = *self;
                let sentinel_rep: usize = self.dsu.find(sentinel);
                let ghost s2 = *self;
                proof {
                    assert forall|i: int| 0 <= i < s0.dsu.size() implies s2.dsu.root(i) == s0.dsu.root(i) by {
                        assert(s2.dsu.root(i) == s1.dsu.root(i));
                        assert(s1.dsu.root(i) == s0.dsu.root(i));
                    }
                    assert(s0.at(te.rank()).is_just(te));
                    assert(s0.at(id as int).is_just(te));
                }
                if rep != sentinel_rep {
                    let new_rep: usize = self.dsu.union(rep, sentinel);
                    let ghost s3 = *self;
                    proof {
                        s0.dsu.root_is_fixed(te.rank());
                        s2.dsu.root_is_fixed(rep as int);
                        assert(s2.dsu.root(rep as int) == rep);
                        s0.at(te.rank()).extensional(ts);
                    }
                    self.class_types.set(new_rep, ts);
                    proof {
                        assert forall|i: int| 0 <= i < s0.dsu.size() implies #[trigger] self.at(i) == s0.at(i) by {
                            s0.dsu.root_is_fixed(i);
                            assert(s3.dsu.root(i) == (if s2.dsu.root(i) == rep || s2.dsu.root(i) == sentinel_rep { new_rep as int } else { s2.dsu.root(i) }));
                        }
                        assert forall|i: int, j: int| 0 <= i < s0.dsu.size() && 0 <= j < s0.dsu.size() implies
                            (#[trigger] self.together(i, j) <==> s0.together(i, j) || same_lone_type(s0.at(i), s0.at(j))) by {
                            s0.lemma_lone(id as int, te, i, j);
                        }
                    }
                } else {
                    proof {
                        assert forall|i: int, j: int| 0 <= i < s0.dsu.size() && 0 <= j < s0.dsu.size() implies
                            (#[trigger] self.together(i, j) <==> s0.together(i, j) || same_lone_type(s0.at(i), s0.at(j))) by {
                            s0.lemma_lone(id as int, te, i, j);
                        }
                    }
                }
                proof {
                    assert(self.shape()) by {
                        assert forall|t: TypeEncoding| (#[trigger] self.at(t.rank())).is_just(t) by { assert(s0.at(t.rank()).is_just(t)); }
                        assert forall|i: int| 0 <= i < self.dsu.size() implies (#[trigger] self.at(i)).inhabited() by {
                            assert(s0.at(i).inhabited());
                        }
                    }
                    assert forall|j: int, t: TypeEncoding| 0 <= j < self.dsu.size() && #[trigger] self.at(j).is_just(t) implies self.together(j, t.rank()) by {
                        assert(s0.at(j).is_just(t));
                        assert(s0.at(t.rank()).is_just(t));
                        assert(same_lone_type(s0.at(j), s0.at(t.rank())));
                        assert(self.together(j, t.rank()) <==> s0.together(j, t.rank()) || same_lone_type(s0.at(j), s0.at(t.rank())));
                    }
                }
            }
            None => {
                proof {
                    assert forall|j: int, t: TypeEncoding| 0 <= j < s0.dsu.size() && #[trigger] s0.at(j).is_just(t) implies s0.together(j, t.rank()) by {
                        if s0.together(id as int, j) {
                            assert(s0.at(j) == ts);
                        }
                    }
                    assert forall|i: int, j: int| 0 <= i < s0.dsu.size() && 0 <= j < s0.dsu.size() implies
                        (#[trigger] self.together(i, j) <==> s0.together(i, j) || same_lone_type(s0.at(i), s0.at(j))) by {
                        if same_lone_type(s0.at(i), s0.at(j)) {
                            let t = choose|t: TypeEncoding| #[trigger] s0.at(i).is_just(t) && s0.at(j).is_just(t);
                            assert(s0.together(i, t.rank()));
                            assert(s0.together(j, t.rank()));
                        }
                    }
                    assert(self.shape()) by {
                        assert forall|t: TypeEncoding| (#[trigger] self.at(t.rank())).is_just(t) by { assert(s0.at(t.rank()).is_just(t)); }
                        assert forall|i: int| 0 <= i < self.dsu.size() implies (#[trigger] self.at(i)).inhabited() by {
                            assert(s0.at(i).inhabited());
                        }
                    }
                    assert forall|j: int, t: TypeEncoding| 0 <= j < self.dsu.size() && #[trigger] self.at(j).is_just(t) implies self.together(j, t.rank()) by {
                        assert(s0.at(j).is_just(t));
                        assert(s0.together(j, t.rank()));
                    }
                }
            }
        }
    }

    /// Where the class of `id` has the one type `te`, elements have the same one type exactly
    /// where they are together already or both in the class of `id` or of the type's element.
    proof fn lemma_lone(&self, id: int, te: TypeEncoding, i: int, j: int)
        requires
            self.shape(),
            self.merged_but(id),
            0 <= id < self.dsu.size(),
            0 <= i < self.dsu.size(),
            0 <= j < self.dsu.size(),
            self.at(id).is_just(te),
        ensures
            (self.together(i, j) || same_lone_type(self.at(i), self.at(j))) <==> (self.together(i, j)
                || ((self.together(id, i) || self.together(te.rank(), i)) && (self.together(id, j) || self.together(te.rank(), j)))),
    {
        assert(self.at(te.rank()).is_just(te));
        if same_lone_type(self.at(i), self.at(j)) {
            let t = choose|t: TypeEncoding| #[trigger] self.at(i).is_just(t) && self.at(j).is_just(t);
            if t != te {
                if self.together(id, i) { assert(self.at(i).has(te)); }
                if self.together(id, j) { assert(self.at(j).has(te)); }
            }
            if !self.together(id, i) { assert(self.together(i, t.rank())); }
            if !self.together(id, j) { assert(self.together(j, t.rank())); }
        }
        if (self.together(id, i) || self.together(te.rank(), i)) && (self.together(id, j) || self.together(te.rank(), j)) {
            assert(self.at(i).is_just(te)) by { if self.together(id, i) { assert(self.at(i) == self.at(id)); } else { assert(self.at(i) == self.at(te.rank())); } }
            assert(self.at(j).is_just(te)) by { if self.together(id, j) { assert(self.at(j) == self.at(id)); } else { assert(self.at(j) == self.at(te.rank())); } }
        }
    }

    /// An element for a variable; a new one, with all types, where the variable has none.
    pub fn ensure_var(&mut self, v: Variable) -> (r: usize)
        requires old(self).wf(),
        ensures
            final(self).wf(),
            forall|w: u64| #[trigger] final(self).known(w) <==> old(self).known(w) || w == v.id,
            forall|w: u64| #[trigger] final(self).types_of(w) == old(self).types_of(w),
            forall|a: u64, b: u64| #[trigger] final(self).linked(a, b) <==> old(self).linked(a, b) || (a == v.id && b == v.id),
            final(self).has_element(v.id, r),
            forall|w: u64, i: usize| #[trigger] old(self).has_element(w, i) ==> final(self).has_element(w, i),
    {
        match self.vars.find_id(v) {
            Some(id) => id,
            None => self.fresh(v),
        }
    }

    /// The element of a variable.
    pub closed spec fn has_element(&self, v: u64, id: usize) -> bool {
        self.vars.ids().contains_key(v) && self.vars.ids()[v] == id
    }

    /// Gives a variable a new element with all types.
    fn fresh(&mut self, v: Variable) -> (r: usize)
        requires old(self).wf(),
        ensures
            final(self).wf(),
            forall|w: u64| #[trigger] final(self).known(w) <==> old(self).known(w) || w == v.id,
            forall|w: u64| #[trigger] final(self).types_of(w) == (if w == v.id { TypeSet::full() } else { old(self).types_of(w) }),
            forall|a: u64, b: u64| #[trigger] final(self).linked(a, b) <==> (a == v.id && b == v.id) || (a != v.id && b != v.id && old(self).linked(a, b)),
            final(self).has_element(v.id, r),
            final(self).vars.ids() == old(self).vars.ids().insert(v.id, r),
            r == old(self).dsu.size(),
            final(self).dsu.size() == r + 1,
            final(self).dsu.root(r as int) == r,
            forall|i: int| 0 <= i < r ==> #[trigger] final(self).dsu.root(i) == old(self).dsu.root(i),
            forall|i: int| 0 <= i < r ==> #[trigger] final(self).class_types@[i] == old(self).class_types@[i],
    {
        let ghost s0 = *self;
        self.vars.orphan_var(v);
        let ghost mid = self.vars;
        let id: usize = self.dsu.push();
        self.vars.insert(v, id);
        self.class_types.push(TypeSet::all());
        proof {
            var_id_map::reassigning_keeps_agreement(&s0.vars, &mid, &self.vars, v, id);
            assert forall|i: int| 0 <= i < id implies #[trigger] self.at(i) == s0.at(i) by {
                s0.dsu.root_is_fixed(i);
                assert(self.dsu.root(i) == s0.dsu.root(i));
            }
            assert(self.at(id as int) == TypeSet::full());
            assert(self.shape()) by {
                assert forall|i: int| 0 <= i < 8 implies (#[trigger] self.vars.slots()[i]) is None by {
                    assert(s0.vars.slots()[i] is None);
                }
                assert forall|t: TypeEncoding| (#[trigger] self.at(t.rank())).is_just(t) by { assert(s0.at(t.rank()).is_just(t)); }
                assert forall|i: int| 0 <= i < self.dsu.size() implies (#[trigger] self.at(i)).inhabited() by {
                    if i < id {
                        assert(s0.at(i).inhabited());
                    } else {
                        TypeSet::full().algebra(TypeSet::full(), TypeEncoding::TNum, TypeEncoding::TNum);
                        assert(self.at(i).has(TypeEncoding::TNum));
                    }
                }
            }
            assert forall|j: int, t: TypeEncoding| 0 <= j < self.dsu.size() && #[trigger] self.at(j).is_just(t) implies self.together(j, t.rank()) by {
                if j < id {
                    assert(s0.at(j).is_just(t));
                    assert(s0.together(j, t.rank()));
                    assert(self.dsu.root(t.rank()) == s0.dsu.root(t.rank()));
                } else {
                    lemma_full_not_lone(t);
                }
            }
            assert forall|w: u64| #[trigger] self.types_of(w) == (if w == v.id { TypeSet::full() } else { s0.types_of(w) }) by {}
            assert forall|a: u64, b: u64| #[trigger] self.linked(a, b) <==> (a == v.id && b == v.id) || (a != v.id && b != v.id && s0.linked(a, b)) by {
                if a != v.id && s0.vars.ids().contains_key(a) {
                    s0.dsu.root_is_fixed(s0.vars.ids()[a] as int);
                    assert(self.dsu.root(self.vars.ids()[a] as int) == s0.dsu.root(s0.vars.ids()[a] as int));
                }
                if b != v.id && s0.vars.ids().contains_key(b) {
                    s0.dsu.root_is_fixed(s0.vars.ids()[b] as int);
                    assert(self.dsu.root(self.vars.ids()[b] as int) == s0.dsu.root(s0.vars.ids()[b] as int));
                }
            }
        }
        id
    }

    /// The types that a variable may have.
    pub fn get_typeset(&self, v: Variable) -> (r: TypeSet)
        requires self.wf(),
        ensures r == self.types_of(v.id),
    {
        match self.vars.find_id(v) {
            Some(id) => {
                let rep: usize = self.dsu.find_const(id);
                self.class_types[rep]
            }
            None => TypeSet::all(),
        }
    }

    /// Makes nothing known of a variable: it gets a class of its own, with all types.
    pub fn detach(&mut self, v: Variable)
        requires old(self).wf(),
        ensures final(self).wf(), forgot(*old(self), v.id, *final(self)),
    {
        self.fresh(v);
    }

    /// Replaces the types of the class of an element, and merges it where they are one type.
    fn retype(&mut self, id: usize, ts: TypeSet)
        requires
            old(self).wf(),
            id < old(self).dsu.size(),
            ts.inhabited(),
            forall|t: TypeEncoding| #[trigger] ts.has(t) ==> old(self).at(id as int).has(t),
        ensures
            final(self).wf(),
            final(self).dsu.size() == old(self).dsu.size(),
            final(self).vars == old(self).vars,
            forall|i: int| 0 <= i < old(self).dsu.size() ==> #[trigger] final(self).at(i) == (if old(self).together(i, id as int) { ts } else { old(self).at(i) }),
            forall|i: int, j: int| 0 <= i < old(self).dsu.size() && 0 <= j < old(self).dsu.size() ==>
                (#[trigger] final(self).together(i, j) <==> old(self).together(i, j) || same_lone_type(final(self).at(i), final(self).at(j))),
    {
        let ghost s0 = *self;
        let rep: usize = self.dsu.find(id);
        let ghost s1 = *self;
        self.class_types.set(rep, ts);
        proof {
            s0.dsu.root_is_fixed(id as int);
            assert forall|i: int| 0 <= i < s0.dsu.size() implies #[trigger] self.dsu.root(i) == s0.dsu.root(i) by {
                assert(s1.dsu.root(i) == s0.dsu.root(i));
            }
            assert forall|i: int| 0 <= i < s0.dsu.size() implies #[trigger] self.at(i) == (if s0.together(i, id as int) { ts } else { s0.at(i) }) by {
                s0.dsu.root_is_fixed(i);
            }
            assert forall|t: TypeEncoding| (#[trigger] self.at(t.rank())).is_just(t) by {
                assert(s0.at(t.rank()).is_just(t));
                if s0.together(t.rank(), id as int) {
                    assert(s0.at(id as int) == s0.at(t.rank()));
                    let u = choose|u: TypeEncoding| #[trigger] ts.has(u);
                    assert(s0.at(id as int).has(u));
                    assert forall|w: TypeEncoding| #[trigger] ts.has(w) <==> w == t by {
                        if ts.has(w) { assert(s0.at(id as int).has(w)); }
                    }
                }
            }
            assert forall|i: int| 0 <= i < self.dsu.size() implies (#[trigger] self.at(i)).inhabited() by {
                assert(s0.at(i).inhabited());
            }
            assert(self.shape());
            assert forall|j: int, t: TypeEncoding| 0 <= j < self.dsu.size() && #[trigger] self.at(j).is_just(t) && !self.together(id as int, j) implies self.together(j, t.rank()) by {
                assert(s0.at(j).is_just(t));
                assert(s0.together(j, t.rank()));
            }
        }
        self.merge_if_singleton(id);
    }

    /// Keeps the types of a variable's class that are in a set; false where none is left.
    pub fn restrict_to(&mut self, v: Variable, mask: TypeSet) -> (r: bool)
        requires old(self).wf(),
        ensures
            r <==> old(self).types_of(v.id).common(mask).inhabited(),
            r ==> final(self).wf() && narrowed(*old(self), v.id, old(self).types_of(v.id).common(mask), *final(self)),
    {
        let ghost s0 = *self;
        let id: usize = self.ensure_var(v);
        let ghost s1 = *self;
        let rep: usize = self.dsu.find_const(id);
        let result: TypeSet = self.class_types[rep].intersect(mask);
        assert(self.types_of(v.id) == self.at(id as int));
        if result.is_empty() {
            return false;
        }
        self.retype(id, result);
        proof { lemma_retyped(s0, s1, *self, v.id, id, result); }
        true
    }

    /// Removes a type from a variable's class; false where none is left.
    pub fn remove_type(&mut self, v: Variable, te: TypeEncoding) -> (r: bool)
        requires old(self).wf(),
        ensures
            r <==> old(self).types_of(v.id).less(te).inhabited(),
            r ==> final(self).wf() && narrowed(*old(self), v.id, old(self).types_of(v.id).less(te), *final(self)),
    {
        let ghost s0 = *self;
        let id: usize = self.ensure_var(v);
        let ghost s1 = *self;
        let rep: usize = self.dsu.find_const(id);
        let result: TypeSet = self.class_types[rep].remove(te);
        assert(self.types_of(v.id) == self.at(id as int));
        if result.is_empty() {
            return false;
        }
        self.retype(id, result);
        proof { lemma_retyped(s0, s1, *self, v.id, id, result); }
        true
    }

    /// Merges the classes of two elements, which then have the given types.
    fn unite(&mut self, a: usize, b: usize, ts: TypeSet)
        requires
            old(self).wf(),
            a < old(self).dsu.size(),
            b < old(self).dsu.size(),
            ts.inhabited(),
            forall|t: TypeEncoding| #[trigger] ts.has(t) ==> old(self).at(a as int).has(t) && old(self).at(b as int).has(t),
        ensures
            final(self).wf(),
            final(self).dsu.size() == old(self).dsu.size(),
            final(self).vars == old(self).vars,
            forall|i: int| 0 <= i < old(self).dsu.size() ==> #[trigger] final(self).at(i) == (
                if old(self).together(i, a as int) || old(self).together(i, b as int) { ts } else { old(self).at(i) }),
            forall|i: int, j: int| 0 <= i < old(self).dsu.size() && 0 <= j < old(self).dsu.size() ==>
                (#[trigger] final(self).together(i, j) <==> old(self).together(i, j)
                    || ((old(self).together(i, a as int) || old(self).together(i, b as int)) && (old(self).together(j, a as int) || old(self).together(j, b as int)))
                    || same_lone_type(final(self).at(i), final(self).at(j))),
    {
        let ghost s0 = *self;
        let new_rep: usize = self.dsu.union(a, b);
        let ghost s1 = *self;
        proof {
            s0.dsu.root_is_fixed(a as int);
            s0.dsu.root_is_fixed(b as int);
        }
        self.class_types.set(new_rep, ts);
        let ghost s2 = *self;
        proof {
            assert forall|i: int| 0 <= i < s0.dsu.size() implies #[trigger] self.at(i) == (
                if s0.together(i, a as int) || s0.together(i, b as int) { ts } else { s0.at(i) }) by {
                s0.dsu.root_is_fixed(i);
                assert(s1.dsu.root(i) == (if s0.dsu.root(i) == s0.dsu.root(a as int) || s0.dsu.root(i) == s0.dsu.root(b as int) { new_rep as int } else { s0.dsu.root(i) }));
            }
            assert forall|i: int, j: int| 0 <= i < s0.dsu.size() && 0 <= j < s0.dsu.size() implies
                (#[trigger] self.together(i, j) <==> s0.together(i, j)
                    || ((s0.together(i, a as int) || s0.together(i, b as int)) && (s0.together(j, a as int) || s0.together(j, b as int)))) by {
                s0.dsu.root_is_fixed(i);
                s0.dsu.root_is_fixed(j);
                assert(s1.dsu.root(i) == (if s0.dsu.root(i) == s0.dsu.root(a as int) || s0.dsu.root(i) == s0.dsu.root(b as int) { new_rep as int } else { s0.dsu.root(i) }));
                assert(s1.dsu.root(j) == (if s0.dsu.root(j) == s0.dsu.root(a as int) || s0.dsu.root(j) == s0.dsu.root(b as int) { new_rep as int } else { s0.dsu.root(j) }));
            }
            assert forall|t: TypeEncoding| (#[trigger] self.at(t.rank())).is_just(t) by {
                assert(s0.at(t.rank()).is_just(t));
                if s0.together(t.rank(), a as int) || s0.together(t.rank(), b as int) {
                    let u = choose|u: TypeEncoding| #[trigger] ts.has(u);
                    assert(s0.at(a as int).has(u) && s0.at(b as int).has(u));
                    assert forall|w: TypeEncoding| #[trigger] ts.has(w) <==> w == t by {
                        if ts.has(w) { assert(s0.at(a as int).has(w) && s0.at(b as int).has(w)); }
                    }
                }
            }
            assert forall|i: int| 0 <= i < self.dsu.size() implies (#[trigger] self.at(i)).inhabited() by {
                assert(s0.at(i).inhabited());
            }
            assert(self.shape());
            assert forall|j: int, t: TypeEncoding| 0 <= j < self.dsu.size() && #[trigger] self.at(j).is_just(t) && !self.together(a as int, j) implies self.together(j, t.rank()) by {
                assert(self.together(a as int, j) <==> s0.together(a as int, j)
                    || ((s0.together(a as int, a as int) || s0.together(a as int, b as int)) && (s0.together(j, a as int) || s0.together(j, b as int))));
                assert(s0.at(j).is_just(t));
                assert(s0.together(j, t.rank()));
                assert(self.together(j, t.rank()) <==> s0.together(j, t.rank())
                    || ((s0.together(j, a as int) || s0.together(j, b as int)) && (s0.together(t.rank(), a as int) || s0.together(t.rank(), b as int))));
            }
        }
        self.merge_if_singleton(a);
    }

    /// Makes two variables have the same type; false where they share none.
    pub fn assume_eq(&mut self, v1: Variable, v2: Variable) -> (r: bool)
        requires old(self).wf(),
        ensures
            r <==> old(self).types_of(v1.id).common(old(self).types_of(v2.id)).inhabited(),
            r ==> final(self).wf() && unified(*old(self), v1.id, v2.id, *final(self)),
    {
        let ghost s0 = *self;
        let id1: usize = self.ensure_var(v1);
        let ghost s1 = *self;
        let id2: usize = self.ensure_var(v2);
        let ghost s2 = *self;
        proof {
            assert(s2.types_of(v1.id) == s1.types_of(v1.id));
            assert(s1.types_of(v1.id) == s0.types_of(v1.id));
            assert(s2.types_of(v2.id) == s1.types_of(v2.id));
            assert(s1.types_of(v2.id) == s0.types_of(v2.id));
            assert(s2.linked(v1.id, v1.id)) by { assert(s1.linked(v1.id, v1.id)); }
            assert(s2.has_element(v1.id, id1)) by { assert(s1.has_element(v1.id, id1)); }
        }
        let ts1: TypeSet = self.get_typeset(v1);
        let ts2: TypeSet = self.get_typeset(v2);
        let ts: TypeSet = ts1.intersect(ts2);
        if ts.is_empty() {
            return false;
        }
        self.unite(id1, id2, ts);
        proof {
            assert forall|w: u64| #[trigger] s2.known(w) <==> s0.known(w) || w == v1.id || w == v2.id by { assert(s1.known(w) <==> s0.known(w) || w == v1.id); }
            assert forall|w: u64| #[trigger] s2.types_of(w) == s0.types_of(w) by { assert(s1.types_of(w) == s0.types_of(w)); }
            assert forall|a: u64, b: u64| #[trigger] s2.linked(a, b) <==> s0.linked(a, b) || (a == b && (a == v1.id || a == v2.id)) by {
                assert(s1.linked(a, b) <==> s0.linked(a, b) || (a == v1.id && b == v1.id));
            }
            lemma_united(s0, s2, *self, v1.id, v2.id, id1, id2, ts);
        }
        true
    }
}

proof fn lemma_full_not_lone(t: TypeEncoding)
    ensures !TypeSet::full().is_just(t),
{
    let a = TypeSet::full();
    a.algebra(a, t, TypeEncoding::TNum);
    a.algebra(a, t, TypeEncoding::TCtx);
    assert(a.has(TypeEncoding::TNum) && a.has(TypeEncoding::TCtx));
}

/// Nothing is known of a variable any more, and nothing else has changed.
pub open spec fn forgot(s: State, v: u64, t: State) -> bool {
    &&& forall|w: u64| #[trigger] t.known(w) <==> s.known(w) || w == v
    &&& forall|w: u64| #[trigger] t.types_of(w) == (if w == v { TypeSet::full() } else { s.types_of(w) })
    &&& forall|a: u64, b: u64| #[trigger] t.linked(a, b) <==> (a == v && b == v) || (a != v && b != v && s.linked(a, b))
}

/// The class of a variable has the given types. Nothing else has changed, but that classes with
/// the same one type are merged.
pub open spec fn narrowed(s: State, v: u64, ts: TypeSet, t: State) -> bool {
    &&& forall|w: u64| #[trigger] t.known(w) <==> s.known(w) || w == v
    &&& forall|w: u64| #[trigger] t.types_of(w) == (if w == v || s.linked(v, w) { ts } else { s.types_of(w) })
    &&& forall|a: u64, b: u64| #[trigger] t.linked(a, b) <==> t.known(a) && t.known(b)
            && (a == b || s.linked(a, b) || same_lone_type(t.types_of(a), t.types_of(b)))
}

/// In the class of one of two variables.
pub open spec fn in_either(s: State, v1: u64, v2: u64, w: u64) -> bool {
    w == v1 || w == v2 || s.linked(v1, w) || s.linked(v2, w)
}

/// The classes of two variables are merged and have the types that both had. Nothing else has
/// changed, but that classes with the same one type are merged.
pub open spec fn unified(s: State, v1: u64, v2: u64, t: State) -> bool {
    let ts = s.types_of(v1).common(s.types_of(v2));
    &&& forall|w: u64| #[trigger] t.known(w) <==> s.known(w) || w == v1 || w == v2
    &&& forall|w: u64| #[trigger] t.types_of(w) == (if in_either(s, v1, v2, w) { ts } else { s.types_of(w) })
    &&& forall|a: u64, b: u64| #[trigger] t.linked(a, b) <==> t.known(a) && t.known(b)
            && (a == b || s.linked(a, b) || (in_either(s, v1, v2, a) && in_either(s, v1, v2, b)) || same_lone_type(t.types_of(a), t.types_of(b)))
}

proof fn lemma_retyped(s0: State, s1: State, s2: State, v: u64, id: usize, ts: TypeSet)
    requires
        s0.wf(),
        s1.wf(),
        s2.wf(),
        forall|w: u64| #[trigger] s1.known(w) <==> s0.known(w) || w == v,
        forall|w: u64| #[trigger] s1.types_of(w) == s0.types_of(w),
        forall|a: u64, b: u64| #[trigger] s1.linked(a, b) <==> s0.linked(a, b) || (a == v && b == v),
        s1.has_element(v, id),
        s2.dsu.size() == s1.dsu.size(),
        s2.vars == s1.vars,
        forall|i: int| 0 <= i < s1.dsu.size() ==> #[trigger] s2.at(i) == (if s1.together(i, id as int) { ts } else { s1.at(i) }),
        forall|i: int, j: int| 0 <= i < s1.dsu.size() && 0 <= j < s1.dsu.size() ==>
            (#[trigger] s2.together(i, j) <==> s1.together(i, j) || same_lone_type(s2.at(i), s2.at(j))),
    ensures narrowed(s0, v, ts, s2),
{
    assert forall|w: u64| #[trigger] s2.known(w) <==> s0.known(w) || w == v by { assert(s1.known(w) <==> s0.known(w) || w == v); }
    assert forall|w: u64| #[trigger] s2.types_of(w) == (if w == v || s0.linked(v, w) { ts } else { s0.types_of(w) }) by {
        assert(s1.types_of(w) == s0.types_of(w));
        assert(s1.linked(v, w) <==> s0.linked(v, w) || (v == v && w == v));
        if s1.known(w) {
            let i = s1.vars.ids()[w] as int;
            assert(s2.at(i) == (if s1.together(i, id as int) { ts } else { s1.at(i) }));
            assert(s1.linked(v, w) == s1.together(id as int, i));
        }
    }
    assert forall|a: u64, b: u64| #[trigger] s2.linked(a, b) <==> s2.known(a) && s2.known(b)
            && (a == b || s0.linked(a, b) || same_lone_type(s2.types_of(a), s2.types_of(b))) by {
        assert(s1.linked(a, b) <==> s0.linked(a, b) || (a == v && b == v));
        if s2.known(a) && s2.known(b) {
            let i = s1.vars.ids()[a] as int;
            let j = s1.vars.ids()[b] as int;
            assert(s2.together(i, j) <==> s1.together(i, j) || same_lone_type(s2.at(i), s2.at(j)));
        }
    }
}

proof fn lemma_united(s0: State, s1: State, s2: State, v1: u64, v2: u64, id1: usize, id2: usize, ts: TypeSet)
    requires
        s0.wf(),
        s1.wf(),
        s2.wf(),
        ts == s0.types_of(v1).common(s0.types_of(v2)),
        forall|w: u64| #[trigger] s1.known(w) <==> s0.known(w) || w == v1 || w == v2,
        forall|w: u64| #[trigger] s1.types_of(w) == s0.types_of(w),
        forall|a: u64, b: u64| #[trigger] s1.linked(a, b) <==> s0.linked(a, b) || (a == b && (a == v1 || a == v2)),
        s1.has_element(v1, id1),
        s1.has_element(v2, id2),
        s2.dsu.size() == s1.dsu.size(),
        s2.vars == s1.vars,
        forall|i: int| 0 <= i < s1.dsu.size() ==> #[trigger] s2.at(i) == (if s1.together(i, id1 as int) || s1.together(i, id2 as int) { ts } else { s1.at(i) }),
        forall|i: int, j: int| 0 <= i < s1.dsu.size() && 0 <= j < s1.dsu.size() ==>
            (#[trigger] s2.together(i, j) <==> s1.together(i, j)
                || ((s1.together(i, id1 as int) || s1.together(i, id2 as int)) && (s1.together(j, id1 as int) || s1.together(j, id2 as int)))
                || same_lone_type(s2.at(i), s2.at(j))),
    ensures unified(s0, v1, v2, s2),
{
    assert forall|w: u64| s1.known(w) implies (#[trigger] in_either(s0, v1, v2, w)
        == (s1.together(s1.vars.ids()[w] as int, id1 as int) || s1.together(s1.vars.ids()[w] as int, id2 as int))) by {
        assert(s1.linked(v1, w) <==> s0.linked(v1, w) || (v1 == w && (v1 == v1 || v1 == v2)));
        assert(s1.linked(v2, w) <==> s0.linked(v2, w) || (v2 == w && (v2 == v1 || v2 == v2)));
    }
    assert forall|w: u64| #[trigger] s2.known(w) <==> s0.known(w) || w == v1 || w == v2 by { assert(s1.known(w) <==> s0.known(w) || w == v1 || w == v2); }
    assert forall|w: u64| #[trigger] s2.types_of(w) == (if in_either(s0, v1, v2, w) { ts } else { s0.types_of(w) }) by {
        assert(s1.types_of(w) == s0.types_of(w));
        if s1.known(w) {
            let i = s1.vars.ids()[w] as int;
            assert(s2.at(i) == (if s1.together(i, id1 as int) || s1.together(i, id2 as int) { ts } else { s1.at(i) }));
        } else {
            assert(!s0.linked(v1, w) && !s0.linked(v2, w)) by { s0.classes(v1, w, w); s0.classes(v2, w, w); }
        }
    }
    assert forall|a: u64, b: u64| #[trigger] s2.linked(a, b) <==> s2.known(a) && s2.known(b)
            && (a == b || s0.linked(a, b) || (in_either(s0, v1, v2, a) && in_either(s0, v1, v2, b)) || same_lone_type(s2.types_of(a), s2.types_of(b))) by {
        assert(s1.linked(a, b) <==> s0.linked(a, b) || (a == b && (a == v1 || a == v2)));
        if s2.known(a) && s2.known(b) {
            assert(s1.known(a) && s1.known(b));
            let i = s1.vars.ids()[a] as int;
            let j = s1.vars.ids()[b] as int;
            assert(in_either(s0, v1, v2, a) == (s1.together(i, id1 as int) || s1.together(i, id2 as int)));
            assert(in_either(s0, v1, v2, b) == (s1.together(j, id1 as int) || s1.together(j, id2 as int)));
            assert(s2.together(i, j) <==> s1.together(i, j)
                || ((s1.together(i, id1 as int) || s1.together(i, id2 as int)) && (s1.together(j, id1 as int) || s1.together(j, id2 as int)))
                || same_lone_type(s2.at(i), s2.at(j)));
        }
    }
}

// ---------------------------------------------------------------------------------------------
// The meaning of a state
// ---------------------------------------------------------------------------------------------

/// A type for each variable.
pub type Typing = spec_fn(u64) -> TypeEncoding;

/// A typing gives every variable one of its possible types, and linked variables the same.
pub open spec fn admits(s: State, typing: Typing) -> bool {
    &&& forall|v: u64| (#[trigger] s.types_of(v)).has(typing(v))
    &&& forall|v: u64, w: u64| #[trigger] s.linked(v, w) ==> typing(v) == typing(w)
}

/// A state that knows of no variable admits every typing.
pub proof fn unknown_is_free(s: State, typing: Typing)
    requires forall|v: u64| !(#[trigger] s.known(v)),
    ensures admits(s, typing),
{
    assert forall|v: u64| (#[trigger] s.types_of(v)).has(typing(v)) by {
        assert(!s.known(v));
        TypeSet::full().algebra(TypeSet::full(), typing(v), typing(v));
    }
    assert forall|v: u64, w: u64| #[trigger] s.linked(v, w) implies typing(v) == typing(w) by {
        assert(!s.known(v));
    }
}

/// Narrowing a class keeps the typings that give the variable one of the remaining types, and no
/// others.
pub proof fn narrowing_is_exact(s: State, v: u64, ts: TypeSet, t: State, typing: Typing)
    requires s.wf(), t.wf(), narrowed(s, v, ts, t), forall|x: TypeEncoding| #[trigger] ts.has(x) ==> s.types_of(v).has(x),
    ensures admits(t, typing) <==> admits(s, typing) && ts.has(typing(v)),
{
    if admits(t, typing) {
        assert forall|w: u64| (#[trigger] s.types_of(w)).has(typing(w)) by {
            assert(t.types_of(w).has(typing(w)));
            if s.linked(v, w) { s.classes(v, w, w); }
        }
        assert forall|a: u64, b: u64| #[trigger] s.linked(a, b) implies typing(a) == typing(b) by {
            s.classes(a, b, b);
            s.classes(b, a, a);
            assert(t.linked(a, b));
        }
        assert(t.types_of(v).has(typing(v)));
    }
    if admits(s, typing) && ts.has(typing(v)) {
        assert forall|w: u64| (#[trigger] t.types_of(w)).has(typing(w)) by {
            assert(s.types_of(w).has(typing(w)));
            if s.linked(v, w) { assert(typing(v) == typing(w)); }
        }
        assert forall|a: u64, b: u64| #[trigger] t.linked(a, b) implies typing(a) == typing(b) by {
            if a != b && !s.linked(a, b) {
                lemma_lone_typing(t, typing, a, b);
            }
        }
    }
}

proof fn lemma_lone_typing(t: State, typing: Typing, a: u64, b: u64)
    requires
        same_lone_type(t.types_of(a), t.types_of(b)),
        forall|w: u64| (#[trigger] t.types_of(w)).has(typing(w)),
    ensures typing(a) == typing(b),
{
    let x = choose|x: TypeEncoding| #[trigger] t.types_of(a).is_just(x) && t.types_of(b).is_just(x);
    assert(t.types_of(a).has(typing(a)));
    assert(t.types_of(b).has(typing(b)));
}

/// Unifying two variables keeps the typings that give them the same type, and no others.
pub proof fn unifying_is_exact(s: State, v1: u64, v2: u64, t: State, typing: Typing)
    requires s.wf(), t.wf(), unified(s, v1, v2, t),
    ensures admits(t, typing) <==> admits(s, typing) && typing(v1) == typing(v2),
{
    let ts = s.types_of(v1).common(s.types_of(v2));
    if admits(t, typing) {
        assert(t.linked(v1, v2));
        assert forall|w: u64| (#[trigger] s.types_of(w)).has(typing(w)) by {
            assert(t.types_of(w).has(typing(w)));
            if in_either(s, v1, v2, w) {
                s.types_of(v1).algebra(s.types_of(v2), typing(w), typing(w));
                s.classes(v1, w, w);
                s.classes(v2, w, w);
            }
        }
        assert forall|a: u64, b: u64| #[trigger] s.linked(a, b) implies typing(a) == typing(b) by {
            s.classes(a, b, b);
            s.classes(b, a, a);
            assert(t.linked(a, b));
        }
    }
    if admits(s, typing) && typing(v1) == typing(v2) {
        assert forall|w: u64| #[trigger] in_either(s, v1, v2, w) implies typing(w) == typing(v1) by {
            if s.linked(v1, w) {} else if s.linked(v2, w) {}
        }
        assert forall|w: u64| (#[trigger] t.types_of(w)).has(typing(w)) by {
            assert(s.types_of(w).has(typing(w)));
            if in_either(s, v1, v2, w) {
                assert(s.types_of(v1).has(typing(v1)));
                assert(s.types_of(v2).has(typing(v2)));
                s.types_of(v1).algebra(s.types_of(v2), typing(v1), typing(v1));
            }
        }
        assert forall|a: u64, b: u64| #[trigger] t.linked(a, b) implies typing(a) == typing(b) by {
            if a != b && !s.linked(a, b) && !(in_either(s, v1, v2, a) && in_either(s, v1, v2, b)) {
                lemma_lone_typing(t, typing, a, b);
            }
        }
    }
}

// ---------------------------------------------------------------------------------------------
// Assignments
// ---------------------------------------------------------------------------------------------

/// A variable has one type. What was known of it before is dropped.
pub open spec fn given(s: State, v: u64, te: TypeEncoding, t: State) -> bool {
    &&& forall|w: u64| #[trigger] t.known(w) <==> s.known(w) || w == v
    &&& forall|w: u64| #[trigger] t.types_of(w) == (if w == v { TypeSet::just(te) } else { s.types_of(w) })
    &&& forall|a: u64, b: u64| #[trigger] t.linked(a, b) <==> t.known(a) && t.known(b)
            && (a == b || (a != v && b != v && s.linked(a, b)) || same_lone_type(t.types_of(a), t.types_of(b)))
}

/// Where a variable's type comes from in an assignment.
pub open spec fn source_of(lhs: u64, rhs: u64, w: u64) -> u64 {
    if w == lhs { rhs } else { w }
}

/// A variable has the type of another. What was known of it before is dropped, also where it is
/// assigned to itself.
pub open spec fn copied(s: State, lhs: u64, rhs: u64, t: State) -> bool {
    &&& forall|w: u64| #[trigger] t.known(w) <==> s.known(w) || w == lhs || w == rhs
    &&& forall|w: u64| #[trigger] t.types_of(w) == (if w != lhs { s.types_of(w) } else if lhs == rhs { TypeSet::full() } else { s.types_of(rhs) })
    &&& forall|a: u64, b: u64| #[trigger] t.linked(a, b) <==> t.known(a) && t.known(b) && (a == b
            || (lhs != rhs && (source_of(lhs, rhs, a) == source_of(lhs, rhs, b) || s.linked(source_of(lhs, rhs, a), source_of(lhs, rhs, b))))
            || (lhs == rhs && a != lhs && b != lhs && s.linked(a, b))
            || same_lone_type(t.types_of(a), t.types_of(b)))
}

/// The number of a type in a constant; a number out of range stands for no type's.
pub open spec fn type_number(c: Number, otherwise: int) -> int {
    if i64::MIN <= c@ <= i64::MAX { number::wrap_signed(c@, 32) } else { otherwise }
}

/// The variable that an expression copies.
pub open spec fn copied_variable(e: &LinearExpression) -> Option<u64> {
    if e.terms.entries().len() == 1 && e.terms.entries()[0].1@ == 1 && e.constant@ == 0 { Some(e.terms.entries()[0].0) } else { None }
}

/// The effect of assigning an expression to a type variable, where it has one.
pub open spec fn assigned_expr(s: State, lhs: u64, e: &LinearExpression, t: State) -> bool {
    if e.terms.entries().len() == 0 {
        exists|te: TypeEncoding| te.code() == type_number(e.constant, -7) && #[trigger] given(s, lhs, te, t)
    } else {
        match copied_variable(e) {
            Some(v) => copied(s, lhs, v, t),
            None => forgot(s, lhs, t),
        }
    }
}

proof fn lemma_full_common(ts: TypeSet)
    ensures
        TypeSet::full().common(ts) == ts,
        ts.common(TypeSet::full()) == ts,
        ts.either(TypeSet::full()) == TypeSet::full(),
        TypeSet::full().either(ts) == TypeSet::full(),
{
    let b = ts.bits;
    assert(255u8 & b == b && b & 255u8 == b && b | 255u8 == 255u8 && 255u8 | b == 255u8) by (bit_vector);
}

/// The constant of an expression as the number of a type.
fn constant_number(e: &LinearExpression, otherwise: i32) -> (r: i32)
    ensures r == type_number(e.constant, otherwise as int),
{
    match e.constant.to_i64() {
        Some(_) => {
            proof {
                number::lemma_wrap_range(e.constant@, 32);
                number::lemma_pow2_127();
            }
            e.constant.cast_to_signed_width(32).n as i32
        }
        None => otherwise,
    }
}

/// The variable that an expression copies.
fn variable_copied(e: &LinearExpression) -> (r: Option<Variable>)
    ensures
        r is Some <==> copied_variable(e) is Some,
        r matches Some(v) ==> copied_variable(e) == Some(v.id),
{
    if e.terms.len() == 1 && e.terms.value_at(0).n == 1 && e.constant.is_zero() {
        Some(Variable::new(e.terms.key_at(0)))
    } else {
        None
    }
}

impl State {
    /// Gives a variable one type.
    pub fn assign_type(&mut self, v: Variable, te: TypeEncoding)
        requires old(self).wf(),
        ensures final(self).wf(), given(*old(self), v.id, te, *final(self)),
    {
        let ghost s0 = *self;
        let id: usize = self.fresh(v);
        let ghost s1 = *self;
        let ts = TypeSet::singleton(te);
        proof {
            assert(s1.types_of(v.id) == TypeSet::full());
            assert(s1.at(id as int) == TypeSet::full());
            assert(ts.has(te));
            assert forall|t: TypeEncoding| #[trigger] ts.has(t) implies s1.at(id as int).has(t) by {
                TypeSet::full().algebra(ts, te, t);
            }
        }
        self.retype(id, ts);
        proof {
            assert forall|w: u64| #[trigger] s1.known(w) <==> s1.known(w) || w == v.id by {}
            assert forall|a: u64, b: u64| #[trigger] s1.linked(a, b) <==> s1.linked(a, b) || (a == v.id && b == v.id) by {}
            lemma_retyped(s1, s1, *self, v.id, id, ts);
            let t = *self;
            assert forall|w: u64| #[trigger] t.known(w) <==> s0.known(w) || w == v.id by { assert(s1.known(w) <==> s0.known(w) || w == v.id); }
            assert forall|w: u64| #[trigger] t.types_of(w) == (if w == v.id { TypeSet::just(te) } else { s0.types_of(w) }) by {
                assert(s1.types_of(w) == (if w == v.id { TypeSet::full() } else { s0.types_of(w) }));
                assert(s1.linked(v.id, w) <==> (v.id == v.id && w == v.id) || (v.id != v.id && w != v.id && s0.linked(v.id, w)));
            }
            assert forall|a: u64, b: u64| #[trigger] t.linked(a, b) <==> t.known(a) && t.known(b)
                && (a == b || (a != v.id && b != v.id && s0.linked(a, b)) || same_lone_type(t.types_of(a), t.types_of(b))) by {
                assert(s1.linked(a, b) <==> (a == v.id && b == v.id) || (a != v.id && b != v.id && s0.linked(a, b)));
            }
        }
    }

    /// Gives a variable the type of another.
    pub fn assign_copy(&mut self, lhs: Variable, rhs: Variable)
        requires old(self).wf(),
        ensures final(self).wf(), copied(*old(self), lhs.id, rhs.id, *final(self)),
    {
        let ghost s0 = *self;
        self.detach(lhs);
        let ghost s1 = *self;
        proof {
            lemma_full_common(s1.types_of(rhs.id));
            assert(s1.types_of(lhs.id) == TypeSet::full());
            s1.classes(rhs.id, rhs.id, rhs.id);
        }
        let r: bool = self.assume_eq(lhs, rhs);
        proof {
            assert(r);
            let t = *self;
            let l = lhs.id;
            let q = rhs.id;
            assert forall|w: u64| #[trigger] t.known(w) <==> s0.known(w) || w == l || w == q by { assert(s1.known(w) <==> s0.known(w) || w == l); }
            assert forall|w: u64| #[trigger] in_either(s1, l, q, w) <==> w == l || w == q || (l != q && w != l && s0.linked(q, w)) by {
                assert(s1.linked(l, w) <==> (l == l && w == l) || (l != l && w != l && s0.linked(l, w)));
                assert(s1.linked(q, w) <==> (q == l && w == l) || (q != l && w != l && s0.linked(q, w)));
            }
            assert forall|w: u64| #[trigger] t.types_of(w) == (if w != l { s0.types_of(w) } else if l == q { TypeSet::full() } else { s0.types_of(q) }) by {
                assert(s1.types_of(w) == (if w == l { TypeSet::full() } else { s0.types_of(w) }));
                assert(s1.types_of(q) == (if q == l { TypeSet::full() } else { s0.types_of(q) }));
                if in_either(s1, l, q, w) && w != l && w != q {
                    s0.classes(q, w, w);
                }
            }
            assert forall|a: u64, b: u64| #[trigger] t.linked(a, b) <==> t.known(a) && t.known(b) && (a == b
                || (l != q && (source_of(l, q, a) == source_of(l, q, b) || s0.linked(source_of(l, q, a), source_of(l, q, b))))
                || (l == q && a != l && b != l && s0.linked(a, b))
                || same_lone_type(t.types_of(a), t.types_of(b))) by {
                assert(s1.linked(a, b) <==> (a == l && b == l) || (a != l && b != l && s0.linked(a, b)));
                assert(in_either(s1, l, q, a) <==> a == l || a == q || (l != q && a != l && s0.linked(q, a)));
                assert(in_either(s1, l, q, b) <==> b == l || b == q || (l != q && b != l && s0.linked(q, b)));
                s0.classes(q, a, b);
                s0.classes(a, q, b);
                s0.classes(b, q, a);
            }
        }
    }

    /// Assigns an expression to a type variable; false where it is a number that is no type's.
    fn assign_from_expr(&mut self, lhs: Variable, expr: &LinearExpression) -> (r: bool)
        requires old(self).wf(),
        ensures
            r <==> !(expr.terms.entries().len() == 0 && !(-7 <= type_number(expr.constant, -7) <= 0)),
            r ==> final(self).wf() && assigned_expr(*old(self), lhs.id, expr, *final(self)),
    {
        if expr.terms.len() == 0 {
            match int_to_type_encoding(constant_number(expr, -7)) {
                Some(te) => {
                    self.assign_type(lhs, te);
                    assert(given(*old(self), lhs.id, te, *self));
                    true
                }
                None => false,
            }
        } else {
            match variable_copied(expr) {
                Some(var) => { self.assign_copy(lhs, var); }
                None => { self.detach(lhs); }
            }
            true
        }
    }

    /// Whether two variables must have the same type.
    pub fn are_linked(&self, a: Variable, b: Variable) -> (r: bool)
        requires self.wf(),
        ensures r == self.linked(a.id, b.id),
    {
        match (self.vars.find_id(a), self.vars.find_id(b)) {
            (Some(i), Some(j)) => self.dsu.same_set(i, j),
            _ => false,
        }
    }

    /// Lists the variables that the state says something of, by increasing number.
    pub fn variables(&self) -> (r: Vec<Variable>)
        requires self.wf(),
        ensures
            forall|v: u64| #[trigger] self.known(v) <==> r@.contains(Variable { id: v }),
            forall|i: int, j: int| 0 <= i < j < r.len() ==> (#[trigger] r@[i]).id < (#[trigger] r@[j]).id,
    {
        let pairs = self.vars.vars();
        let mut r: Vec<Variable> = Vec::new();
        let mut i: usize = 0;
        while i < pairs.len()
            invariant
                i <= pairs.len(),
                r.len() == i,
                forall|j: int| 0 <= j < i ==> #[trigger] r@[j] == pairs@[j].0,
            decreases pairs.len() - i,
        {
            r.push(pairs[i].0);
            i = i + 1;
        }
        proof {
            assert forall|v: u64| #[trigger] self.known(v) <==> r@.contains(Variable { id: v }) by {
                if self.known(v) {
                    assert(self.vars.ids().contains_key(v));
                    let k = choose|k: int| 0 <= k < pairs.len() && (#[trigger] pairs@[k]).0.id == v;
                    assert(r@[k] == Variable { id: v });
                }
                if r@.contains(Variable { id: v }) {
                    let k = choose|k: int| 0 <= k < r@.len() && r@[k] == Variable { id: v };
                    assert(pairs@[k].0.id == v);
                }
            }
            assert forall|i: int, j: int| 0 <= i < j < r.len() implies (#[trigger] r@[i]).id < (#[trigger] r@[j]).id by {
                assert(pairs@[i].0.id < pairs@[j].0.id);
            }
        }
        r
    }

    /// A copy of the state.
    pub fn copy(&self) -> (r: State)
        requires self.wf(),
        ensures r.wf(), same_state(*self, r),
    {
        let r = State { dsu: self.dsu.copy(), vars: self.vars.copy(), class_types: self.class_types.clone() };
        proof {
            assert(r.class_types@ =~= self.class_types@);
            assert forall|i: int| #[trigger] r.at(i) == self.at(i) by { assert(r.dsu.root(i) == self.dsu.root(i)); }
            assert forall|i: int, j: int| #[trigger] r.together(i, j) == self.together(i, j) by {
                assert(r.dsu.root(i) == self.dsu.root(i));
                assert(r.dsu.root(j) == self.dsu.root(j));
            }
            assert forall|t: TypeEncoding| (#[trigger] r.at(t.rank())).is_just(t) by { assert(self.at(t.rank()).is_just(t)); }
            assert forall|i: int| 0 <= i < r.dsu.size() implies (#[trigger] r.at(i)).inhabited() by { assert(self.at(i).inhabited()); }
            assert forall|j: int, t: TypeEncoding| 0 <= j < r.dsu.size() && #[trigger] r.at(j).is_just(t) implies r.together(j, t.rank()) by {
                assert(self.at(j).is_just(t));
                assert(self.together(j, t.rank()));
            }
            assert forall|a: u64, b: u64| #[trigger] r.linked(a, b) == self.linked(a, b) by {
                if self.known(a) && self.known(b) {
                    assert(r.together(self.vars.ids()[a] as int, self.vars.ids()[b] as int) == self.together(self.vars.ids()[a] as int, self.vars.ids()[b] as int));
                }
            }
        }
        r
    }

    /// Gives a variable another name. What was known of the new name is dropped.
    fn rename_one(&mut self, from: Variable, to: Variable)
        requires old(self).wf(),
        ensures final(self).wf(), relabeled(*old(self), from.id, to.id, *final(self)),
    {
        if from.id == to.id {
            return;
        }
        let ghost s0 = *self;
        self.vars.remove(to);
        let ghost m = self.vars;
        match self.vars.find_id(from) {
            None => {}
            Some(id) => {
                self.vars.remove(from);
                let ghost k = self.vars;
                assert(id < s0.class_types.len());
                self.vars.insert(to, id);
                proof { var_id_map::reassigning_keeps_agreement(&k, &k, &self.vars, to, id); }
            }
        }
        proof {
            let t = *self;
            assert forall|i: int| #[trigger] t.at(i) == s0.at(i) by {}
            assert forall|i: int, j: int| #[trigger] t.together(i, j) == s0.together(i, j) by {}
            assert forall|i: int| 0 <= i < 8 implies (#[trigger] t.vars.slots()[i]) is None by {
                assert(s0.vars.slots()[i] is None);
                if s0.vars.ids().contains_key(from.id) {
                    assert(s0.vars.slots()[s0.vars.ids()[from.id] as int] is Some);
                }
            }
            assert forall|u: TypeEncoding| (#[trigger] t.at(u.rank())).is_just(u) by { assert(s0.at(u.rank()).is_just(u)); }
            assert forall|i: int| 0 <= i < t.dsu.size() implies (#[trigger] t.at(i)).inhabited() by { assert(s0.at(i).inhabited()); }
            assert forall|j: int, u: TypeEncoding| 0 <= j < t.dsu.size() && #[trigger] t.at(j).is_just(u) implies t.together(j, u.rank()) by {
                assert(s0.at(j).is_just(u));
                assert(s0.together(j, u.rank()));
            }
        }
    }

    /// Gives variables other names, in turn.
    pub fn rename(&mut self, renaming: &[(Variable, Variable)])
        requires old(self).wf(),
        ensures final(self).wf(), relabeled_all(*old(self), renaming@, *final(self)),
    {
        let ghost mut path: Seq<State> = seq![*self];
        let mut i: usize = 0;
        while i < renaming.len()
            invariant
                self.wf(),
                i <= renaming.len(),
                path.len() == i + 1,
                path[0] == *old(self),
                path[i as int] == *self,
                forall|j: int| 0 <= j < i ==> #[trigger] relabeled(path[j], renaming@[j].0.id, renaming@[j].1.id, path[j + 1]),
            decreases renaming.len() - i,
        {
            let (from, to) = renaming[i];
            let ghost before = path;
            self.rename_one(from, to);
            proof {
                path = path.push(*self);
                assert forall|j: int| 0 <= j < i + 1 implies #[trigger] relabeled(path[j], renaming@[j].0.id, renaming@[j].1.id, path[j + 1]) by {
                    if j < i {
                        assert(relabeled(before[j], renaming@[j].0.id, renaming@[j].1.id, before[j + 1]));
                    }
                }
            }
            i = i + 1;
        }
    }
}

/// Both states say the same.
pub open spec fn same_state(s: State, t: State) -> bool {
    &&& forall|v: u64| #[trigger] t.known(v) == s.known(v)
    &&& forall|v: u64| #[trigger] t.types_of(v) == s.types_of(v)
    &&& forall|v: u64, w: u64| #[trigger] t.linked(v, w) == s.linked(v, w)
}

/// The variable whose place a variable takes in a renaming; none for the old name.
pub open spec fn origin(from: u64, to: u64, w: u64) -> Option<u64> {
    if w == to { Some(from) } else if w == from { None } else { Some(w) }
}

/// The state with a variable renamed.
pub open spec fn relabeled(s: State, from: u64, to: u64, t: State) -> bool {
    if from == to {
        same_state(s, t)
    } else {
        &&& forall|w: u64| #[trigger] t.known(w) == (match origin(from, to, w) { Some(x) => s.known(x), None => false })
        &&& forall|w: u64| #[trigger] t.types_of(w) == (match origin(from, to, w) { Some(x) => s.types_of(x), None => TypeSet::full() })
        &&& forall|a: u64, b: u64| #[trigger] t.linked(a, b) == (match (origin(from, to, a), origin(from, to, b)) { (Some(x), Some(y)) => s.linked(x, y), _ => false })
    }
}

/// The state with variables renamed in turn.
pub open spec fn relabeled_all(s: State, pairs: Seq<(Variable, Variable)>, t: State) -> bool {
    exists|path: Seq<State>| path.len() == pairs.len() + 1 && path[0] == s && path[pairs.len() as int] == t
        && forall|j: int| 0 <= j < pairs.len() ==> #[trigger] relabeled(path[j], pairs[j].0.id, pairs[j].1.id, path[j + 1])
}

/// The domain of types: a state, or nothing where no typing is possible.
pub struct TypeDomain {
    pub state: Option<State>,
}

/// What a join of two states says: of each variable the types of either side, and that two
/// variables have the same type where both sides say so.
pub open spec fn joined(s: State, t: State, r: State) -> bool {
    &&& forall|v: u64| #[trigger] r.known(v) <==> s.known(v) || t.known(v)
    &&& forall|v: u64| #[trigger] r.types_of(v) == s.types_of(v).either(t.types_of(v))
    &&& forall|a: u64, b: u64| #[trigger] r.linked(a, b) <==> r.known(a) && r.known(b)
            && (a == b || (s.linked(a, b) && t.linked(a, b)) || same_lone_type(r.types_of(a), r.types_of(b)))
}

/// One state says at least as much as another: its sets are smaller, and what the other links it
/// links too, or knows nothing of.
pub open spec fn refines(s: State, t: State) -> bool {
    &&& forall|v: u64| #[trigger] s.known(v) ==> s.types_of(v).subset(t.types_of(v))
    &&& forall|v: u64| #[trigger] t.known(v) && !s.known(v) ==> t.types_of(v) == TypeSet::full()
    &&& forall|v: u64, w: u64| #[trigger] t.linked(v, w) && v != w ==> s.linked(v, w) || (!s.known(v) && !s.known(w))
}

/// A state says at least as much as itself.
pub proof fn refinement_is_reflexive(s: State)
    requires s.wf(),
    ensures refines(s, s),
{
    assert forall|v: u64| #[trigger] s.known(v) implies s.types_of(v).subset(s.types_of(v)) by {}
}

/// A join admits what either side admits.
pub proof fn joining_is_sound(s: State, t: State, r: State, typing: Typing)
    requires s.wf(), t.wf(), r.wf(), joined(s, t, r), admits(s, typing) || admits(t, typing),
    ensures admits(r, typing),
{
    assert forall|v: u64| (#[trigger] r.types_of(v)).has(typing(v)) by {
        s.types_of(v).algebra(t.types_of(v), typing(v), typing(v));
        if admits(s, typing) { assert(s.types_of(v).has(typing(v))); } else { assert(t.types_of(v).has(typing(v))); }
    }
    assert forall|a: u64, b: u64| #[trigger] r.linked(a, b) implies typing(a) == typing(b) by {
        if a != b && !(s.linked(a, b) && t.linked(a, b)) {
            lemma_lone_typing(r, typing, a, b);
        }
    }
}

/// Whether two states admit the same typing in common.
pub open spec fn met(s: State, t: State, r: State) -> bool {
    forall|typing: Typing| #[trigger] admits(r, typing) <==> admits(s, typing) && admits(t, typing)
}

impl TypeDomain {
    pub open spec fn wf(&self) -> bool {
        self.state matches Some(s) ==> s.wf()
    }

    /// The state of a domain that is not bottom.
    pub open spec fn s(&self) -> State {
        self.state->Some_0
    }

    /// The types that a variable may have; none at bottom.
    pub open spec fn may_have(&self, v: u64, te: TypeEncoding) -> bool {
        self.state is Some && self.s().types_of(v).has(te)
    }

    pub fn top() -> (r: Self)
        ensures
            r.wf(),
            r.state is Some,
            forall|v: u64| !(#[trigger] r.s().known(v)),
            forall|v: u64| #[trigger] r.s().types_of(v) == TypeSet::full(),
            forall|v: u64, w: u64| !(#[trigger] r.s().linked(v, w)),
    {
        TypeDomain { state: Some(State::top()) }
    }

    pub fn set_to_top(&mut self)
        ensures
            final(self).wf(),
            final(self).state is Some,
            forall|v: u64| !(#[trigger] final(self).s().known(v)),
            forall|v: u64| #[trigger] final(self).s().types_of(v) == TypeSet::full(),
    {
        self.state = Some(State::top());
    }

    pub fn is_bottom(&self) -> (r: bool)
        ensures r == (self.state is None),
    {
        self.state.is_none()
    }

    /// A copy of the domain.
    pub fn copy(&self) -> (r: Self)
        requires self.wf(),
        ensures
            r.wf(),
            r.state is Some <==> self.state is Some,
            self.state is Some ==> same_state(self.s(), r.s()),
    {
        match &self.state {
            Some(s) => TypeDomain { state: Some(s.copy()) },
            None => TypeDomain { state: None },
        }
    }

    /// Whether this domain says at least as much as another.
    pub fn is_included_in(&self, other: &TypeDomain) -> (r: bool)
        requires self.wf(), other.wf(),
        ensures r == (self.state is None || (other.state is Some && refines(self.s(), other.s()))),
    {
        let s = match &self.state {
            Some(s) => s,
            None => return true,
        };
        let t = match &other.state {
            Some(t) => t,
            None => return false,
        };
        let mine = s.variables();
        let theirs = t.variables();
        let mut i: usize = 0;
        while i < mine.len()
            invariant
                s.wf(),
                t.wf(),
                i <= mine.len(),
                forall|v: u64| #[trigger] s.known(v) <==> mine@.contains(Variable { id: v }),
                forall|j: int| 0 <= j < i ==> s.types_of((#[trigger] mine@[j]).id).subset(t.types_of(mine@[j].id)),
                self.state == Some(*s),
                other.state == Some(*t),
            decreases mine.len() - i,
        {
            let v: Variable = mine[i];
            if !s.get_typeset(v).is_subset_of(t.get_typeset(v)) {
                proof {
                    assert(mine@.contains(Variable { id: v.id }));
                    assert(s.known(v.id));
                }
                return false;
            }
            i = i + 1;
        }
        let mut i: usize = 0;
        while i < theirs.len()
            invariant
                s.wf(),
                t.wf(),
                i <= theirs.len(),
                forall|v: u64| #[trigger] t.known(v) <==> theirs@.contains(Variable { id: v }),
                forall|j: int| 0 <= j < i && !s.known((#[trigger] theirs@[j]).id) ==> t.types_of(theirs@[j].id) == TypeSet::full(),
                self.state == Some(*s),
                other.state == Some(*t),
            decreases theirs.len() - i,
        {
            let v: Variable = theirs[i];
            let known: bool = s.are_linked(v, v);
            proof {
                s.classes(v.id, v.id, v.id);
                assert(theirs@.contains(Variable { id: v.id }));
                assert(t.known(v.id));
            }
            if !known && t.get_typeset(v) != TypeSet::all() {
                return false;
            }
            i = i + 1;
        }
        let mut i: usize = 0;
        while i < theirs.len()
            invariant
                s.wf(),
                t.wf(),
                i <= theirs.len(),
                forall|v: u64| #[trigger] t.known(v) <==> theirs@.contains(Variable { id: v }),
                forall|a: int, b: int| #![trigger theirs@[a], theirs@[b]] 0 <= a < i && 0 <= b < theirs.len() && theirs@[a] != theirs@[b] && t.linked(theirs@[a].id, theirs@[b].id) ==>
                    s.linked(theirs@[a].id, theirs@[b].id) || (!s.known(theirs@[a].id) && !s.known(theirs@[b].id)),
                self.state == Some(*s),
                other.state == Some(*t),
            decreases theirs.len() - i,
        {
            let v: Variable = theirs[i];
            let mut k: usize = 0;
            while k < theirs.len()
                invariant
                    s.wf(),
                    t.wf(),
                    i < theirs.len(),
                    k <= theirs.len(),
                    v == theirs@[i as int],
                    forall|b: int| 0 <= b < k && v != #[trigger] theirs@[b] && t.linked(v.id, theirs@[b].id) ==>
                        s.linked(v.id, theirs@[b].id) || (!s.known(v.id) && !s.known(theirs@[b].id)),
                    self.state == Some(*s),
                    other.state == Some(*t),
                decreases theirs.len() - k,
            {
                let w: Variable = theirs[k];
                proof {
                    s.classes(v.id, v.id, v.id);
                    s.classes(w.id, w.id, w.id);
                }
                if v.id != w.id && t.are_linked(v, w) && !s.are_linked(v, w) && (s.are_linked(v, v) || s.are_linked(w, w)) {
                    assert(!refines(*s, *t));
                    return false;
                }
                k = k + 1;
            }
            i = i + 1;
        }
        proof {
            assert forall|v: u64| #[trigger] s.known(v) implies s.types_of(v).subset(t.types_of(v)) by {
                let j = choose|j: int| 0 <= j < mine@.len() && mine@[j] == Variable { id: v };
                assert(mine@[j].id == v);
            }
            assert forall|v: u64| #[trigger] t.known(v) && !s.known(v) implies t.types_of(v) == TypeSet::full() by {
                let j = choose|j: int| 0 <= j < theirs@.len() && theirs@[j] == Variable { id: v };
                assert(theirs@[j].id == v);
            }
            assert forall|v: u64, w: u64| #[trigger] t.linked(v, w) && v != w implies s.linked(v, w) || (!s.known(v) && !s.known(w)) by {
                t.classes(v, w, w);
                let a = choose|a: int| 0 <= a < theirs@.len() && theirs@[a] == Variable { id: v };
                let b = choose|b: int| 0 <= b < theirs@.len() && theirs@[b] == Variable { id: w };
                assert(theirs@[a].id == v && theirs@[b].id == w);
            }
        }
        true
    }

    /// Joins another domain into this one.
    pub fn join_assign(&mut self, other: &TypeDomain)
        requires old(self).wf(), other.wf(),
        ensures
            final(self).wf(),
            other.state is None ==> *final(self) == *old(self),
            other.state is Some ==> final(self).state is Some,
            old(self).state is None && other.state is Some ==> same_state(other.s(), final(self).s()),
            old(self).state is Some && other.state is Some ==> joined(old(self).s(), other.s(), final(self).s()),
    {
        if other.is_bottom() {
            return;
        }
        if self.is_bottom() {
            *self = other.copy();
            return;
        }
        *self = self.join(other);
    }

    /// The facts that hold in both domains.
    #[verifier::rlimit(40)]
    pub fn join(&self, other: &TypeDomain) -> (r: TypeDomain)
        requires self.wf(), other.wf(),
        ensures
            r.wf(),
            r.state is None <==> self.state is None && other.state is None,
            self.state is None && other.state is Some ==> same_state(other.s(), r.s()),
            self.state is Some && other.state is None ==> same_state(self.s(), r.s()),
            self.state is Some && other.state is Some ==> joined(self.s(), other.s(), r.s()),
    {
        let s = match &self.state {
            Some(s) => s,
            None => return other.copy(),
        };
        let t = match &other.state {
            Some(t) => t,
            None => return self.copy(),
        };
        let mut all = s.variables();
        let theirs = t.variables();
        let mut k: usize = 0;
        proof {
            assert forall|v: u64| #[trigger] s.known(v) implies all@.contains(Variable { id: v }) by {}
            assert forall|i: int, j: int| 0 <= i < j < all.len() implies #[trigger] all@[i] != #[trigger] all@[j] by {}
        }
        while k < theirs.len()
            invariant
                s.wf(),
                t.wf(),
                k <= theirs.len(),
                forall|v: u64| #[trigger] t.known(v) <==> theirs@.contains(Variable { id: v }),
                forall|i: int, j: int| 0 <= i < j < theirs.len() ==> (#[trigger] theirs@[i]).id < (#[trigger] theirs@[j]).id,
                forall|i: int, j: int| 0 <= i < j < all.len() ==> #[trigger] all@[i] != #[trigger] all@[j],
                forall|v: u64| #[trigger] s.known(v) ==> all@.contains(Variable { id: v }),
                forall|j: int| 0 <= j < all.len() ==> s.known((#[trigger] all@[j]).id) || (t.known(all@[j].id) && (k < theirs.len() ==> all@[j].id < theirs@[k as int].id)),
                forall|j: int| 0 <= j < k ==> all@.contains(#[trigger] theirs@[j]),
            decreases theirs.len() - k,
        {
            let v: Variable = theirs[k];
            let ghost before = all@;
            proof {
                s.classes(v.id, v.id, v.id);
                assert(theirs@.contains(Variable { id: v.id }));
                assert(t.known(v.id));
            }
            if !s.are_linked(v, v) {
                all.push(v);
            }
            proof {
                assert(s.known(v.id) ==> before.contains(v)) by { if s.known(v.id) { assert(before.contains(Variable { id: v.id })); } }
                assert forall|x: Variable| before.contains(x) implies #[trigger] all@.contains(x) by {
                    let j = choose|j: int| 0 <= j < before.len() && before[j] == x;
                    assert(all@[j] == x);
                }
                assert(all@.contains(v)) by { if !s.known(v.id) { assert(all@[before.len() as int] == v); } }
                assert forall|j: int| 0 <= j < all.len() implies s.known((#[trigger] all@[j]).id)
                    || (t.known(all@[j].id) && (k + 1 < theirs.len() ==> all@[j].id < theirs@[k + 1].id)) by {
                    if j < before.len() {
                        assert(all@[j] == before[j]);
                        if k + 1 < theirs.len() { assert(theirs@[k as int].id < theirs@[k + 1].id); }
                    }
                }
                assert forall|j: int| 0 <= j < k + 1 implies all@.contains(#[trigger] theirs@[j]) by {
                    if j < k { assert(before.contains(theirs@[j])); }
                }
                assert forall|i: int, j: int| 0 <= i < j < all.len() implies #[trigger] all@[i] != #[trigger] all@[j] by {
                    if j == before.len() {
                        assert(all@[i] == before[i]);
                        assert(s.known(before[i].id) || (t.known(before[i].id) && before[i].id < theirs@[k as int].id));
                    }
                }
            }
            k = k + 1;
        }
        proof {
            assert forall|v: u64| s.known(v) || t.known(v) implies #[trigger] all@.contains(Variable { id: v }) by {
                if t.known(v) {
                    let j = choose|j: int| 0 <= j < theirs@.len() && theirs@[j] == Variable { id: v };
                    assert(all@.contains(theirs@[j]));
                }
            }
        }
        let mut r = State::top();
        let mut i: usize = 0;
        while i < all.len()
            invariant
                s.wf(),
                t.wf(),
                r.wf(),
                i <= all.len(),
                forall|a: int, b: int| 0 <= a < b < all.len() ==> #[trigger] all@[a] != #[trigger] all@[b],
                forall|w: u64| #[trigger] r.known(w) <==> all@.take(i as int).contains(Variable { id: w }),
                forall|w: u64| #[trigger] r.known(w) ==> r.types_of(w) == s.types_of(w).either(t.types_of(w)),
                forall|a: u64, b: u64| #[trigger] r.linked(a, b) <==> r.known(a) && r.known(b)
                    && (a == b || (s.linked(a, b) && t.linked(a, b)) || same_lone_type(r.types_of(a), r.types_of(b))),
            decreases all.len() - i,
        {
            let v: Variable = all[i];
            let ghost before = r;
            let ghost ts = s.types_of(v.id).either(t.types_of(v.id));
            // An earlier variable of the same class on both sides.
            let mut twin: Option<Variable> = None;
            let mut k: usize = 0;
            while k < i
                invariant
                    s.wf(),
                    t.wf(),
                    k <= i < all.len(),
                    match twin {
                        Some(u) => all@.take(i as int).contains(u) && s.linked(v.id, u.id) && t.linked(v.id, u.id),
                        None => forall|q: int| 0 <= q < k ==> !(s.linked(v.id, (#[trigger] all@[q]).id) && t.linked(v.id, all@[q].id)),
                    },
                decreases i - k,
            {
                let u: Variable = all[k];
                if s.are_linked(v, u) && t.are_linked(v, u) {
                    assert(all@.take(i as int)[k as int] == u);
                    twin = Some(u);
                }
                k = k + 1;
            }
            proof {
                s.classes(v.id, v.id, v.id);
                t.classes(v.id, v.id, v.id);
                before.classes(v.id, v.id, v.id);
                assert(!before.known(v.id)) by {
                    if before.known(v.id) {
                        let q = choose|q: int| 0 <= q < all@.take(i as int).len() && all@.take(i as int)[q] == Variable { id: v.id };
                        assert(all@[q] == all@[i as int]);
                    }
                }
                lemma_full_common(ts);
                let x = choose|x: TypeEncoding| #[trigger] s.types_of(v.id).has(x);
                s.types_of(v.id).algebra(t.types_of(v.id), x, x);
                assert(ts.has(x));
            }
            match twin {
                Some(u) => {
                    proof {
                        assert(before.known(u.id)) by { assert(all@.take(i as int).contains(Variable { id: u.id })); }
                        s.classes(v.id, u.id, u.id);
                        t.classes(v.id, u.id, u.id);
                        assert(before.types_of(u.id) == ts);
                    }
                    let ok: bool = r.assume_eq(v, u);
                    assert(ok);
                    proof { lemma_joined_twin(*s, *t, before, r, v.id, u.id); }
                }
                None => {
                    let mask = s.get_typeset(v).union(t.get_typeset(v));
                    let ok: bool = r.restrict_to(v, mask);
                    assert(ok);
                    proof {
                        assert forall|w: u64| before.known(w) implies !(#[trigger] s.linked(v.id, w) && t.linked(v.id, w)) by {
                            let q = choose|q: int| 0 <= q < all@.take(i as int).len() && all@.take(i as int)[q] == Variable { id: w };
                            assert(all@[q].id == w);
                        }
                        lemma_joined_alone(*s, *t, before, r, v.id, ts);
                    }
                }
            }
            proof {
                assert(all@.take(i + 1) =~= all@.take(i as int).push(v));
                assert forall|w: u64| #[trigger] r.known(w) <==> all@.take(i + 1).contains(Variable { id: w }) by {
                    let p = all@.take(i as int);
                    let q = all@.take(i + 1);
                    assert(before.known(w) <==> p.contains(Variable { id: w }));
                    if p.contains(Variable { id: w }) {
                        let j = choose|j: int| 0 <= j < p.len() && p[j] == Variable { id: w };
                        assert(q[j] == Variable { id: w });
                    }
                    if w == v.id { assert(q[i as int] == Variable { id: w }); }
                    if q.contains(Variable { id: w }) && w != v.id {
                        let j = choose|j: int| 0 <= j < q.len() && q[j] == Variable { id: w };
                        assert(p[j] == Variable { id: w });
                    }
                }
            }
            i = i + 1;
        }
        proof {
            assert(all@.take(all@.len() as int) =~= all@);
            assert forall|v: u64| #[trigger] r.known(v) <==> s.known(v) || t.known(v) by {
                if s.known(v) || t.known(v) { assert(all@.contains(Variable { id: v })); }
                if r.known(v) {
                    let j = choose|j: int| 0 <= j < all@.len() && all@[j] == Variable { id: v };
                    assert(s.known(all@[j].id) || t.known(all@[j].id));
                }
            }
            assert forall|v: u64| #[trigger] r.types_of(v) == s.types_of(v).either(t.types_of(v)) by {
                if !r.known(v) {
                    r.classes(v, v, v);
                    s.classes(v, v, v);
                    t.classes(v, v, v);
                    lemma_full_common(TypeSet::full());
                }
            }
        }
        TypeDomain { state: Some(r) }
    }

    /// What both domains say, or nothing where they contradict each other.
    pub fn meet(&self, other: &TypeDomain) -> (r: Option<TypeDomain>)
        requires self.wf(), other.wf(),
        ensures
            r matches Some(m) ==> m.wf() && m.state is Some && self.state is Some && other.state is Some && met(self.s(), other.s(), m.s()),
            r is None && self.state is Some && other.state is Some ==>
                forall|typing: Typing| !(#[trigger] admits(self.s(), typing) && admits(other.s(), typing)),
    {
        let s = match &self.state {
            Some(s) => s,
            None => return None,
        };
        let t = match &other.state {
            Some(t) => t,
            None => return None,
        };
        let mut r = s.copy();
        let theirs = t.variables();
        proof {
            assert forall|typing: Typing| #[trigger] admits(r, typing) <==> admits(*s, typing) by { lemma_same_admits(*s, r, typing); }
        }
        let mut i: usize = 0;
        while i < theirs.len()
            invariant
                t.wf(),
                r.wf(),
                i <= theirs.len(),
                self.state == Some(*s),
                other.state == Some(*t),
                forall|typing: Typing| #[trigger] admits(r, typing) <==> admits(*s, typing) && respects(*t, theirs@, i as int, typing),
            decreases theirs.len() - i,
        {
            let v: Variable = theirs[i];
            let mut k: usize = 0;
            assert forall|typing: Typing| #[trigger] admits(r, typing) <==> admits(*s, typing) && respects(*t, theirs@, i as int, typing)
                && respects_row(*t, theirs@, v, 0, typing) by {}
            while k < theirs.len()
                invariant
                    t.wf(),
                    r.wf(),
                    i < theirs.len(),
                    k <= theirs.len(),
                    v == theirs@[i as int],
                    self.state == Some(*s),
                    other.state == Some(*t),
                    forall|typing: Typing| #[trigger] admits(r, typing) <==> admits(*s, typing) && respects(*t, theirs@, i as int, typing)
                        && respects_row(*t, theirs@, v, k as int, typing),
                decreases theirs.len() - k,
            {
                let w: Variable = theirs[k];
                let ghost before = r;
                if t.are_linked(v, w) {
                    let ok: bool = r.assume_eq(v, w);
                    if !ok {
                        proof {
                            assert forall|typing: Typing| !(#[trigger] admits(*s, typing) && admits(*t, typing)) by {
                                if admits(*s, typing) && admits(*t, typing) {
                                    lemma_respects(*t, theirs@, i as int, v, k as int, typing);
                                    assert(admits(before, typing));
                                    assert(t.linked(v.id, w.id));
                                    assert(before.types_of(v.id).has(typing(v.id)));
                                    assert(before.types_of(w.id).has(typing(w.id)));
                                    before.types_of(v.id).algebra(before.types_of(w.id), typing(v.id), typing(v.id));
                                }
                            }
                        }
                        return None;
                    }
                    proof {
                        assert forall|typing: Typing| #[trigger] admits(r, typing) <==> admits(before, typing) && typing(v.id) == typing(w.id) by {
                            unifying_is_exact(before, v.id, w.id, r, typing);
                        }
                    }
                }
                proof {
                    assert forall|typing: Typing| #[trigger] admits(r, typing) <==> admits(*s, typing) && respects(*t, theirs@, i as int, typing)
                        && respects_row(*t, theirs@, v, k + 1, typing) by {
                        assert(admits(before, typing) <==> admits(*s, typing) && respects(*t, theirs@, i as int, typing) && respects_row(*t, theirs@, v, k as int, typing));
                        assert(respects_row(*t, theirs@, v, k + 1, typing) <==> respects_row(*t, theirs@, v, k as int, typing)
                            && (t.linked(v.id, theirs@[k as int].id) ==> typing(v.id) == typing(theirs@[k as int].id)));
                    }
                }
                k = k + 1;
            }
            let ghost before = r;
            let mask = t.get_typeset(v);
            let ok: bool = r.restrict_to(v, mask);
            if !ok {
                proof {
                    assert forall|typing: Typing| !(#[trigger] admits(*s, typing) && admits(*t, typing)) by {
                        if admits(*s, typing) && admits(*t, typing) {
                            lemma_respects(*t, theirs@, i as int, v, theirs@.len() as int, typing);
                            assert(admits(before, typing));
                            assert(before.types_of(v.id).has(typing(v.id)));
                            assert(t.types_of(v.id).has(typing(v.id)));
                            before.types_of(v.id).algebra(mask, typing(v.id), typing(v.id));
                        }
                    }
                }
                return None;
            }
            proof {
                let ts = before.types_of(v.id).common(mask);
                assert forall|x: TypeEncoding| #[trigger] ts.has(x) implies before.types_of(v.id).has(x) by { before.types_of(v.id).algebra(mask, x, x); }
                assert forall|typing: Typing| #[trigger] admits(r, typing) <==> admits(*s, typing) && respects(*t, theirs@, i + 1, typing) by {
                    narrowing_is_exact(before, v.id, ts, r, typing);
                    before.types_of(v.id).algebra(mask, typing(v.id), typing(v.id));
                    if admits(before, typing) { assert(before.types_of(v.id).has(typing(v.id))); }
                    assert(respects(*t, theirs@, i + 1, typing) <==> respects(*t, theirs@, i as int, typing)
                        && respects_row(*t, theirs@, theirs@[i as int], theirs@.len() as int, typing) && t.types_of(theirs@[i as int].id).has(typing(theirs@[i as int].id))) by {
                        lemma_respects_next(*t, theirs@, i as int, typing);
                    }
                }
            }
            i = i + 1;
        }
        proof {
            assert forall|typing: Typing| #[trigger] admits(r, typing) <==> admits(*s, typing) && admits(*t, typing) by {
                if admits(*t, typing) {
                    lemma_respects(*t, theirs@, theirs@.len() as int, Variable { id: 0 }, 0, typing);
                }
                if respects(*t, theirs@, theirs@.len() as int, typing) {
                    lemma_respected(*t, theirs@, typing);
                }
            }
        }
        Some(TypeDomain { state: Some(r) })
    }

    /// Widening is joining: the domain has finite height.
    pub fn widen(&self, other: &TypeDomain) -> (r: TypeDomain)
        requires self.wf(), other.wf(),
        ensures
            r.wf(),
            r.state is None <==> self.state is None && other.state is None,
            self.state is None && other.state is Some ==> same_state(other.s(), r.s()),
            self.state is Some && other.state is None ==> same_state(self.s(), r.s()),
            self.state is Some && other.state is Some ==> joined(self.s(), other.s(), r.s()),
    {
        self.join(other)
    }

    /// Narrowing is meeting, bottom where the domains contradict each other.
    pub fn narrow(&self, other: &TypeDomain) -> (r: TypeDomain)
        requires self.wf(), other.wf(),
        ensures
            r.wf(),
            r.state is Some ==> self.state is Some && other.state is Some && met(self.s(), other.s(), r.s()),
            r.state is None && self.state is Some && other.state is Some ==>
                forall|typing: Typing| !(#[trigger] admits(self.s(), typing) && admits(other.s(), typing)),
    {
        match self.meet(other) {
            Some(d) => d,
            None => TypeDomain { state: None },
        }
    }
}

/// A typing gives the first `n` variables of a list types that a state allows, and each of them
/// the same type as the variables of the list that the state links to it.
spec fn respects(t: State, vars: Seq<Variable>, n: int, typing: Typing) -> bool {
    forall|i: int| 0 <= i < n ==> t.types_of((#[trigger] vars[i]).id).has(typing(vars[i].id)) && respects_row(t, vars, vars[i], vars.len() as int, typing)
}

spec fn respects_row(t: State, vars: Seq<Variable>, v: Variable, n: int, typing: Typing) -> bool {
    forall|k: int| 0 <= k < n && t.linked(v.id, (#[trigger] vars[k]).id) ==> typing(v.id) == typing(vars[k].id)
}

proof fn lemma_respects(t: State, vars: Seq<Variable>, n: int, v: Variable, k: int, typing: Typing)
    requires admits(t, typing),
    ensures respects(t, vars, n, typing), respects_row(t, vars, v, k, typing),
{
    assert forall|i: int| 0 <= i < n implies t.types_of((#[trigger] vars[i]).id).has(typing(vars[i].id)) && respects_row(t, vars, vars[i], vars.len() as int, typing) by {
        assert(t.types_of(vars[i].id).has(typing(vars[i].id)));
    }
}

proof fn lemma_respects_next(t: State, vars: Seq<Variable>, n: int, typing: Typing)
    requires 0 <= n < vars.len(),
    ensures respects(t, vars, n + 1, typing) <==> respects(t, vars, n, typing)
        && respects_row(t, vars, vars[n], vars.len() as int, typing) && t.types_of(vars[n].id).has(typing(vars[n].id)),
{
    if respects(t, vars, n + 1, typing) {
        assert(t.types_of(vars[n].id).has(typing(vars[n].id)));
        assert forall|i: int| 0 <= i < n implies t.types_of((#[trigger] vars[i]).id).has(typing(vars[i].id)) && respects_row(t, vars, vars[i], vars.len() as int, typing) by {}
    }
}

proof fn lemma_respected(t: State, vars: Seq<Variable>, typing: Typing)
    requires
        t.wf(),
        forall|v: u64| #[trigger] t.known(v) <==> vars.contains(Variable { id: v }),
        respects(t, vars, vars.len() as int, typing),
    ensures admits(t, typing),
{
    assert forall|v: u64| (#[trigger] t.types_of(v)).has(typing(v)) by {
        if t.known(v) {
            let i = choose|i: int| 0 <= i < vars.len() && vars[i] == Variable { id: v };
            assert(t.types_of(vars[i].id).has(typing(vars[i].id)));
        } else {
            t.classes(v, v, v);
            TypeSet::full().algebra(TypeSet::full(), typing(v), typing(v));
        }
    }
    assert forall|v: u64, w: u64| #[trigger] t.linked(v, w) implies typing(v) == typing(w) by {
        t.classes(v, w, w);
        let i = choose|i: int| 0 <= i < vars.len() && vars[i] == Variable { id: v };
        let j = choose|j: int| 0 <= j < vars.len() && vars[j] == Variable { id: w };
        assert(respects_row(t, vars, vars[i], vars.len() as int, typing));
        assert(t.linked(vars[i].id, vars[j].id));
    }
}

pub proof fn lemma_same_admits(s: State, t: State, typing: Typing)
    requires same_state(s, t),
    ensures admits(t, typing) <==> admits(s, typing),
{
    if admits(s, typing) {
        assert forall|v: u64| (#[trigger] t.types_of(v)).has(typing(v)) by { assert(s.types_of(v).has(typing(v))); }
        assert forall|v: u64, w: u64| #[trigger] t.linked(v, w) implies typing(v) == typing(w) by { assert(s.linked(v, w)); }
    }
    if admits(t, typing) {
        assert forall|v: u64| (#[trigger] s.types_of(v)).has(typing(v)) by { assert(t.types_of(v).has(typing(v))); }
        assert forall|v: u64, w: u64| #[trigger] s.linked(v, w) implies typing(v) == typing(w) by { assert(t.linked(v, w)); }
    }
}

/// Adding a variable to a join that has one of the same class.
proof fn lemma_joined_twin(s: State, t: State, before: State, r: State, v: u64, u: u64)
    requires
        s.wf(),
        t.wf(),
        before.wf(),
        r.wf(),
        unified(before, v, u, r),
        !before.known(v),
        before.known(u),
        v != u,
        s.linked(v, u),
        t.linked(v, u),
        before.types_of(u) == s.types_of(v).either(t.types_of(v)),
        forall|w: u64| #[trigger] before.known(w) ==> before.types_of(w) == s.types_of(w).either(t.types_of(w)),
        forall|a: u64, b: u64| #[trigger] before.linked(a, b) <==> before.known(a) && before.known(b)
            && (a == b || (s.linked(a, b) && t.linked(a, b)) || same_lone_type(before.types_of(a), before.types_of(b))),
    ensures
        forall|w: u64| #[trigger] r.known(w) <==> before.known(w) || w == v,
        forall|w: u64| #[trigger] r.known(w) ==> r.types_of(w) == s.types_of(w).either(t.types_of(w)),
        forall|a: u64, b: u64| #[trigger] r.linked(a, b) <==> r.known(a) && r.known(b)
            && (a == b || (s.linked(a, b) && t.linked(a, b)) || same_lone_type(r.types_of(a), r.types_of(b))),
{
    let ts = s.types_of(v).either(t.types_of(v));
    before.classes(v, v, v);
    lemma_full_common(ts);
    assert(before.types_of(v).common(before.types_of(u)) == ts);
    assert forall|w: u64| #[trigger] in_either(before, v, u, w) <==> w == v || before.linked(u, w) by {
        before.classes(v, w, w);
        before.classes(u, w, w);
    }
    assert forall|w: u64| #[trigger] r.types_of(w) == (if w == v { ts } else { before.types_of(w) }) by {
        before.classes(u, w, w);
    }
    assert forall|w: u64| #[trigger] r.known(w) implies r.types_of(w) == s.types_of(w).either(t.types_of(w)) by {}
    assert forall|a: u64, b: u64| #[trigger] r.linked(a, b) <==> r.known(a) && r.known(b)
        && (a == b || (s.linked(a, b) && t.linked(a, b)) || same_lone_type(r.types_of(a), r.types_of(b))) by {
        assert(before.linked(a, b) <==> before.known(a) && before.known(b)
            && (a == b || (s.linked(a, b) && t.linked(a, b)) || same_lone_type(before.types_of(a), before.types_of(b))));
        assert(before.linked(u, a) <==> before.known(u) && before.known(a)
            && (u == a || (s.linked(u, a) && t.linked(u, a)) || same_lone_type(before.types_of(u), before.types_of(a))));
        assert(before.linked(u, b) <==> before.known(u) && before.known(b)
            && (u == b || (s.linked(u, b) && t.linked(u, b)) || same_lone_type(before.types_of(u), before.types_of(b))));
        s.classes(v, u, a); s.classes(v, u, b); s.classes(u, v, a); s.classes(u, v, b); s.classes(a, u, b); s.classes(a, v, b); s.classes(a, v, u); s.classes(b, v, u); s.classes(b, u, v); s.classes(a, u, v);
        t.classes(v, u, a); t.classes(v, u, b); t.classes(u, v, a); t.classes(u, v, b); t.classes(a, u, b); t.classes(a, v, b); t.classes(a, v, u); t.classes(b, v, u); t.classes(b, u, v); t.classes(a, u, v);
        before.classes(a, u, b);
        before.classes(u, a, b);
        before.classes(b, u, a);
        if same_lone_type(r.types_of(a), r.types_of(b)) {
            let x = choose|x: TypeEncoding| #[trigger] r.types_of(a).is_just(x) && r.types_of(b).is_just(x);
            if a == v { assert(before.types_of(u).is_just(x)); }
            if b == v { assert(before.types_of(u).is_just(x)); }
        }
        if same_lone_type(before.types_of(u), before.types_of(b)) && before.known(b) {
            let x = choose|x: TypeEncoding| #[trigger] before.types_of(u).is_just(x) && before.types_of(b).is_just(x);
            assert(r.types_of(v).is_just(x) && r.types_of(b).is_just(x));
        }
        if same_lone_type(before.types_of(u), before.types_of(a)) && before.known(a) {
            let x = choose|x: TypeEncoding| #[trigger] before.types_of(u).is_just(x) && before.types_of(a).is_just(x);
            assert(r.types_of(a).is_just(x) && r.types_of(v).is_just(x));
        }
        if before.known(a) && before.known(b) && same_lone_type(before.types_of(a), before.types_of(b)) {
            let x = choose|x: TypeEncoding| #[trigger] before.types_of(a).is_just(x) && before.types_of(b).is_just(x);
            assert(r.types_of(a).is_just(x) && r.types_of(b).is_just(x));
        }
    }
}

/// Adding a variable to a join that has none of the same class.
proof fn lemma_joined_alone(s: State, t: State, before: State, r: State, v: u64, ts: TypeSet)
    requires
        s.wf(),
        t.wf(),
        before.wf(),
        r.wf(),
        ts == s.types_of(v).either(t.types_of(v)),
        narrowed(before, v, ts, r),
        !before.known(v),
        forall|w: u64| before.known(w) ==> !(#[trigger] s.linked(v, w) && t.linked(v, w)),
        forall|w: u64| #[trigger] before.known(w) ==> before.types_of(w) == s.types_of(w).either(t.types_of(w)),
        forall|a: u64, b: u64| #[trigger] before.linked(a, b) <==> before.known(a) && before.known(b)
            && (a == b || (s.linked(a, b) && t.linked(a, b)) || same_lone_type(before.types_of(a), before.types_of(b))),
    ensures
        forall|w: u64| #[trigger] r.known(w) <==> before.known(w) || w == v,
        forall|w: u64| #[trigger] r.known(w) ==> r.types_of(w) == s.types_of(w).either(t.types_of(w)),
        forall|a: u64, b: u64| #[trigger] r.linked(a, b) <==> r.known(a) && r.known(b)
            && (a == b || (s.linked(a, b) && t.linked(a, b)) || same_lone_type(r.types_of(a), r.types_of(b))),
{
    assert forall|w: u64| #[trigger] r.types_of(w) == (if w == v { ts } else { before.types_of(w) }) by {
        before.classes(v, w, w);
    }
    assert forall|w: u64| #[trigger] r.known(w) implies r.types_of(w) == s.types_of(w).either(t.types_of(w)) by {}
    assert forall|a: u64, b: u64| #[trigger] r.linked(a, b) <==> r.known(a) && r.known(b)
        && (a == b || (s.linked(a, b) && t.linked(a, b)) || same_lone_type(r.types_of(a), r.types_of(b))) by {
        assert(before.linked(a, b) <==> before.known(a) && before.known(b)
            && (a == b || (s.linked(a, b) && t.linked(a, b)) || same_lone_type(before.types_of(a), before.types_of(b))));
        s.classes(a, b, b);
        t.classes(a, b, b);
        s.classes(v, a, a);
        if a == v && before.known(b) { assert(!(s.linked(v, b) && t.linked(v, b))); }
        if b == v && before.known(a) { assert(!(s.linked(v, a) && t.linked(v, a))); s.classes(a, v, v); t.classes(a, v, v); }
    }
}

impl TypeDomain {
    /// Keeps the types of a variable's class that are in a set; bottom where none is left.
    pub fn restrict_to(&mut self, v: Variable, mask: TypeSet)
        requires old(self).wf(),
        ensures
            final(self).wf(),
            final(self).state is Some <==> old(self).state is Some && old(self).s().types_of(v.id).common(mask).inhabited(),
            final(self).state is Some ==> narrowed(old(self).s(), v.id, old(self).s().types_of(v.id).common(mask), final(self).s()),
    {
        if let Some(s) = &mut self.state {
            if !s.restrict_to(v, mask) {
                self.state = None;
            }
        }
    }

    /// Gives a register one type.
    pub fn assign_type_encoding(&mut self, reg: &Reg, encoding: TypeEncoding, registry: &mut VariableRegistry)
        requires old(self).wf(),
        ensures
            final(self).wf(),
            final(self).state is Some <==> old(self).state is Some,
            old(self).state is Some ==> given(old(self).s(), type_var_of(old(registry)@, *reg).id, encoding, final(self).s())
                && final(registry)@ == with_type_var(old(registry)@, *reg),
            old(self).state is None ==> final(registry)@ == old(registry)@,
    {
        if let Some(s) = &mut self.state {
            let v = reg_type(reg, registry);
            s.assign_type(v, encoding);
        }
    }

    /// Gives a register the type of another.
    pub fn assign_type_from_reg(&mut self, lhs: &Reg, rhs: &Reg, registry: &mut VariableRegistry)
        requires old(self).wf(),
        ensures
            final(self).wf(),
            final(self).state is Some <==> old(self).state is Some,
            old(self).state is Some ==> copied(old(self).s(), type_var_of(old(registry)@, *lhs).id,
                    type_var_of(with_type_var(old(registry)@, *lhs), *rhs).id, final(self).s())
                && final(registry)@ == with_type_var(with_type_var(old(registry)@, *lhs), *rhs),
            old(self).state is None ==> final(registry)@ == old(registry)@,
    {
        if let Some(s) = &mut self.state {
            let lhs_var = reg_type(lhs, registry);
            let rhs_var = reg_type(rhs, registry);
            s.assign_copy(lhs_var, rhs_var);
        }
    }

    /// Assigns an expression to a register's type, or forgets the type.
    pub fn assign_type_opt_expr(&mut self, lhs: &Reg, rhs: &Option<LinearExpression>, registry: &mut VariableRegistry)
        requires old(self).wf(),
        ensures
            final(self).wf(),
            final(self).state is Some <==> old(self).state is Some
                && !(rhs matches Some(e) && e.terms.entries().len() == 0 && !(-7 <= type_number(e.constant, -7) <= 0)),
            final(self).state is Some ==> match rhs {
                Some(e) => assigned_expr(old(self).s(), type_var_of(old(registry)@, *lhs).id, e, final(self).s()),
                None => forgot(old(self).s(), type_var_of(old(registry)@, *lhs).id, final(self).s()),
            },
            final(registry)@ == (if old(self).state is Some { with_type_var(old(registry)@, *lhs) } else { old(registry)@ }),
    {
        if let Some(s) = &mut self.state {
            let lhs_var = reg_type(lhs, registry);
            match rhs {
                None => { s.detach(lhs_var); }
                Some(expr) => {
                    if !s.assign_from_expr(lhs_var, expr) {
                        self.state = None;
                    }
                }
            }
        }
    }

    /// Assigns an expression to a type variable, if there is one.
    pub fn assign_type_var_expr(&mut self, lhs: Option<Variable>, t: &LinearExpression, _registry: &mut VariableRegistry)
        requires old(self).wf(),
        ensures
            final(self).wf(),
            lhs is None ==> *final(self) == *old(self),
            lhs is Some ==> (final(self).state is Some <==> old(self).state is Some && !(t.terms.entries().len() == 0 && !(-7 <= type_number(t.constant, -7) <= 0))),
            lhs is Some && final(self).state is Some ==> assigned_expr(old(self).s(), lhs->Some_0.id, t, final(self).s()),
            *final(_registry) == *old(_registry),
    {
        if let Some(s) = &mut self.state {
            if let Some(v) = lhs {
                if !s.assign_from_expr(v, t) {
                    self.state = None;
                }
            }
        }
    }

    /// Gives a type variable the type of another.
    pub fn assign_type_var(&mut self, lhs: Variable, rhs: Variable, _registry: &mut VariableRegistry)
        requires old(self).wf(),
        ensures
            final(self).wf(),
            final(self).state is Some <==> old(self).state is Some,
            old(self).state is Some ==> copied(old(self).s(), lhs.id, rhs.id, final(self).s()),
            *final(_registry) == *old(_registry),
    {
        if let Some(s) = &mut self.state {
            s.assign_copy(lhs, rhs);
        }
    }

    /// Makes two variables have the same type; bottom where they share none.
    pub fn assume_eq(&mut self, v1: Variable, v2: Variable)
        requires old(self).wf(),
        ensures
            final(self).wf(),
            final(self).state is Some <==> old(self).state is Some && old(self).s().types_of(v1.id).common(old(self).s().types_of(v2.id)).inhabited(),
            final(self).state is Some ==> unified(old(self).s(), v1.id, v2.id, final(self).s()),
    {
        if let Some(s) = &mut self.state {
            if !s.assume_eq(v1, v2) {
                self.state = None;
            }
        }
    }

    /// Removes a type from a variable's class; bottom where none is left.
    pub fn remove_type(&mut self, v: Variable, te: TypeEncoding)
        requires old(self).wf(),
        ensures
            final(self).wf(),
            final(self).state is Some <==> old(self).state is Some && old(self).s().types_of(v.id).less(te).inhabited(),
            final(self).state is Some ==> narrowed(old(self).s(), v.id, old(self).s().types_of(v.id).less(te), final(self).s()),
    {
        if let Some(s) = &mut self.state {
            if !s.remove_type(v, te) {
                self.state = None;
            }
        }
    }

    /// Forgets the type of a register.
    pub fn havoc_type_reg(&mut self, r: &Reg, registry: &mut VariableRegistry)
        requires old(self).wf(),
        ensures
            final(self).wf(),
            final(self).state is Some <==> old(self).state is Some,
            old(self).state is Some ==> forgot(old(self).s(), type_var_of(old(registry)@, *r).id, final(self).s())
                && final(registry)@ == with_type_var(old(registry)@, *r),
            old(self).state is None ==> final(registry)@ == old(registry)@,
    {
        if let Some(s) = &mut self.state {
            let v = reg_type(r, registry);
            s.detach(v);
        }
    }

    /// Forgets the type of a variable.
    pub fn havoc_type_var(&mut self, v: Variable)
        requires old(self).wf(),
        ensures
            final(self).wf(),
            final(self).state is Some <==> old(self).state is Some,
            old(self).state is Some ==> forgot(old(self).s(), v.id, final(self).s()),
    {
        if let Some(s) = &mut self.state {
            s.detach(v);
        }
    }

    /// Gives variables other names, in turn. The classes stay.
    pub fn rename(&mut self, renaming: &[(Variable, Variable)])
        requires old(self).wf(),
        ensures
            final(self).wf(),
            final(self).state is Some <==> old(self).state is Some,
            old(self).state is Some ==> relabeled_all(old(self).s(), renaming@, final(self).s()),
    {
        if let Some(s) = &mut self.state {
            s.rename(renaming);
        }
    }

    /// The types that a variable is taken to have: none at bottom, and uninitialized alone where
    /// it may be uninitialized.
    pub open spec fn iterated(&self, v: u64) -> Seq<TypeEncoding> {
        if self.state is None {
            seq![]
        } else if self.s().types_of(v).has(TypeEncoding::TUninit) {
            seq![TypeEncoding::TUninit]
        } else {
            self.s().types_of(v).less(TypeEncoding::TUninit).members()
        }
    }

    /// Lists the possible types of a register.
    pub fn iterate_types(&self, reg: &Reg, registry: &mut VariableRegistry) -> (r: Vec<TypeEncoding>)
        requires self.wf(),
        ensures
            r@ == self.iterated(type_var_of(old(registry)@, *reg).id),
            final(registry)@ == with_type_var(old(registry)@, *reg),
    {
        let v = reg_type(reg, registry);
        self.iterate_types_var(v)
    }

    /// Lists the possible types of a variable.
    pub fn iterate_types_var(&self, v: Variable) -> (r: Vec<TypeEncoding>)
        requires self.wf(),
        ensures r@ == self.iterated(v.id),
    {
        match &self.state {
            None => Vec::new(),
            Some(s) => {
                let ts = s.get_typeset(v);
                if ts.contains(T_UNINIT) {
                    let mut r: Vec<TypeEncoding> = Vec::new();
                    r.push(T_UNINIT);
                    assert(r@ =~= seq![TypeEncoding::TUninit]);
                    return r;
                }
                ts.remove(T_UNINIT).iter()
            }
        }
    }

    /// The one type of a register, if it has one.
    pub fn get_type(&self, r: &Reg, registry: &mut VariableRegistry) -> (t: Option<TypeEncoding>)
        requires self.wf(),
        ensures
            match t {
                Some(te) => self.state is Some && self.s().types_of(type_var_of(old(registry)@, *r).id).is_just(te),
                None => self.state is None || forall|te: TypeEncoding| !(#[trigger] self.s().types_of(type_var_of(old(registry)@, *r).id).is_just(te)),
            },
            final(registry)@ == with_type_var(old(registry)@, *r),
    {
        let v = reg_type(r, registry);
        match &self.state {
            None => None,
            Some(s) => s.get_typeset(v).as_singleton(),
        }
    }

    /// The one type of an expression: the type with the number of a constant, or the one type of
    /// the variable that the expression copies.
    pub open spec fn expression_type(&self, e: &LinearExpression, te: TypeEncoding) -> bool {
        if e.terms.entries().len() == 0 {
            te.code() == type_number(e.constant, -7)
        } else {
            copied_variable(e) matches Some(v) && self.s().types_of(v).is_just(te)
        }
    }

    /// The one type of an expression, or uninitialized where it has none.
    pub fn get_type_expr(&self, expr: &LinearExpression, _registry: &mut VariableRegistry) -> (r: TypeEncoding)
        requires self.wf(),
        ensures
            self.state is None ==> r is TUninit,
            self.state is Some ==> self.expression_type(expr, r) || (r is TUninit && forall|te: TypeEncoding| !(#[trigger] self.expression_type(expr, te))),
            *final(_registry) == *old(_registry),
    {
        match &self.state {
            None => T_UNINIT,
            Some(s) => {
                if expr.terms.len() == 0 {
                    match int_to_type_encoding(constant_number(expr, -7)) {
                        Some(te) => te,
                        None => T_UNINIT,
                    }
                } else {
                    match variable_copied(expr) {
                        Some(var) => match s.get_typeset(var).as_singleton() {
                            Some(te) => te,
                            None => T_UNINIT,
                        },
                        None => T_UNINIT,
                    }
                }
            }
        }
    }

    /// Whether `var2` has its types in the conclusion wherever `var1` has its types in the premise.
    pub fn implies_superset(&self, var1: Variable, premise_set: TypeSet, var2: Variable, conclusion_set: TypeSet) -> (r: bool)
        requires self.wf(),
        ensures
            r <==> self.state is None || !self.s().types_of(var1.id).common(premise_set).inhabited()
                || (if var2 == var1 || self.s().linked(var1.id, var2.id) { self.s().types_of(var1.id).common(premise_set) } else { self.s().types_of(var2.id) }).subset(conclusion_set),
    {
        if self.is_bottom() {
            return true;
        }
        let mut restricted = self.copy();
        let ghost before = restricted;
        restricted.restrict_to(var1, premise_set);
        proof {
            assert(before.s().types_of(var1.id) == self.s().types_of(var1.id));
            assert(before.s().types_of(var2.id) == self.s().types_of(var2.id));
            assert(before.s().linked(var1.id, var2.id) == self.s().linked(var1.id, var2.id));
        }
        match &restricted.state {
            None => true,
            Some(s) => s.get_typeset(var2).is_subset_of(conclusion_set),
        }
    }

    /// Whether `var2` has its types in the conclusion wherever `var1` does not have a type.
    pub fn implies_not_type(&self, var1: Variable, excluded_type: TypeEncoding, var2: Variable, conclusion_set: TypeSet) -> (r: bool)
        requires self.wf(),
        ensures
            r <==> self.state is None || !self.s().types_of(var1.id).less(excluded_type).inhabited()
                || (if var2 == var1 || self.s().linked(var1.id, var2.id) { self.s().types_of(var1.id).less(excluded_type) } else { self.s().types_of(var2.id) }).subset(conclusion_set),
    {
        if self.is_bottom() {
            return true;
        }
        let mut restricted = self.copy();
        let ghost before = restricted;
        restricted.remove_type(var1, excluded_type);
        proof {
            assert(before.s().types_of(var1.id) == self.s().types_of(var1.id));
            assert(before.s().types_of(var2.id) == self.s().types_of(var2.id));
            assert(before.s().linked(var1.id, var2.id) == self.s().linked(var1.id, var2.id));
        }
        match &restricted.state {
            None => true,
            Some(s) => s.get_typeset(var2).is_subset_of(conclusion_set),
        }
    }

    /// Whether a variable certainly has a type.
    pub fn entail_type(&self, v: Variable, te: TypeEncoding) -> (r: bool)
        requires self.wf(),
        ensures r == (self.state is None || self.s().types_of(v.id) == TypeSet::just(te)),
    {
        match &self.state {
            None => true,
            Some(s) => s.get_typeset(v) == TypeSet::singleton(te),
        }
    }

    /// Whether a register may have a type.
    pub fn may_have_type_reg(&self, r: &Reg, te: TypeEncoding, registry: &mut VariableRegistry) -> (b: bool)
        requires self.wf(),
        ensures
            b == self.may_have(type_var_of(old(registry)@, *r).id, te),
            final(registry)@ == with_type_var(old(registry)@, *r),
    {
        let v = reg_type(r, registry);
        match &self.state {
            None => false,
            Some(s) => s.get_typeset(v).contains(te),
        }
    }

    /// Whether an expression may have a type.
    pub fn may_have_type_expr(&self, expr: &LinearExpression, te: TypeEncoding, _registry: &mut VariableRegistry) -> (b: bool)
        requires self.wf(),
        ensures
            b == (self.state is Some && if expr.terms.entries().len() == 0 {
                te.code() == type_number(expr.constant, 0)
            } else {
                match copied_variable(expr) {
                    Some(v) => self.s().types_of(v).has(te),
                    None => true,
                }
            }),
            *final(_registry) == *old(_registry),
    {
        match &self.state {
            None => false,
            Some(s) => {
                if expr.terms.len() == 0 {
                    match int_to_type_encoding(constant_number(expr, 0)) {
                        Some(x) => x == te,
                        None => false,
                    }
                } else {
                    match variable_copied(expr) {
                        Some(var) => s.get_typeset(var).contains(te),
                        None => true,
                    }
                }
            }
        }
    }

    /// Whether a variable may have a type.
    pub fn may_have_type_var(&self, v: Variable, te: TypeEncoding, _registry: &mut VariableRegistry) -> (b: bool)
        requires self.wf(),
        ensures b == self.may_have(v.id, te), *final(_registry) == *old(_registry),
    {
        match &self.state {
            None => false,
            Some(s) => s.get_typeset(v).contains(te),
        }
    }

    /// Lists the variables that the domain says something of.
    pub fn variables(&self) -> (r: Vec<Variable>)
        requires self.wf(),
        ensures forall|v: u64| #[trigger] r@.contains(Variable { id: v }) <==> self.state is Some && self.s().known(v),
    {
        match &self.state {
            None => {
                let r: Vec<Variable> = Vec::new();
                assert forall|v: u64| !(#[trigger] r@.contains(Variable { id: v })) by {}
                r
            }
            Some(s) => {
                let r = s.variables();
                assert forall|v: u64| #[trigger] r@.contains(Variable { id: v }) <==> s.known(v) by {}
                r
            }
        }
    }

    /// Lists the variables that the domain says something of and that may have a type.
    pub fn variables_with_type(&self, te: TypeEncoding) -> (r: Vec<Variable>)
        requires self.wf(),
        ensures
            forall|v: u64| #[trigger] r@.contains(Variable { id: v }) <==> self.state is Some && self.s().known(v) && self.s().types_of(v).has(te),
    {
        let mut r: Vec<Variable> = Vec::new();
        match &self.state {
            None => {
                assert forall|v: u64| !(#[trigger] r@.contains(Variable { id: v })) by {}
            }
            Some(s) => {
                let all = s.variables();
                let mut i: usize = 0;
                assert forall|v: u64| !(#[trigger] r@.contains(Variable { id: v })) by {}
                while i < all.len()
                    invariant
                        s.wf(),
                        i <= all.len(),
                        forall|v: u64| #[trigger] r@.contains(Variable { id: v }) <==> all@.take(i as int).contains(Variable { id: v }) && s.types_of(v).has(te),
                    decreases all.len() - i,
                {
                    let v: Variable = all[i];
                    let ghost before = r@;
                    if s.get_typeset(v).contains(te) {
                        r.push(v);
                    }
                    proof {
                        let p = all@.take(i as int);
                        let q = all@.take(i + 1);
                        assert(q =~= p.push(v));
                        assert forall|w: u64| #[trigger] r@.contains(Variable { id: w }) <==> q.contains(Variable { id: w }) && s.types_of(w).has(te) by {
                            let x = Variable { id: w };
                            assert(before.contains(x) <==> p.contains(x) && s.types_of(w).has(te));
                            lemma_pushed(p, v, x);
                            lemma_pushed(before, v, x);
                        }
                    }
                    i = i + 1;
                }
                assert(all@.take(all@.len() as int) =~= all@);
                assert forall|v: u64| #[trigger] r@.contains(Variable { id: v }) <==> s.known(v) && s.types_of(v).has(te) by {
                    assert(s.known(v) <==> all@.contains(Variable { id: v }));
                }
            }
        }
        r
    }

    /// Whether a register is initialized.
    pub fn is_initialized_reg(&self, r: &Reg, registry: &mut VariableRegistry) -> (b: bool)
        requires self.wf(),
        ensures
            b == (self.state is Some && !self.s().types_of(type_var_of(old(registry)@, *r).id).has(TypeEncoding::TUninit)),
            final(registry)@ == with_type_var(old(registry)@, *r),
    {
        let v = reg_type(r, registry);
        match &self.state {
            None => false,
            Some(s) => !s.get_typeset(v).contains(T_UNINIT),
        }
    }

    /// Whether an expression is initialized.
    pub fn is_initialized_expr(&self, expr: &LinearExpression, _registry: &mut VariableRegistry) -> (b: bool)
        requires self.wf(),
        ensures
            b == (self.state is Some && if expr.terms.entries().len() == 0 {
                type_number(expr.constant, -7) != -7
            } else {
                copied_variable(expr) matches Some(v) && !self.s().types_of(v).has(TypeEncoding::TUninit)
            }),
            *final(_registry) == *old(_registry),
    {
        match &self.state {
            None => false,
            Some(s) => {
                if expr.terms.len() == 0 {
                    constant_number(expr, -7) != -7
                } else {
                    match variable_copied(expr) {
                        Some(var) => !s.get_typeset(var).contains(T_UNINIT),
                        None => false,
                    }
                }
            }
        }
    }

    /// Whether a type variable is initialized.
    pub fn is_initialized_var(&self, v: Variable, _registry: &mut VariableRegistry) -> (b: bool)
        requires self.wf(),
        ensures b == (self.state is Some && !self.s().types_of(v.id).has(TypeEncoding::TUninit)), *final(_registry) == *old(_registry),
    {
        match &self.state {
            None => false,
            Some(s) => !s.get_typeset(v).contains(T_UNINIT),
        }
    }

    /// Whether two registers must have the same type.
    pub fn same_type(&self, a: &Reg, b: &Reg, registry: &mut VariableRegistry) -> (r: bool)
        requires self.wf(),
        ensures
            r == (self.state is None || self.s().linked(type_var_of(old(registry)@, *a).id, type_var_of(with_type_var(old(registry)@, *a), *b).id)),
            final(registry)@ == (if self.state is Some { with_type_var(with_type_var(old(registry)@, *a), *b) } else { old(registry)@ }),
    {
        match &self.state {
            None => true,
            Some(s) => {
                let va = reg_type(a, registry);
                let vb = reg_type(b, registry);
                s.are_linked(va, vb)
            }
        }
    }

    /// Whether the types of a register are all in a set.
    pub fn is_in_group(&self, r: &Reg, group: TypeSet, registry: &mut VariableRegistry) -> (b: bool)
        requires self.wf(),
        ensures
            b == (self.state is None || self.s().types_of(type_var_of(old(registry)@, *r).id).subset(group)),
            final(registry)@ == with_type_var(old(registry)@, *r),
    {
        let v = reg_type(r, registry);
        match &self.state {
            None => true,
            Some(s) => s.get_typeset(v).is_subset_of(group),
        }
    }

    /// The facts as lines of text.
    pub fn to_set(&self, reg: &VariableRegistry) -> (r: StringInvariant)
        requires
            self.wf(),
            self.state matches Some(s) ==> forall|v: u64| #[trigger] s.known(v) ==> v < reg@.size(),
        ensures
            r.content() is None <==> self.state is None,
            forall|l: Seq<char>| #[trigger] r.has(l) <==> self.state is Some && exists|v: u64| #[trigger] type_line(self.s(), reg@, v, l),
    {
        let s = match &self.state {
            None => return StringInvariant::bottom(),
            Some(s) => s,
        };
        let all = s.variables();
        let mut out = LineSet::new();
        let mut i: usize = 0;
        proof {
            assert forall|j: int| 0 <= j < all.len() implies reg@.knows(#[trigger] all@[j]) by {
                assert(all@.contains(Variable { id: all@[j].id }));
                assert(s.known(all@[j].id));
            }
            assert forall|l: Seq<char>| !(#[trigger] out.has(l)) by {}
        }
        while i < all.len()
            invariant
                s.wf(),
                i <= all.len(),
                forall|v: u64| #[trigger] s.known(v) <==> all@.contains(Variable { id: v }),
                forall|j: int| 0 <= j < all.len() ==> reg@.knows(#[trigger] all@[j]),
                forall|l: Seq<char>| #[trigger] out.has(l) <==> exists|j: int| 0 <= j < i && type_line(*s, reg@, (#[trigger] all@[j]).id, l),
            decreases all.len() - i,
        {
            let v: Variable = all[i];
            let ghost before = out;
            Self::variable_line(s, v, &all, reg, &mut out);
            assert forall|l: Seq<char>| #[trigger] out.has(l) <==> exists|j: int| 0 <= j < i + 1 && type_line(*s, reg@, (#[trigger] all@[j]).id, l) by {
                assert(out.has(l) <==> before.has(l) || type_line(*s, reg@, v.id, l));
                if before.has(l) {
                    let j = choose|j: int| 0 <= j < i && type_line(*s, reg@, (#[trigger] all@[j]).id, l);
                    assert(0 <= j < i + 1 && type_line(*s, reg@, all@[j].id, l));
                }
                if type_line(*s, reg@, v.id, l) {
                    assert(type_line(*s, reg@, all@[i as int].id, l));
                }
            }
            i = i + 1;
        }
        let r = StringInvariant::from_set(out);
        assert(self.s() == *s);
        assert forall|l: Seq<char>| #[trigger] r.has(l) <==> self.state is Some && exists|v: u64| #[trigger] type_line(self.s(), reg@, v, l) by {
            assert(r.has(l) <==> out.has(l));
            if exists|v: u64| #[trigger] type_line(*s, reg@, v, l) {
                let v = choose|v: u64| #[trigger] type_line(*s, reg@, v, l);
                assert(s.known(v));
                let j = choose|j: int| 0 <= j < all@.len() && all@[j] == Variable { id: v };
                assert(type_line(*s, reg@, all@[j].id, l));
            }
        }
        r
    }

    /// The smallest name in the class of a variable.
    fn first_of_class(s: &State, v: Variable, all: &Vec<Variable>, reg: &VariableRegistry) -> (r: Variable)
        requires
            s.wf(),
            s.known(v.id),
            reg@.knows(v),
            forall|v: u64| #[trigger] s.known(v) <==> all@.contains(Variable { id: v }),
            forall|j: int| 0 <= j < all.len() ==> reg@.knows(#[trigger] all@[j]),
        ensures reg@.knows(r), s.linked(v.id, r.id), first_in_class(*s, reg@, r.id),
    {
        let mut least: Variable = v;
        let mut i: usize = 0;
        proof { s.classes(v.id, v.id, v.id); text::text_lt_total(reg@.name(v), reg@.name(v)); }
        while i < all.len()
            invariant
                s.wf(),
                i <= all.len(),
                forall|j: int| 0 <= j < all.len() ==> reg@.knows(#[trigger] all@[j]),
                reg@.knows(least),
                s.linked(v.id, least.id),
                forall|j: int| 0 <= j < i && s.linked(v.id, (#[trigger] all@[j]).id) ==> !text::text_lt(reg@.name(all@[j]), reg@.name(least)),
            decreases all.len() - i,
        {
            let u: Variable = all[i];
            let ghost was = least;
            if s.are_linked(v, u) && reg.name_precedes(u, least) {
                least = u;
                proof {
                    assert forall|j: int| 0 <= j < i + 1 && s.linked(v.id, (#[trigger] all@[j]).id) implies !text::text_lt(reg@.name(all@[j]), reg@.name(least)) by {
                        let c = reg@.name(all@[j]);
                        text::text_lt_total(c, reg@.name(u));
                        if text::text_lt(c, reg@.name(u)) { text::text_lt_transitive(c, reg@.name(u), reg@.name(was)); }
                    }
                }
            }
            i = i + 1;
        }
        proof {
            assert forall|w: u64| #[trigger] s.linked(least.id, w) implies !text::text_lt(reg@.names[w as int], reg@.names[least.id as int]) by {
                s.classes(v.id, least.id, w);
                let j = choose|j: int| 0 <= j < all@.len() && all@[j] == Variable { id: w };
                assert(all@[j].id == w);
            }
        }
        least
    }

    /// The line of one variable.
    fn variable_line(s: &State, v: Variable, all: &Vec<Variable>, reg: &VariableRegistry, out: &mut LineSet)
        requires
            s.wf(),
            all@.contains(v),
            forall|v: u64| #[trigger] s.known(v) <==> all@.contains(Variable { id: v }),
            forall|j: int| 0 <= j < all.len() ==> reg@.knows(#[trigger] all@[j]),
        ensures forall|l: Seq<char>| #[trigger] final(out).has(l) <==> old(out).has(l) || type_line(*s, reg@, v.id, l),
    {
        let ghost j = choose|j: int| 0 <= j < all@.len() && all@[j] == v;
        assert(reg@.knows(all@[j]));
        assert(s.known(v.id)) by { assert(all@.contains(Variable { id: v.id })); }
        let ts = s.get_typeset(v);
        if ts == TypeSet::all() {
            return;
        }
        reg.names_are_distinct();
        let mut line = String::from_str(reg.name(v));
        match ts.as_singleton() {
            Some(te) => {
                proof {
                    assert forall|u: TypeEncoding| ts.is_just(u) implies u == te by { assert(ts.has(u)); }
                }
                if te == T_NUM && reg.is_in_stack(v) {
                    return;
                }
                line.append("=");
                let name = te.to_string();
                line.append(name.as_str());
                out.insert(line);
            }
            None => {
                let first = Self::first_of_class(s, v, all, reg);
                proof {
                    assert forall|w: u64| #[trigger] s.linked(v.id, w) && first_in_class(*s, reg@, w) implies reg@.names[w as int] == reg@.names[first.id as int] by {
                        s.classes(v.id, w, first.id);
                        s.classes(w, v.id, first.id);
                        s.classes(first.id, v.id, w);
                        assert(s.linked(w, first.id));
                        assert(s.linked(first.id, w));
                        text::text_lt_total(reg@.names[w as int], reg@.names[first.id as int]);
                    }
                    s.classes(v.id, v.id, v.id);
                }
                if first.id == v.id {
                    line.append(" in ");
                    let members = ts.iter();
                    let set = type_encoding::typeset_to_string(members.as_slice());
                    line.append(set.as_str());
                    proof {
                        assert forall|w: u64| #[trigger] s.linked(v.id, w) && first_in_class(*s, reg@, w) implies w == v.id by {
                            assert(reg@.names[w as int] == reg@.names[v.id as int]);
                            s.classes(v.id, w, w);
                            let q = choose|q: int| 0 <= q < all@.len() && all@[q] == Variable { id: w };
                            assert(reg@.knows(all@[q]));
                        }
                    }
                } else {
                    line.append("=");
                    line.append(reg.name(first));
                    proof {
                        if first_in_class(*s, reg@, v.id) {
                            assert(reg@.names[v.id as int] == reg@.names[first.id as int]);
                        }
                    }
                }
                out.insert(line);
            }
        }
    }

    /// A placeholder text; `to_set` renders the facts.
    pub fn to_string(&self) -> (r: String)
        ensures r@ == (if self.state is None { "_|_"@ } else { "TypeDomain"@ }),
    {
        if self.is_bottom() {
            String::from_str("_|_")
        } else {
            String::from_str("TypeDomain")
        }
    }
}

proof fn lemma_pushed(s: Seq<Variable>, v: Variable, x: Variable)
    ensures s.push(v).contains(x) <==> s.contains(x) || x == v,
{
    let t = s.push(v);
    if s.contains(x) {
        let k = choose|k: int| 0 <= k < s.len() && s[k] == x;
        assert(t[k] == x);
    }
    if x == v { assert(t[s.len() as int] == x); }
    if t.contains(x) && x != v {
        let k = choose|k: int| 0 <= k < t.len() && t[k] == x;
        assert(s[k] == x);
    }
}

/// No variable of the class has a smaller name.
pub open spec fn first_in_class(s: State, r: RegistryView, v: u64) -> bool {
    forall|w: u64| #[trigger] s.linked(v, w) ==> !text::text_lt(r.names[w as int], r.names[v as int])
}

/// The lines of a state. A variable with one type is given with it, except a number on the stack.
/// Of a class with several types the variable with the smallest name is given with the set, and
/// the others with that variable.
pub open spec fn type_line(s: State, r: RegistryView, v: u64, l: Seq<char>) -> bool {
    let ts = s.types_of(v);
    &&& s.known(v)
    &&& ts != TypeSet::full()
    &&& if ts.members().len() == 1 {
            exists|te: TypeEncoding| #[trigger] ts.is_just(te) && !(te is TNum && r.metas[v as int].is_stack_cell) && l == r.names[v as int] + "="@ + te.label()
        } else if first_in_class(s, r, v) {
            l == r.names[v as int] + " in "@ + type_encoding::braced_labels(ts.members())
        } else {
            exists|w: u64| #[trigger] s.linked(v, w) && first_in_class(s, r, w) && l == r.names[v as int] + "="@ + r.names[w as int]
        }
}

impl Default for TypeDomain {
    fn default() -> (r: Self)
        ensures r.wf(), r.state is Some, forall|v: u64| !(#[trigger] r.s().known(v)),
    {
        Self::top()
    }
}

}
