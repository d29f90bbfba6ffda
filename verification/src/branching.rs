//! Going through the possible types of a register, one at a time.
use vstd::prelude::*;
use crate::array_domain::ArrayDomain;
use crate::acts::Place;
use crate::ebpf_domain;
use crate::ebpf_domain::EbpfDomain;
use crate::rcp;
use crate::rcp::TypeToNumDomain;
use crate::syntax::Reg;
use crate::type_encoding::TypeEncoding;
use crate::var_registry::{RegistryView, VariableRegistry};

verus! {

/// What is done to a state in which a register has one type.
pub type Transition = spec_fn(Place, TypeEncoding, Place) -> bool;

/// One state joined into another; bottom adds nothing.
pub open spec fn joined_into(acc: &TypeToNumDomain, out: &TypeToNumDomain, older: RegistryView, newer: RegistryView, r: &TypeToNumDomain) -> bool {
    &&& acc.num() is None ==> r.same(out)
    &&& out.num() is None && acc.num() is Some ==> *r == *acc
    &&& acc.num() is Some && out.num() is Some ==> ebpf_domain::state_joined(acc, out, older, newer, r)
}

/// The results so far, with the registry.
pub type Acc = (TypeToNumDomain, RegistryView);

/// One branch: the register has one type, the stack is as the branch before left it, the transition
/// takes place and its result is joined to the others.
pub open spec fn branch_step(a: Place, reg: Reg, rel: Transition, tes: Seq<TypeEncoding>, ins: Seq<Place>, outs: Seq<Place>, accs: Seq<Acc>, i: int) -> bool {
    &&& rcp::is_branch(&a.0.state, reg, a.1, tes, tes[i], &ins[i].0.state)
    &&& ins[i].1 == accs[i].1
    &&& ins[i].0.stack == (if i == 0 { a.0.stack } else { outs[i - 1].0.stack })
    &&& rel(ins[i], tes[i], outs[i])
    &&& joined_into(&accs[i].0, &outs[i].0.state, outs[i].1, accs[i + 1].1, &accs[i + 1].0)
    &&& accs[i + 1].1.extends(outs[i].1)
}

/// The first `n` branches.
pub open spec fn branched(a: Place, reg: Reg, rel: Transition, ins: Seq<Place>, outs: Seq<Place>, accs: Seq<Acc>, n: int) -> bool {
    &&& ins.len() == n && outs.len() == n && accs.len() == n + 1
    &&& accs[0].0.num() is None
    &&& accs[0].1 == a.1
    &&& forall|i: int| 0 <= i < n ==> #[trigger] branch_step(a, reg, rel, a.0.state.types.iterated(rcp::type_id(reg)), ins, outs, accs, i)
}

/// A transition for each type that a register may have, and the join of what comes out. Where the
/// register may be uninitialized the transition takes place once, on the whole state.
pub open spec fn over_types(a: Place, reg: Reg, rel: Transition, b: Place) -> bool {
    let n = a.0.state.types.iterated(rcp::type_id(reg)).len() as int;
    if !rcp::initialized(&a.0.state, reg) {
        rel(a, TypeEncoding::TUninit, b)
    } else {
        exists|ins: Seq<Place>, outs: Seq<Place>, accs: Seq<Acc>| #[trigger] branched(a, reg, rel, ins, outs, accs, n)
            && b.0.state == accs[n].0 && b.1 == accs[n].1
            && b.0.stack == (if n == 0 { a.0.stack } else { outs[n - 1].0.stack })
    }
}

/// The branches that are left, and the join of those that are done.
pub struct Fold {
    branches: Vec<(TypeEncoding, TypeToNumDomain)>,
    done: usize,
    res: TypeToNumDomain,
    reg: Reg,
    start: Ghost<Place>,
    rel: Ghost<Transition>,
    ins: Ghost<Seq<Place>>,
    outs: Ghost<Seq<Place>>,
    accs: Ghost<Seq<Acc>>,
}

impl Fold {
    /// What the fold is about.
    pub closed spec fn about(&self) -> (Place, Reg, Transition) {
        (self.start@, self.reg, self.rel@)
    }

    /// How many branches are done.
    pub closed spec fn count(&self) -> int {
        self.done as int
    }

    pub closed spec fn tes(&self) -> Seq<TypeEncoding> {
        self.start@.0.state.types.iterated(rcp::type_id(self.reg))
    }

    spec fn base(&self, stack: ArrayDomain, r: RegistryView) -> bool {
        let i = self.done as int;
        &&& self.start@.0.wf()
        &&& self.start@.1.ready()
        &&& self.reg.ok()
        &&& rcp::initialized(&self.start@.0.state, self.reg)
        &&& i <= self.tes().len()
        &&& self.branches@.len() == self.tes().len()
        &&& branched(self.start@, self.reg, self.rel@, self.ins@, self.outs@, self.accs@, i)
        &&& self.accs@[i] == (self.res, r)
        &&& stack == (if i == 0 { self.start@.0.stack } else { self.outs@[i - 1].0.stack })
        &&& self.res.wf()
        &&& r.ready()
        &&& r.extends(self.start@.1)
    }

    spec fn left(&self, from: int) -> bool {
        forall|j: int| from <= j < self.tes().len() ==> (#[trigger] self.branches@[j]).0 == self.tes()[j] && self.branches@[j].1.wf()
            && rcp::is_branch(&self.start@.0.state, self.reg, self.start@.1, self.tes(), self.tes()[j], &self.branches@[j].1)
    }

    /// The fold is ready for the next branch.
    pub closed spec fn ok(&self, stack: ArrayDomain, r: RegistryView) -> bool {
        self.base(stack, r) && self.left(self.done as int)
    }

    /// A branch has been taken and not given back.
    pub closed spec fn busy(&self, input: Place) -> bool {
        &&& self.base(input.0.stack, input.1)
        &&& self.done < self.tes().len()
        &&& self.left(self.done + 1)
        &&& rcp::is_branch(&self.start@.0.state, self.reg, self.start@.1, self.tes(), self.tes()[self.done as int], &input.0.state)
    }

    pub fn new(dom: &EbpfDomain, reg: &Reg, registry: &mut VariableRegistry, Ghost(rel): Ghost<Transition>) -> (r: Fold)
        requires dom.wf(), old(registry)@.ready(), reg.ok(), rcp::initialized(&dom.state, *reg),
        ensures
            final(registry)@ == old(registry)@,
            r.about() == ((*dom, old(registry)@), *reg, rel),
            r.ok(dom.stack, final(registry)@),
            r.count() == 0,
            r.tes() == dom.state.types.iterated(rcp::type_id(*reg)),
    {
        let branches = dom.state.type_branches(reg, registry);
        let res = TypeToNumDomain::bottom();
        proof { crate::numeric_steps::extends_itself(registry@); }
        let ghost accs: Seq<Acc> = seq![(res, registry@)];
        Fold {
            branches,
            done: 0,
            res,
            reg: *reg,
            start: Ghost((*dom, registry@)),
            rel: Ghost(rel),
            ins: Ghost(Seq::<Place>::empty()),
            outs: Ghost(Seq::<Place>::empty()),
            accs: Ghost(accs),
        }
    }

    /// Whether a branch is left.
    pub fn more(&self) -> (r: bool)
        requires exists|stack: ArrayDomain, q: RegistryView| #[trigger] self.ok(stack, q),
        ensures r == (self.count() < self.tes().len()),
    {
        self.done < self.branches.len()
    }

    /// Takes the next branch: its state becomes that of the domain.
    pub fn take(&mut self, dom: &mut EbpfDomain, registry: &VariableRegistry) -> (te: TypeEncoding)
        requires old(self).ok(old(dom).stack, registry@), old(self).count() < old(self).tes().len(), old(dom).stack.wf(),
        ensures
            final(dom).wf(),
            final(dom).stack == old(dom).stack,
            final(self).busy((*final(dom), registry@)),
            final(self).about() == old(self).about(),
            final(self).count() == old(self).count(),
            final(self).tes() == old(self).tes(),
            te == old(self).tes()[old(self).count()],
    {
        let i: usize = self.done;
        let te: TypeEncoding = self.branches[i].0;
        let ghost before = self.branches@;
        let mut state = TypeToNumDomain::bottom();
        std::mem::swap(&mut self.branches[i].1, &mut state);
        proof {
            assert forall|j: int| i < j < self.tes().len() implies (#[trigger] self.branches@[j]) == before[j] by {}
        }
        dom.state = state;
        te
    }

    /// Joins the result of the branch to the others.
    pub fn give(&mut self, dom: &mut EbpfDomain, registry: &mut VariableRegistry, Ghost(input): Ghost<Place>)
        requires
            old(self).busy(input),
            old(dom).wf(),
            old(registry)@.ready(),
            old(registry)@.extends(input.1),
            (old(self).about().2)(input, old(self).tes()[old(self).count()], (*old(dom), old(registry)@)),
        ensures
            final(dom).wf(),
            final(dom).stack == old(dom).stack,
            final(self).ok(final(dom).stack, final(registry)@),
            final(self).about() == old(self).about(),
            final(self).tes() == old(self).tes(),
            final(self).count() == old(self).count() + 1,
            final(registry)@.ready(),
            final(registry)@.extends(old(registry)@),
    {
        let ghost output: Place = (*dom, registry@);
        let ghost acc = self.res;
        let ghost i = self.done as int;
        let ghost (ins0, outs0, accs0) = (self.ins@, self.outs@, self.accs@);
        self.res.join_assign(&dom.state, registry);
        let total: usize = self.branches.len();
        assert(self.done < total);
        self.done = self.done + 1;
        proof {
            registry@.readiness_lasts(output.1);
            output.1.extending_is_transitive(input.1, self.start@.1);
            registry@.extending_is_transitive(output.1, self.start@.1);
            self.ins = Ghost(ins0.push(input));
            self.outs = Ghost(outs0.push(output));
            self.accs = Ghost(accs0.push((self.res, registry@)));
            let tes = self.tes();
            assert forall|j: int| 0 <= j < i + 1 implies #[trigger] branch_step(self.start@, self.reg, self.rel@, tes, self.ins@, self.outs@, self.accs@, j) by {
                if j < i {
                    assert(branch_step(self.start@, self.reg, self.rel@, tes, ins0, outs0, accs0, j));
                }
            }
        }
    }

    /// The join of all branches becomes the state of the domain.
    pub fn finish(self, dom: &mut EbpfDomain, registry: &VariableRegistry)
        requires self.ok(old(dom).stack, registry@), self.count() == self.tes().len(), old(dom).stack.wf(),
        ensures
            final(dom).wf(),
            final(dom).stack == old(dom).stack,
            over_types(self.about().0, self.about().1, self.about().2, (*final(dom), registry@)),
            registry@.ready(),
            registry@.extends(self.about().0.1),
    {
        let ghost (ins, outs, accs) = (self.ins@, self.outs@, self.accs@);
        let Fold { branches: _b, done: _d, res, reg: _r, start: _s, rel: _l, ins: _i, outs: _o, accs: _a } = self;
        dom.state = res;
        assert(branched(self.start@, self.reg, self.rel@, ins, outs, accs, self.tes().len() as int));
    }
}

}
