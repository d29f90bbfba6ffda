//! The numeric domain: finite-width arithmetic with an explicit bottom.
use vstd::prelude::*;
use vstd::string::*;
use crate::arith::extended_number::ExtendedNumber;
use crate::arith::linear_constraint::LinearConstraint;
use crate::arith::linear_expression::LinearExpression;
use crate::arith::number::Number;
use crate::arith::variable::Variable;
use crate::finite_assume;
use crate::finite_domain;
use crate::finite_domain::{FiniteBinOp, FiniteDomain, Operand};
use crate::interval::{Bound, Interval};
use crate::string_constraints::StringInvariant;
use crate::syntax::ConditionOp;
use crate::var_registry::VariableRegistry;
use crate::zone_domain;
use crate::zone_model;
use crate::zone_model::ZEdges;
use crate::zone_text;

verus! {

/// A finite-width domain, or nothing where no state is possible.
pub struct AddBottom {
    pub dom: Option<FiniteDomain>,
}

/// The numeric domain.
pub type NumAbsDomain = AddBottom;

proof fn lemma_times_one(b: Bound)
    ensures ExtendedNumber::Finite(Number { n: 1 }).mul_spec(b) == b,
{
    if let ExtendedNumber::Finite(n) = b {
        let one = Number { n: 1 };
        assert(one@ * n@ == n@) by (nonlinear_arith)
            requires one@ == 1;
    }
}

/// The interval of a variable as an expression is the variable's interval.
pub proof fn variable_interval(z: ZEdges, e: &LinearExpression, v: u64)
    requires
        zone_domain::is_variable(e, v),
    ensures zone_model::zeval(z, e) == zone_model::zinterval(z, v),
{
    let s = e.terms.entries();
    let iv = zone_model::zinterval(z, v);
    let one = Interval::point(Number { n: 1 });
    assert(zone_model::eval_prefix(z, e.constant, s, 0) == Interval::point(e.constant));
    assert(zone_model::eval_prefix(z, e.constant, s, 1) == Interval::point(e.constant).add_spec(one.mul_spec(iv)));
    lemma_times_one(iv.lb);
    lemma_times_one(iv.ub);
    assert(one.mul_spec(iv) == iv);
    assert(Interval::point(e.constant).add_spec(iv) == iv);
}

impl AddBottom {
    pub open spec fn wf(&self) -> bool {
        self.dom matches Some(d) ==> d.wf()
    }

    /// The constraints of a domain that is not bottom.
    pub open spec fn z(&self) -> ZEdges {
        self.dom->Some_0.z()
    }

    /// The variables that a domain that is not bottom keeps a vertex for.
    pub open spec fn held(&self) -> Set<u64> {
        self.dom->Some_0.dom.held()
    }

    /// The interval of a variable; empty at bottom.
    pub open spec fn interval(&self, v: u64) -> Interval {
        if self.dom is Some { zone_model::zinterval(self.z(), v) } else { Interval::empty() }
    }

    /// The interval of an expression; empty at bottom.
    pub open spec fn value_of(&self, e: &LinearExpression) -> Interval {
        if self.dom is Some { zone_model::zeval(self.z(), e) } else { Interval::empty() }
    }

    /// Both are bottom, or both have the same constraints.
    pub open spec fn same(&self, other: &AddBottom) -> bool {
        (self.dom is Some <==> other.dom is Some) && (self.dom is Some ==> self.z() == other.z())
    }

    /// The join of two domains; bottom adds nothing to the other one.
    pub open spec fn joins(&self, a: &AddBottom, b: &AddBottom) -> bool {
        &&& a.dom is None ==> self.same(b)
        &&& b.dom is None ==> self.same(a)
        &&& a.dom is Some && b.dom is Some ==> self.dom is Some && zone_model::zjoined(a.z(), b.z(), self.z())
    }

    /// A join is bottom only where both sides are, says what the other side says where one is, and
    /// else has the join of the intervals.
    pub proof fn join_joins_intervals(&self, a: &AddBottom, b: &AddBottom, v: u64)
        requires
            self.joins(a, b),
            a.dom is Some ==> !a.interval(v).is_empty_spec(),
            b.dom is Some ==> !b.interval(v).is_empty_spec(),
        ensures
            self.dom is None <==> a.dom is None && b.dom is None,
            self.interval(v) == a.interval(v).join_spec(b.interval(v)),
    {
        if a.dom is Some && b.dom is Some {
            zone_model::join_joins_intervals(a.z(), b.z(), self.z(), v);
        }
    }

    pub fn top() -> (r: Self)
        ensures r.wf(), r.dom is Some, r.z() == ZEdges::empty(),
    {
        AddBottom { dom: Some(FiniteDomain::top()) }
    }

    pub fn bottom() -> (r: Self)
        ensures r.wf(), r.dom is None,
    {
        AddBottom { dom: None }
    }

    pub fn from_finite(dom: FiniteDomain) -> (r: Self)
        ensures r.dom == Some(dom),
    {
        AddBottom { dom: Some(dom) }
    }

    pub fn set_to_top(&mut self)
        ensures final(self).wf(), final(self).dom is Some, final(self).z() == ZEdges::empty(),
    {
        self.dom = Some(FiniteDomain::top());
    }

    pub fn set_to_bottom(&mut self)
        ensures final(self).wf(), final(self).dom is None,
    {
        self.dom = None;
    }

    pub fn is_bottom(&self) -> (r: bool)
        ensures r == (self.dom is None),
    {
        self.dom.is_none()
    }

    pub fn is_top(&self) -> (r: bool)
        requires self.wf(),
        ensures r == (self.dom is Some && self.z() == ZEdges::empty()),
    {
        match &self.dom {
            Some(d) => d.is_top(),
            None => false,
        }
    }

    pub fn has_value(&self) -> (r: bool)
        ensures r == (self.dom is Some),
    {
        self.dom.is_some()
    }

    /// The domain of a state that is not bottom.
    pub fn inner(&self) -> (r: &FiniteDomain)
        requires self.dom is Some,
        ensures *r == self.dom->Some_0,
    {
        self.dom.as_ref().unwrap()
    }

    /// The domain of a state that is not bottom, to change.
    pub fn inner_mut(&mut self) -> (r: &mut FiniteDomain)
        requires old(self).dom is Some,
        ensures *r == old(self).dom->Some_0, final(self).dom == Some(*final(r)),
    {
        self.dom.as_mut().unwrap()
    }

    /// A copy of the domain.
    pub fn copy(&self) -> (r: Self)
        requires self.wf(),
        ensures r.wf(), r.same(self), self.dom is Some ==> r.held() == self.held(),
    {
        match &self.dom {
            Some(d) => AddBottom { dom: Some(d.copy()) },
            None => AddBottom { dom: None },
        }
    }

    pub fn is_included_in(&self, other: &AddBottom) -> (r: bool)
        requires self.wf(), other.wf(),
        ensures
            r == (self.dom is None || (other.dom is Some && zone_model::zincluded(self.z(), self.held(), other.z(), other.held()))),
            r && self.dom is Some ==> zone_model::zentails(self.z(), other.z()),
    {
        match (&self.dom, &other.dom) {
            (None, _) => true,
            (_, None) => false,
            (Some(a), Some(b)) => a.is_included_in(b),
        }
    }

    /// The join; bottom adds nothing to the other operand.
    pub fn join(&self, other: &AddBottom) -> (r: AddBottom)
        requires self.wf(), other.wf(),
        ensures
            r.wf(),
            r.joins(self, other),
    {
        match (&self.dom, &other.dom) {
            (None, _) => other.copy(),
            (_, None) => self.copy(),
            (Some(a), Some(b)) => AddBottom { dom: Some(a.join(b)) },
        }
    }

    pub fn join_assign(&mut self, other: &AddBottom)
        requires old(self).wf(), other.wf(),
        ensures
            final(self).wf(),
            final(self).joins(old(self), other),
            other.dom is None ==> *final(self) == *old(self),
    {
        if other.is_bottom() {
            return;
        }
        let r = self.join(other);
        *self = r;
    }

    pub fn widen(&self, other: &AddBottom) -> (r: AddBottom)
        requires self.wf(), other.wf(),
        ensures
            r.wf(),
            self.dom is None ==> r.same(other),
            other.dom is None ==> r.same(self),
            self.dom is Some && other.dom is Some ==> r.dom is Some && zone_model::zwidened(self.z(), other.z(), r.z()),
    {
        match (&self.dom, &other.dom) {
            (None, _) => other.copy(),
            (_, None) => self.copy(),
            (Some(a), Some(b)) => AddBottom { dom: Some(a.widen(b)) },
        }
    }

    pub fn meet(&self, other: &AddBottom) -> (r: AddBottom)
        requires self.wf(), other.wf(),
        ensures
            r.wf(),
            r.dom is Some ==> self.dom is Some && other.dom is Some && zone_model::zmet(self.z(), other.z(), r.z()),
            r.dom is None ==> self.dom is None || other.dom is None || zone_model::zdisjoint(self.z(), other.z()),
    {
        match (&self.dom, &other.dom) {
            (Some(a), Some(b)) => AddBottom { dom: a.meet(b) },
            _ => AddBottom::bottom(),
        }
    }

    pub fn narrow(&self, other: &AddBottom) -> (r: AddBottom)
        requires self.wf(), other.wf(),
        ensures
            r.wf(),
            r.dom is Some <==> self.dom is Some && other.dom is Some,
            r.dom is Some ==> r.z() == (if self.z() == ZEdges::empty() { other.z() } else { self.z() }),
    {
        match (&self.dom, &other.dom) {
            (Some(a), Some(b)) => AddBottom { dom: Some(a.narrow(b)) },
            _ => AddBottom::bottom(),
        }
    }

    /// The domain with a constraint added.
    pub fn when(&self, cst: &LinearConstraint, reg: &VariableRegistry) -> (r: AddBottom)
        requires self.wf(), zone_domain::knows_terms(reg@, cst.expression.terms@),
        ensures
            r.wf(),
            self.dom is None ==> r.dom is None,
            self.dom is Some && r.dom is Some ==> zone_domain::constraint_added(self.z(), cst, zone_domain::min_only_of(reg@), r.z()),
            self.dom is Some && r.dom is None ==> zone_domain::constraint_refuted(self.z(), cst, zone_domain::min_only_of(reg@)),
            self.dom is Some && cst.is_tautology_spec() ==> r.dom is Some,
            cst.is_contradiction_spec() ==> r.dom is None,
    {
        let mut r = self.copy();
        r.add_constraint(cst, reg);
        r
    }

    /// Forgets a variable.
    pub fn havoc(&mut self, v: Variable)
        requires old(self).wf(),
        ensures
            final(self).wf(),
            final(self).dom is Some <==> old(self).dom is Some,
            old(self).dom is Some ==> final(self).z() == zone_model::zwithout(old(self).z(), zone_model::node(v.id)),
            old(self).dom is Some ==> final(self).held() == old(self).held().remove(v.id),
    {
        if let Some(d) = &mut self.dom {
            d.havoc(v);
        }
    }

    /// Adds a constraint; bottom where it contradicts the others.
    pub fn add_constraint(&mut self, cst: &LinearConstraint, reg: &VariableRegistry)
        requires old(self).wf(), zone_domain::knows_terms(reg@, cst.expression.terms@),
        ensures
            final(self).wf(),
            old(self).dom is None ==> final(self).dom is None,
            old(self).dom is Some && final(self).dom is Some ==>
                zone_domain::constraint_added(old(self).z(), cst, zone_domain::min_only_of(reg@), final(self).z()),
            old(self).dom is Some && final(self).dom is None ==> zone_domain::constraint_refuted(old(self).z(), cst, zone_domain::min_only_of(reg@)),
            old(self).dom is Some && cst.is_tautology_spec() ==> final(self).dom is Some,
            cst.is_contradiction_spec() ==> final(self).dom is None,
    {
        if let Some(d) = &mut self.dom {
            if !d.add_constraint(cst, reg) {
                self.dom = None;
            }
        }
    }

    /// The interval of an expression; empty at bottom.
    pub fn eval_interval(&self, e: &LinearExpression, reg: &VariableRegistry) -> (r: Interval)
        requires self.wf(),
        ensures r == self.value_of(e),
    {
        match &self.dom {
            Some(d) => d.eval_interval_expr(e, reg),
            None => Interval::bottom(),
        }
    }

    /// Replaces the bounds of a variable by those of an interval; bottom where it is empty.
    pub fn set(&mut self, x: Variable, intv: &Interval, reg: &VariableRegistry)
        requires old(self).wf(), reg@.knows(x),
        ensures
            final(self).wf(),
            final(self).dom is Some <==> old(self).dom is Some && !intv.is_empty_spec(),
            final(self).dom is Some ==> final(self).z() == zone_model::zput(old(self).z(), x.id, *intv, reg@.min_only(x)),
    {
        if intv.is_bottom() {
            self.dom = None;
        } else if let Some(d) = &mut self.dom {
            d.set(x, intv, reg);
        }
    }

    /// Assigns an expression to a variable, if there is one.
    pub fn assign_opt(&mut self, x: Option<Variable>, e: &LinearExpression, reg: &VariableRegistry)
        requires old(self).wf(), x matches Some(v) ==> reg@.knows(v), zone_domain::knows_terms(reg@, e.terms@),
        ensures
            final(self).wf(),
            final(self).dom is Some <==> old(self).dom is Some,
            x is None ==> *final(self) == *old(self),
            x is Some && old(self).dom is Some ==> zone_model::assigned(old(self).z(), x->Some_0.id, e, zone_domain::min_only_of(reg@), final(self).z()),
    {
        if let Some(v) = x {
            self.assign_expr(v, e, reg);
        }
    }

    pub fn assign_expr(&mut self, x: Variable, e: &LinearExpression, reg: &VariableRegistry)
        requires old(self).wf(), reg@.knows(x), zone_domain::knows_terms(reg@, e.terms@),
        ensures
            final(self).wf(),
            final(self).dom is Some <==> old(self).dom is Some,
            old(self).dom is Some ==> zone_model::assigned(old(self).z(), x.id, e, zone_domain::min_only_of(reg@), final(self).z()),
    {
        if let Some(d) = &mut self.dom {
            d.assign_expr(x, e, reg);
        }
    }

    pub fn assign_var(&mut self, x: Variable, e: Variable, reg: &VariableRegistry)
        requires old(self).wf(), reg@.knows(x), reg@.knows(e),
        ensures
            final(self).wf(),
            final(self).dom is Some <==> old(self).dom is Some,
            old(self).dom is Some ==> zone_domain::variable_assigned(old(self).z(), x.id, e.id, zone_domain::min_only_of(reg@), final(self).z()),
    {
        if let Some(d) = &mut self.dom {
            d.assign_var(x, e, reg);
        }
    }

    pub fn assign_i64(&mut self, x: Variable, e: i64, reg: &VariableRegistry)
        requires old(self).wf(), reg@.knows(x),
        ensures
            final(self).wf(),
            final(self).dom is Some <==> old(self).dom is Some,
            old(self).dom is Some ==> final(self).z() == zone_model::zput(old(self).z(), x.id, Interval::point(Number { n: e as i128 }), reg@.min_only(x)),
    {
        if let Some(d) = &mut self.dom {
            d.assign_i64(x, e, reg);
        }
    }

    /// Assigns an expression to a variable, or forgets the variable.
    pub fn assign_or_havoc(&mut self, x: Variable, e: &Option<LinearExpression>, reg: &VariableRegistry)
        requires old(self).wf(), reg@.knows(x), e matches Some(expr) ==> zone_domain::knows_terms(reg@, expr.terms@),
        ensures
            final(self).wf(),
            final(self).dom is Some <==> old(self).dom is Some,
            old(self).dom is Some ==> match e {
                Some(expr) => zone_model::assigned(old(self).z(), x.id, expr, zone_domain::min_only_of(reg@), final(self).z()),
                None => final(self).z() == zone_model::zwithout(old(self).z(), zone_model::node(x.id)),
            },
    {
        match e {
            Some(expr) => self.assign_expr(x, expr, reg),
            None => self.havoc(x),
        }
    }

    /// The interval of a variable; empty at bottom.
    pub fn eval_interval_var(&self, v: Variable, reg: &VariableRegistry) -> (r: Interval)
        requires self.wf(),
        ensures r == self.interval(v.id),
    {
        let e = LinearExpression::from_variable(v);
        proof {
            if self.dom is Some {
                variable_interval(self.z(), &e, v.id);
            }
        }
        self.eval_interval(&e, reg)
    }

    /// Whether a constraint may hold; none does at bottom.
    pub fn intersect(&self, cst: &LinearConstraint, reg: &VariableRegistry) -> (r: bool)
        requires self.wf(), zone_domain::knows_terms(reg@, cst.expression.terms@),
        ensures
            self.dom is None ==> !r,
            self.dom is Some && !r ==> zone_domain::constraint_refuted(self.z(), cst, zone_domain::min_only_of(reg@)),
            cst.is_contradiction_spec() ==> !r,
            self.dom is Some && cst.is_tautology_spec() ==> r,
            r ==> self.z() == ZEdges::empty() || zone_domain::addable(self.z(), cst, zone_domain::min_only_of(reg@)),
            self.dom is Some && self.z() == ZEdges::empty() && !cst.is_contradiction_spec() ==> r,
    {
        match &self.dom {
            Some(d) => d.intersect(cst, reg),
            None => false,
        }
    }

    /// Whether a constraint certainly holds; every one does at bottom.
    pub fn entail(&self, cst: &LinearConstraint, reg: &VariableRegistry) -> (r: bool)
        requires self.wf(), zone_domain::knows_terms(reg@, cst.expression.terms@),
        ensures
            self.dom is None ==> r,
            self.dom is Some && r ==> zone_domain::entailed(self.z(), cst, zone_domain::min_only_of(reg@)),
            cst.is_tautology_spec() ==> r,
            self.dom is Some && cst.is_contradiction_spec() ==> !r,
            self.dom is Some && !cst.is_contradiction_spec()
                && zone_domain::interval_proves(zone_model::zeval(self.z(), &cst.expression), cst.kind) ==> r,
            !r ==> zone_domain::doubted(self.z(), cst, zone_domain::min_only_of(reg@)),
    {
        match &self.dom {
            Some(d) => d.entail(cst, reg),
            None => true,
        }
    }

    /// The constraints as lines of text.
    pub fn to_set(&self, reg: &VariableRegistry) -> (r: StringInvariant)
        requires
            self.wf(),
            self.dom matches Some(d) ==> forall|k: u64| #[trigger] d.dom.held().contains(k) ==> k < reg@.size(),
        ensures
            r.content() is None <==> self.dom is None,
            forall|l: Seq<char>| #[trigger] r.has(l) <==> self.dom is Some && zone_text::zone_line(self.z(), reg@, l),
    {
        match &self.dom {
            Some(d) => d.to_set(reg),
            None => StringInvariant::bottom(),
        }
    }

    /// `x := y op z`, without regard to overflow.
    pub fn apply_binop_var_var(&mut self, op: FiniteBinOp, x: Variable, y: Variable, z: Variable, finite_width: i32, reg: &VariableRegistry)
        requires old(self).wf(), reg@.knows(x), reg@.knows(y), reg@.knows(z), finite_domain::width_ok(finite_width as int),
        ensures
            final(self).wf(),
            final(self).dom is Some <==> old(self).dom is Some,
            old(self).dom is Some ==> finite_domain::applied(old(self).z(), reg@, op, x.id, y.id, Operand::Var(z.id), finite_width as int, final(self).z()),
    {
        if let Some(d) = &mut self.dom {
            d.apply_binop_var_var(op, x, y, z, finite_width, reg);
        }
    }

    /// `x := y op z` for a number `z`, without regard to overflow.
    pub fn apply_binop_var_num(&mut self, op: FiniteBinOp, x: Variable, y: Variable, z: &Number, finite_width: i32, reg: &VariableRegistry)
        requires old(self).wf(), reg@.knows(x), reg@.knows(y), finite_domain::width_ok(finite_width as int),
        ensures
            final(self).wf(),
            final(self).dom is Some <==> old(self).dom is Some,
            old(self).dom is Some ==> finite_domain::applied(old(self).z(), reg@, op, x.id, y.id, Operand::Num(*z), finite_width as int, final(self).z()),
    {
        if let Some(d) = &mut self.dom {
            d.apply_binop_var_num(op, x, y, z, finite_width, reg);
        }
    }

    /// Gives variables other names, in turn.
    pub fn rename(&mut self, renaming: &[(Variable, Variable)])
        requires old(self).wf(),
        ensures
            final(self).wf(),
            final(self).dom is Some <==> old(self).dom is Some,
            old(self).dom is Some ==> final(self).z() == zone_model::zrenamed_all(old(self).z(), renaming@, renaming@.len()),
    {
        if let Some(d) = &mut self.dom {
            d.rename(renaming);
        }
    }

    /// The constraints that follow from a comparison with an immediate; none at bottom.
    pub fn assume_cst_imm(&self, op: ConditionOp, is64: bool, dst_svalue: Variable, dst_uvalue: Variable, imm: i64, reg: &VariableRegistry) -> (r: Vec<LinearConstraint>)
        requires self.wf(), reg@.knows(dst_svalue), reg@.knows(dst_uvalue),
        ensures
            finite_assume::all_known(reg@, r@),
            self.dom is None ==> r.len() == 0,
            self.dom is Some ==> exists|rs: LinearExpression, ru: LinearExpression|
                #![trigger finite_assume::is_constant(&rs, imm as int), finite_assume::is_constant(&ru, imm as u64 as int)]
                finite_assume::is_constant(&rs, imm as int) && finite_assume::is_constant(&ru, imm as u64 as int)
                && finite_assume::states(r@, finite_assume::immediate_claims(self.z(), op, is64, dst_svalue.id, dst_uvalue.id, imm, &rs, &ru)),
    {
        match &self.dom {
            Some(d) => d.assume_cst_imm(op, is64, dst_svalue, dst_uvalue, imm, reg),
            None => Vec::new(),
        }
    }

    /// The constraints that follow from a comparison of two registers; none at bottom.
    pub fn assume_cst_reg(&self, op: ConditionOp, is64: bool, dst_svalue: Variable, dst_uvalue: Variable, src_svalue: Variable, src_uvalue: Variable, reg: &VariableRegistry) -> (r: Vec<LinearConstraint>)
        requires self.wf(), reg@.knows(dst_svalue), reg@.knows(dst_uvalue), reg@.knows(src_svalue), reg@.knows(src_uvalue),
        ensures
            finite_assume::all_known(reg@, r@),
            self.dom is None ==> r.len() == 0,
            self.dom is Some ==> exists|rs: LinearExpression, ru: LinearExpression|
                #![trigger zone_domain::is_variable(&rs, src_svalue.id), zone_domain::is_variable(&ru, src_uvalue.id)]
                zone_domain::is_variable(&rs, src_svalue.id) && zone_domain::is_variable(&ru, src_uvalue.id)
                && finite_assume::states(r@, finite_assume::register_claims(self.z(), op, is64, dst_svalue.id, dst_uvalue.id, src_svalue.id, src_uvalue.id, &rs, &ru)),
    {
        match &self.dom {
            Some(d) => d.assume_cst_reg(op, is64, dst_svalue, dst_uvalue, src_svalue, src_uvalue, reg),
            None => Vec::new(),
        }
    }

    /// A placeholder text; `to_set` renders the constraints.
    pub fn to_string(&self) -> (r: String)
        ensures r@ == (if self.dom is None { "_|_"@ } else { "<finite_domain>"@ }),
    {
        if self.is_bottom() {
            String::from_str("_|_")
        } else {
            String::from_str("<finite_domain>")
        }
    }
}

impl Default for AddBottom {
    fn default() -> (r: Self)
        ensures r.wf(), r.dom is Some, r.z() == ZEdges::empty(),
    {
        Self::top()
    }
}

}
