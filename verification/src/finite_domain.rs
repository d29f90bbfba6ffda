//! Arithmetic of finite width on top of the zone domain.
//!
//! A register is described by two variables, its value read as a signed and as an unsigned number.
use vstd::prelude::*;
use vstd::arithmetic::power2::*;
use crate::arith::extended_number::ExtendedNumber;
use crate::arith::linear_constraint::{eq, LinearConstraint};
use crate::arith::linear_expression;
use crate::arith::linear_expression::{Env, LinearExpression};
use crate::arith::number;
use crate::arith::number::Number;
use crate::arith::variable::Variable;
use crate::interval::{Division, Interval};
use crate::ord_map;
use crate::string_constraints::StringInvariant;
use crate::type_encoding::DataKind;
use crate::var_registry::{RegistryView, VariableRegistry};
use crate::zone_domain;
use crate::zone_domain::{ArithBinOp, ZoneDomain};
use crate::zone_model;
use crate::zone_model::ZEdges;
use crate::zone_text;

verus! {

/// Division and remainder.
#[derive(Clone, Copy, Debug, PartialEq, Eq, Structural)]
pub enum SignedArithBinOp {
    SDIV,
    UDIV,
    SREM,
    UREM,
}

/// Bitwise operations.
#[derive(Clone, Copy, Debug, PartialEq, Eq, Structural)]
pub enum BitwiseBinOp {
    AND,
    OR,
    XOR,
    SHL,
    LSHR,
    ASHR,
}

/// All binary operations.
#[derive(Clone, Copy, Debug, PartialEq, Eq, Structural)]
pub enum FiniteBinOp {
    Arith(ArithBinOp),
    Signed(SignedArithBinOp),
    Bitwise(BitwiseBinOp),
}

/// A right operand: a variable or a number.
#[derive(Clone, Copy, Debug, PartialEq, Eq, Structural)]
pub enum Operand {
    Var(u64),
    Num(Number),
}

/// The immediate of an unsigned division: thirty-two unsigned bits for a width of thirty-two, else
/// thirty-two signed bits.
pub open spec fn unsigned_imm(imm: Number, width: int) -> Number {
    if width == 32 { Number::nearest(number::wrap_unsigned(imm@, 32)) } else { Number::nearest(number::wrap_signed(imm@, 32)) }
}

/// The immediate of a signed division: as many signed bits as the width has.
pub open spec fn signed_imm(imm: Number, width: int) -> Number {
    if width == 32 { Number::nearest(number::wrap_signed(imm@, 32)) } else { Number::nearest(number::wrap_signed(imm@, 64)) }
}

fn read_imm_for_udiv_or_umod(imm: &Number, width: i32) -> (r: Number)
    ensures r == unsigned_imm(*imm, width as int),
{
    if width == 32 {
        imm.cast_to_unsigned_width(32)
    } else {
        imm.cast_to_signed_width(32)
    }
}

fn read_imm_for_sdiv_or_smod(imm: &Number, width: i32) -> (r: Number)
    ensures r == signed_imm(*imm, width as int),
{
    if width == 32 {
        imm.cast_to_signed_width(32)
    } else {
        imm.cast_to_signed_width(64)
    }
}

/// The interval of a variable read at a width; width zero leaves it as it is.
pub open spec fn interval_at_width(z: ZEdges, r: RegistryView, v: u64, width: int) -> Interval {
    let span = zone_model::zinterval(z, v);
    if width == 0 {
        span
    } else if r.metas[v as int].kind == Some(DataKind::Uvalues) {
        span.zero_extend_spec(width)
    } else {
        span.sign_extend_spec(width)
    }
}

/// The interval of an operand read at a width.
pub open spec fn operand_at_width(z: ZEdges, r: RegistryView, o: Operand, width: int) -> Interval {
    match o {
        Operand::Var(v) => interval_at_width(z, r, v, width),
        Operand::Num(n) => Interval::point(n),
    }
}

/// The quotient or remainder of two intervals.
pub open spec fn quotient_or_remainder(op: SignedArithBinOp, y: Interval, z: Interval) -> Interval {
    match op {
        SignedArithBinOp::SDIV => y.divide_spec(Division::Signed, z),
        SignedArithBinOp::UDIV => y.divide_spec(Division::Unsigned, z),
        SignedArithBinOp::SREM => y.srem_spec(z),
        SignedArithBinOp::UREM => y.urem_spec(z),
    }
}

/// The divisor as the operation reads it.
pub open spec fn divisor(z: ZEdges, r: RegistryView, op: SignedArithBinOp, o: Operand, width: int) -> Interval {
    match o {
        Operand::Var(v) => interval_at_width(z, r, v, width),
        Operand::Num(n) => Interval::point(match op {
            SignedArithBinOp::SDIV | SignedArithBinOp::SREM => signed_imm(n, width),
            SignedArithBinOp::UDIV | SignedArithBinOp::UREM => unsigned_imm(n, width),
        }),
    }
}

/// Whether the operation is a shift.
pub open spec fn is_shift(op: BitwiseBinOp) -> bool {
    op is SHL || op is LSHR || op is ASHR
}

/// The right operand of a bitwise operation; a shift count is reduced to the width.
pub open spec fn bit_operand(z: ZEdges, op: BitwiseBinOp, o: Operand, width: int) -> Interval {
    let zi = match o {
        Operand::Var(v) => zone_model::zinterval(z, v),
        Operand::Num(n) => Interval::point(Number::nearest(number::wrap_unsigned(n@, 64))),
    };
    if is_shift(op) { zi.mask_shift_count_spec(width) } else { zi }
}

/// The result of a bitwise operation on intervals.
pub open spec fn bit_result(op: BitwiseBinOp, y: Interval, z: Interval, width: int) -> Interval {
    (match op {
        BitwiseBinOp::AND => y.bitwise_and_spec(z),
        BitwiseBinOp::OR => y.bitwise_or_spec(z),
        BitwiseBinOp::XOR => y.bitwise_xor_spec(z),
        BitwiseBinOp::SHL => y.shl_spec(z),
        BitwiseBinOp::LSHR => y.lshr_spec(z),
        BitwiseBinOp::ASHR => y.ashr_spec(z),
    }).mask_value_spec(width)
}

/// The expression has at most two terms, with coefficients of at most two.
pub open spec fn few_terms(e: &LinearExpression) -> bool {
    &&& e.orderly()
    &&& e.terms.entries().len() <= 2
    &&& forall|i: int| 0 <= i < e.terms.entries().len() ==> -2 <= (#[trigger] e.terms.entries()[i]).1@ <= 2
}

proof fn lemma_few_terms(e: &LinearExpression, y: u64, sign: int, v: u64)
    requires
        sign == 1 || sign == -1,
        ord_map::sorted_entries(e.terms.entries()),
        e.terms@ == ord_map::entries_map(e.terms.entries()),
        e.terms@ == linear_expression::combined(
            Map::<u64, Number>::empty().insert(y, Number { n: 1 }), sign, Map::<u64, Number>::empty().insert(v, Number { n: 1 })),
    ensures few_terms(e),
{
    let s = e.terms.entries();
    let m = e.terms@;
    let pair = Set::<u64>::empty().insert(y).insert(v);
    assert(m.dom().subset_of(pair));
    ord_map::lemma_entries_count(s);
    vstd::set_lib::lemma_len_subset(m.dom(), pair);
    assert(pair.len() <= 2);
    assert forall|i: int| 0 <= i < s.len() implies -2 <= (#[trigger] s[i]).1@ <= 2 by {
        ord_map::lemma_entry(s, i);
        assert(m.contains_key(s[i].0) && m[s[i].0] == s[i].1);
    }
}

/// The expression is `y + sign * operand`.
pub open spec fn is_sum(e: &LinearExpression, y: u64, sign: int, o: Operand) -> bool {
    let one = Map::<u64, Number>::empty();
    match o {
        Operand::Var(v) => {
            &&& e.constant@ == 0
            &&& few_terms(e)
            &&& e.terms@ == linear_expression::combined(one.insert(y, Number { n: 1 }), sign, one.insert(v, Number { n: 1 }))
            &&& forall|env: Env| #[trigger] e.eval(env) == env(y) + sign * env(v)
        },
        Operand::Num(n) => {
            &&& e.constant@ == number::saturate(sign * n@)
            &&& e.terms@ == one.insert(y, Number { n: 1 })
            &&& e.terms.entries() == seq![(y, Number { n: 1 })]
            &&& i128::MIN <= sign * n@ <= i128::MAX ==> forall|env: Env| #[trigger] e.eval(env) == env(y) + sign * n@
        },
    }
}

/// `z1` is `z0` after `x := y + sign * operand`.
pub open spec fn sum_assigned(z0: ZEdges, r: RegistryView, x: u64, y: u64, sign: int, o: Operand, z1: ZEdges) -> bool {
    exists|e: LinearExpression| is_sum(&e, y, sign, o) && #[trigger] zone_model::assigned(z0, x, &e, zone_domain::min_only_of(r), z1)
}

/// `z1` is `z0` after `x := y op operand`, without regard to overflow.
pub open spec fn applied(z0: ZEdges, r: RegistryView, op: FiniteBinOp, x: u64, y: u64, o: Operand, width: int, z1: ZEdges) -> bool {
    let mo = r.metas[x as int].is_min_only;
    match op {
        FiniteBinOp::Arith(ArithBinOp::ADD) => sum_assigned(z0, r, x, y, 1, o, z1),
        FiniteBinOp::Arith(ArithBinOp::SUB) => sum_assigned(z0, r, x, y, -1, o, z1),
        FiniteBinOp::Arith(ArithBinOp::MUL) => z1 == zone_model::zput(z0, x,
            interval_at_width(z0, r, y, width).mul_spec(operand_at_width(z0, r, o, width)), mo),
        FiniteBinOp::Signed(sop) => z1 == zone_model::zput(z0, x,
            quotient_or_remainder(sop, interval_at_width(z0, r, y, width), divisor(z0, r, sop, o, width)), mo),
        FiniteBinOp::Bitwise(bop) => z1 == zone_model::zput(z0, x,
            bit_result(bop, zone_model::zinterval(z0, y), bit_operand(z0, bop, o, width), width), mo),
    }
}

/// The interval of a variable after its value wraps to a width; nothing where the wrapped ends
/// change places or the interval is as wide as the range.
pub open spec fn wrapped_interval(iv: Interval, width: int, issigned: bool) -> Option<Interval> {
    match (iv.lb, iv.ub) {
        (ExtendedNumber::Finite(l), ExtendedNumber::Finite(u)) => {
            let lb = number::wrap_unsigned(l@, width);
            let ub = number::wrap_unsigned(u@, width);
            let lo = if issigned { number::wrap_signed(lb, 64) } else { lb };
            let hi = if issigned { number::wrap_signed(ub, 64) } else { ub };
            if Interval::unsigned_int_spec(width).size_spec().le_spec(iv.size_spec()) || iv.is_empty_spec() || lo > hi {
                None
            } else {
                Some(Interval::of_bounds(ExtendedNumber::fin(lo), ExtendedNumber::fin(hi)))
            }
        },
        _ => None,
    }
}

/// The zone after the value of a variable wraps to a width.
pub open spec fn zoverflow(z: ZEdges, v: u64, width: int, issigned: bool, min_only: bool) -> ZEdges {
    let iv = zone_model::zinterval(z, v);
    match wrapped_interval(iv, width, issigned) {
        None => zone_model::zwithout(z, zone_model::node(v)),
        Some(new) => if new.same(iv) { z } else { zone_model::zput(z, v, new, min_only) },
    }
}

/// Both values of a register after they wrap to a width.
pub open spec fn zoverflow_pair(z: ZEdges, r: RegistryView, s: u64, u: u64, width: int) -> ZEdges {
    zoverflow(zoverflow(z, s, width, true, r.metas[s as int].is_min_only), u, width, false, r.metas[u as int].is_min_only)
}

/// `z1` is `z0` after one value of a register is copied to the other and both wrap.
pub open spec fn mirrored(z0: ZEdges, r: RegistryView, from: u64, to: u64, s: u64, u: u64, width: int, z1: ZEdges) -> bool {
    exists|mid: ZEdges| #[trigger] zone_domain::variable_assigned(z0, to, from, zone_domain::min_only_of(r), mid)
        && z1 == zoverflow_pair(mid, r, s, u, width)
}

/// `z1` is `z0` after a signed operation on a register with the values `s` and `u`.
pub open spec fn signed_applied(z0: ZEdges, r: RegistryView, op: FiniteBinOp, s: u64, u: u64, y: u64, o: Operand, width: int, z1: ZEdges) -> bool {
    exists|mid: ZEdges| #[trigger] applied(z0, r, op, s, y, o, width, mid)
        && if width == 0 { z1 == mid } else { mirrored(mid, r, s, u, s, u, width, z1) }
}

/// `z1` is `z0` after an unsigned operation on a register with the values `s` and `u`.
pub open spec fn unsigned_applied(z0: ZEdges, r: RegistryView, op: FiniteBinOp, s: u64, u: u64, y: u64, o: Operand, width: int, z1: ZEdges) -> bool {
    exists|mid: ZEdges| #[trigger] applied(z0, r, op, u, y, o, width, mid)
        && if width == 0 { z1 == mid } else { mirrored(mid, r, u, s, s, u, width, z1) }
}

/// Widths at which values are read.
pub open spec fn width_ok(width: int) -> bool {
    0 <= width <= 64
}

/// Finite-width arithmetic over a zone.
pub struct FiniteDomain {
    pub dom: ZoneDomain,
}

impl FiniteDomain {
    /// The constraints.
    pub open spec fn z(&self) -> ZEdges {
        self.dom.z()
    }

    pub open spec fn wf(&self) -> bool {
        self.dom.wf()
    }

    /// A domain without constraints.
    pub fn new() -> (r: Self)
        ensures r.wf(), r.z() == ZEdges::empty(),
    {
        FiniteDomain { dom: ZoneDomain::new() }
    }

    pub fn from_zone(dom: ZoneDomain) -> (r: Self)
        ensures r.dom == dom,
    {
        FiniteDomain { dom }
    }

    pub fn top() -> (r: Self)
        ensures r.wf(), r.z() == ZEdges::empty(),
    {
        Self::new()
    }

    pub fn set_to_top(&mut self)
        ensures final(self).wf(), final(self).z() == ZEdges::empty(),
    {
        self.dom.set_to_top();
    }

    pub fn is_top(&self) -> (r: bool)
        requires self.wf(),
        ensures r == (self.z() == ZEdges::empty()),
    {
        self.dom.is_top()
    }

    pub fn zone(&self) -> (r: &ZoneDomain)
        ensures *r == self.dom,
    {
        &self.dom
    }

    pub fn zone_mut(&mut self) -> (r: &mut ZoneDomain)
        ensures *r == old(self).dom, final(self).dom == *final(r),
    {
        &mut self.dom
    }

    pub fn into_zone(self) -> (r: ZoneDomain)
        ensures r == self.dom,
    {
        self.dom
    }

    /// Whether this domain's constraints cover the other's.
    pub fn is_included_in(&self, other: &FiniteDomain) -> (r: bool)
        requires self.wf(), other.wf(),
        ensures r == self.dom.included_spec(&other.dom), r ==> zone_model::zentails(self.z(), other.z()),
    {
        self.dom.is_included_in(&other.dom)
    }

    pub fn join(&self, other: &FiniteDomain) -> (r: FiniteDomain)
        requires self.wf(), other.wf(),
        ensures r.wf(), zone_model::zjoined(self.z(), other.z(), r.z()),
    {
        FiniteDomain { dom: self.dom.join(&other.dom) }
    }

    pub fn join_assign(&mut self, other: &FiniteDomain)
        requires old(self).wf(), other.wf(),
        ensures final(self).wf(), zone_model::zjoined(old(self).z(), other.z(), final(self).z()),
    {
        self.dom.join_assign(&other.dom);
    }

    pub fn widen(&self, other: &FiniteDomain) -> (r: FiniteDomain)
        requires self.wf(), other.wf(),
        ensures
            r.wf(),
            zone_model::zwidened(self.z(), other.z(), r.z()),
    {
        FiniteDomain { dom: self.dom.widen(&other.dom) }
    }

    pub fn meet(&self, other: &FiniteDomain) -> (r: Option<FiniteDomain>)
        requires self.wf(), other.wf(),
        ensures
            match r {
                Some(m) => m.wf() && zone_model::zmet(self.z(), other.z(), m.z()),
                None => zone_model::zdisjoint(self.z(), other.z()),
            },
    {
        match self.dom.meet(&other.dom) {
            Some(dom) => Some(FiniteDomain { dom }),
            None => None,
        }
    }

    pub fn narrow(&self, other: &FiniteDomain) -> (r: FiniteDomain)
        requires self.wf(), other.wf(),
        ensures r.wf(), r.z() == (if self.z() == ZEdges::empty() { other.z() } else { self.z() }),
    {
        FiniteDomain { dom: self.dom.narrow_op(&other.dom) }
    }

    /// The interval of a variable.
    pub fn eval_interval(&self, v: Variable, reg: &VariableRegistry) -> (r: Interval)
        requires self.wf(),
        ensures r == zone_model::zinterval(self.z(), v.id),
    {
        self.dom.eval_interval_var(v, reg)
    }

    /// The interval of an expression.
    pub fn eval_interval_expr(&self, exp: &LinearExpression, reg: &VariableRegistry) -> (r: Interval)
        requires self.wf(),
        ensures r == zone_model::zeval(self.z(), exp),
    {
        self.dom.eval_interval(exp, reg)
    }

    /// The interval of a variable read at a width; width zero leaves it as it is.
    pub fn eval_interval_with_width(&self, v: Variable, finite_width: i32, reg: &VariableRegistry) -> (r: Interval)
        requires self.wf(), reg@.knows(v), width_ok(finite_width as int),
        ensures r == interval_at_width(self.z(), reg@, v.id, finite_width as int),
    {
        let span = self.dom.eval_interval_var(v, reg);
        if finite_width == 0 {
            return span;
        }
        if reg.is_unsigned(v) {
            span.zero_extend(finite_width)
        } else {
            span.sign_extend(finite_width)
        }
    }

    /// Assigns a variable to another.
    pub fn assign_var(&mut self, x: Variable, e: Variable, reg: &VariableRegistry)
        requires old(self).wf(), reg@.knows(x), reg@.knows(e),
        ensures
            final(self).wf(),
            zone_domain::variable_assigned(old(self).z(), x.id, e.id, zone_domain::min_only_of(reg@), final(self).z()),
    {
        self.dom.assign_variable(x, e, reg);
    }

    /// Assigns an expression to a variable.
    pub fn assign_expr(&mut self, x: Variable, e: &LinearExpression, reg: &VariableRegistry)
        requires old(self).wf(), reg@.knows(x), zone_domain::knows_terms(reg@, e.terms@),
        ensures
            final(self).wf(),
            zone_model::assigned(old(self).z(), x.id, e, zone_domain::min_only_of(reg@), final(self).z()),
    {
        self.dom.assign(x, e, reg);
    }

    /// Assigns an expression to a variable, or forgets the variable.
    pub fn assign_opt(&mut self, x: Variable, e: Option<&LinearExpression>, reg: &VariableRegistry)
        requires old(self).wf(), reg@.knows(x), e matches Some(expr) ==> zone_domain::knows_terms(reg@, expr.terms@),
        ensures
            final(self).wf(),
            match e {
                Some(expr) => zone_model::assigned(old(self).z(), x.id, expr, zone_domain::min_only_of(reg@), final(self).z()),
                None => final(self).z() == zone_model::zwithout(old(self).z(), zone_model::node(x.id)),
            },
    {
        match e {
            Some(expr) => self.dom.assign(x, expr, reg),
            None => self.dom.havoc(x),
        }
    }

    /// Assigns a number to a variable.
    pub fn assign_i64(&mut self, x: Variable, e: i64, reg: &VariableRegistry)
        requires old(self).wf(), reg@.knows(x),
        ensures
            final(self).wf(),
            final(self).z() == zone_model::zput(old(self).z(), x.id, Interval::point(Number { n: e as i128 }), reg@.min_only(x)),
    {
        self.dom.put(x, &Interval::from_i64(e), reg);
    }

    fn apply_arith_var_var(&mut self, op: ArithBinOp, x: Variable, y: Variable, z: Variable, finite_width: i32, reg: &VariableRegistry)
        requires old(self).wf(), reg@.knows(x), reg@.knows(y), reg@.knows(z), width_ok(finite_width as int),
        ensures
            final(self).wf(),
            applied(old(self).z(), reg@, FiniteBinOp::Arith(op), x.id, y.id, Operand::Var(z.id), finite_width as int, final(self).z()),
    {
        match op {
            ArithBinOp::ADD => {
                let a = LinearExpression::from_variable(y);
                let b = LinearExpression::from_variable(z);
                proof { linear_expression::lemma_small_difference(&a, &b); }
                let e = a.plus(&b);
                e.terms.reveal_entries();
                proof {
                    lemma_few_terms(&e, y.id, 1, z.id);
                    assert forall|env: Env| #[trigger] e.eval(env) == env(y.id) + 1 * env(z.id) by {
                        assert(e.eval(env) == a.eval(env) + b.eval(env));
                    }
                    assert(is_sum(&e, y.id, 1, Operand::Var(z.id)));
                }
                self.dom.assign(x, &e, reg);
            }
            ArithBinOp::SUB => {
                let a = LinearExpression::from_variable(y);
                let b = LinearExpression::from_variable(z);
                proof { linear_expression::lemma_small_difference(&a, &b); }
                let e = a.subtract(&b);
                e.terms.reveal_entries();
                proof {
                    lemma_few_terms(&e, y.id, -1, z.id);
                    assert forall|env: Env| #[trigger] e.eval(env) == env(y.id) + (-1) * env(z.id) by {
                        assert(e.eval(env) == a.eval(env) - b.eval(env));
                    }
                    assert(is_sum(&e, y.id, -1, Operand::Var(z.id)));
                }
                self.dom.assign(x, &e, reg);
            }
            ArithBinOp::MUL => {
                let result = self.eval_interval_with_width(y, finite_width, reg).mul(&self.eval_interval_with_width(z, finite_width, reg));
                self.dom.put(x, &result, reg);
            }
        }
    }

    fn apply_arith_var_num(&mut self, op: ArithBinOp, x: Variable, y: Variable, z: &Number, finite_width: i32, reg: &VariableRegistry)
        requires old(self).wf(), reg@.knows(x), reg@.knows(y), width_ok(finite_width as int),
        ensures
            final(self).wf(),
            applied(old(self).z(), reg@, FiniteBinOp::Arith(op), x.id, y.id, Operand::Num(*z), finite_width as int, final(self).z()),
    {
        match op {
            ArithBinOp::ADD => {
                let a = LinearExpression::from_variable(y);
                let e = a.plus_constant(z);
                proof {
                    if i128::MIN <= 1 * z@ <= i128::MAX {
                        assert forall|env: Env| #[trigger] e.eval(env) == env(y.id) + 1 * z@ by {
                            assert(e.eval(env) == a.eval(env) + z@);
                        }
                    }
                    assert(is_sum(&e, y.id, 1, Operand::Num(*z)));
                }
                self.dom.assign(x, &e, reg);
            }
            ArithBinOp::SUB => {
                let a = LinearExpression::from_variable(y);
                let e = a.subtract_constant(z);
                proof {
                    if i128::MIN <= -1 * z@ <= i128::MAX {
                        assert forall|env: Env| #[trigger] e.eval(env) == env(y.id) + (-1) * z@ by {
                            assert(e.eval(env) == a.eval(env) - z@);
                        }
                    }
                    assert(is_sum(&e, y.id, -1, Operand::Num(*z)));
                }
                self.dom.assign(x, &e, reg);
            }
            ArithBinOp::MUL => {
                let result = self.eval_interval_with_width(y, finite_width, reg).mul(&Interval::from_number(*z));
                self.dom.put(x, &result, reg);
            }
        }
    }

    fn apply_signed_arith_var_num(&mut self, op: SignedArithBinOp, x: Variable, y: Variable, k: &Number, finite_width: i32, reg: &VariableRegistry)
        requires old(self).wf(), reg@.knows(x), reg@.knows(y), width_ok(finite_width as int),
        ensures
            final(self).wf(),
            applied(old(self).z(), reg@, FiniteBinOp::Signed(op), x.id, y.id, Operand::Num(*k), finite_width as int, final(self).z()),
    {
        let yi = self.eval_interval_with_width(y, finite_width, reg);
        let result = match op {
            SignedArithBinOp::SDIV => yi.sdiv(&Interval::from_number(read_imm_for_sdiv_or_smod(k, finite_width))),
            SignedArithBinOp::UDIV => yi.udiv(&Interval::from_number(read_imm_for_udiv_or_umod(k, finite_width))),
            SignedArithBinOp::SREM => yi.srem(&Interval::from_number(read_imm_for_sdiv_or_smod(k, finite_width))),
            SignedArithBinOp::UREM => yi.urem(&Interval::from_number(read_imm_for_udiv_or_umod(k, finite_width))),
        };
        self.dom.put(x, &result, reg);
    }

    fn apply_signed_arith_var_var(&mut self, op: SignedArithBinOp, x: Variable, y: Variable, z: Variable, finite_width: i32, reg: &VariableRegistry)
        requires old(self).wf(), reg@.knows(x), reg@.knows(y), reg@.knows(z), width_ok(finite_width as int),
        ensures
            final(self).wf(),
            applied(old(self).z(), reg@, FiniteBinOp::Signed(op), x.id, y.id, Operand::Var(z.id), finite_width as int, final(self).z()),
    {
        let yi = self.eval_interval_with_width(y, finite_width, reg);
        let zi = self.eval_interval_with_width(z, finite_width, reg);
        let result = match op {
            SignedArithBinOp::SDIV => yi.sdiv(&zi),
            SignedArithBinOp::UDIV => yi.udiv(&zi),
            SignedArithBinOp::SREM => yi.srem(&zi),
            SignedArithBinOp::UREM => yi.urem(&zi),
        };
        self.dom.put(x, &result, reg);
    }

    fn apply_bitwise(&mut self, op: BitwiseBinOp, x: Variable, y: Variable, operand: &Interval, finite_width: i32, reg: &VariableRegistry)
        requires old(self).wf(), reg@.knows(x),
        ensures
            final(self).wf(),
            final(self).z() == zone_model::zput(old(self).z(), x.id,
                bit_result(op, zone_model::zinterval(old(self).z(), y.id),
                    if is_shift(op) { operand.mask_shift_count_spec(finite_width as int) } else { *operand }, finite_width as int),
                reg@.min_only(x)),
    {
        let yi = self.dom.eval_interval_var(y, reg);
        let mut zi = *operand;
        if matches!(op, BitwiseBinOp::SHL | BitwiseBinOp::LSHR | BitwiseBinOp::ASHR) {
            zi.mask_shift_count(finite_width);
        }
        let mut xi = match op {
            BitwiseBinOp::AND => yi.bitwise_and(&zi),
            BitwiseBinOp::OR => yi.bitwise_or(&zi),
            BitwiseBinOp::XOR => yi.bitwise_xor(&zi),
            BitwiseBinOp::SHL => yi.shl(&zi),
            BitwiseBinOp::LSHR => yi.lshr(&zi),
            BitwiseBinOp::ASHR => yi.ashr(&zi),
        };
        xi.mask_value(finite_width);
        self.dom.put(x, &xi, reg);
    }

    fn apply_bitwise_var_var(&mut self, op: BitwiseBinOp, x: Variable, y: Variable, z: Variable, finite_width: i32, reg: &VariableRegistry)
        requires old(self).wf(), reg@.knows(x),
        ensures
            final(self).wf(),
            applied(old(self).z(), reg@, FiniteBinOp::Bitwise(op), x.id, y.id, Operand::Var(z.id), finite_width as int, final(self).z()),
    {
        let zi = self.dom.eval_interval_var(z, reg);
        self.apply_bitwise(op, x, y, &zi, finite_width, reg);
    }

    fn apply_bitwise_var_num(&mut self, op: BitwiseBinOp, x: Variable, y: Variable, k: &Number, finite_width: i32, reg: &VariableRegistry)
        requires old(self).wf(), reg@.knows(x),
        ensures
            final(self).wf(),
            applied(old(self).z(), reg@, FiniteBinOp::Bitwise(op), x.id, y.id, Operand::Num(*k), finite_width as int, final(self).z()),
    {
        let zi = Interval::from_number(k.cast_to_unsigned_width(64));
        self.apply_bitwise(op, x, y, &zi, finite_width, reg);
    }

    /// `x := y op z`, without regard to overflow.
    pub fn apply_binop_var_var(&mut self, op: FiniteBinOp, x: Variable, y: Variable, z: Variable, finite_width: i32, reg: &VariableRegistry)
        requires old(self).wf(), reg@.knows(x), reg@.knows(y), reg@.knows(z), width_ok(finite_width as int),
        ensures
            final(self).wf(),
            applied(old(self).z(), reg@, op, x.id, y.id, Operand::Var(z.id), finite_width as int, final(self).z()),
    {
        match op {
            FiniteBinOp::Arith(aop) => self.apply_arith_var_var(aop, x, y, z, finite_width, reg),
            FiniteBinOp::Signed(sop) => self.apply_signed_arith_var_var(sop, x, y, z, finite_width, reg),
            FiniteBinOp::Bitwise(bop) => self.apply_bitwise_var_var(bop, x, y, z, finite_width, reg),
        }
    }

    /// `x := y op z` for a number `z`, without regard to overflow.
    pub fn apply_binop_var_num(&mut self, op: FiniteBinOp, x: Variable, y: Variable, z: &Number, finite_width: i32, reg: &VariableRegistry)
        requires old(self).wf(), reg@.knows(x), reg@.knows(y), width_ok(finite_width as int),
        ensures
            final(self).wf(),
            applied(old(self).z(), reg@, op, x.id, y.id, Operand::Num(*z), finite_width as int, final(self).z()),
    {
        match op {
            FiniteBinOp::Arith(aop) => self.apply_arith_var_num(aop, x, y, z, finite_width, reg),
            FiniteBinOp::Signed(sop) => self.apply_signed_arith_var_num(sop, x, y, z, finite_width, reg),
            FiniteBinOp::Bitwise(bop) => self.apply_bitwise_var_num(bop, x, y, z, finite_width, reg),
        }
    }

    /// Wraps the value of a variable to a width. The variable is forgotten where its interval does
    /// not stay an interval.
    pub fn overflow_bounds(&mut self, lhs: Variable, finite_width: i32, issigned: bool, reg: &VariableRegistry)
        requires old(self).wf(), reg@.knows(lhs), 1 <= finite_width <= 64,
        ensures
            final(self).wf(),
            final(self).z() == zoverflow(old(self).z(), lhs.id, finite_width as int, issigned, reg@.min_only(lhs)),
    {
        let interval = self.eval_interval(lhs, reg);
        let whole = Interval::unsigned_int(finite_width).size();
        if whole.le(&interval.size()) || interval.is_bottom() {
            self.dom.havoc(lhs);
            return;
        }
        match (interval.lb, interval.ub) {
            (ExtendedNumber::Finite(l), ExtendedNumber::Finite(u)) => {
                let mut lb: Number = l.zero_extend(finite_width);
                let mut ub: Number = u.zero_extend(finite_width);
                if issigned {
                    lb = lb.sign_extend(64);
                    ub = ub.sign_extend(64);
                }
                if ub.lt(lb) {
                    self.dom.havoc(lhs);
                    return;
                }
                let new_interval = Interval::from_number_pair(lb, ub);
                if !(new_interval == interval) {
                    self.dom.put(lhs, &new_interval, reg);
                }
            }
            _ => {
                self.dom.havoc(lhs);
            }
        }
    }

    /// Wraps both values of a register to a width.
    pub fn overflow_bounds_pair(&mut self, svalue: Variable, uvalue: Variable, finite_width: i32, reg: &VariableRegistry)
        requires old(self).wf(), reg@.knows(svalue), reg@.knows(uvalue), 1 <= finite_width <= 64,
        ensures
            final(self).wf(),
            final(self).z() == zoverflow_pair(old(self).z(), reg@, svalue.id, uvalue.id, finite_width as int),
    {
        self.overflow_bounds(svalue, finite_width, true, reg);
        self.overflow_bounds(uvalue, finite_width, false, reg);
    }

    /// Copies one value of a register to the other and wraps both.
    fn mirror(&mut self, from: Variable, to: Variable, svalue: Variable, uvalue: Variable, finite_width: i32, reg: &VariableRegistry)
        requires
            old(self).wf(), reg@.knows(from), reg@.knows(to), reg@.knows(svalue), reg@.knows(uvalue), 1 <= finite_width <= 64,
        ensures
            final(self).wf(),
            mirrored(old(self).z(), reg@, from.id, to.id, svalue.id, uvalue.id, finite_width as int, final(self).z()),
    {
        self.assign_var(to, from, reg);
        self.overflow_bounds_pair(svalue, uvalue, finite_width, reg);
    }

    /// A signed operation on a register, with a number.
    pub fn apply_signed_var_num(&mut self, op: FiniteBinOp, xs: Variable, xu: Variable, y: Variable, z: &Number, finite_width: i32, reg: &VariableRegistry)
        requires old(self).wf(), reg@.knows(xs), reg@.knows(xu), reg@.knows(y), width_ok(finite_width as int),
        ensures
            final(self).wf(),
            signed_applied(old(self).z(), reg@, op, xs.id, xu.id, y.id, Operand::Num(*z), finite_width as int, final(self).z()),
    {
        self.apply_binop_var_num(op, xs, y, z, finite_width, reg);
        if finite_width != 0 {
            self.mirror(xs, xu, xs, xu, finite_width, reg);
        }
    }

    /// A signed operation on a register, with a variable.
    pub fn apply_signed_var_var(&mut self, op: FiniteBinOp, xs: Variable, xu: Variable, y: Variable, z: Variable, finite_width: i32, reg: &VariableRegistry)
        requires old(self).wf(), reg@.knows(xs), reg@.knows(xu), reg@.knows(y), reg@.knows(z), width_ok(finite_width as int),
        ensures
            final(self).wf(),
            signed_applied(old(self).z(), reg@, op, xs.id, xu.id, y.id, Operand::Var(z.id), finite_width as int, final(self).z()),
    {
        self.apply_binop_var_var(op, xs, y, z, finite_width, reg);
        if finite_width != 0 {
            self.mirror(xs, xu, xs, xu, finite_width, reg);
        }
    }

    /// An unsigned operation on a register, with a number.
    pub fn apply_unsigned_var_num(&mut self, op: FiniteBinOp, xs: Variable, xu: Variable, y: Variable, z: &Number, finite_width: i32, reg: &VariableRegistry)
        requires old(self).wf(), reg@.knows(xs), reg@.knows(xu), reg@.knows(y), width_ok(finite_width as int),
        ensures
            final(self).wf(),
            unsigned_applied(old(self).z(), reg@, op, xs.id, xu.id, y.id, Operand::Num(*z), finite_width as int, final(self).z()),
    {
        self.apply_binop_var_num(op, xu, y, z, finite_width, reg);
        if finite_width != 0 {
            self.mirror(xu, xs, xs, xu, finite_width, reg);
        }
    }

    /// An unsigned operation on a register, with a variable.
    pub fn apply_unsigned_var_var(&mut self, op: FiniteBinOp, xs: Variable, xu: Variable, y: Variable, z: Variable, finite_width: i32, reg: &VariableRegistry)
        requires old(self).wf(), reg@.knows(xs), reg@.knows(xu), reg@.knows(y), reg@.knows(z), width_ok(finite_width as int),
        ensures
            final(self).wf(),
            unsigned_applied(old(self).z(), reg@, op, xs.id, xu.id, y.id, Operand::Var(z.id), finite_width as int, final(self).z()),
    {
        self.apply_binop_var_var(op, xu, y, z, finite_width, reg);
        if finite_width != 0 {
            self.mirror(xu, xs, xs, xu, finite_width, reg);
        }
    }
}

impl FiniteDomain {
    /// `lhs += op2`, without bound on the width.
    pub fn add_var(&mut self, lhs: Variable, op2: Variable, reg: &VariableRegistry)
        requires old(self).wf(), reg@.knows(lhs), reg@.knows(op2),
        ensures
            final(self).wf(),
            signed_applied(old(self).z(), reg@, FiniteBinOp::Arith(ArithBinOp::ADD), lhs.id, lhs.id, lhs.id, Operand::Var(op2.id), 0, final(self).z()),
    {
        self.apply_signed_var_var(FiniteBinOp::Arith(ArithBinOp::ADD), lhs, lhs, lhs, op2, 0, reg);
    }

    /// `lhs += op2` for a number, without bound on the width.
    pub fn add_num(&mut self, lhs: Variable, op2: &Number, reg: &VariableRegistry)
        requires old(self).wf(), reg@.knows(lhs),
        ensures
            final(self).wf(),
            signed_applied(old(self).z(), reg@, FiniteBinOp::Arith(ArithBinOp::ADD), lhs.id, lhs.id, lhs.id, Operand::Num(*op2), 0, final(self).z()),
    {
        self.apply_signed_var_num(FiniteBinOp::Arith(ArithBinOp::ADD), lhs, lhs, lhs, op2, 0, reg);
    }

    /// `lhs -= op2`, without bound on the width.
    pub fn sub_var(&mut self, lhs: Variable, op2: Variable, reg: &VariableRegistry)
        requires old(self).wf(), reg@.knows(lhs), reg@.knows(op2),
        ensures
            final(self).wf(),
            signed_applied(old(self).z(), reg@, FiniteBinOp::Arith(ArithBinOp::SUB), lhs.id, lhs.id, lhs.id, Operand::Var(op2.id), 0, final(self).z()),
    {
        self.apply_signed_var_var(FiniteBinOp::Arith(ArithBinOp::SUB), lhs, lhs, lhs, op2, 0, reg);
    }

    /// `lhs -= op2` for a number, without bound on the width.
    pub fn sub_num(&mut self, lhs: Variable, op2: &Number, reg: &VariableRegistry)
        requires old(self).wf(), reg@.knows(lhs),
        ensures
            final(self).wf(),
            signed_applied(old(self).z(), reg@, FiniteBinOp::Arith(ArithBinOp::SUB), lhs.id, lhs.id, lhs.id, Operand::Num(*op2), 0, final(self).z()),
    {
        self.apply_signed_var_num(FiniteBinOp::Arith(ArithBinOp::SUB), lhs, lhs, lhs, op2, 0, reg);
    }

    /// `lhs += op2`, wrapping. The signed value is taken unless nothing bounds it.
    pub fn add_overflow_var(&mut self, lhss: Variable, lhsu: Variable, op2: Variable, finite_width: i32, reg: &VariableRegistry)
        requires old(self).wf(), reg@.knows(lhss), reg@.knows(lhsu), reg@.knows(op2), width_ok(finite_width as int),
        ensures
            final(self).wf(),
            signed_applied(old(self).z(), reg@, FiniteBinOp::Arith(ArithBinOp::ADD), lhss.id, lhsu.id, if zone_model::zinterval(old(self).z(), lhss.id).is_top_spec() { lhsu.id } else { lhss.id }, Operand::Var(op2.id), finite_width as int, final(self).z()),
    {
        let y = if !self.eval_interval(lhss, reg).is_top() { lhss } else { lhsu };
        self.apply_signed_var_var(FiniteBinOp::Arith(ArithBinOp::ADD), lhss, lhsu, y, op2, finite_width, reg);
    }

    /// `lhs += op2` for a number, wrapping.
    pub fn add_overflow_num(&mut self, lhss: Variable, lhsu: Variable, op2: &Number, finite_width: i32, reg: &VariableRegistry)
        requires old(self).wf(), reg@.knows(lhss), reg@.knows(lhsu), width_ok(finite_width as int),
        ensures
            final(self).wf(),
            signed_applied(old(self).z(), reg@, FiniteBinOp::Arith(ArithBinOp::ADD), lhss.id, lhsu.id, if zone_model::zinterval(old(self).z(), lhss.id).is_top_spec() { lhsu.id } else { lhss.id }, Operand::Num(*op2), finite_width as int, final(self).z()),
    {
        let y = if !self.eval_interval(lhss, reg).is_top() { lhss } else { lhsu };
        self.apply_signed_var_num(FiniteBinOp::Arith(ArithBinOp::ADD), lhss, lhsu, y, op2, finite_width, reg);
    }

    /// `lhs -= op2`, wrapping.
    pub fn sub_overflow_var(&mut self, lhss: Variable, lhsu: Variable, op2: Variable, finite_width: i32, reg: &VariableRegistry)
        requires old(self).wf(), reg@.knows(lhss), reg@.knows(lhsu), reg@.knows(op2), width_ok(finite_width as int),
        ensures
            final(self).wf(),
            signed_applied(old(self).z(), reg@, FiniteBinOp::Arith(ArithBinOp::SUB), lhss.id, lhsu.id, if zone_model::zinterval(old(self).z(), lhss.id).is_top_spec() { lhsu.id } else { lhss.id }, Operand::Var(op2.id), finite_width as int, final(self).z()),
    {
        let y = if !self.eval_interval(lhss, reg).is_top() { lhss } else { lhsu };
        self.apply_signed_var_var(FiniteBinOp::Arith(ArithBinOp::SUB), lhss, lhsu, y, op2, finite_width, reg);
    }

    /// `lhs -= op2` for a number, wrapping.
    pub fn sub_overflow_num(&mut self, lhss: Variable, lhsu: Variable, op2: &Number, finite_width: i32, reg: &VariableRegistry)
        requires old(self).wf(), reg@.knows(lhss), reg@.knows(lhsu), width_ok(finite_width as int),
        ensures
            final(self).wf(),
            signed_applied(old(self).z(), reg@, FiniteBinOp::Arith(ArithBinOp::SUB), lhss.id, lhsu.id, if zone_model::zinterval(old(self).z(), lhss.id).is_top_spec() { lhsu.id } else { lhss.id }, Operand::Num(*op2), finite_width as int, final(self).z()),
    {
        let y = if !self.eval_interval(lhss, reg).is_top() { lhss } else { lhsu };
        self.apply_signed_var_num(FiniteBinOp::Arith(ArithBinOp::SUB), lhss, lhsu, y, op2, finite_width, reg);
    }

    /// `lhs = -lhs`.
    pub fn neg(&mut self, lhss: Variable, lhsu: Variable, finite_width: i32, reg: &VariableRegistry)
        requires old(self).wf(), reg@.knows(lhss), reg@.knows(lhsu), width_ok(finite_width as int),
        ensures
            final(self).wf(),
            signed_applied(old(self).z(), reg@, FiniteBinOp::Arith(ArithBinOp::MUL), lhss.id, lhsu.id, lhss.id, Operand::Num(Number::nearest(-1)), finite_width as int, final(self).z()),
    {
        self.apply_signed_var_num(FiniteBinOp::Arith(ArithBinOp::MUL), lhss, lhsu, lhss, &Number::of(-1), finite_width, reg);
    }

    /// `lhs *= op2`.
    pub fn mul_var(&mut self, lhss: Variable, lhsu: Variable, op2: Variable, finite_width: i32, reg: &VariableRegistry)
        requires old(self).wf(), reg@.knows(lhss), reg@.knows(lhsu), reg@.knows(op2), width_ok(finite_width as int),
        ensures
            final(self).wf(),
            signed_applied(old(self).z(), reg@, FiniteBinOp::Arith(ArithBinOp::MUL), lhss.id, lhsu.id, lhss.id, Operand::Var(op2.id), finite_width as int, final(self).z()),
    {
        self.apply_signed_var_var(FiniteBinOp::Arith(ArithBinOp::MUL), lhss, lhsu, lhss, op2, finite_width, reg);
    }

    /// `lhs *= op2` for a number.
    pub fn mul_num(&mut self, lhss: Variable, lhsu: Variable, op2: &Number, finite_width: i32, reg: &VariableRegistry)
        requires old(self).wf(), reg@.knows(lhss), reg@.knows(lhsu), width_ok(finite_width as int),
        ensures
            final(self).wf(),
            signed_applied(old(self).z(), reg@, FiniteBinOp::Arith(ArithBinOp::MUL), lhss.id, lhsu.id, lhss.id, Operand::Num(*op2), finite_width as int, final(self).z()),
    {
        self.apply_signed_var_num(FiniteBinOp::Arith(ArithBinOp::MUL), lhss, lhsu, lhss, op2, finite_width, reg);
    }

    /// Signed division.
    pub fn sdiv_var(&mut self, lhss: Variable, lhsu: Variable, op2: Variable, finite_width: i32, reg: &VariableRegistry)
        requires old(self).wf(), reg@.knows(lhss), reg@.knows(lhsu), reg@.knows(op2), width_ok(finite_width as int),
        ensures
            final(self).wf(),
            signed_applied(old(self).z(), reg@, FiniteBinOp::Signed(SignedArithBinOp::SDIV), lhss.id, lhsu.id, lhss.id, Operand::Var(op2.id), finite_width as int, final(self).z()),
    {
        self.apply_signed_var_var(FiniteBinOp::Signed(SignedArithBinOp::SDIV), lhss, lhsu, lhss, op2, finite_width, reg);
    }

    /// Signed division by a number.
    pub fn sdiv_num(&mut self, lhss: Variable, lhsu: Variable, op2: &Number, finite_width: i32, reg: &VariableRegistry)
        requires old(self).wf(), reg@.knows(lhss), reg@.knows(lhsu), width_ok(finite_width as int),
        ensures
            final(self).wf(),
            signed_applied(old(self).z(), reg@, FiniteBinOp::Signed(SignedArithBinOp::SDIV), lhss.id, lhsu.id, lhss.id, Operand::Num(*op2), finite_width as int, final(self).z()),
    {
        self.apply_signed_var_num(FiniteBinOp::Signed(SignedArithBinOp::SDIV), lhss, lhsu, lhss, op2, finite_width, reg);
    }

    /// Unsigned division.
    pub fn udiv_var(&mut self, lhss: Variable, lhsu: Variable, op2: Variable, finite_width: i32, reg: &VariableRegistry)
        requires old(self).wf(), reg@.knows(lhss), reg@.knows(lhsu), reg@.knows(op2), width_ok(finite_width as int),
        ensures
            final(self).wf(),
            unsigned_applied(old(self).z(), reg@, FiniteBinOp::Signed(SignedArithBinOp::UDIV), lhss.id, lhsu.id, lhsu.id, Operand::Var(op2.id), finite_width as int, final(self).z()),
    {
        self.apply_unsigned_var_var(FiniteBinOp::Signed(SignedArithBinOp::UDIV), lhss, lhsu, lhsu, op2, finite_width, reg);
    }

    /// Unsigned division by a number.
    pub fn udiv_num(&mut self, lhss: Variable, lhsu: Variable, op2: &Number, finite_width: i32, reg: &VariableRegistry)
        requires old(self).wf(), reg@.knows(lhss), reg@.knows(lhsu), width_ok(finite_width as int),
        ensures
            final(self).wf(),
            unsigned_applied(old(self).z(), reg@, FiniteBinOp::Signed(SignedArithBinOp::UDIV), lhss.id, lhsu.id, lhsu.id, Operand::Num(*op2), finite_width as int, final(self).z()),
    {
        self.apply_unsigned_var_num(FiniteBinOp::Signed(SignedArithBinOp::UDIV), lhss, lhsu, lhsu, op2, finite_width, reg);
    }

    /// Signed remainder.
    pub fn srem_var(&mut self, lhss: Variable, lhsu: Variable, op2: Variable, finite_width: i32, reg: &VariableRegistry)
        requires old(self).wf(), reg@.knows(lhss), reg@.knows(lhsu), reg@.knows(op2), width_ok(finite_width as int),
        ensures
            final(self).wf(),
            signed_applied(old(self).z(), reg@, FiniteBinOp::Signed(SignedArithBinOp::SREM), lhss.id, lhsu.id, lhss.id, Operand::Var(op2.id), finite_width as int, final(self).z()),
    {
        self.apply_signed_var_var(FiniteBinOp::Signed(SignedArithBinOp::SREM), lhss, lhsu, lhss, op2, finite_width, reg);
    }

    /// Signed remainder by a number.
    pub fn srem_num(&mut self, lhss: Variable, lhsu: Variable, op2: &Number, finite_width: i32, reg: &VariableRegistry)
        requires old(self).wf(), reg@.knows(lhss), reg@.knows(lhsu), width_ok(finite_width as int),
        ensures
            final(self).wf(),
            signed_applied(old(self).z(), reg@, FiniteBinOp::Signed(SignedArithBinOp::SREM), lhss.id, lhsu.id, lhss.id, Operand::Num(*op2), finite_width as int, final(self).z()),
    {
        self.apply_signed_var_num(FiniteBinOp::Signed(SignedArithBinOp::SREM), lhss, lhsu, lhss, op2, finite_width, reg);
    }

    /// Unsigned remainder.
    pub fn urem_var(&mut self, lhss: Variable, lhsu: Variable, op2: Variable, finite_width: i32, reg: &VariableRegistry)
        requires old(self).wf(), reg@.knows(lhss), reg@.knows(lhsu), reg@.knows(op2), width_ok(finite_width as int),
        ensures
            final(self).wf(),
            unsigned_applied(old(self).z(), reg@, FiniteBinOp::Signed(SignedArithBinOp::UREM), lhss.id, lhsu.id, lhsu.id, Operand::Var(op2.id), finite_width as int, final(self).z()),
    {
        self.apply_unsigned_var_var(FiniteBinOp::Signed(SignedArithBinOp::UREM), lhss, lhsu, lhsu, op2, finite_width, reg);
    }

    /// Unsigned remainder by a number.
    pub fn urem_num(&mut self, lhss: Variable, lhsu: Variable, op2: &Number, finite_width: i32, reg: &VariableRegistry)
        requires old(self).wf(), reg@.knows(lhss), reg@.knows(lhsu), width_ok(finite_width as int),
        ensures
            final(self).wf(),
            unsigned_applied(old(self).z(), reg@, FiniteBinOp::Signed(SignedArithBinOp::UREM), lhss.id, lhsu.id, lhsu.id, Operand::Num(*op2), finite_width as int, final(self).z()),
    {
        self.apply_unsigned_var_num(FiniteBinOp::Signed(SignedArithBinOp::UREM), lhss, lhsu, lhsu, op2, finite_width, reg);
    }

    /// Bitwise conjunction.
    pub fn bitwise_and_var(&mut self, lhss: Variable, lhsu: Variable, op2: Variable, finite_width: i32, reg: &VariableRegistry)
        requires old(self).wf(), reg@.knows(lhss), reg@.knows(lhsu), reg@.knows(op2), width_ok(finite_width as int),
        ensures
            final(self).wf(),
            unsigned_applied(old(self).z(), reg@, FiniteBinOp::Bitwise(BitwiseBinOp::AND), lhss.id, lhsu.id, lhsu.id, Operand::Var(op2.id), finite_width as int, final(self).z()),
    {
        self.apply_unsigned_var_var(FiniteBinOp::Bitwise(BitwiseBinOp::AND), lhss, lhsu, lhsu, op2, finite_width, reg);
    }

    /// Bitwise disjunction.
    pub fn bitwise_or_var(&mut self, lhss: Variable, lhsu: Variable, op2: Variable, finite_width: i32, reg: &VariableRegistry)
        requires old(self).wf(), reg@.knows(lhss), reg@.knows(lhsu), reg@.knows(op2), width_ok(finite_width as int),
        ensures
            final(self).wf(),
            unsigned_applied(old(self).z(), reg@, FiniteBinOp::Bitwise(BitwiseBinOp::OR), lhss.id, lhsu.id, lhsu.id, Operand::Var(op2.id), finite_width as int, final(self).z()),
    {
        self.apply_unsigned_var_var(FiniteBinOp::Bitwise(BitwiseBinOp::OR), lhss, lhsu, lhsu, op2, finite_width, reg);
    }

    /// Bitwise disjunction with a number.
    pub fn bitwise_or_num(&mut self, lhss: Variable, lhsu: Variable, op2: &Number, reg: &VariableRegistry)
        requires old(self).wf(), reg@.knows(lhss), reg@.knows(lhsu),
        ensures
            final(self).wf(),
            unsigned_applied(old(self).z(), reg@, FiniteBinOp::Bitwise(BitwiseBinOp::OR), lhss.id, lhsu.id, lhsu.id, Operand::Num(*op2), 64, final(self).z()),
    {
        self.apply_unsigned_var_num(FiniteBinOp::Bitwise(BitwiseBinOp::OR), lhss, lhsu, lhsu, op2, 64, reg);
    }

    /// Bitwise exclusive disjunction.
    pub fn bitwise_xor_var(&mut self, lhss: Variable, lhsu: Variable, op2: Variable, finite_width: i32, reg: &VariableRegistry)
        requires old(self).wf(), reg@.knows(lhss), reg@.knows(lhsu), reg@.knows(op2), width_ok(finite_width as int),
        ensures
            final(self).wf(),
            unsigned_applied(old(self).z(), reg@, FiniteBinOp::Bitwise(BitwiseBinOp::XOR), lhss.id, lhsu.id, lhsu.id, Operand::Var(op2.id), finite_width as int, final(self).z()),
    {
        self.apply_unsigned_var_var(FiniteBinOp::Bitwise(BitwiseBinOp::XOR), lhss, lhsu, lhsu, op2, finite_width, reg);
    }

    /// Bitwise exclusive disjunction with a number.
    pub fn bitwise_xor_num(&mut self, lhss: Variable, lhsu: Variable, op2: &Number, reg: &VariableRegistry)
        requires old(self).wf(), reg@.knows(lhss), reg@.knows(lhsu),
        ensures
            final(self).wf(),
            unsigned_applied(old(self).z(), reg@, FiniteBinOp::Bitwise(BitwiseBinOp::XOR), lhss.id, lhsu.id, lhsu.id, Operand::Num(*op2), 64, final(self).z()),
    {
        self.apply_unsigned_var_num(FiniteBinOp::Bitwise(BitwiseBinOp::XOR), lhss, lhsu, lhsu, op2, 64, reg);
    }

    /// Left shift.
    pub fn shl_overflow_var(&mut self, lhss: Variable, lhsu: Variable, op2: Variable, reg: &VariableRegistry)
        requires old(self).wf(), reg@.knows(lhss), reg@.knows(lhsu), reg@.knows(op2),
        ensures
            final(self).wf(),
            unsigned_applied(old(self).z(), reg@, FiniteBinOp::Bitwise(BitwiseBinOp::SHL), lhss.id, lhsu.id, lhsu.id, Operand::Var(op2.id), 64, final(self).z()),
    {
        self.apply_unsigned_var_var(FiniteBinOp::Bitwise(BitwiseBinOp::SHL), lhss, lhsu, lhsu, op2, 64, reg);
    }

    /// Left shift by a number.
    pub fn shl_overflow_num(&mut self, lhss: Variable, lhsu: Variable, op2: &Number, reg: &VariableRegistry)
        requires old(self).wf(), reg@.knows(lhss), reg@.knows(lhsu),
        ensures
            final(self).wf(),
            unsigned_applied(old(self).z(), reg@, FiniteBinOp::Bitwise(BitwiseBinOp::SHL), lhss.id, lhsu.id, lhsu.id, Operand::Num(*op2), 64, final(self).z()),
    {
        self.apply_unsigned_var_num(FiniteBinOp::Bitwise(BitwiseBinOp::SHL), lhss, lhsu, lhsu, op2, 64, reg);
    }
}

/// Whether a mask keeps exactly the low bits.
pub open spec fn is_low_mask(mask: Number) -> bool {
    mask@ > 0 && mask.n & Number::nearest(mask@ + 1).n == 0
}

/// What a bitwise conjunction with a number does. It does nothing where the mask holds the values
/// of the register and the zone implies that they agree.
pub open spec fn masked(z0: ZEdges, reg: RegistryView, s: u64, u: u64, n: Number, z1: ZEdges) -> bool {
    let mo = zone_domain::min_only_of(reg);
    ||| within_mask(z0, s, u, n) && z1 == z0
        && exists|c: LinearConstraint| is_equation(&c, s, u) && #[trigger] zone_domain::entailed(z0, &c, mo)
    ||| (!within_mask(z0, s, u, n) || exists|c: LinearConstraint| is_equation(&c, s, u) && #[trigger] zone_domain::doubted(z0, &c, mo))
        && unsigned_applied(z0, reg, FiniteBinOp::Bitwise(BitwiseBinOp::AND), s, u, u, Operand::Num(n), 64, z1)
}

/// Whether both values of a register lie below a mask of low bits and agree, so that the mask
/// changes nothing.
pub open spec fn within_mask(z: ZEdges, s: u64, u: u64, mask: Number) -> bool {
    let m = Interval::of_bounds(ExtendedNumber::fin(0), ExtendedNumber::Finite(mask));
    let si = zone_model::zinterval(z, s);
    let ui = zone_model::zinterval(z, u);
    is_low_mask(mask) && si.included_spec(m) && ui.included_spec(m) && si.same(ui)
}

/// The constraint says that two variables are equal.
pub open spec fn is_equation(c: &LinearConstraint, a: u64, b: u64) -> bool {
    forall|env: Env| #[trigger] c.holds(env) == (env(a) == env(b))
}

/// The low `width` bits of `x * 2^shift`, for a shift below the width.
pub open spec fn shifted_up(x: int, shift: int, width: int) -> int {
    number::wrap_unsigned(x, width - shift) * pow2(shift as nat)
}

/// The interval of an unsigned value shifted left by a constant: nothing where the value is not
/// known to be an unsigned number of sixty-four bits.
pub open spec fn shl_interval(iv: Interval, imm: i32, width: int) -> Option<Interval> {
    match (iv.lb, iv.ub) {
        (ExtendedNumber::Finite(l), ExtendedNumber::Finite(u)) => {
            let shift = (imm as u32) as int;
            if !(0 <= l@ <= u64::MAX && 0 <= u@ <= u64::MAX) {
                None
            } else if shift >= width {
                let kept = shift % 64;
                Some(Interval::of_bounds(ExtendedNumber::fin(0),
                    ExtendedNumber::fin(if kept < width { shifted_up(pow2(width as nat) - 1, kept, width) } else { 0 })))
            } else if shift > 0 && l@ / (pow2((width - shift) as nat) as int) != u@ / (pow2((width - shift) as nat) as int) {
                Some(Interval::of_bounds(ExtendedNumber::fin(0), ExtendedNumber::fin(shifted_up(pow2(width as nat) - 1, shift, width))))
            } else {
                Some(Interval::of_bounds(ExtendedNumber::fin(shifted_up(l@, shift, width)), ExtendedNumber::fin(shifted_up(u@, shift, width))))
            }
        },
        _ => None,
    }
}

/// The interval of an unsigned value shifted right by a constant.
pub open spec fn lshr_interval(iv: Interval, imm: int, width: int) -> Interval {
    let d = pow2(imm as nat) as int;
    match (iv.lb, iv.ub) {
        (ExtendedNumber::Finite(l), ExtendedNumber::Finite(u)) => {
            let w = if width == 64 { 64int } else { 32int };
            let lo = if width == 64 { l@ } else { number::wrap_signed(l@, width) };
            let hi = if width == 64 { u@ } else { number::wrap_signed(u@, width) };
            Interval::of_bounds(ExtendedNumber::fin(number::wrap_unsigned(lo, w) / d), ExtendedNumber::fin(number::wrap_unsigned(hi, w) / d))
        },
        _ => Interval::of_bounds(ExtendedNumber::fin(0), ExtendedNumber::fin((pow2(64) - 1) / d)),
    }
}

/// The ends of the signed interval of a value shifted right by a constant with its sign.
pub open spec fn ashr_interval(left: Interval, imm: int, width: int) -> Interval {
    let d = pow2(imm as nat) as int;
    let all = Interval::of_bounds(ExtendedNumber::fin(i64::MIN as int / d), ExtendedNumber::fin(i64::MAX as int / d));
    match (left.lb, left.ub) {
        (ExtendedNumber::Finite(l), ExtendedNumber::Finite(u)) => {
            if width == 64 {
                Interval::of_bounds(ExtendedNumber::fin(number::wrap_signed(l@, 64) / d), ExtendedNumber::fin(number::wrap_signed(u@, 64) / d))
            } else {
                let lo = number::wrap_unsigned(number::wrap_signed(l@, width) / d, 32);
                let hi = number::wrap_unsigned(number::wrap_signed(u@, width) / d, 32);
                if lo <= hi { Interval::of_bounds(ExtendedNumber::fin(lo), ExtendedNumber::fin(hi)) } else { all }
            }
        },
        _ => all,
    }
}

/// The signed intervals of two compared values, and the nonnegative and negative part of the left
/// one.
pub struct Split {
    pub left: Interval,
    pub right: Interval,
    pub low: Interval,
    pub high: Interval,
}

/// Both values are already nonnegative, or already negative, numbers of thirty-two bits.
pub open spec fn same_signed_half(l: Interval, r: Interval) -> bool {
    ||| l.included_spec(Interval::nonnegative_spec(32)) && r.included_spec(Interval::nonnegative_spec(32))
    ||| l.included_spec(Interval::negative_spec(32)) && r.included_spec(Interval::negative_spec(32))
}

/// Both values lie in the lower, or both in the upper, half of the numbers of thirty-two bits.
pub open spec fn same_unsigned_half(l: Interval, r: Interval) -> bool {
    ||| l.included_spec(Interval::nonnegative_spec(32)) && r.included_spec(Interval::nonnegative_spec(32))
    ||| l.included_spec(Interval::unsigned_high_spec(32)) && r.included_spec(Interval::unsigned_high_spec(32))
}

/// The signed values of a comparison. `low` is the nonnegative part of the left value, `high` its
/// negative part.
pub open spec fn signed_split(z: ZEdges, is64: bool, s: u64, u: u64, right: Interval) -> Split {
    let l0 = zone_model::zinterval(z, s);
    let wide = is64 || same_signed_half(l0, right);
    let l1 = if wide { l0 } else { l0.sign_extend_spec(32) };
    let r1 = if wide { right } else { right.sign_extend_spec(32) };
    let w: int = if wide { 64 } else { 32 };
    let ui = zone_model::zinterval(z, u);
    let last = if l1.is_top_spec() { ui } else { l1 };
    let low = if !last.is_top_spec() { last.meet_spec(Interval::nonnegative_spec(w)) } else { Interval::nonnegative_spec(w) };
    let high = if !l1.is_top_spec() {
        l1.meet_spec(Interval::negative_spec(w))
    } else if !ui.is_top_spec() {
        Interval::of_bounds(ExtendedNumber::fin(-(pow2(63) as int)), ExtendedNumber::fin(match ui.ub {
            ExtendedNumber::Finite(n) => number::wrap_signed(n@, 64),
            _ => -1,
        }))
    } else {
        Interval::negative_spec(w)
    };
    Split { left: last.sign_extend_spec(64), right: r1.sign_extend_spec(64), low, high }
}

/// The unsigned values of a comparison. `low` is the part of the left value in the lower half of
/// the range, `high` the part in the upper half.
pub open spec fn unsigned_split(z: ZEdges, is64: bool, s: u64, u: u64, right: Interval) -> Split {
    let l0 = zone_model::zinterval(z, u);
    let wide = is64 || same_unsigned_half(l0, right);
    let l1 = if wide { l0 } else { l0.zero_extend_spec(32) };
    let r1 = if wide { right } else { right.zero_extend_spec(32) };
    let w: int = if wide { 64 } else { 32 };
    let si = zone_model::zinterval(z, s);
    let last = if l1.is_top_spec() { si } else { l1 };
    let low = if !l1.is_top_spec() {
        l1.meet_spec(Interval::nonnegative_spec(w))
    } else if !si.is_top_spec() {
        Interval::of_bounds(ExtendedNumber::fin(0), si.ub).zero_extend_spec(64)
    } else {
        Interval::nonnegative_spec(w)
    };
    let high = if !l1.is_top_spec() {
        l1.meet_spec(Interval::unsigned_high_spec(w))
    } else if !si.is_top_spec() {
        Interval::of_bounds(si.lb, ExtendedNumber::fin(-1)).zero_extend_spec(64)
    } else {
        Interval::unsigned_high_spec(w)
    };
    Split { left: last.zero_extend_spec(64), right: r1.zero_extend_spec(64), low, high }
}

/// The low bits of a number, shifted up.
fn shift_up(x: Number, shift: i32, width: i32) -> (r: Number)
    requires 0 <= shift < width <= 64,
    ensures r@ == shifted_up(x@, shift as int, width as int), 0 <= r@ <= u64::MAX,
{
    let low: Number = x.zero_extend(width - shift);
    let factor: Number = if shift == 0 { Number::of(1) } else { Number::max_uint(shift).add(Number::of(1)) };
    proof {
        number::lemma_wrap_range(x@, width - shift);
        number::lemma_pow2_127();
        let a = low@;
        let p = pow2(shift as nat) as int;
        let q = pow2((width - shift) as nat) as int;
        lemma_pow2_adds(shift as nat, (width - shift) as nat);
        if shift == 0 {
            lemma2_to64();
        } else {
            number::lemma_pow2_bounds(shift as nat);
        }
        if width < 64 {
            lemma_pow2_strictly_increases(width as nat, 64);
        }
        lemma_pow2_pos(shift as nat);
        if shift < 64 { lemma_pow2_strictly_increases(shift as nat, 64); }
        assert(0 <= a * p <= (q - 1) * p) by (nonlinear_arith) requires 0 <= a <= q - 1, p > 0;
        assert((q - 1) * p == p * q - p) by (nonlinear_arith);
    }
    low.mul(factor)
}

impl FiniteDomain {
    /// Splits the signed values of a comparison.
    pub(crate) fn get_signed_intervals(&self, is64: bool, left_svalue: Variable, left_uvalue: Variable, right_svalue: &LinearExpression, reg: &VariableRegistry) -> (r: (Interval, Interval, Interval, Interval))
        requires self.wf(),
        ensures
            ({
                let sp = signed_split(self.z(), is64, left_svalue.id, left_uvalue.id, zone_model::zeval(self.z(), right_svalue));
                r.0 == sp.left && r.1 == sp.right && r.2 == sp.low && r.3 == sp.high
            }),
    {
        let mut left = self.eval_interval(left_svalue, reg);
        let mut right = self.eval_interval_expr(right_svalue, reg);
        let mut wide: bool = is64;
        if !wide {
            if (left.is_included_in(&Interval::nonnegative(32)) && right.is_included_in(&Interval::nonnegative(32)))
                || (left.is_included_in(&Interval::negative(32)) && right.is_included_in(&Interval::negative(32)))
            {
                wide = true;
            } else {
                left = left.truncate_to_signed(32);
                right = right.truncate_to_signed(32);
            }
        }
        let width: i32 = if wide { 64 } else { 32 };
        let positive: Interval;
        let negative: Interval;
        if !left.is_top() {
            positive = left.meet(&Interval::nonnegative(width));
            negative = left.meet(&Interval::negative(width));
        } else {
            left = self.eval_interval(left_uvalue, reg);
            if !left.is_top() {
                positive = left.meet(&Interval::nonnegative(width));
                let top_end: Number = match left.ub {
                    ExtendedNumber::Finite(n) => n.sign_extend(64),
                    _ => Number::of(-1),
                };
                negative = Interval::from_number_pair(Number::min_int(64), top_end);
            } else {
                positive = Interval::nonnegative(width);
                negative = Interval::negative(width);
            }
        }
        (left.truncate_to_signed(64), right.truncate_to_signed(64), positive, negative)
    }

    /// Splits the unsigned values of a comparison.
    pub(crate) fn get_unsigned_intervals(&self, is64: bool, left_svalue: Variable, left_uvalue: Variable, right_uvalue: &LinearExpression, reg: &VariableRegistry) -> (r: (Interval, Interval, Interval, Interval))
        requires self.wf(),
        ensures
            ({
                let sp = unsigned_split(self.z(), is64, left_svalue.id, left_uvalue.id, zone_model::zeval(self.z(), right_uvalue));
                r.0 == sp.left && r.1 == sp.right && r.2 == sp.low && r.3 == sp.high
            }),
    {
        let mut left = self.eval_interval(left_uvalue, reg);
        let mut right = self.eval_interval_expr(right_uvalue, reg);
        let mut wide: bool = is64;
        if !wide {
            if (left.is_included_in(&Interval::nonnegative(32)) && right.is_included_in(&Interval::nonnegative(32)))
                || (left.is_included_in(&Interval::unsigned_high(32)) && right.is_included_in(&Interval::unsigned_high(32)))
            {
                wide = true;
            } else {
                left = left.truncate_to_unsigned(32);
                right = right.truncate_to_unsigned(32);
            }
        }
        let width: i32 = if wide { 64 } else { 32 };
        let low: Interval;
        let high: Interval;
        if !left.is_top() {
            low = left.meet(&Interval::nonnegative(width));
            high = left.meet(&Interval::unsigned_high(width));
        } else {
            left = self.eval_interval(left_svalue, reg);
            if !left.is_top() {
                low = Interval::new(ExtendedNumber::Finite(Number::of(0)), left.ub).truncate_to_unsigned(64);
                high = Interval::new(left.lb, ExtendedNumber::Finite(Number::of(-1))).truncate_to_unsigned(64);
            } else {
                low = Interval::nonnegative(width);
                high = Interval::unsigned_high(width);
            }
        }
        (left.truncate_to_unsigned(64), right.truncate_to_unsigned(64), low, high)
    }

    /// Bitwise conjunction with a number. A mask of low bits leaves a register alone whose values
    /// agree and lie below it.
    pub fn bitwise_and_num(&mut self, lhss: Variable, lhsu: Variable, op2: &Number, reg: &VariableRegistry)
        requires old(self).wf(), reg@.knows(lhss), reg@.knows(lhsu),
        ensures
            final(self).wf(),
            masked(old(self).z(), reg@, lhss.id, lhsu.id, *op2, final(self).z()),
    {
        let mask: Number = *op2;
        if mask.is_positive() {
            let mask_plus: Number = mask.add(Number::of(1));
            if mask.bit_and(mask_plus).is_zero() {
                let mask_interval = Interval::from_number_pair(Number::of(0), mask);
                let sinterval = self.eval_interval(lhss, reg);
                let uinterval = self.eval_interval(lhsu, reg);
                if sinterval.is_included_in(&mask_interval) && uinterval.is_included_in(&mask_interval) && sinterval == uinterval {
                    let c = eq(lhss, lhsu);
                    assert(zone_domain::knows_terms(reg@, c.expression.terms@));
                    assert(is_equation(&c, lhss.id, lhsu.id));
                    if self.dom.entail(&c, reg) {
                        return;
                    }
                }
            }
        }
        self.apply_unsigned_var_num(FiniteBinOp::Bitwise(BitwiseBinOp::AND), lhss, lhsu, lhsu, op2, 64, reg);
    }

    /// Left shift by a constant. Where the value is not known to be an unsigned number of
    /// sixty-four bits, the general shift is used.
    pub fn shl(&mut self, svalue: Variable, uvalue: Variable, imm: i32, finite_width: i32, reg: &VariableRegistry)
        requires old(self).wf(), reg@.knows(svalue), reg@.knows(uvalue), finite_width == 32 || finite_width == 64,
        ensures
            final(self).wf(),
            match shl_interval(zone_model::zinterval(old(self).z(), uvalue.id), imm, finite_width as int) {
                None => unsigned_applied(old(self).z(), reg@, FiniteBinOp::Bitwise(BitwiseBinOp::SHL), svalue.id, uvalue.id, uvalue.id,
                    Operand::Num(Number { n: imm as i128 }), 64, final(self).z()),
                Some(iv) => mirrored(zone_model::zput(old(self).z(), uvalue.id, iv, reg@.min_only(uvalue)), reg@,
                    uvalue.id, svalue.id, svalue.id, uvalue.id, finite_width as int, final(self).z()),
            },
    {
        let uinterval = self.eval_interval(uvalue, reg);
        let shift: u32 = imm as u32;
        if let (ExtendedNumber::Finite(l), ExtendedNumber::Finite(u)) = (uinterval.lb, uinterval.ub) {
            if l.n >= 0 && l.n <= u64::MAX as i128 && u.n >= 0 && u.n <= u64::MAX as i128 {
                let result: Interval;
                if shift >= finite_width as u32 {
                    let kept: i32 = (shift % 64) as i32;
                    let top_end: Number = if kept < finite_width { shift_up(Number::max_uint(finite_width), kept, finite_width) } else { Number::of(0) };
                    result = Interval::from_number_pair(Number::of(0), top_end);
                } else {
                    let by: i32 = shift as i32;
                    let rest: u32 = (finite_width - by) as u32;
                    if by > 0 && l.shr(rest).n != u.shr(rest).n {
                        result = Interval::from_number_pair(Number::of(0), shift_up(Number::max_uint(finite_width), by, finite_width));
                    } else {
                        result = Interval::from_number_pair(shift_up(l, by, finite_width), shift_up(u, by, finite_width));
                    }
                }
                self.dom.put(uvalue, &result, reg);
                self.mirror(uvalue, svalue, svalue, uvalue, finite_width, reg);
                return;
            }
        }
        self.shl_overflow_num(svalue, uvalue, &Number::of(imm as i128), reg);
    }

    /// Right shift by a constant, filling with zeros.
    pub fn lshr(&mut self, svalue: Variable, uvalue: Variable, imm: i32, finite_width: i32, reg: &VariableRegistry)
        requires old(self).wf(), reg@.knows(svalue), reg@.knows(uvalue), 1 <= finite_width <= 64, 0 <= imm < 64,
        ensures
            final(self).wf(),
            mirrored(zone_model::zput(old(self).z(), uvalue.id,
                    lshr_interval(zone_model::zinterval(old(self).z(), uvalue.id), imm as int, finite_width as int), reg@.min_only(uvalue)),
                reg@, uvalue.id, svalue.id, svalue.id, uvalue.id, finite_width as int, final(self).z()),
    {
        let uinterval = self.eval_interval(uvalue, reg);
        let result: Interval;
        if let (ExtendedNumber::Finite(l), ExtendedNumber::Finite(u)) = (uinterval.lb, uinterval.ub) {
            if finite_width == 64 {
                result = Interval::from_number_pair(l.cast_to_unsigned_width(64).shr(imm as u32), u.cast_to_unsigned_width(64).shr(imm as u32));
            } else {
                let lw: Number = l.cast_to_signed_width(finite_width as u32);
                let uw: Number = u.cast_to_signed_width(finite_width as u32);
                result = Interval::from_number_pair(lw.cast_to_unsigned_width(32).shr(imm as u32), uw.cast_to_unsigned_width(32).shr(imm as u32));
            }
        } else {
            result = Interval::from_number_pair(Number::of(0), Number::max_uint(64).shr(imm as u32));
        }
        self.dom.put(uvalue, &result, reg);
        self.mirror(uvalue, svalue, svalue, uvalue, finite_width, reg);
    }

    /// Right shift with the sign. The register is forgotten where the count is not known.
    pub fn ashr(&mut self, svalue: Variable, uvalue: Variable, right_svalue: &LinearExpression, finite_width: i32, reg: &VariableRegistry)
        requires old(self).wf(), reg@.knows(svalue), reg@.knows(uvalue), finite_width == 32 || finite_width == 64,
        ensures
            final(self).wf(),
            ({
                let sp = signed_split(old(self).z(), finite_width == 64, svalue.id, uvalue.id, zone_model::zeval(old(self).z(), right_svalue));
                match sp.right.singleton_spec() {
                    Some(n) => mirrored(zone_model::zput(old(self).z(), svalue.id,
                            ashr_interval(sp.left, number::wrap_signed(n@, 64) % (finite_width as int), finite_width as int), reg@.min_only(svalue)),
                        reg@, svalue.id, uvalue.id, svalue.id, uvalue.id, finite_width as int, final(self).z()),
                    None => final(self).z() == zone_model::zwithout(zone_model::zwithout(old(self).z(), zone_model::node(svalue.id)), zone_model::node(uvalue.id)),
                }
            }),
    {
        let (left, right, _low, _high) = self.get_signed_intervals(finite_width == 64, svalue, uvalue, right_svalue, reg);
        match right.singleton() {
            Some(n) => {
                let m: Number = n.cast_to_signed_width(64);
                let imm: u32 = (m.zero_extend(if finite_width == 64 { 6 } else { 5 })).n as u32;
                proof {
                    lemma2_to64();
                    number::lemma_wrap_range(m@, if finite_width == 64 { 6 } else { 5 });
                    assert(imm == number::wrap_signed(n@, 64) % (finite_width as int));
                }
                let all = Interval::from_number_pair(Number::of(i64::MIN as i128).shr(imm), Number::of(i64::MAX as i128).shr(imm));
                let mut result = all;
                if let (ExtendedNumber::Finite(l), ExtendedNumber::Finite(u)) = (left.lb, left.ub) {
                    if finite_width == 64 {
                        result = Interval::from_number_pair(l.cast_to_signed_width(64).shr(imm), u.cast_to_signed_width(64).shr(imm));
                    } else {
                        let lw: Number = l.cast_to_signed_width(finite_width as u32).shr(imm).cast_to_unsigned_width(32);
                        let uw: Number = u.cast_to_signed_width(finite_width as u32).shr(imm).cast_to_unsigned_width(32);
                        if lw.le(uw) {
                            result = Interval::from_number_pair(lw, uw);
                        }
                    }
                }
                self.dom.put(svalue, &result, reg);
                self.mirror(svalue, uvalue, svalue, uvalue, finite_width, reg);
            }
            None => {
                self.dom.havoc(svalue);
                self.dom.havoc(uvalue);
            }
        }
    }

    /// Sign extension of a value of `source_width` bits.
    pub fn sign_extend(&mut self, svalue: Variable, uvalue: Variable, right_svalue: &LinearExpression, target_width: i32, source_width: i32, reg: &VariableRegistry)
        requires old(self).wf(), reg@.knows(svalue), reg@.knows(uvalue), 1 <= target_width <= 64, 1 <= source_width <= 64,
        ensures
            final(self).wf(),
            mirrored(zone_model::zput(old(self).z(), svalue.id,
                    zone_model::zeval(old(self).z(), right_svalue).sign_extend_spec(source_width as int), reg@.min_only(svalue)),
                reg@, svalue.id, uvalue.id, svalue.id, uvalue.id, target_width as int, final(self).z()),
    {
        let extended = self.eval_interval_expr(right_svalue, reg).sign_extend(source_width);
        self.dom.put(svalue, &extended, reg);
        self.mirror(svalue, uvalue, svalue, uvalue, target_width, reg);
    }

    /// Adds a constraint; false where it contradicts the others.
    pub fn add_constraint(&mut self, cst: &LinearConstraint, reg: &VariableRegistry) -> (r: bool)
        requires old(self).wf(), zone_domain::knows_terms(reg@, cst.expression.terms@),
        ensures
            final(self).wf(),
            r ==> zone_domain::constraint_added(old(self).z(), cst, zone_domain::min_only_of(reg@), final(self).z()),
            !r ==> zone_domain::constraint_refuted(old(self).z(), cst, zone_domain::min_only_of(reg@)),
            cst.is_tautology_spec() ==> r,
            cst.is_contradiction_spec() ==> !r,
    {
        self.dom.add_constraint(cst, reg)
    }

    /// Replaces the bounds of a variable by those of a nonempty interval.
    pub fn set(&mut self, x: Variable, intv: &Interval, reg: &VariableRegistry)
        requires old(self).wf(), reg@.knows(x), !intv.is_empty_spec(),
        ensures final(self).wf(), final(self).z() == zone_model::zput(old(self).z(), x.id, *intv, reg@.min_only(x)),
    {
        self.dom.set(x, intv, reg);
    }

    /// Forgets a variable.
    pub fn havoc(&mut self, v: Variable)
        requires old(self).wf(),
        ensures
            final(self).wf(),
            final(self).z() == zone_model::zwithout(old(self).z(), zone_model::node(v.id)),
            final(self).dom.held() == old(self).dom.held().remove(v.id),
    {
        self.dom.havoc(v);
    }

    /// Gives variables other names, in turn.
    pub fn rename(&mut self, renaming: &[(Variable, Variable)])
        requires old(self).wf(),
        ensures final(self).wf(), final(self).z() == zone_model::zrenamed_all(old(self).z(), renaming@, renaming@.len()),
    {
        self.dom.rename(renaming);
    }

    /// The number of vertex slots and of edges.
    pub fn size(&self) -> (r: (usize, usize))
        requires self.wf(),
        ensures r.0 == self.dom.slot_count(), r.1 == self.dom.edge_count(),
    {
        self.dom.size()
    }

    /// Whether a constraint may hold together with the others.
    pub fn intersect(&self, cst: &LinearConstraint, reg: &VariableRegistry) -> (r: bool)
        requires self.wf(), zone_domain::knows_terms(reg@, cst.expression.terms@),
        ensures
            !r ==> zone_domain::constraint_refuted(self.z(), cst, zone_domain::min_only_of(reg@)),
            cst.is_contradiction_spec() ==> !r,
            cst.is_tautology_spec() ==> r,
            self.z() == ZEdges::empty() && !cst.is_contradiction_spec() ==> r,
            r ==> self.z() == ZEdges::empty() || zone_domain::addable(self.z(), cst, zone_domain::min_only_of(reg@)),
    {
        self.dom.intersect(cst, reg)
    }

    /// Whether the constraints imply another.
    pub fn entail(&self, rhs: &LinearConstraint, reg: &VariableRegistry) -> (r: bool)
        requires self.wf(), zone_domain::knows_terms(reg@, rhs.expression.terms@),
        ensures
            r ==> zone_domain::entailed(self.z(), rhs, zone_domain::min_only_of(reg@)),
            rhs.is_tautology_spec() ==> r,
            rhs.is_contradiction_spec() ==> !r,
            !rhs.is_contradiction_spec() && zone_domain::interval_proves(zone_model::zeval(self.z(), &rhs.expression), rhs.kind) ==> r,
            !r ==> zone_domain::doubted(self.z(), rhs, zone_domain::min_only_of(reg@)),
    {
        self.dom.entail(rhs, reg)
    }

    /// The constraints as lines of text.
    pub fn to_set(&self, reg: &VariableRegistry) -> (r: StringInvariant)
        requires self.wf(), forall|k: u64| #[trigger] self.dom.held().contains(k) ==> k < reg@.size(),
        ensures
            r.content() is Some,
            forall|l: Seq<char>| #[trigger] r.has(l) <==> zone_text::zone_line(self.z(), reg@, l),
    {
        self.dom.to_set(reg)
    }

    /// A copy of the domain.
    pub fn copy(&self) -> (r: Self)
        requires self.wf(),
        ensures r.wf(), r.z() == self.z(), r.dom.held() == self.dom.held(),
    {
        FiniteDomain { dom: self.dom.copy() }
    }
}

impl Default for FiniteDomain {
    fn default() -> (r: Self)
        ensures r.wf(), r.z() == ZEdges::empty(),
    {
        Self::new()
    }
}

}
