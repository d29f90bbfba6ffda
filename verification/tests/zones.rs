use crab::arith::linear_constraint::{eq, geq, gt, leq, lt};
use crab::arith::linear_expression::LinearExpression;
use crab::arith::number::Number;
use crab::arith::variable::Variable;
use crab::array_domain::{ArrayDomain, Cell};
use crab::add_bottom::AddBottom;
use crab::finite_domain::FiniteDomain;
use crab::interval::Interval;
use crab::rcp::TypeToNumDomain;
use crab::splitdbm::graph::AdaptGraph;
use crab::syntax::{ConditionOp, Reg};
use crab::type_domain::TypeDomain;
use crab::type_encoding::{DataKind, TypeEncoding};
use crab::var_id_map::VarIdMap;
use crab::var_registry::VariableRegistry;
use crab::zone_domain::ZoneDomain;
use crab::bitset_domain::BitsetDomain;
use crab::dsu::DisjointSetUnion;

fn var(v: Variable) -> LinearExpression {
    LinearExpression::from_variable(v)
}

fn num(x: i64) -> LinearExpression {
    LinearExpression::from_i64(x)
}

struct Three {
    reg: VariableRegistry,
    x: Variable,
    y: Variable,
    z: Variable,
}

fn three() -> Three {
    let mut reg = VariableRegistry::new();
    let x = reg.reg(DataKind::Svalues, 1);
    let y = reg.reg(DataKind::Svalues, 2);
    let z = reg.reg(DataKind::Svalues, 3);
    Three { reg, x, y, z }
}

fn shown(d: &ZoneDomain, v: Variable, reg: &VariableRegistry) -> String {
    d.eval_interval_var(v, reg).to_string()
}

#[test]
fn bounds_follow_from_differences() {
    let t = three();
    let mut d = ZoneDomain::new();
    assert!(d.is_top());
    assert!(d.add_constraint(&leq(var(t.x), num(10)), &t.reg));
    assert!(d.add_constraint(&leq(var(t.y), var(t.x).plus(&num(-3))), &t.reg));
    assert!(d.add_constraint(&geq(var(t.y), num(0)), &t.reg));
    assert_eq!(shown(&d, t.y, &t.reg), "[0, 7]");
    assert_eq!(shown(&d, t.x, &t.reg), "[3, 10]");
    assert!(d.entail(&lt(var(t.y), var(t.x)), &t.reg));
    assert!(!d.entail(&lt(var(t.y), num(7)), &t.reg));
    assert!(!d.intersect(&gt(var(t.y), var(t.x)), &t.reg));
    assert!(d.implies(&leq(var(t.x), num(5)), &leq(var(t.y), num(2)), &t.reg));
    let mut e = d.copy();
    assert!(!e.add_constraint(&gt(var(t.y), num(7)), &t.reg));
    assert_eq!(d.to_string(), "<ZoneDomain>");
}

#[test]
fn assignments_move_values() {
    let t = three();
    let mut d = ZoneDomain::new();
    d.assign_number(t.x, 5, &t.reg);
    d.assign(t.y, &var(t.x).plus(&num(2)), &t.reg);
    assert_eq!(d.eval_interval_var(t.y, &t.reg).singleton(), Some(Number::of(7)));
    d.assign(t.x, &var(t.x).plus(&num(1)), &t.reg);
    assert_eq!(d.eval_interval_var(t.x, &t.reg).singleton(), Some(Number::of(6)));
    d.assign_variable(t.z, t.y, &t.reg);
    assert_eq!(d.eval_interval_var(t.z, &t.reg).singleton(), Some(Number::of(7)));
    d.havoc(t.y);
    assert!(d.eval_interval_var(t.y, &t.reg).is_top());
    let lines = d.to_set(&t.reg);
    assert!(lines.contains("r1.svalue=6"));
    assert!(lines.contains("r3.svalue=7"));
    d.rename(&[(t.z, t.y)]);
    assert!(d.eval_interval_var(t.z, &t.reg).is_top());
    assert_eq!(d.eval_interval_var(t.y, &t.reg).singleton(), Some(Number::of(7)));
    d.forget(&[t.x, t.y]);
    assert!(d.is_top());
}

#[test]
fn joins_and_meets() {
    let t = three();
    let mut a = ZoneDomain::new();
    a.set(t.x, &Interval::from_i64_pair(0, 4), &t.reg);
    a.assign(t.y, &var(t.x).plus(&num(1)), &t.reg);
    let mut b = ZoneDomain::new();
    b.set(t.x, &Interval::from_i64_pair(10, 12), &t.reg);
    b.assign(t.y, &var(t.x).plus(&num(1)), &t.reg);
    let j = a.join(&b);
    assert_eq!(shown(&j, t.x, &t.reg), "[0, 12]");
    assert!(j.entail(&expr(&t), &t.reg));
    assert!(a.is_included_in(&j) && b.is_included_in(&j));
    assert!(!j.is_included_in(&a));
    assert!(a.meet(&b).is_none());
    let m = j.meet(&a).unwrap();
    assert_eq!(shown(&m, t.x, &t.reg), "[0, 4]");
    let w = a.widen(&j);
    assert_eq!(shown(&w, t.x, &t.reg), "[0, +oo]");
    assert!(w.entail(&expr(&t), &t.reg));
    let n = w.narrow_op(&j);
    assert_eq!(shown(&n, t.x, &t.reg), "[0, +oo]");
}

fn expr(t: &Three) -> crab::arith::linear_constraint::LinearConstraint {
    crab::arith::linear_constraint::expr_eq(var(t.y), var(t.x).plus(&num(1)))
}

#[test]
fn packet_sizes_have_no_upper_bound() {
    let mut t = three();
    let p = t.reg.packet_size();
    let mut d = ZoneDomain::new();
    d.set(p, &Interval::from_i64_pair(3, 9), &t.reg);
    assert_eq!(shown(&d, p, &t.reg), "[3, +oo]");
}

#[test]
fn disequations_cut_ends() {
    let t = three();
    let mut d = ZoneDomain::new();
    d.set(t.x, &Interval::from_i64_pair(0, 4), &t.reg);
    let not_zero = crab::arith::linear_constraint::LinearConstraint::new(var(t.x), crab::arith::linear_constraint::ConstraintKind::NotZero);
    assert!(d.add_constraint(&not_zero, &t.reg));
    assert_eq!(shown(&d, t.x, &t.reg), "[1, 4]");
    assert!(d.add_constraint(&eq(t.x, t.y), &t.reg));
    assert_eq!(shown(&d, t.y, &t.reg), "[1, 4]");
}

#[test]
fn bottom_adds_nothing() {
    let t = three();
    let mut a = AddBottom::top();
    a.assign_i64(t.x, 3, &t.reg);
    let j = AddBottom::bottom().join(&a);
    assert_eq!(j.eval_interval_var(t.x, &t.reg).singleton(), Some(Number::of(3)));
    assert!(AddBottom::bottom().meet(&a).is_bottom());
    assert!(AddBottom::bottom().is_included_in(&a));
    assert!(!a.is_included_in(&AddBottom::bottom()));
    assert!(a.when(&lt(var(t.x), num(3)), &t.reg).is_bottom());
    a.set(t.x, &Interval::bottom(), &t.reg);
    assert!(a.is_bottom());
    assert!(a.eval_interval_var(t.x, &t.reg).is_bottom());
    assert_eq!(a.to_string(), "_|_");
}

#[test]
fn what_one_side_knows_of_a_type_stays() {
    let mut reg = VariableRegistry::new();
    let r1 = Reg { v: 1 };
    let offset = reg.reg(DataKind::CtxOffsets, 1);
    let mut a = TypeToNumDomain::new();
    a.assign_type_encoding(&r1, TypeEncoding::TCtx, &mut reg);
    a.values.assign_i64(offset, 4, &reg);
    let mut b = TypeToNumDomain::new();
    b.assign_type_encoding(&r1, TypeEncoding::TNum, &mut reg);
    assert_eq!(a.get_type_offset_variable(&r1, &mut reg), Some(offset));
    assert_eq!(b.get_type_offset_variable(&r1, &mut reg), None);
    let mut j = a.copy();
    j.join_assign(&b, &mut reg);
    assert_eq!(j.values.eval_interval_var(offset, &reg).singleton(), Some(Number::of(4)));
    assert_eq!(j.enumerate_types(&r1, &mut reg), vec![TypeEncoding::TNum, TypeEncoding::TCtx]);
    let branches = j.type_branches(&r1, &mut reg);
    assert_eq!(branches.len(), 2);
    assert!(branches[0].1.values.eval_interval_var(offset, &reg).is_top());
    assert_eq!(branches[1].1.values.eval_interval_var(offset, &reg).singleton(), Some(Number::of(4)));
    assert!(a.is_included_in(&j, &mut reg));
    assert!(b.is_included_in(&j, &mut reg));
    assert!(a.meet(&b).is_bottom());
    let r2 = Reg { v: 2 };
    a.assign_reg(&r2, &r1, &mut reg);
    assert_eq!(a.types.get_type(&r2, &mut reg), Some(TypeEncoding::TCtx));
    let other = reg.reg(DataKind::CtxOffsets, 2);
    assert_eq!(a.values.eval_interval_var(other, &reg).singleton(), Some(Number::of(4)));
    a.havoc_all_locations_having_type(TypeEncoding::TCtx, &mut reg);
    assert_eq!(a.types.get_type(&r1, &mut reg), None);
    assert!(a.values.eval_interval_var(offset, &reg).is_top());
}

#[test]
fn stored_cells_are_read_back() {
    let mut reg = VariableRegistry::new();
    let mut stack = ArrayDomain::new(512);
    let mut values = AddBottom::top();
    let at = Interval::from_i64(8);
    let eight = Interval::from_i64(8);
    let v = stack.store(&mut values, DataKind::Svalues, &at, &eight, &mut reg, false).unwrap();
    assert_eq!(reg.name(v), "s[8...15].svalue");
    values.assign_i64(v, 77, &reg);
    let e = stack.load(&values, DataKind::Svalues, &at, 8, &mut reg, false).unwrap();
    assert_eq!(values.eval_interval(&e, &reg).singleton(), Some(Number::of(77)));
    stack.havoc(&mut values, DataKind::Svalues, &Interval::from_i64(10), &Interval::from_i64(2), &mut reg, false);
    assert!(values.eval_interval_var(v, &reg).is_top());
    assert!(stack.cells().get(&DataKind::Svalues).unwrap().get_cell(8, 8).is_none());
    let again = stack.load(&values, DataKind::Svalues, &at, 8, &mut reg, false).unwrap();
    assert!(values.eval_interval(&again, &reg).is_top());
    assert!(stack.load(&values, DataKind::Svalues, &Interval::from_i64_pair(0, 8), 8, &mut reg, false).is_none());
    let symbolic = stack.store(&mut values, DataKind::Svalues, &Interval::from_i64_pair(0, 100), &eight, &mut reg, false);
    assert!(symbolic.is_none());
    assert!(stack.cells().get(&DataKind::Svalues).unwrap().get_cell(8, 8).is_none());
}

#[test]
fn types_on_the_stack() {
    let mut reg = VariableRegistry::new();
    let mut stack = ArrayDomain::new(64);
    let mut types = TypeDomain::top();
    let at = Interval::from_i64(8);
    let eight = Interval::from_i64(8);
    let v = stack.store_type(&mut types, &at, &eight, false, &mut reg).unwrap();
    assert_eq!(reg.name(v), "s[8...15].type");
    assert!(stack.load_type(&at, 8, &mut reg).is_some());
    assert!(stack.load_type(&at, 4, &mut reg).is_none());
    stack.store_numbers(&at, &eight);
    assert!(stack.all_num_width(&at, &eight));
    assert!(stack.load_type(&Interval::from_i64_pair(8, 12), 4, &mut reg).unwrap().is_constant());
    assert!(!stack.all_num_lb_ub(&at, &Interval::from_i64(17)));
    stack.initialize_numbers(20, 4);
    assert_eq!(stack.to_string(), "Numbers -> {[8...15], [20...23]}");
    stack.havoc_type(&mut types, &Interval::from_i64(10), &Interval::from_i64(1), &mut reg);
    assert_eq!(stack.to_string(), "Numbers -> {[8...9], [11...15], [20...23]}");
    let lines = stack.to_set();
    assert!(lines.contains("s[8...9].type=number"));
    let mut values = AddBottom::top();
    let offset = reg.reg(DataKind::StackOffsets, 1);
    values.assign_i64(offset, 11, &reg);
    assert_eq!(stack.min_all_num_size(&values, offset, &reg), 5);
    assert_eq!(stack.total_stack_size(), 64);
    let other = ArrayDomain::new(64);
    assert!(stack.is_included_in(&other));
    assert!(stack.join(&other).is_top());
    assert_eq!(stack.meet(&other).to_string(), stack.to_string());
    assert_eq!(Cell::new(3, 2), Cell { offset: 3, size: 2 });
}

#[test]
fn bitsets_as_values() {
    let mut a = BitsetDomain::new(16);
    a.reset(2, 3);
    let mut b = BitsetDomain::new(16);
    b.reset(3, 4);
    assert!(!a.same(&b));
    a.join_assign(&b);
    assert!(a.to_set().contains("s[3...4].type=number"));
    assert!(a.copy().same(&a));
    assert_eq!(a.widen(&b).to_string(), "Numbers -> {[3...4]}");
    assert_eq!(a.narrow(&b).to_string(), "Numbers -> {[3...6]}");
    assert_eq!(a.all_num_width(20), 0);
    a.set_to_bottom();
    assert!(!a.is_top());
    assert!(!a.is_bottom());
}

#[test]
fn maps_from_variables() {
    let mut m = VarIdMap::new(2);
    let v = Variable::new(5);
    m.insert(v, 1);
    assert_eq!(m.find_id(v), Some(1));
    assert!(m.id_is_live(1) && !m.id_is_live(0));
    assert_eq!(m.vars(), vec![(v, 1)]);
    m.remove(v);
    assert!(!m.contains(v));
    assert_eq!(m.id_capacity(), 2);
    let mut d = DisjointSetUnion::new(2);
    d.union(0, 1);
    assert_eq!(d.find_const(0), d.find_const(1));
}

#[test]
fn contradictions_are_refused() {
    let t = three();
    let mut d = ZoneDomain::new();
    assert!(d.add_constraint(&leq(var(t.x), num(5)), &t.reg));
    let mut e = d.copy();
    assert!(!e.add_constraint(&geq(var(t.x), num(6)), &t.reg));
    assert!(d.add_constraint(&geq(var(t.x), num(5)), &t.reg));
    let mut c = ZoneDomain::new();
    assert!(c.add_constraint(&lt(var(t.x), var(t.y)), &t.reg));
    assert!(c.add_constraint(&lt(var(t.y), var(t.z)), &t.reg));
    assert!(!c.add_constraint(&lt(var(t.z), var(t.x)), &t.reg));
    let mut low = ZoneDomain::new();
    low.set(t.x, &Interval::from_i64_pair(0, 3), &t.reg);
    let mut high = ZoneDomain::new();
    high.set(t.x, &Interval::from_i64_pair(4, 9), &t.reg);
    assert!(low.meet(&high).is_none());
    assert!(!low.intersect(&gt(var(t.x), num(3)), &t.reg));
    assert!(low.intersect(&gt(var(t.x), num(2)), &t.reg));
    assert!(!low.entail(&leq(var(t.x), num(2)), &t.reg));
    assert!(low.entail(&leq(var(t.x), num(3)), &t.reg));
}

fn holds(op: ConditionOp, is64: bool, a: i64, b: i64) -> bool {
    let (ls, rs) = if is64 { (a, b) } else { (a as i32 as i64, b as i32 as i64) };
    let (lu, ru) = if is64 { (a as u64, b as u64) } else { (a as u32 as u64, b as u32 as u64) };
    match op {
        ConditionOp::EQ => lu == ru,
        ConditionOp::NE => lu != ru,
        ConditionOp::SGE => ls >= rs,
        ConditionOp::SLE => ls <= rs,
        ConditionOp::SGT => ls > rs,
        ConditionOp::SLT => ls < rs,
        ConditionOp::GE => lu >= ru,
        ConditionOp::LE => lu <= ru,
        ConditionOp::GT => lu > ru,
        ConditionOp::LT => lu < ru,
        ConditionOp::SET => lu & ru != 0,
        ConditionOp::NSET => lu & ru == 0,
    }
}

#[test]
fn comparisons_keep_the_values_that_compare_so() {
    let mut reg = VariableRegistry::new();
    let s = reg.reg(DataKind::Svalues, 1);
    let u = reg.reg(DataKind::Uvalues, 1);
    let qs = reg.reg(DataKind::Svalues, 2);
    let qu = reg.reg(DataKind::Uvalues, 2);
    let ops = [ConditionOp::EQ, ConditionOp::NE, ConditionOp::SGE, ConditionOp::SLE, ConditionOp::SGT, ConditionOp::SLT,
        ConditionOp::GE, ConditionOp::LE, ConditionOp::GT, ConditionOp::LT, ConditionOp::SET, ConditionOp::NSET];
    let values = [0i64, 1, -1, 7, -8, i32::MAX as i64, i32::MIN as i64, 1 << 32, (1 << 32) + 7, i64::MAX, i64::MIN];
    for op in ops {
        for is64 in [true, false] {
            for a in values {
                for b in values {
                    for slack in [0i64, 3] {
                        let mut d = AddBottom::top();
                        if slack == 0 {
                            d.assign_i64(s, a, &reg);
                            d.set(u, &Interval::from_u64(a as u64), &reg);
                        }
                        let mut e = AddBottom::top();
                        e.assign_i64(s, a, &reg);
                        e.set(u, &Interval::from_u64(a as u64), &reg);
                        for c in d.assume_cst_imm(op, is64, s, u, b, &reg) {
                            e.add_constraint(&c, &reg);
                        }
                        if holds(op, is64, a, b) {
                            assert!(!e.is_bottom());
                        } else if slack == 0 && is64 {
                            assert!(e.is_bottom());
                        }
                        let mut f = AddBottom::top();
                        f.assign_i64(s, a, &reg);
                        f.set(u, &Interval::from_u64(a as u64), &reg);
                        f.assign_i64(qs, b, &reg);
                        f.set(qu, &Interval::from_u64(b as u64), &reg);
                        for c in d.assume_cst_reg(op, is64, s, u, qs, qu, &reg) {
                            f.add_constraint(&c, &reg);
                        }
                        if holds(op, is64, a, b) {
                            assert!(!f.is_bottom());
                        }
                    }
                }
            }
        }
    }
}

#[test]
fn graphs_as_text() {
    let mut g = AdaptGraph::new();
    assert_eq!(g.to_string(), "[||]");
    let a = g.new_vertex();
    let b = g.new_vertex();
    let c = g.new_vertex();
    g.add_edge(a, Number::of(5), b);
    g.add_edge(a, Number::of(-3), c);
    g.add_edge(c, Number::of(0), a);
    assert_eq!(g.to_string(), "[|[v0 -> (5:1), (-3:2)], [v2 -> (0:0)]|]");
    assert_eq!(g.succs_len(a), 2);
    assert_eq!(g.preds_len(b), 1);
    assert_eq!(g.e_succs(a).len(), 2);
    assert_eq!(g.e_succs(a)[1].vert, c);
}

#[test]
fn registers_wrap() {
    let mut reg = VariableRegistry::new();
    let s = reg.reg(DataKind::Svalues, 1);
    let u = reg.reg(DataKind::Uvalues, 1);
    let start = |a: i64| {
        let mut d = FiniteDomain::new();
        d.assign_i64(s, a, &reg);
        d.set(u, &Interval::from_u64(a as u64), &reg);
        d
    };
    let seen = |d: &FiniteDomain| (d.eval_interval(s, &reg).singleton().unwrap(), d.eval_interval(u, &reg).singleton().unwrap());
    let both = |a: i64| (Number::of(a as i128), Number::of(a as u64 as i128));
    let low = |a: u32| (Number::of(a as i128), Number::of(a as i128));
    for a in [0i64, 1, -1, 5, -9, i64::MAX, i64::MIN, 1 << 32, -(1 << 31)] {
        for b in [0i64, 1, -1, 7, -3, 1000] {
            let mut d = start(a);
            d.add_overflow_num(s, u, &Number::of(b as i128), 64, &reg);
            assert_eq!(seen(&d), both(a.wrapping_add(b)));
            let mut d = start(a);
            d.sub_overflow_num(s, u, &Number::of(b as i128), 64, &reg);
            assert_eq!(seen(&d), both(a.wrapping_sub(b)));
            let mut d = start(a);
            d.mul_num(s, u, &Number::of(b as i128), 64, &reg);
            assert_eq!(seen(&d), both(a.wrapping_mul(b)));
            let mut d = start(a);
            d.add_overflow_num(s, u, &Number::of(b as i128), 32, &reg);
            assert_eq!(seen(&d), low((a as u32).wrapping_add(b as u32)));
            if b != 0 {
                let mut d = start(a);
                d.srem_num(s, u, &Number::of(b as i128), 64, &reg);
                assert_eq!(seen(&d), both(a.wrapping_rem(b)));
            }
            if b > 0 {
                let mut d = start(a);
                d.udiv_num(s, u, &Number::of(b as i128), 64, &reg);
                assert_eq!(seen(&d), both((a as u64 / b as u64) as i64));
                let mut d = start(a);
                d.urem_num(s, u, &Number::of(b as i128), 64, &reg);
                assert_eq!(seen(&d), both((a as u64 % b as u64) as i64));
            }
            let mut d = start(a);
            d.bitwise_or_num(s, u, &Number::of(b as i128), &reg);
            assert_eq!(seen(&d), both(a | b));
            let mut d = start(a);
            d.bitwise_xor_num(s, u, &Number::of(b as i128), &reg);
            assert_eq!(seen(&d), both(a ^ b));
            let mut d = start(a);
            d.bitwise_and_num(s, u, &Number::of(b as i128), &reg);
            assert_eq!(seen(&d), both(a & b));
        }
    }
}

#[test]
fn cells_of_a_kind_can_be_changed() {
    let mut stack = ArrayDomain::new(64);
    assert!(stack.cells_mut().get_mut(&DataKind::Svalues).is_none());
    stack.cells_mut().entry_or_default(DataKind::Svalues);
    stack.cells_mut().get_mut(&DataKind::Svalues).unwrap().mk_cell(8, 4);
    assert_eq!(stack.cells().get(&DataKind::Svalues).unwrap().get_cell(8, 4), Some(Cell::new(8, 4)));
}

#[test]
fn joins_join_intervals() {
    let t = three();
    let mut a = AddBottom::top();
    a.set(t.x, &Interval::from_i64_pair(0, 4), &t.reg);
    a.set(t.y, &Interval::from_i64_pair(1, 2), &t.reg);
    let mut b = AddBottom::top();
    b.set(t.x, &Interval::from_i64_pair(3, 9), &t.reg);
    let j = a.join(&b);
    assert_eq!(j.eval_interval_var(t.x, &t.reg).to_string(), "[0, 9]");
    assert!(j.eval_interval_var(t.y, &t.reg).is_top());
    assert!(a.join(&AddBottom::top()).is_top());
    assert!(AddBottom::bottom().join(&AddBottom::bottom()).is_bottom());
    assert_eq!(AddBottom::bottom().join(&a).eval_interval_var(t.x, &t.reg).to_string(), "[0, 4]");
    assert_eq!(a.join(&AddBottom::bottom()).eval_interval_var(t.y, &t.reg).to_string(), "[1, 2]");
}

#[test]
fn meets_keep_both_sides() {
    let t = three();
    let mut a = ZoneDomain::new();
    a.set(t.x, &Interval::from_i64_pair(0, 6), &t.reg);
    let mut b = ZoneDomain::new();
    b.set(t.x, &Interval::from_i64_pair(4, 9), &t.reg);
    b.assign(t.y, &var(t.x).plus(&num(1)), &t.reg);
    let m = a.meet(&b).unwrap();
    assert_eq!(shown(&m, t.x, &t.reg), "[4, 6]");
    assert_eq!(shown(&m, t.y, &t.reg), "[5, 7]");
    let alone = ZoneDomain::new().meet(&b).unwrap();
    assert_eq!(shown(&alone, t.y, &t.reg), "[5, 10]");
}

#[test]
fn assignments_set_the_interval() {
    let t = three();
    let mut d = ZoneDomain::new();
    d.set(t.x, &Interval::from_i64_pair(2, 5), &t.reg);
    d.set(t.y, &Interval::from_i64_pair(-1, 1), &t.reg);
    d.assign(t.z, &var(t.x).plus(&var(t.y)), &t.reg);
    assert_eq!(shown(&d, t.z, &t.reg), "[1, 6]");
    assert_eq!(shown(&d, t.x, &t.reg), "[2, 5]");
    assert_eq!(shown(&d, t.y, &t.reg), "[-1, 1]");
}

#[test]
fn joins_keep_differences_of_bounds() {
    let t = three();
    let mut a = ZoneDomain::new();
    a.set(t.x, &Interval::from_i64(0), &t.reg);
    a.set(t.y, &Interval::from_i64(1), &t.reg);
    let mut b = ZoneDomain::new();
    b.set(t.x, &Interval::from_i64(5), &t.reg);
    b.set(t.y, &Interval::from_i64(6), &t.reg);
    let j = a.join(&b);
    assert!(j.entail(&leq(var(t.y), var(t.x).plus(&num(1))), &t.reg));
    assert!(j.entail(&geq(var(t.y), var(t.x).plus(&num(1))), &t.reg));
    assert_eq!(shown(&j, t.y, &t.reg), "[1, 6]");
}

#[test]
fn decided_comparisons_are_constant() {
    let t = three();
    let mut d = FiniteDomain::new();
    d.set(t.x, &Interval::from_i64_pair(0, 3), &t.reg);
    let cases = [
        (ConditionOp::SLT, 0, false),
        (ConditionOp::SGT, 3, false),
        (ConditionOp::SLE, 3, true),
        (ConditionOp::SGE, 0, true),
    ];
    for (op, n, outcome) in cases {
        let r = d.assume_signed_cst_interval(op, true, t.x, t.y, &num(n), &num(n), &t.reg);
        assert_eq!(r.len(), 1);
        assert_eq!(r[0].is_tautology(), outcome);
        assert_eq!(r[0].is_contradiction(), !outcome);
    }
    let r = d.assume_signed_cst_interval(ConditionOp::SLT, true, t.x, t.y, &num(2), &num(2), &t.reg);
    assert!(!r[0].is_tautology() && !r[0].is_contradiction());
    let r = d.assume_cst_imm(ConditionOp::GT, true, t.y, t.x, 3, &t.reg);
    assert!(r.len() == 1 && r[0].is_contradiction());
    d.set(t.x, &Interval::from_i64(6), &t.reg);
    let r = d.assume_cst_imm(ConditionOp::SET, true, t.y, t.x, 1, &t.reg);
    assert!(r.len() == 1 && r[0].is_contradiction());
    let r = d.assume_cst_imm(ConditionOp::NSET, true, t.y, t.x, 1, &t.reg);
    assert!(r.len() == 1 && r[0].is_tautology());
}

#[test]
fn unnamed_variables_stay_free() {
    let t = three();
    let mut d = ZoneDomain::new();
    let top = Number::of(i128::MAX - 1);
    assert!(d.add_constraint(&leq(var(t.x), LinearExpression::from_number(top)), &t.reg));
    assert!(d.add_constraint(&leq(var(t.x), var(t.y)), &t.reg));
    assert_eq!(d.eval_interval_var(t.y, &t.reg).to_string(), "[-oo, +oo]");
    assert!(d.eval_interval_var(t.z, &t.reg).is_top());
}
