use crab::arith::linear_constraint::gt;
use crab::arith::linear_expression::LinearExpression;
use crab::arith::number::Number;
use crab::interval::Interval;
use crab::type_encoding::DataKind;
use crab::var_registry::VariableRegistry;
use crab::zone_domain::ZoneDomain;

#[test]
fn test_to_set_uses_raw_difference_edge_weight() {
    let mut reg = VariableRegistry::new();
    let mut dom = ZoneDomain::new();

    let left_u = reg.reg(DataKind::Uvalues, 1);
    let right_u = reg.reg(DataKind::Uvalues, 2);

    dom.set(left_u, &Interval::from_number(Number::from(u64::MAX)), &reg);
    dom.set(
        right_u,
        &Interval::from_number(Number::from(i64::MAX)),
        &reg,
    );
    let cst = gt(
        LinearExpression::from_variable(left_u),
        LinearExpression::from_variable(right_u),
    );
    assert!(dom.add_constraint(&cst, &reg));

    let left_vert = dom.vertices().get(left_u.id()).unwrap();
    let right_vert = dom.vertices().get(right_u.id()).unwrap();
    let raw = dom.matrix().graph().edge_val(left_vert, right_vert);

    let rendered = dom.to_set(&reg);
    let expected = format!("{}-{}<={}", reg.name(right_u), reg.name(left_u), raw.to_string());
    assert!(
        rendered.contains(&expected));
}

#[test]
fn test_add_linear_leq_tightens_difference_from_finite_bounds() {
    let mut reg = VariableRegistry::new();
    let mut dom = ZoneDomain::new();

    let left_u = reg.reg(DataKind::Uvalues, 1);
    let right_u = reg.reg(DataKind::Uvalues, 2);

    dom.set(left_u, &Interval::from_number(Number::from(u64::MAX)), &reg);
    dom.set(
        right_u,
        &Interval::from_number(Number::from(i64::MAX)),
        &reg,
    );
    let cst = gt(
        LinearExpression::from_variable(left_u),
        LinearExpression::from_variable(right_u),
    );
    assert!(dom.add_constraint(&cst, &reg));

    let left_vert = dom.vertices().get(left_u.id()).unwrap();
    let right_vert = dom.vertices().get(right_u.id()).unwrap();
    let raw = dom.matrix().graph().edge_val(left_vert, right_vert);

    let rendered = dom.to_set(&reg);
    let expected = format!("{}-{}<={}", reg.name(right_u), reg.name(left_u), raw.to_string());
    assert!(
        rendered.contains(&expected));
}
