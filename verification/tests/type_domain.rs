use crab::syntax::Reg;
use crab::type_domain::{reg_type, TypeDomain};
use crab::type_encoding::{ts_num, ts_pointer, ts_singleton_ptr, TypeSet, T_CTX, T_MAP, T_NUM, T_PACKET, T_SHARED, T_STACK};
use crab::var_registry::VariableRegistry;

fn make_registry() -> VariableRegistry {
    VariableRegistry::new()
}

#[test]
fn test_top_is_not_bottom() {
    let td = TypeDomain::top();
    assert!(!td.is_bottom());
}

#[test]
fn test_assign_type_encoding_and_get() {
    let mut td = TypeDomain::top();
    let mut reg = make_registry();
    let r0 = Reg { v: 0 };
    td.assign_type_encoding(&r0, T_NUM, &mut reg);
    assert_eq!(td.get_type(&r0, &mut reg), Some(T_NUM));
}

#[test]
fn test_iterate_types_singleton() {
    let mut td = TypeDomain::top();
    let mut reg = make_registry();
    let r0 = Reg { v: 0 };
    td.assign_type_encoding(&r0, T_CTX, &mut reg);
    let types = td.iterate_types(&r0, &mut reg);
    assert_eq!(types, vec![T_CTX]);
}

#[test]
fn test_iterate_types_returns_exact_set() {
    let mut td = TypeDomain::top();
    let mut reg = make_registry();
    let r0 = Reg { v: 0 };
    let v = reg_type(&r0, &mut reg);
    td.restrict_to(v, TypeSet::of(&[T_MAP, T_SHARED]));
    let types = td.iterate_types(&r0, &mut reg);
    assert_eq!(types, vec![T_MAP, T_SHARED]);
}

#[test]
fn test_same_type_through_assign() {
    let mut td = TypeDomain::top();
    let mut reg = make_registry();
    let r0 = Reg { v: 0 };
    let r1 = Reg { v: 1 };
    td.assign_type_encoding(&r0, T_STACK, &mut reg);
    td.assign_type_from_reg(&r1, &r0, &mut reg);
    assert!(td.same_type(&r0, &r1, &mut reg));
}

#[test]
fn test_join_preserves_common_equalities() {
    let mut a = TypeDomain::top();
    let mut b = TypeDomain::top();
    let mut reg = make_registry();
    let r0 = Reg { v: 0 };
    let r1 = Reg { v: 1 };
    a.assign_type_encoding(&r0, T_CTX, &mut reg);
    a.assign_type_from_reg(&r1, &r0, &mut reg);
    b.assign_type_encoding(&r0, T_CTX, &mut reg);
    b.assign_type_from_reg(&r1, &r0, &mut reg);

    let joined = a.join(&b);
    assert!(joined.same_type(&r0, &r1, &mut reg));
}

#[test]
fn test_join_drops_one_sided_equality() {
    let mut a = TypeDomain::top();
    let mut b = TypeDomain::top();
    let mut reg = make_registry();
    let r0 = Reg { v: 0 };
    let r1 = Reg { v: 1 };
    a.assign_type_encoding(&r0, T_CTX, &mut reg);
    a.assign_type_from_reg(&r1, &r0, &mut reg);
    b.assign_type_encoding(&r0, T_CTX, &mut reg);
    b.assign_type_encoding(&r1, T_STACK, &mut reg);

    let joined = a.join(&b);
    assert!(!joined.same_type(&r0, &r1, &mut reg));
    assert_eq!(joined.get_type(&r0, &mut reg), Some(T_CTX));
    let types = joined.iterate_types(&r1, &mut reg);
    assert!(types.contains(&T_CTX));
    assert!(types.contains(&T_STACK));
}

#[test]
fn test_join_rebuilds_fresh_no_orphans() {
    let mut a = TypeDomain::top();
    let mut reg = make_registry();
    let r0 = Reg { v: 0 };

    a.assign_type_encoding(&r0, T_NUM, &mut reg);
    a.havoc_type_reg(&r0, &mut reg);
    a.assign_type_encoding(&r0, T_CTX, &mut reg);

    let b = TypeDomain::top();
    let joined = a.join(&b);
    assert!(!joined.is_bottom());
}

#[test]
fn test_meet_merges_equalities() {
    let mut a = TypeDomain::top();
    let mut b = TypeDomain::top();
    let mut reg = make_registry();
    let r0 = Reg { v: 0 };
    let r1 = Reg { v: 1 };
    let r2 = Reg { v: 2 };
    a.assign_type_encoding(&r0, T_CTX, &mut reg);
    a.assign_type_from_reg(&r1, &r0, &mut reg);

    b.assign_type_encoding(&r1, T_CTX, &mut reg);
    b.assign_type_from_reg(&r2, &r1, &mut reg);

    let met = a.meet(&b).unwrap();
    assert!(met.same_type(&r0, &r2, &mut reg));
}

#[test]
fn test_restrict_affects_entire_class() {
    let mut td = TypeDomain::top();
    let mut reg = make_registry();
    let r0 = Reg { v: 0 };
    let r1 = Reg { v: 1 };
    let v0 = reg_type(&r0, &mut reg);
    let v1 = reg_type(&r1, &mut reg);
    td.state.as_mut().unwrap().ensure_var(v0);
    td.state.as_mut().unwrap().ensure_var(v1);
    td.restrict_to(v0, TypeSet::of(&[T_CTX, T_STACK]));
    td.assign_type_var(v1, v0, &mut reg);
    td.restrict_to(v0, TypeSet::singleton(T_CTX));

    assert_eq!(td.get_type(&r0, &mut reg), Some(T_CTX));
    assert_eq!(td.get_type(&r1, &mut reg), Some(T_CTX));
}

#[test]
fn test_get_type_returns_uninit_for_non_singleton() {
    let mut td = TypeDomain::top();
    let mut reg = make_registry();
    let r0 = Reg { v: 0 };

    let v = reg_type(&r0, &mut reg);
    td.restrict_to(v, TypeSet::of(&[T_CTX, T_STACK]));
    assert_eq!(td.get_type(&r0, &mut reg), None);
}

#[test]
fn test_inclusion_check() {
    let mut a = TypeDomain::top();
    let mut b = TypeDomain::top();
    let mut reg = make_registry();
    let r0 = Reg { v: 0 };
    let r1 = Reg { v: 1 };
    a.assign_type_encoding(&r0, T_CTX, &mut reg);
    a.assign_type_from_reg(&r1, &r0, &mut reg);
    let v0 = reg_type(&r0, &mut reg);
    b.restrict_to(v0, TypeSet::of(&[T_CTX, T_STACK]));

    assert!(a.is_included_in(&b));
    assert!(!b.is_included_in(&a));
}

#[test]
fn test_is_in_group() {
    let mut td = TypeDomain::top();
    let mut reg = make_registry();
    let r0 = Reg { v: 0 };

    td.assign_type_encoding(&r0, T_CTX, &mut reg);
    assert!(td.is_in_group(&r0, ts_pointer(), &mut reg));
    assert!(td.is_in_group(&r0, TypeSet::singleton(T_CTX), &mut reg));
    assert!(!td.is_in_group(&r0, ts_num(), &mut reg));
    assert!(td.is_in_group(&r0, ts_singleton_ptr(), &mut reg));
}

#[test]
fn test_unify_singleton_intersection() {
    let mut td = TypeDomain::top();
    let mut reg = make_registry();
    let r0 = Reg { v: 0 };
    let r1 = Reg { v: 1 };

    let v0 = reg_type(&r0, &mut reg);
    let v1 = reg_type(&r1, &mut reg);
    td.state.as_mut().unwrap().ensure_var(v0);
    td.state.as_mut().unwrap().ensure_var(v1);
    td.restrict_to(v0, TypeSet::of(&[T_MAP, T_CTX]));
    td.restrict_to(v1, TypeSet::of(&[T_CTX, T_SHARED]));
    td.assume_eq(v0, v1);

    assert!(!td.is_bottom());
    assert_eq!(td.get_type(&r0, &mut reg), Some(T_CTX));
    assert_eq!(td.get_type(&r1, &mut reg), Some(T_CTX));
    assert!(td.same_type(&r0, &r1, &mut reg));
}

#[test]
fn test_unify_nonsingleton_intersection() {
    let mut td = TypeDomain::top();
    let mut reg = make_registry();
    let r0 = Reg { v: 0 };
    let r1 = Reg { v: 1 };

    let v0 = reg_type(&r0, &mut reg);
    let v1 = reg_type(&r1, &mut reg);
    td.state.as_mut().unwrap().ensure_var(v0);
    td.state.as_mut().unwrap().ensure_var(v1);
    td.restrict_to(v0, TypeSet::of(&[T_MAP, T_CTX, T_STACK]));
    td.restrict_to(v1, TypeSet::of(&[T_CTX, T_PACKET, T_STACK]));
    td.assume_eq(v0, v1);

    assert!(!td.is_bottom());
    let types = td.iterate_types(&r0, &mut reg);
    assert_eq!(types.len(), 2);
    assert!(types.contains(&T_CTX));
    assert!(types.contains(&T_STACK));
    assert!(td.same_type(&r0, &r1, &mut reg));
}

#[test]
fn test_unify_disjoint_goes_to_bottom() {
    let mut td = TypeDomain::top();
    let mut reg = make_registry();
    let r0 = Reg { v: 0 };
    let r1 = Reg { v: 1 };

    let v0 = reg_type(&r0, &mut reg);
    let v1 = reg_type(&r1, &mut reg);
    td.state.as_mut().unwrap().ensure_var(v0);
    td.state.as_mut().unwrap().ensure_var(v1);
    td.restrict_to(v0, TypeSet::of(&[T_MAP, T_CTX]));
    td.restrict_to(v1, TypeSet::of(&[T_PACKET, T_SHARED]));
    td.assume_eq(v0, v1);

    assert!(td.is_bottom());
}

#[test]
fn test_unify_singleton_with_set_reduces() {
    let mut td = TypeDomain::top();
    let mut reg = make_registry();
    let r0 = Reg { v: 0 };
    let r1 = Reg { v: 1 };

    let v0 = reg_type(&r0, &mut reg);
    let v1 = reg_type(&r1, &mut reg);
    td.state.as_mut().unwrap().ensure_var(v0);
    td.state.as_mut().unwrap().ensure_var(v1);
    td.restrict_to(v0, TypeSet::singleton(T_CTX));
    td.restrict_to(v1, TypeSet::of(&[T_MAP, T_CTX, T_SHARED]));
    td.assume_eq(v0, v1);

    assert!(!td.is_bottom());
    assert_eq!(td.get_type(&r0, &mut reg), Some(T_CTX));
    assert_eq!(td.get_type(&r1, &mut reg), Some(T_CTX));
}

#[test]
fn test_unify_singleton_disjoint_bottom() {
    let mut td = TypeDomain::top();
    let mut reg = make_registry();
    let r0 = Reg { v: 0 };
    let r1 = Reg { v: 1 };

    let v0 = reg_type(&r0, &mut reg);
    let v1 = reg_type(&r1, &mut reg);
    td.state.as_mut().unwrap().ensure_var(v0);
    td.state.as_mut().unwrap().ensure_var(v1);
    td.restrict_to(v0, TypeSet::singleton(T_MAP));
    td.restrict_to(v1, TypeSet::singleton(T_SHARED));
    td.assume_eq(v0, v1);

    assert!(td.is_bottom());
}

#[test]
fn test_unify_transitive_chain() {
    let mut td = TypeDomain::top();
    let mut reg = make_registry();
    let r0 = Reg { v: 0 };
    let r1 = Reg { v: 1 };
    let r2 = Reg { v: 2 };

    let v0 = reg_type(&r0, &mut reg);
    let v1 = reg_type(&r1, &mut reg);
    let v2 = reg_type(&r2, &mut reg);
    td.state.as_mut().unwrap().ensure_var(v0);
    td.state.as_mut().unwrap().ensure_var(v1);
    td.state.as_mut().unwrap().ensure_var(v2);
    td.restrict_to(v0, TypeSet::of(&[T_MAP, T_CTX, T_STACK]));
    td.restrict_to(v1, TypeSet::of(&[T_CTX, T_STACK, T_SHARED]));
    td.restrict_to(v2, TypeSet::of(&[T_STACK, T_SHARED, T_PACKET]));

    td.assume_eq(v0, v1);
    assert!(!td.is_bottom());
    let types = td.iterate_types(&r0, &mut reg);
    assert_eq!(types.len(), 2);
    assert!(types.contains(&T_CTX));
    assert!(types.contains(&T_STACK));

    td.assume_eq(v1, v2);
    assert!(!td.is_bottom());
    assert_eq!(td.get_type(&r0, &mut reg), Some(T_STACK));
    assert_eq!(td.get_type(&r1, &mut reg), Some(T_STACK));
    assert_eq!(td.get_type(&r2, &mut reg), Some(T_STACK));
    assert!(td.same_type(&r0, &r2, &mut reg));
}

#[test]
fn test_join_absent_vars_not_falsely_unified() {
    let a = TypeDomain::top();
    let mut b = TypeDomain::top();
    let mut reg = make_registry();
    let r0 = Reg { v: 0 };
    let r1 = Reg { v: 1 };
    b.assign_type_encoding(&r0, T_CTX, &mut reg);
    b.assign_type_from_reg(&r1, &r0, &mut reg);

    let joined = a.join(&b);
    assert!(!joined.same_type(&r0, &r1, &mut reg));
}
