use crab::arith::number::Number;
use crab::type_encoding::DataKind;
use crab::var_registry::VariableRegistry;

#[test]
fn test_default_construction_size() {
    let reg = VariableRegistry::new();
    assert_eq!(reg.names().len(), 184);
    assert_eq!(reg.metadata().len(), 184);
}

#[test]
fn test_default_first_and_last() {
    let reg = VariableRegistry::new();
    assert_eq!(reg.names()[0], "r0.svalue");
    assert_eq!(reg.names()[183], "packet_size");
}

#[test]
fn test_default_r0_kinds() {
    let reg = VariableRegistry::new();
    let r0_names: Vec<&str> = reg.names()[0..15].iter().map(|s| s.as_str()).collect();
    assert_eq!(
        r0_names,
        vec![
            "r0.svalue",
            "r0.uvalue",
            "r0.ctx_offset",
            "r0.map_fd",
            "r0.map_fd_programs",
            "r0.packet_offset",
            "r0.shared_offset",
            "r0.stack_offset",
            "r0.type",
            "r0.shared_region_size",
            "r0.stack_numeric_size",
            "r0.socket_offset",
            "r0.btf_id_offset",
            "r0.alloc_mem_offset",
            "r0.alloc_mem_size",
        ]
    );
}

#[test]
fn test_default_trailer_names() {
    let reg = VariableRegistry::new();
    assert_eq!(reg.names()[180], "data_size");
    assert_eq!(reg.names()[181], "meta_size");
    assert_eq!(reg.names()[182], "meta_offset");
    assert_eq!(reg.names()[183], "packet_size");
}

#[test]
fn test_reg_produces_correct_name() {
    let mut reg = VariableRegistry::new();
    let v = reg.reg(DataKind::Svalues, 3);
    assert_eq!(reg.name(v), "r3.svalue");
}

#[test]
fn test_type_reg_produces_correct_name() {
    let mut reg = VariableRegistry::new();
    let v = reg.type_reg(5);
    assert_eq!(reg.name(v), "r5.type");
}

#[test]
fn test_stack_frame_var() {
    let mut reg = VariableRegistry::new();
    let v = reg.stack_frame_var(DataKind::Svalues, 1, "caller");
    assert_eq!(reg.name(v), "caller/r1.svalue");
}

#[test]
fn test_cell_var_size_one() {
    let mut reg = VariableRegistry::new();
    let v = reg.cell_var(DataKind::Svalues, &Number::from(10i64), &Number::from(1i64));
    assert_eq!(reg.name(v), "s[10].svalue");
}

#[test]
fn test_cell_var_size_multi() {
    let mut reg = VariableRegistry::new();
    let v = reg.cell_var(DataKind::Uvalues, &Number::from(4i64), &Number::from(8i64));
    assert_eq!(reg.name(v), "s[4...11].uvalue");
}

#[test]
fn test_kind_var() {
    let mut reg = VariableRegistry::new();
    let type_var = reg.type_reg(2);
    assert_eq!(reg.name(type_var), "r2.type");
    let svalue_var = reg.kind_var(DataKind::Svalues, type_var);
    assert_eq!(reg.name(svalue_var), "r2.svalue");
}

#[test]
fn test_make_deduplicates() {
    let mut reg = VariableRegistry::new();
    let a = reg.make("r0.svalue");
    let b = reg.make("r0.svalue");
    assert_eq!(a, b);
    assert_eq!(reg.names().len(), 184);
}

#[test]
fn test_make_new_name() {
    let mut reg = VariableRegistry::new();
    let v = reg.make("custom_var");
    assert_eq!(v.id(), 184);
    assert_eq!(reg.name(v), "custom_var");
}

#[test]
fn test_meta_offset() {
    let mut reg = VariableRegistry::new();
    let v = reg.meta_offset();
    assert_eq!(reg.name(v), "meta_offset");
    assert_eq!(v.id(), 182);
}

#[test]
fn test_packet_size() {
    let mut reg = VariableRegistry::new();
    let v = reg.packet_size();
    assert_eq!(reg.name(v), "packet_size");
    assert_eq!(v.id(), 183);
}

#[test]
fn test_loop_counter() {
    let mut reg = VariableRegistry::new();
    let v = reg.loop_counter("42");
    assert_eq!(reg.name(v), "pc[42]");
}

#[test]
fn test_is_type() {
    let mut reg = VariableRegistry::new();
    let type_var = reg.type_reg(0);
    let sval_var = reg.reg(DataKind::Svalues, 0);
    assert!(reg.is_type(type_var));
    assert!(!reg.is_type(sval_var));
}

#[test]
fn test_is_unsigned() {
    let mut reg = VariableRegistry::new();
    let uval = reg.reg(DataKind::Uvalues, 3);
    let sval = reg.reg(DataKind::Svalues, 3);
    assert!(reg.is_unsigned(uval));
    assert!(!reg.is_unsigned(sval));
}

#[test]
fn test_is_in_stack() {
    let mut reg = VariableRegistry::new();
    let stack_var = reg.cell_var(DataKind::Svalues, &Number::from(0i64), &Number::from(1i64));
    let reg_var = reg.reg(DataKind::Svalues, 0);
    assert!(reg.is_in_stack(stack_var));
    assert!(!reg.is_in_stack(reg_var));
}

#[test]
fn test_is_min_only() {
    let mut reg = VariableRegistry::new();
    let stack_num = reg.reg(DataKind::StackNumericSizes, 0);
    let shared_reg = reg.reg(DataKind::SharedRegionSizes, 0);
    let alloc_mem = reg.reg(DataKind::AllocMemSizes, 0);
    let pkt = reg.packet_size();
    let sval = reg.reg(DataKind::Svalues, 0);

    assert!(reg.is_min_only(stack_num));
    assert!(reg.is_min_only(shared_reg));
    assert!(!reg.is_min_only(alloc_mem));
    assert!(reg.is_min_only(pkt));
    assert!(!reg.is_min_only(sval));
}

#[test]
fn test_get_type_variables() {
    let reg = VariableRegistry::new();
    let type_vars = reg.get_type_variables();
    assert_eq!(type_vars.len(), 12);
    for (i, v) in type_vars.iter().enumerate() {
        assert_eq!(reg.name(*v), format!("r{i}.type"));
    }
}

#[test]
fn test_get_loop_counters() {
    let mut reg = VariableRegistry::new();
    assert!(reg.get_loop_counters().is_empty());

    reg.loop_counter("1");
    reg.loop_counter("2");
    let counters = reg.get_loop_counters();
    assert_eq!(counters.len(), 2);
    assert_eq!(reg.name(counters[0]), "pc[1]");
    assert_eq!(reg.name(counters[1]), "pc[2]");
}

#[test]
fn test_printing_order() {
    let mut reg = VariableRegistry::new();
    let a = reg.reg(DataKind::Svalues, 0);
    let b = reg.reg(DataKind::Uvalues, 0);
    assert_eq!(reg.printing_order(a, b), std::cmp::Ordering::Less);
    assert_eq!(reg.printing_order(b, a), std::cmp::Ordering::Greater);
    assert_eq!(reg.printing_order(a, a), std::cmp::Ordering::Equal);
}

#[test]
fn test_metadata_for_default_register() {
    let reg = VariableRegistry::new();
    assert_eq!(reg.metadata()[0].kind, Some(DataKind::Svalues));
    assert!(!reg.metadata()[0].is_stack_cell);
    assert!(!reg.metadata()[0].is_min_only);
    assert_eq!(reg.metadata()[8].kind, Some(DataKind::Types));
    assert!(reg.metadata()[10].is_min_only);
    assert!(!reg.metadata()[14].is_min_only);
    assert!(reg.metadata()[183].is_min_only);
    assert_eq!(reg.metadata()[183].kind, None);
}

#[test]
fn test_metadata_for_stack_cell() {
    let mut reg = VariableRegistry::new();
    let v = reg.cell_var(DataKind::Svalues, &Number::from(10i64), &Number::from(1i64));
    let meta = reg.metadata()[v.id() as usize];
    assert!(meta.is_stack_cell);
    assert_eq!(meta.kind, Some(DataKind::Svalues));
    assert!(!meta.is_min_only);
}

#[test]
fn test_metadata_for_loop_counter() {
    let mut reg = VariableRegistry::new();
    let v = reg.loop_counter("42");
    let meta = reg.metadata()[v.id() as usize];
    assert!(meta.is_loop_counter);
    assert_eq!(meta.kind, None);
}

#[test]
fn kinds_lead_back() {
    let mut reg = VariableRegistry::new();
    let cell = reg.cell_var(DataKind::Types, &Number::from(8i64), &Number::from(8i64));
    let v = reg.kind_var(DataKind::Uvalues, cell);
    assert_eq!(reg.name(v), "s[8...15].uvalue");
    assert_eq!(reg.kind_var(DataKind::Uvalues, cell), v);
    assert_eq!(reg.kind_var(DataKind::Types, v), cell);
}
