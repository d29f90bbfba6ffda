use crab::type_encoding::{iterate_kinds, iterate_types, name_of, regkind, DataKind, TypeEncoding, TypeGroup, TypeSet, KIND_MAX, KIND_MIN, KIND_VALUE_MIN,
    T_CTX, T_NUM, T_PACKET, T_SHARED, T_STACK, T_UNINIT};

fn all_kinds() -> Vec<DataKind> {
    iterate_kinds(DataKind::Types, DataKind::AllocMemSizes)
}

#[test]
fn test_name_of_all_kinds() {
    assert_eq!(name_of(DataKind::Types), "type");
    assert_eq!(name_of(DataKind::Svalues), "svalue");
    assert_eq!(name_of(DataKind::Uvalues), "uvalue");
    assert_eq!(name_of(DataKind::CtxOffsets), "ctx_offset");
    assert_eq!(name_of(DataKind::MapFds), "map_fd");
    assert_eq!(name_of(DataKind::MapFdPrograms), "map_fd_programs");
    assert_eq!(name_of(DataKind::PacketOffsets), "packet_offset");
    assert_eq!(name_of(DataKind::SharedOffsets), "shared_offset");
    assert_eq!(name_of(DataKind::StackOffsets), "stack_offset");
    assert_eq!(name_of(DataKind::SharedRegionSizes), "shared_region_size");
    assert_eq!(name_of(DataKind::StackNumericSizes), "stack_numeric_size");
}

#[test]
fn test_regkind_roundtrip() {
    for kind in all_kinds() {
        let name = name_of(kind);
        assert_eq!(regkind(name), Some(kind));
    }
}

#[test]
fn test_regkind_unknown() {
    assert_eq!(regkind("nonexistent"), None);
    assert_eq!(regkind(""), None);
}

#[test]
fn test_iterate_kinds_full_range() {
    let all = iterate_kinds(KIND_MIN, KIND_MAX);
    assert_eq!(all.len(), 11);
    assert_eq!(all[0], DataKind::Types);
    assert_eq!(all[10], DataKind::StackNumericSizes);
}

#[test]
fn test_iterate_kinds_value_range() {
    let values = iterate_kinds(KIND_VALUE_MIN, KIND_MAX);
    assert_eq!(values.len(), 10);
    assert_eq!(values[0], DataKind::Svalues);
}

#[test]
fn test_iterate_kinds_single() {
    let single = iterate_kinds(DataKind::MapFds, DataKind::MapFds);
    assert_eq!(single, vec![DataKind::MapFds]);
}

#[test]
fn type_encoding_test_display() {
    assert_eq!(DataKind::Types.to_string(), "type");
    assert_eq!(DataKind::PacketOffsets.to_string(), "packet_offset");
}

#[test]
fn test_typeset_empty() {
    let s = TypeSet::empty();
    assert!(s.is_empty());
    assert!(!s.is_singleton());
    assert_eq!(s.len(), 0);
    assert_eq!(s.iter().len(), 0);
    assert_eq!(s.as_singleton(), None);
}

#[test]
fn test_typeset_all() {
    let s = TypeSet::all();
    assert!(!s.is_empty());
    assert!(!s.is_singleton());
    assert_eq!(s.len(), 8);
    assert_eq!(s.iter().len(), 8);
}

#[test]
fn test_typeset_singleton() {
    for te in iterate_types(T_UNINIT, T_SHARED) {
        let s = TypeSet::singleton(te);
        assert!(s.is_singleton());
        assert!(s.contains(te));
        assert_eq!(s.len(), 1);
        assert_eq!(s.as_singleton(), Some(te));
    }
}

#[test]
fn test_typeset_union_intersect() {
    let a = TypeSet::of(&[T_NUM, T_CTX]);
    let b = TypeSet::of(&[T_CTX, T_STACK]);
    assert_eq!(a.len(), 2);
    assert_eq!(b.len(), 2);

    let u = a.union(b);
    assert_eq!(u.len(), 3);
    assert!(u.contains(T_NUM));
    assert!(u.contains(T_CTX));
    assert!(u.contains(T_STACK));

    let i = a.intersect(b);
    assert_eq!(i.len(), 1);
    assert!(i.contains(T_CTX));
}

#[test]
fn test_typeset_remove() {
    let s = TypeSet::of(&[T_NUM, T_CTX]);
    let r = s.remove(T_NUM);
    assert_eq!(r.len(), 1);
    assert!(!r.contains(T_NUM));
    assert!(r.contains(T_CTX));
}

#[test]
fn test_typeset_subset() {
    let small = TypeSet::singleton(T_CTX);
    let big = TypeSet::of(&[T_CTX, T_STACK]);
    assert!(small.is_subset_of(big));
    assert!(!big.is_subset_of(small));
    assert!(TypeSet::empty().is_subset_of(small));
    assert!(small.is_subset_of(TypeSet::all()));
}

#[test]
fn test_typeset_iter_order() {
    let s = TypeSet::all();
    let items: Vec<TypeEncoding> = s.iter();
    assert_eq!(items, iterate_types(T_UNINIT, T_SHARED));
}

#[test]
fn test_typeset_display() {
    assert_eq!(TypeSet::singleton(T_NUM).to_string(), "number");
    assert_eq!(
        TypeSet::of(&[T_CTX, T_STACK]).to_string(),
        "{ctx, stack}"
    );
    assert_eq!(TypeSet::empty().to_string(), "{}");
}

#[test]
fn test_typegroup_to_typeset() {
    assert_eq!(TypeGroup::Number.to_typeset(), TypeSet::singleton(T_NUM));
    assert_eq!(
        TypeGroup::Pointer.to_typeset(),
        TypeSet::of(&[T_CTX, T_PACKET, T_STACK, T_SHARED])
    );
    assert_eq!(TypeGroup::Pointer.to_typeset().len(), 4);
    assert_eq!(TypeGroup::PtrOrNum.to_typeset().len(), 5);
    assert_eq!(TypeGroup::Mem.to_typeset().len(), 3);
}
