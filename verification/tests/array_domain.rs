use crab::array_domain::{ArrayDomain, Cell, OffsetMap};
use crab::interval::Interval;

#[test]
fn all_num_width_inverted_range_does_not_panic() {
    let dom = ArrayDomain::new(512);
    assert!(!dom.all_num_width(&Interval::from_i64(600), &Interval::from_i64(8)));
    assert!(!dom.all_num_width(&Interval::from_i64(8), &Interval::from_i64(-4)));
}
#[test]
fn backward_scan_must_not_break_early_at_empty_tombstone() {
    let mut om = OffsetMap::new(4096);
    om.mk_cell(48, 8);
    let overlaps = om.get_overlap_cells(50, 2);
    assert!(
        overlaps.contains(&Cell::new(48, 8)),
        "Cell(48,8) should overlap [50,52)",
    );
    om.remove_cells(&overlaps);
    om.mk_cell(50, 2);
    let overlaps = om.get_overlap_cells(48, 8);
    assert!(
        overlaps.contains(&Cell::new(50, 2)),
        "Cell(50,2) should overlap [48,56)",
    );
    om.remove_cells(&overlaps);
    om.mk_cell(48, 8);
    assert!(om.get_cell(48, 8).is_some());
    assert!(om.get_cell(50, 2).is_none());
    let overlaps = om.get_overlap_cells(54, 2);
    assert!(
        overlaps.contains(&Cell::new(48, 8)),
        "Cell(48,8) at [48,56) overlaps [54,56) but was missed by backward scan \
         (early break at touched-but-empty offset 50)",
    );
}
