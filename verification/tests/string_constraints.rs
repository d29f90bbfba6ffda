use crab::string_constraints::{LineSet, StringInvariant, BOTTOM_LINE};

fn lines(all: &[&str]) -> LineSet {
    let mut s = LineSet::new();
    for l in all {
        s.insert(l.to_string());
    }
    s
}

#[test]
fn string_constraints_test_top_and_bottom() {
    assert!(!StringInvariant::top().is_bottom());
    assert!(StringInvariant::top().is_empty());
    assert!(StringInvariant::bottom().is_bottom());
}

#[test]
fn test_from_set() {
    let inv = StringInvariant::from_set(lines(&["r0.type=number"]));
    assert!(!inv.is_bottom());
    assert!(!inv.is_empty());
    assert!(inv.contains("r0.type=number"));
}

#[test]
fn test_union() {
    let result = StringInvariant::from_set(lines(&["x=1"])).union(&StringInvariant::from_set(lines(&["y=2"])));
    assert_eq!(result.value().len(), 2);
}

#[test]
fn test_to_lines_renders_bottom_as_bottom_line() {
    assert!(StringInvariant::bottom().to_lines().same(&lines(&[BOTTOM_LINE])));
    assert!(StringInvariant::top().to_lines().same(&lines(&[])));
    let inv = lines(&["r0.type=number"]);
    assert!(StringInvariant::from_set(inv.copy()).to_lines().same(&inv));
}

#[test]
fn test_line_diff_handles_bottom_uniformly() {
    let bottom = StringInvariant::bottom().to_lines();
    let concrete = StringInvariant::from_set(lines(&["r0.type=number"])).to_lines();
    assert!(bottom.difference(&bottom).is_empty());
    assert!(bottom.difference(&concrete).same(&bottom));
    assert!(concrete.difference(&bottom).same(&concrete));
}

#[test]
fn test_equality() {
    assert!(StringInvariant::bottom().same(&StringInvariant::bottom()));
    assert!(StringInvariant::top().same(&StringInvariant::top()));
    assert!(!StringInvariant::top().same(&StringInvariant::bottom()));
}

#[test]
fn lines_come_in_order_and_once() {
    let mut s = lines(&["b", "a", "c"]);
    assert!(!s.insert("a".to_string()));
    assert!(s.insert("d".to_string()));
    assert_eq!(s.len(), 4);
    assert_eq!(s.line(0), "a");
    assert_eq!(s.line(3), "d");
    let inv = StringInvariant::from_set(s);
    let kept = inv.retain(|l| l != "b");
    assert!(!kept.contains("b"));
    assert!(kept.contains("c"));
    assert_eq!(kept.to_lines().len(), 3);
}
