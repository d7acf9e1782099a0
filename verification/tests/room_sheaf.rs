use lau_plato_nervous::room_sheaf::{RoomSection, RoomSheaf};

fn section(id: &str, values: &[f64], labels: &[(&str, &str)]) -> RoomSection {
    RoomSection {
        room_id: id.into(),
        metrics: values.iter().map(|v| v.to_bits()).collect(),
        labels: labels.iter().map(|(k, v)| (k.to_string(), v.to_string())).collect(),
    }
}

#[test]
fn test_create_empty_sheaf() {
    let sheaf = RoomSheaf::new();
    assert!(sheaf.is_empty());
    assert_eq!(sheaf.len(), 0);
}

#[test]
fn test_add_section() {
    let mut sheaf = RoomSheaf::new();
    sheaf.add_section(section("room-1", &[1.0, 2.0, 3.0], &[]));
    assert_eq!(sheaf.len(), 1);
    assert!(sheaf.stalk("room-1").is_some());
}

#[test]
fn test_identity_restriction() {
    let s = section("room-1", &[1.0, 2.0], &[]);
    let result = RoomSheaf::identity_restriction(&s);
    assert_eq!(result.metrics, s.metrics);
}

#[test]
fn test_global_section() {
    let mut sheaf = RoomSheaf::new();
    sheaf.add_section(section("a", &[1.0, 2.0], &[]));
    sheaf.add_section(section("b", &[3.0, 4.0], &[]));
    let global = sheaf.global_section().unwrap();
    assert_eq!(global.metrics.len(), 4);
}

#[test]
fn test_global_section_empty() {
    let sheaf = RoomSheaf::new();
    assert!(sheaf.global_section().is_none());
}

#[test]
fn test_gluing_axiom_uniform_dims() {
    let mut sheaf = RoomSheaf::new();
    sheaf.add_section(section("a", &[1.0, 2.0], &[]));
    sheaf.add_section(section("b", &[3.0, 4.0], &[]));
    assert!(sheaf.check_gluing_axiom());
}

#[test]
fn test_gluing_axiom_mismatched_dims() {
    let mut sheaf = RoomSheaf::new();
    sheaf.add_section(section("a", &[1.0, 2.0], &[]));
    sheaf.add_section(section("b", &[3.0], &[]));
    assert!(!sheaf.check_gluing_axiom());
}

#[test]
fn global_section_glues_ids_metrics_and_labels() {
    let mut sheaf = RoomSheaf::new();
    sheaf.add_section(section("a", &[1.0], &[("zone", "east"), ("tier", "1")]));
    sheaf.add_section(section("b", &[2.0, 3.0], &[("zone", "west")]));
    let g = sheaf.global_section().unwrap();
    assert_eq!(g.room_id, "a+b");
    let values: Vec<f64> = g.metrics.iter().map(|b| f64::from_bits(*b)).collect();
    assert_eq!(values, vec![1.0, 2.0, 3.0]);
    assert_eq!(g.labels.len(), 2);
    assert!(g.labels.contains(&("zone".to_string(), "west".to_string())));
    assert!(g.labels.contains(&("tier".to_string(), "1".to_string())));
}

#[test]
fn restrict_applies_map_to_room_section() {
    let mut sheaf = RoomSheaf::new();
    sheaf.add_section(section("room-1", &[3.0, 4.0], &[]));
    let count = |s: &RoomSection| RoomSection {
        room_id: format!("{}_len", s.room_id),
        metrics: vec![(s.metrics.len() as f64).to_bits()],
        labels: Vec::new(),
    };
    let r = sheaf.restrict("room-1", count).unwrap();
    assert_eq!(r.room_id, "room-1_len");
    assert_eq!(f64::from_bits(r.metrics[0]), 2.0);
    assert!(sheaf.restrict("room-2", RoomSheaf::identity_restriction).is_none());
}

#[test]
fn add_section_replaces_room() {
    let mut sheaf = RoomSheaf::new();
    sheaf.add_section(section("a", &[1.0], &[]));
    sheaf.add_section(section("a", &[1.0, 2.0], &[]));
    assert_eq!(sheaf.len(), 1);
    assert_eq!(sheaf.stalk("a").unwrap().metrics.len(), 2);
    assert!(sheaf.stalk("b").is_none());
    assert!(sheaf.check_gluing_axiom());
}

/// The summing restriction: one metric, the sum of the section's metrics.
fn aggregate_restriction(s: &RoomSection) -> RoomSection {
    let sum: f64 = s.metrics.iter().map(|m| f64::from_bits(*m)).sum();
    RoomSection {
        room_id: format!("{}_agg", s.room_id),
        metrics: vec![sum.to_bits()],
        labels: s.labels.clone(),
    }
}

#[test]
fn test_restrict() {
    let mut sheaf = RoomSheaf::new();
    sheaf.add_section(section("room-1", &[3.0, 4.0], &[]));
    let result = sheaf.restrict("room-1", aggregate_restriction);
    assert!(result.is_some());
    assert!((f64::from_bits(result.unwrap().metrics[0]) - 7.0).abs() < 1e-10);
}
