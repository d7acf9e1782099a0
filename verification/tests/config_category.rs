use lau_plato_nervous::config_category::{Config, ConfigCategory, ConfigValue, Reconfiguration};

fn make_config(id: &str, version: u64) -> Config {
    Config {
        id: id.to_string(),
        params: Vec::new(),
        version,
    }
}

fn bits(x: f64) -> u64 {
    x.to_bits()
}

fn cost_sum(f: &Reconfiguration, g: &Reconfiguration) -> u64 {
    bits(f64::from_bits(f.cost) + f64::from_bits(g.cost))
}

#[test]
fn test_empty_category() {
    let cat = ConfigCategory::new();
    assert!(cat.is_empty());
}

#[test]
fn test_add_config() {
    let mut cat = ConfigCategory::new();
    cat.add_config(make_config("cfg-1", 1));
    assert_eq!(cat.len(), 1);
}

#[test]
fn test_identity_morphism() {
    let id = ConfigCategory::identity("cfg-1");
    assert_eq!(id.source_id, "cfg-1");
    assert_eq!(id.target_id, "cfg-1");
    assert!(id.changes.is_empty());
    assert!((f64::from_bits(id.cost)).abs() < 1e-10);
}

#[test]
fn test_compose_morphisms() {
    let f = Reconfiguration {
        source_id: "A".into(),
        target_id: "B".into(),
        changes: vec![("x".into(), ConfigValue::Int(1))],
        cost: bits(1.0),
    };
    let g = Reconfiguration {
        source_id: "B".into(),
        target_id: "C".into(),
        changes: vec![("y".into(), ConfigValue::Int(2))],
        cost: bits(2.0),
    };
    let composed = ConfigCategory::compose(&f, &g, cost_sum(&f, &g)).unwrap();
    assert_eq!(composed.source_id, "A");
    assert_eq!(composed.target_id, "C");
    assert!((f64::from_bits(composed.cost) - 3.0).abs() < 1e-10);
}

#[test]
fn test_compose_incompatible() {
    let f = Reconfiguration {
        source_id: "A".into(),
        target_id: "B".into(),
        changes: Vec::new(),
        cost: bits(1.0),
    };
    let g = Reconfiguration {
        source_id: "C".into(),
        target_id: "D".into(),
        changes: Vec::new(),
        cost: bits(1.0),
    };
    assert!(ConfigCategory::compose(&f, &g, cost_sum(&f, &g)).is_none());
}

#[test]
fn test_identity_laws() {
    let f = Reconfiguration {
        source_id: "A".into(),
        target_id: "B".into(),
        changes: vec![("k".into(), ConfigValue::Bool(true))],
        cost: bits(5.0),
    };
    let id_a = ConfigCategory::identity("A");
    let id_b = ConfigCategory::identity("B");
    let left = ConfigCategory::compose(&id_a, &f, cost_sum(&id_a, &f)).unwrap();
    let right = ConfigCategory::compose(&f, &id_b, cost_sum(&f, &id_b)).unwrap();
    assert_eq!(left.target_id, f.target_id);
    assert_eq!(right.source_id, f.source_id);
}

#[test]
fn compose_merges_changes_later_wins() {
    let f = Reconfiguration {
        source_id: "A".into(),
        target_id: "B".into(),
        changes: vec![("x".into(), ConfigValue::Int(1)), ("y".into(), ConfigValue::Str("old".into()))],
        cost: bits(1.0),
    };
    let g = Reconfiguration {
        source_id: "B".into(),
        target_id: "C".into(),
        changes: vec![("y".into(), ConfigValue::Str("new".into())), ("z".into(), ConfigValue::Float(bits(0.5)))],
        cost: bits(2.0),
    };
    let c = ConfigCategory::compose(&f, &g, cost_sum(&f, &g)).unwrap();
    assert_eq!(c.changes.len(), 3);
    assert_eq!(c.changes[0], ("x".to_string(), ConfigValue::Int(1)));
    assert_eq!(c.changes[1], ("y".to_string(), ConfigValue::Str("new".into())));
    assert_eq!(c.changes[2], ("z".to_string(), ConfigValue::Float(bits(0.5))));
    assert_eq!(c.cost, bits(3.0));
}

#[test]
fn compose_is_associative_on_ids_and_changes() {
    let f = Reconfiguration {
        source_id: "A".into(),
        target_id: "B".into(),
        changes: vec![("k".into(), ConfigValue::Int(1))],
        cost: bits(1.0),
    };
    let g = Reconfiguration {
        source_id: "B".into(),
        target_id: "C".into(),
        changes: vec![("k".into(), ConfigValue::Int(2)), ("m".into(), ConfigValue::Bool(false))],
        cost: bits(2.0),
    };
    let h = Reconfiguration {
        source_id: "C".into(),
        target_id: "D".into(),
        changes: vec![("m".into(), ConfigValue::Bool(true))],
        cost: bits(3.0),
    };
    let fg = ConfigCategory::compose(&f, &g, cost_sum(&f, &g)).unwrap();
    let left = ConfigCategory::compose(&fg, &h, cost_sum(&fg, &h)).unwrap();
    let gh = ConfigCategory::compose(&g, &h, cost_sum(&g, &h)).unwrap();
    let right = ConfigCategory::compose(&f, &gh, cost_sum(&f, &gh)).unwrap();
    assert_eq!(left.source_id, right.source_id);
    assert_eq!(left.target_id, right.target_id);
    assert_eq!(left.changes, right.changes);
    assert!((f64::from_bits(left.cost) - f64::from_bits(right.cost)).abs() < 1e-10);
}

#[test]
fn add_config_replaces_same_id() {
    let mut cat = ConfigCategory::new();
    cat.add_config(make_config("a", 1));
    cat.add_config(make_config("b", 1));
    cat.add_config(make_config("a", 2));
    assert_eq!(cat.len(), 2);
    assert_eq!(cat.configs[0].version, 2);
    cat.add_morphism(ConfigCategory::identity("a"));
    assert_eq!(cat.morphisms.len(), 1);
}
