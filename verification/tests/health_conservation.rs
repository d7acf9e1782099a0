use lau_plato_nervous::health_conservation::{ConservationTracker, EnergyType, HealthMeasurement};

fn make_measurement(room: &str, ts: f64, energy: f64, entropy: f64, used: f64, total: f64) -> HealthMeasurement {
    HealthMeasurement {
        room_id: room.into(),
        timestamp: ts.to_bits(),
        energy: vec![(EnergyType::Cpu, energy.to_bits())],
        entropy: entropy.to_bits(),
        capacity_used: used.to_bits(),
        capacity_total: total.to_bits(),
    }
}

#[test]
fn test_conservation_tracker_record() {
    let mut tracker = ConservationTracker::new(100.0f64.to_bits());
    tracker.record(make_measurement("r1", 0.0, 10.0, 1.0, 5.0, 50.0));
    assert_eq!(tracker.len(), 1);
}

#[test]
fn record_groups_by_room_and_latest_is_last() {
    let mut tracker = ConservationTracker::new(100.0f64.to_bits());
    assert!(tracker.is_empty());
    tracker.record(make_measurement("r1", 0.0, 10.0, 1.0, 5.0, 50.0));
    tracker.record(make_measurement("r2", 0.0, 20.0, 2.0, 5.0, 50.0));
    tracker.record(make_measurement("r1", 1.0, 30.0, 3.0, 5.0, 50.0));
    assert_eq!(tracker.len(), 2);
    assert_eq!(tracker.rooms[0].measurements.len(), 2);
    let latest = tracker.latest_measurements();
    assert_eq!(latest.len(), 2);
    assert_eq!(f64::from_bits(latest[0].entropy), 3.0);
    assert_eq!(f64::from_bits(latest[1].entropy), 2.0);
    assert_eq!(latest[0].energy[0].0, EnergyType::Cpu);
}
