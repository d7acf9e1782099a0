use lau_plato_nervous::nervous_system::{NervousEvent, NervousEventKind, NervousSystem, Subscriber};

fn bits(x: f64) -> u64 {
    x.to_bits()
}

#[test]
fn test_create_nervous_system() {
    let ns = NervousSystem::new();
    assert_eq!(ns.room_count(), 0);
    assert_eq!(ns.subscriber_count(), 0);
    assert_eq!(ns.event_count(), 0);
}

#[test]
fn test_register_room() {
    let mut ns = NervousSystem::new();
    ns.register_room("room-1");
    ns.register_room("room-2");
    assert_eq!(ns.room_count(), 2);
}

#[test]
fn test_register_room_no_duplicate() {
    let mut ns = NervousSystem::new();
    ns.register_room("room-1");
    ns.register_room("room-1");
    assert_eq!(ns.room_count(), 1);
}

#[test]
fn test_subscriber_matches_kind() {
    let mut sub = Subscriber::new("s1", "alert-handler");
    sub.subscribe(NervousEventKind::Alert);
    let event = NervousEvent::new(0, NervousEventKind::Alert, "r1", bits(0.0), "test", bits(0.5));
    assert!(sub.matches(&event));
}

#[test]
fn test_subscriber_no_match_kind() {
    let mut sub = Subscriber::new("s1", "alert-handler");
    sub.subscribe(NervousEventKind::Alert);
    let event = NervousEvent::new(1, NervousEventKind::MetricUpdate, "r1", bits(0.0), "test", bits(0.0));
    assert!(!sub.matches(&event));
}

#[test]
fn test_subscriber_room_filter() {
    let mut sub = Subscriber::new("s1", "room1-handler");
    sub.subscribe(NervousEventKind::Alert);
    sub.room_filter = Some("room-1".into());
    let event = NervousEvent::new(2, NervousEventKind::Alert, "room-2", bits(0.0), "test", bits(0.5));
    assert!(!sub.matches(&event));
}

#[test]
fn test_subscriber_room_filter_match() {
    let mut sub = Subscriber::new("s1", "room1-handler");
    sub.subscribe(NervousEventKind::Alert);
    sub.room_filter = Some("room-1".into());
    let event = NervousEvent::new(3, NervousEventKind::Alert, "room-1", bits(0.0), "test", bits(0.5));
    assert!(sub.matches(&event));
}

#[test]
fn test_emit_event() {
    let mut ns = NervousSystem::new();
    ns.register_room("r1");
    let mut sub = Subscriber::new("s1", "handler");
    sub.subscribe(NervousEventKind::Alert);
    ns.register_subscriber(sub);
    let matched = ns.emit_alert(0, "r1", bits(0.0), "fire!", bits(0.9));
    assert_eq!(matched, vec!["s1"]);
    assert_eq!(ns.event_count(), 1);
}

#[test]
fn test_emit_metric() {
    let mut ns = NervousSystem::new();
    ns.register_room("r1");
    ns.emit_metric(0, "r1", bits(1.0), "cpu=90%");
    assert_eq!(ns.event_count(), 1);
}

#[test]
fn test_events_for_room() {
    let mut ns = NervousSystem::new();
    ns.register_room("r1");
    ns.register_room("r2");
    ns.emit_alert(0, "r1", bits(0.0), "a1", bits(0.5));
    ns.emit_alert(1, "r2", bits(1.0), "a2", bits(0.5));
    ns.emit_alert(2, "r1", bits(2.0), "a3", bits(0.5));
    assert_eq!(ns.events_for_room("r1").len(), 2);
}

#[test]
fn test_events_of_kind() {
    let mut ns = NervousSystem::new();
    ns.emit_alert(0, "r1", bits(0.0), "a1", bits(0.5));
    ns.emit_metric(1, "r1", bits(1.0), "m1");
    assert_eq!(ns.events_of_kind(&NervousEventKind::Alert).len(), 1);
    assert_eq!(ns.events_of_kind(&NervousEventKind::MetricUpdate).len(), 1);
}

#[test]
fn test_high_severity_events() {
    let mut ns = NervousSystem::new();
    ns.emit_alert(0, "r1", bits(0.0), "low", bits(0.3));
    ns.emit_alert(1, "r1", bits(1.0), "high", bits(0.9));
    ns.emit_alert(2, "r1", bits(2.0), "mid", bits(0.5));
    let high = ns.high_severity_events(bits(0.7));
    assert_eq!(high.len(), 1);
}

#[test]
fn test_event_log_truncation() {
    let mut ns = NervousSystem::new();
    ns.max_log_size = 5;
    for i in 0..10u64 {
        ns.emit_alert(i, "r1", bits(i as f64), "msg", bits(0.5));
    }
    assert_eq!(ns.event_count(), 5);
}

#[test]
fn test_clear_log() {
    let mut ns = NervousSystem::new();
    ns.emit_alert(0, "r1", bits(0.0), "msg", bits(0.5));
    ns.clear_log();
    assert_eq!(ns.event_count(), 0);
}

#[test]
fn test_subscriber_subscribe_no_duplicate() {
    let mut sub = Subscriber::new("s1", "handler");
    sub.subscribe(NervousEventKind::Alert);
    sub.subscribe(NervousEventKind::Alert);
    assert_eq!(sub.subscriptions.len(), 1);
}

#[test]
fn test_wildcard_subscriber() {
    let sub = Subscriber::new("s1", "all-handler");
    // No subscriptions = receives all events
    let event = NervousEvent::new(4, NervousEventKind::Custom("test".into()), "r1", bits(0.0), "x", bits(0.0));
    assert!(sub.matches(&event));
}

#[test]
fn emit_routes_to_every_matching_subscriber_in_order() {
    let mut ns = NervousSystem::new();
    let mut a = Subscriber::new("a", "alerts");
    a.subscribe(NervousEventKind::Alert);
    let b = Subscriber::new("b", "everything");
    let mut c = Subscriber::new("c", "metrics");
    c.subscribe(NervousEventKind::MetricUpdate);
    let mut d = Subscriber::new("d", "room-2 alerts");
    d.subscribe(NervousEventKind::Alert);
    d.room_filter = Some("room-2".into());
    ns.register_subscriber(a);
    ns.register_subscriber(b);
    ns.register_subscriber(c);
    ns.register_subscriber(d);
    assert_eq!(ns.emit_alert(7, "room-1", bits(3.0), "x", bits(0.2)), vec!["a", "b"]);
    assert_eq!(ns.emit_alert(8, "room-2", bits(3.0), "x", bits(0.2)), vec!["a", "b", "d"]);
    assert_eq!(ns.emit_metric(9, "room-2", bits(3.0), "m"), vec!["b", "c"]);
    let last = &ns.event_log[ns.event_log.len() - 1];
    assert_eq!(last.id, 9);
    assert_eq!(last.severity, 0);
    assert_eq!(last.kind, NervousEventKind::MetricUpdate);
}

#[test]
fn register_subscriber_replaces_same_id_and_routes() {
    let mut ns = NervousSystem::new();
    let mut a = Subscriber::new("a", "first");
    a.subscribe(NervousEventKind::Alert);
    a.subscribe(NervousEventKind::HealthCheck);
    ns.register_subscriber(a);
    let mut a2 = Subscriber::new("a", "second");
    a2.subscribe(NervousEventKind::Alert);
    ns.register_subscriber(a2);
    assert_eq!(ns.subscriber_count(), 1);
    assert_eq!(ns.subscribers[0].name, "second");
    assert_eq!(ns.routing.len(), 2);
    let alert_route = ns.routing.iter().find(|r| r.kind == NervousEventKind::Alert).unwrap();
    assert_eq!(alert_route.subscriber_ids, vec!["a", "a"]);
    let health_route = ns.routing.iter().find(|r| r.kind == NervousEventKind::HealthCheck).unwrap();
    assert_eq!(health_route.subscriber_ids, vec!["a"]);
}

#[test]
fn log_keeps_newest_events() {
    let mut ns = NervousSystem::new();
    ns.max_log_size = 3;
    for i in 0..6u64 {
        ns.emit_health(i, "r1", bits(i as f64), "ok", bits(0.1));
    }
    let ids: Vec<u64> = ns.event_log.iter().map(|e| e.id).collect();
    assert_eq!(ids, vec![3, 4, 5]);
    ns.max_log_size = 0;
    ns.emit_analysis(6, "r1", bits(7.0), "done");
    assert_eq!(ns.event_count(), 3);
}

#[test]
fn severity_comparison_follows_binary64_order() {
    let mut ns = NervousSystem::new();
    ns.emit_alert(0, "r1", bits(0.0), "neg", bits(-1.0));
    ns.emit_alert(1, "r1", bits(0.0), "zero", bits(0.0));
    ns.emit_alert(2, "r1", bits(0.0), "negzero", bits(-0.0));
    ns.emit_alert(3, "r1", bits(0.0), "nan", bits(f64::NAN));
    ns.emit_alert(4, "r1", bits(0.0), "inf", bits(f64::INFINITY));
    let above_neg_zero: Vec<u64> = ns.high_severity_events(bits(-0.0)).iter().map(|e| e.id).collect();
    assert_eq!(above_neg_zero, vec![4]);
    let above_neg: Vec<u64> = ns.high_severity_events(bits(-2.0)).iter().map(|e| e.id).collect();
    assert_eq!(above_neg, vec![0, 1, 2, 4]);
    assert!(ns.high_severity_events(bits(f64::NAN)).is_empty());
}

#[test]
fn events_for_custom_kind() {
    let mut ns = NervousSystem::new();
    let e1 = NervousEvent::new(1, NervousEventKind::Custom("deploy".into()), "r1", bits(0.0), "", bits(0.0));
    let e2 = NervousEvent::new(2, NervousEventKind::Custom("rollback".into()), "r2", bits(0.0), "", bits(0.0));
    ns.emit(e1);
    ns.emit(e2);
    assert_eq!(ns.events_of_kind(&NervousEventKind::Custom("deploy".into())).len(), 1);
    assert_eq!(ns.events_for_room("r2")[0].id, 2);
    assert!(ns.events_for_room("r3").is_empty());
}
