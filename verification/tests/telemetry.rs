use eve_core::telemetry::{should_record, trim_batch, TelemetryEvent, COUNT_CEILING};

#[test]
fn event_sanitizes_name_and_clamps_counts() {
    let e = TelemetryEvent::new("Feature Open!", &[("Hub-Id", 3), ("huge", 9_999_999)]);
    assert_eq!(e.name, "feature_open_");
    assert_eq!(e.counts.get("hub_id"), Some(&3));
    assert_eq!(e.counts.get("huge"), Some(&100_000));
}

#[test]
fn consent_gates_recording() {
    assert!(!should_record(false));
    assert!(should_record(true));
}

#[test]
fn batch_trims_to_cap_keeping_recent() {
    let evs: Vec<TelemetryEvent> = (0..10).map(|i| TelemetryEvent::new(&format!("e{i}"), &[])).collect();
    let kept = trim_batch(evs, 3);
    assert_eq!(kept.len(), 3);
    assert_eq!(kept[0].name, "e7");
    assert_eq!(kept[2].name, "e9");
}

#[test]
fn batch_under_cap_is_untouched() {
    let evs: Vec<TelemetryEvent> = (0..2).map(|i| TelemetryEvent::new(&format!("e{i}"), &[])).collect();
    let kept = trim_batch(evs.clone(), 5);
    assert_eq!(kept, evs);
    assert!(trim_batch(evs, 0).is_empty());
}

#[test]
fn later_counter_of_same_name_wins_and_unknown_is_absent() {
    let e = TelemetryEvent::new("  Zoom  ", &[("tab", 1), ("TAB ", 2), ("x", COUNT_CEILING)]);
    assert_eq!(e.name, "zoom");
    assert_eq!(e.counts.get("tab"), Some(&2));
    assert_eq!(e.counts.get("x"), Some(&COUNT_CEILING));
    assert_eq!(e.counts.get("missing"), None);
}

#[test]
fn non_ascii_is_lowercased_then_replaced() {
    // The Kelvin sign lowercases to ASCII 'k'; other non-ASCII becomes '_'.
    let e = TelemetryEvent::new("\u{212a}ey Ünit", &[]);
    assert_eq!(e.name, "key__nit");
}

#[test]
fn counts_compare_as_maps_and_list_in_name_order() {
    let a = TelemetryEvent::new("tab_open", &[("zeta", 1), ("alpha", 2), ("mid", 3), ("alpha", 4)]);
    let b = TelemetryEvent::new("tab_open", &[("mid", 3), ("alpha", 4), ("zeta", 1)]);
    assert_eq!(a, b);
    let names: Vec<&str> = a.counts.entries().iter().map(|(n, _)| n.as_str()).collect();
    assert_eq!(names, vec!["alpha", "mid", "zeta"]);
    assert_eq!(a.counts.get("alpha"), Some(&4));
}
