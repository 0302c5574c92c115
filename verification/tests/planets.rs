use eve_core::planets::{summarize_colony, Colony, ExtractorDetails, Pin};
use time::format_description::well_known::Rfc3339;
use time::OffsetDateTime;

fn ts(s: &str) -> i128 {
    OffsetDateTime::parse(s, &Rfc3339).unwrap().unix_timestamp_nanos()
}

fn extractor(pin_id: i64, product: i64, expiry: &str) -> Pin {
    Pin {
        pin_id,
        type_id: 2848,
        expiry_time: Some(expiry.to_string()),
        extractor_details: Some(ExtractorDetails {
            product_type_id: Some(product),
            qty_per_cycle: Some(1000),
            cycle_time: Some(3600),
        }),
        schematic_id: None,
    }
}

fn colony(planet_type: &str) -> Colony {
    Colony {
        planet_id: 40000001,
        solar_system_id: 30000142,
        planet_type: planet_type.into(),
        upgrade_level: 3,
        num_pins: 6,
        last_update: String::new(),
    }
}

#[test]
fn summarize_picks_soonest_expiry_and_counts_extractors() {
    let pins = vec![
        extractor(1, 2268, "2026-06-21T12:00:00Z"),
        extractor(2, 2305, "2026-06-21T10:00:00Z"),
        Pin { pin_id: 3, type_id: 2473, expiry_time: None, extractor_details: None, schematic_id: Some(127) },
    ];
    let s = summarize_colony(&colony("barren"), &pins, ts("2026-06-21T09:00:00Z"));
    assert_eq!(s.extractor_count, 2);
    assert_eq!(s.soonest_expiry.as_deref(), Some("2026-06-21T10:00:00Z"));
    assert_eq!(s.seconds_remaining, 3600);
    assert_eq!(s.products, vec![2268, 2305]);
    assert_eq!(s.planet_type, "barren");
}

#[test]
fn passed_expiry_clamps_to_zero_and_idle_has_none() {
    let c = colony("lava");
    let s = summarize_colony(&c, &[], ts("2026-06-21T09:00:00Z"));
    assert!(s.soonest_expiry.is_none());
    assert_eq!(s.seconds_remaining, 0);
    let s = summarize_colony(&c, &[extractor(1, 2268, "2026-06-21T08:00:00Z")], ts("2026-06-21T09:00:00Z"));
    assert_eq!(s.seconds_remaining, 0);
}

#[test]
fn offsets_compare_as_instants_and_bad_times_are_skipped() {
    let pins = vec![
        extractor(1, 2268, "not a time"),
        extractor(2, 2268, "2026-06-21T12:00:00+02:00"),
        extractor(3, 2305, "2026-06-21T11:00:00Z"),
    ];
    let s = summarize_colony(&colony("ice"), &pins, ts("2026-06-21T09:30:00Z"));
    assert_eq!(s.soonest_expiry.as_deref(), Some("2026-06-21T12:00:00+02:00"));
    assert_eq!(s.seconds_remaining, 30 * 60);
    assert_eq!(s.products, vec![2268, 2305]);
    assert_eq!(s.extractor_count, 3);
}
