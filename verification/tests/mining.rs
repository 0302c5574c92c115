use eve_core::mining::{summarize_mining, MiningEntry};

fn entry(date: &str, type_id: i64, quantity: i64) -> MiningEntry {
    MiningEntry { date: date.into(), quantity, solar_system_id: 30000142, type_id }
}

#[test]
fn summarizes_by_ore_days_and_total() {
    let entries = vec![
        entry("2026-06-20", 34, 10000),
        entry("2026-06-20", 35, 4000),
        entry("2026-06-21", 34, 5000),
    ];
    let s = summarize_mining(&entries);
    assert_eq!(s.total_units, 19000);
    assert_eq!(s.day_count, 2);
    assert_eq!(s.by_ore[0].type_id, 34);
    assert_eq!(s.by_ore[0].quantity, 15000);
    assert_eq!(s.by_ore[1].type_id, 35);
    assert_eq!(s.by_ore[1].quantity, 4000);
}

#[test]
fn empty_ledger_is_zeroed() {
    let s = summarize_mining(&[]);
    assert_eq!(s.total_units, 0);
    assert_eq!(s.day_count, 0);
    assert!(s.by_ore.is_empty());
}

#[test]
fn equal_quantities_order_by_type_id() {
    let entries = vec![entry("d1", 40, 7), entry("d2", 12, 7), entry("d3", 99, 8), entry("d1", 12, 0)];
    let s = summarize_mining(&entries);
    let order: Vec<(i64, i64)> = s.by_ore.iter().map(|o| (o.type_id, o.quantity)).collect();
    assert_eq!(order, vec![(99, 8), (12, 7), (40, 7)]);
    assert_eq!(s.day_count, 3);
    assert_eq!(s.total_units, 22);
}
