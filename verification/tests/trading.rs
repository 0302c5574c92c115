use eve_core::trading::{fifo_match, Fill, OpenLot, TradeEntry};

fn buy(type_id: i64, quantity: i64, date: &str) -> TradeEntry {
    TradeEntry { type_id, quantity, is_buy: true, date: date.to_string() }
}

fn sell(type_id: i64, quantity: i64, date: &str) -> TradeEntry {
    TradeEntry { type_id, quantity, is_buy: false, date: date.to_string() }
}

#[test]
fn fifo_takes_the_oldest_buys_first() {
    let trades = vec![
        buy(34, 100, "2026-01-01T00:00:00Z"),
        buy(34, 100, "2026-01-02T00:00:00Z"),
        sell(34, 150, "2026-01-03T00:00:00Z"),
    ];
    let m = fifo_match(&trades);
    assert_eq!(m.order, vec![0, 1, 2]);
    assert_eq!(
        m.fills,
        vec![Fill { sale: 2, buy: 0, units: 100 }, Fill { sale: 2, buy: 1, units: 50 }]
    );
    assert_eq!(m.open, vec![OpenLot { buy: 1, type_id: 34, units: 50 }]);
}

#[test]
fn log_is_processed_oldest_first() {
    let trades = vec![
        sell(34, 10, "2026-01-03T00:00:00Z"),
        buy(34, 10, "2026-01-01T00:00:00Z"),
    ];
    let m = fifo_match(&trades);
    assert_eq!(m.order, vec![1, 0]);
    assert_eq!(m.fills, vec![Fill { sale: 0, buy: 1, units: 10 }]);
    assert!(m.open.is_empty());
}

#[test]
fn same_date_keeps_log_order() {
    let trades = vec![
        sell(34, 10, "2026-01-01T00:00:00Z"),
        buy(34, 10, "2026-01-01T00:00:00Z"),
    ];
    let m = fifo_match(&trades);
    assert_eq!(m.order, vec![0, 1]);
    assert!(m.fills.is_empty());
    assert_eq!(m.open, vec![OpenLot { buy: 1, type_id: 34, units: 10 }]);
}

#[test]
fn sale_beyond_known_buys_is_left_unmatched() {
    let m = fifo_match(&[sell(587, 10, "2026-02-01T00:00:00Z")]);
    assert!(m.fills.is_empty());
    assert!(m.open.is_empty());
}

#[test]
fn items_are_matched_separately() {
    let trades = vec![
        buy(1, 10, "2026-01-01T00:00:00Z"),
        buy(2, 5, "2026-01-01T00:00:00Z"),
        sell(2, 3, "2026-01-02T00:00:00Z"),
        sell(1, 10, "2026-01-02T00:00:00Z"),
    ];
    let m = fifo_match(&trades);
    assert_eq!(
        m.fills,
        vec![Fill { sale: 2, buy: 1, units: 3 }, Fill { sale: 3, buy: 0, units: 10 }]
    );
    assert_eq!(m.open, vec![OpenLot { buy: 1, type_id: 2, units: 2 }]);
}

#[test]
fn matched_plus_open_units_equal_bought_units() {
    let trades = vec![
        buy(7, 40, "2026-01-01T00:00:00Z"),
        sell(7, 15, "2026-01-02T00:00:00Z"),
        buy(7, 20, "2026-01-03T00:00:00Z"),
        sell(7, 30, "2026-01-04T00:00:00Z"),
    ];
    let m = fifo_match(&trades);
    let matched: i64 = m.fills.iter().map(|f| f.units).sum();
    let open: i64 = m.open.iter().map(|l| l.units).sum();
    assert_eq!(matched + open, 60);
    assert_eq!(open, 15);
}

#[test]
fn large_buys_and_sales_of_one_item_match() {
    let big: i64 = 5_000_000_000_000_000_000;
    let trades = vec![
        TradeEntry { type_id: 34, quantity: big, is_buy: true, date: "2026-01-01T00:00:00Z".to_string() },
        TradeEntry { type_id: 34, quantity: big, is_buy: false, date: "2026-01-02T00:00:00Z".to_string() },
    ];
    let m = fifo_match(&trades);
    assert_eq!(m.fills, vec![Fill { sale: 1, buy: 0, units: big }]);
    assert!(m.open.is_empty());
}

#[test]
fn negative_lots_are_consumed_without_overflow() {
    let trades = vec![
        TradeEntry { type_id: 7, quantity: i64::MIN, is_buy: true, date: "2026-01-01T00:00:00Z".to_string() },
        TradeEntry { type_id: 7, quantity: i64::MAX, is_buy: true, date: "2026-01-01T00:00:01Z".to_string() },
        TradeEntry { type_id: 7, quantity: i64::MAX, is_buy: false, date: "2026-01-02T00:00:00Z".to_string() },
    ];
    let m = fifo_match(&trades);
    assert_eq!(m.fills, vec![Fill { sale: 2, buy: 0, units: i64::MIN }, Fill { sale: 2, buy: 1, units: i64::MAX }]);
    assert!(m.open.is_empty());
}
