use eve_core::market_universe::CURATED_TRADE_ITEMS;

#[test]
fn universe_is_nonempty_and_deduped() {
    assert!(CURATED_TRADE_ITEMS.len() > 40);
    let mut seen = std::collections::HashSet::new();
    for name in CURATED_TRADE_ITEMS.iter() {
        assert!(seen.insert(*name), "duplicate item in universe: {name}");
    }
}
