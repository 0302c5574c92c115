use eve_core::gatekeeper::gatekeeper_components;

#[test]
fn merges_duplicate_lines_in_first_seen_order() {
    // Hull 587, two lines of module 2048 (3 and 2), an unresolved line, a
    // line of 0 units (counted as one) and a charge.
    let items = vec![(Some(2048), 3), (None, 5), (Some(2048), 2), (Some(31), 0), (Some(587), 1)];
    let owned = vec![(2048, 1), (587, 9), (2048, 4)];
    let rows = gatekeeper_components(Some(587), &items, &owned);
    assert_eq!(rows, vec![(587, 2, 2, 0), (2048, 5, 4, 1), (31, 1, 0, 1)]);
}

#[test]
fn no_hull_and_no_items_gives_nothing() {
    assert!(gatekeeper_components(None, &[], &[(1, 5)]).is_empty());
    assert!(gatekeeper_components(None, &[(None, 3)], &[]).is_empty());
}

#[test]
fn negative_holdings_leave_everything_missing() {
    let rows = gatekeeper_components(Some(10), &[], &[(10, -4)]);
    assert_eq!(rows, vec![(10, 1, -4, 5)]);
}
