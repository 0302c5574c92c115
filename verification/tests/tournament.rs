use eve_core::tournament::{validate_comp, TeamPick, TeamRules};

fn pick(pilot: &str, ship: &str, points: i64) -> TeamPick {
    TeamPick { pilot: pilot.into(), ship: ship.into(), points }
}

fn rules() -> TeamRules {
    TeamRules { point_budget: 100, max_pilots: 12, max_per_hull: 2 }
}

#[test]
fn legal_comp_passes() {
    let picks = vec![pick("Alice", "Rook", 19), pick("Bob", "Guardian", 17), pick("Carol", "Vindicator", 18)];
    let r = validate_comp(&picks, rules());
    assert_eq!(r.total_points, 54);
    assert_eq!(r.remaining_points, 46);
    assert_eq!(r.pilot_count, 3);
    assert!(r.legal);
}

#[test]
fn over_budget_is_flagged() {
    let picks = vec![pick("Alice", "Nightmare", 60), pick("Bob", "Nightmare", 60)];
    let r = validate_comp(&picks, rules());
    assert!(r.over_budget);
    assert_eq!(r.remaining_points, -20);
    assert!(!r.legal);
}

#[test]
fn duplicate_pilot_and_over_stacked_hull() {
    let picks = vec![
        pick("Alice", "Ishtar", 15),
        pick("alice", "Guardian", 17),
        pick("Bob", "Ishtar", 15),
        pick("Carol", "Ishtar", 15),
    ];
    let r = validate_comp(&picks, rules());
    assert_eq!(r.duplicate_pilots, vec!["Alice"]);
    assert_eq!(r.over_stacked_hulls, vec!["Ishtar"]);
    assert!(!r.legal);
}

#[test]
fn over_size_is_flagged() {
    let rules = TeamRules { point_budget: 1000, max_pilots: 2, max_per_hull: 0 };
    let picks = vec![pick("A", "Rifter", 5), pick("B", "Rifter", 5), pick("C", "Rifter", 5)];
    let r = validate_comp(&picks, rules);
    assert!(r.over_size);
    assert!(!r.legal);
    assert!(r.over_stacked_hulls.is_empty());
}

#[test]
fn negative_costs_count_as_zero_and_blank_names_are_ignored() {
    let picks = vec![pick("  ", " ", 10), pick("", "", -50), pick(" Dan ", "rifter", 5), pick("dan", " RIFTER ", 5)];
    let r = validate_comp(&picks, TeamRules { point_budget: 20, max_pilots: 4, max_per_hull: 1 });
    assert_eq!(r.total_points, 20);
    assert_eq!(r.remaining_points, 0);
    assert!(!r.over_budget);
    assert_eq!(r.duplicate_pilots, vec!["Dan"]);
    assert_eq!(r.over_stacked_hulls, vec!["rifter"]);
    assert!(!r.legal);
}

#[test]
fn empty_comp_is_legal() {
    let r = validate_comp(&[], rules());
    assert_eq!((r.total_points, r.pilot_count, r.remaining_points), (0, 0, 100));
    assert!(r.legal);
}
