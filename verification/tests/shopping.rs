use eve_core::shopping::{parse_multibuy, WantedItem};

#[test]
fn parses_common_formats_and_merges_dupes() {
    let text = "\
Tritanium\t1,000
Pyerite 500
Damage Control II x2
Warrior II
Tritanium\t500";
    let items = parse_multibuy(text);
    assert_eq!(items[0], WantedItem { name: "Tritanium".into(), quantity: 1500 });
    assert_eq!(items[1], WantedItem { name: "Pyerite".into(), quantity: 500 });
    assert_eq!(items[2], WantedItem { name: "Damage Control II".into(), quantity: 2 });
    assert_eq!(items[3], WantedItem { name: "Warrior II".into(), quantity: 1 });
    assert_eq!(items.len(), 4);
}

#[test]
fn blank_and_garbage_lines_skipped() {
    let items = parse_multibuy("\n  \nRifter\n");
    assert_eq!(items, vec![WantedItem { name: "Rifter".into(), quantity: 1 }]);
}

#[test]
fn bare_number_alone_is_a_name() {
    // A lone number has no name before it, so the whole line is the name.
    let items = parse_multibuy("42");
    assert_eq!(items, vec![WantedItem { name: "42".into(), quantity: 1 }]);
}

#[test]
fn names_match_exactly_not_ignoring_case() {
    let items = parse_multibuy("Rifter x3\nrifter x2\nRifter 1");
    assert_eq!(
        items,
        vec![
            WantedItem { name: "Rifter".into(), quantity: 4 },
            WantedItem { name: "rifter".into(), quantity: 2 },
        ]
    );
}

#[test]
fn non_positive_quantity_falls_back_to_next_format() {
    // "x0" is no quantity, so the line is a name with quantity 1.
    let items = parse_multibuy("Hobgoblin x0");
    assert_eq!(items, vec![WantedItem { name: "Hobgoblin x0".into(), quantity: 1 }]);
}
