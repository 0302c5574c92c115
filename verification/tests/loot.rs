use eve_core::loot::{parse_loot, LootLine};

#[test]
fn parses_tab_separated_inventory_paste() {
    let text = "Nanite Repair Paste\t50\tCommodity\nCaldari Navy Ballistic Control System\t1\tModule\nTritanium\t1,000";
    let lines = parse_loot(text);
    assert_eq!(lines.len(), 3);
    assert_eq!(lines[0], LootLine { name: "Nanite Repair Paste".into(), quantity: 50 });
    assert_eq!(lines[1].name, "Caldari Navy Ballistic Control System");
    assert_eq!(lines[2], LootLine { name: "Tritanium".into(), quantity: 1000 });
}

#[test]
fn dedups_and_defaults_quantity() {
    let text = "Tritanium\t100\nTritanium\t50\nDamage Control II";
    let lines = parse_loot(text);
    assert_eq!(lines.len(), 2);
    let trit = lines.iter().find(|l| l.name == "Tritanium").unwrap();
    assert_eq!(trit.quantity, 150);
    let dc = lines.iter().find(|l| l.name == "Damage Control II").unwrap();
    assert_eq!(dc.quantity, 1);
}

#[test]
fn ignores_blank_lines() {
    assert!(parse_loot("\n\n   \n").is_empty());
}

#[test]
fn merges_names_ignoring_ascii_case_and_keeps_first_spelling() {
    let lines = parse_loot("tritanium\t5\r\nTRITANIUM\t7\r\r\n");
    assert_eq!(lines, vec![LootLine { name: "tritanium".into(), quantity: 12 }]);
}

#[test]
fn garbage_or_zero_quantity_counts_once() {
    let lines = parse_loot("Pyerite\tabc\nMexallon\t0\nIsogen\t  \nZydrine\t99999999999999999999");
    assert_eq!(
        lines,
        vec![
            LootLine { name: "Pyerite".into(), quantity: 1 },
            LootLine { name: "Mexallon".into(), quantity: 1 },
            LootLine { name: "Isogen".into(), quantity: 1 },
            LootLine { name: "Zydrine".into(), quantity: 1 },
        ]
    );
}

#[test]
fn line_with_empty_name_is_skipped() {
    assert!(parse_loot("\t40\tOre").is_empty());
}
