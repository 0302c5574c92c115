use eve_core::skillplan_import::{level_of_token, parse_level, parse_plan, ImportedSkill};

#[test]
fn parses_roman_and_digits() {
    assert_eq!(parse_level("IV"), Some(4));
    assert_eq!(parse_level("v"), Some(5));
    assert_eq!(parse_level("3"), Some(3));
    assert_eq!(parse_level("VI"), None);
    assert_eq!(parse_level("foo"), None);
}

#[test]
fn parses_evemon_xml() {
    let xml = r#"
        <plan>
          <entry skill="Caldari Cruiser" level="4" priority="1" />
          <entry skill="Shield Management" level='5' />
        </plan>
    "#;
    let p = parse_plan(xml);
    assert_eq!(p.len(), 2);
    assert_eq!(p[0], ImportedSkill { name: "Caldari Cruiser".into(), level: 4 });
    assert_eq!(p[1], ImportedSkill { name: "Shield Management".into(), level: 5 });
}

#[test]
fn parses_plain_text_and_dedups_to_highest() {
    let text = "Hull Upgrades IV\nCaldari Cruiser - V\nHull Upgrades 5\n# comment\n";
    let p = parse_plan(text);
    assert_eq!(p.len(), 2);
    let hull = p.iter().find(|s| s.name == "Hull Upgrades").unwrap();
    assert_eq!(hull.level, 5);
    let cruiser = p.iter().find(|s| s.name == "Caldari Cruiser").unwrap();
    assert_eq!(cruiser.level, 5);
}

#[test]
fn ignores_garbage_lines() {
    assert!(parse_plan("just some prose with no level\n\n").is_empty());
}

#[test]
fn level_token_is_exact_and_case_blind() {
    assert_eq!(level_of_token("iii"), Some(3));
    assert_eq!(level_of_token("ii"), Some(2));
    assert_eq!(level_of_token(" 2"), None);
    assert_eq!(level_of_token("0"), None);
}

#[test]
fn level_tolerates_punctuation_around_the_token() {
    assert_eq!(parse_level(" (IV). "), Some(4));
    assert_eq!(parse_level("--2--"), Some(2));
    assert_eq!(parse_level(""), None);
}

#[test]
fn repeat_keeps_first_spelling_and_higher_level() {
    let p = parse_plan("drones V\nDrones 3\nDRONES II");
    assert_eq!(p, vec![ImportedSkill { name: "drones".into(), level: 5 }]);
}

#[test]
fn evemon_entry_without_valid_level_falls_back_to_text_rules() {
    // Not a valid entry and starts with '<', so nothing is taken.
    assert!(parse_plan("<entry skill=\"Gunnery\" level=\"9\" />").is_empty());
    // Single-quoted skill and a Roman level.
    let p = parse_plan("<entry skill='  Gunnery ' level='III'/>");
    assert_eq!(p, vec![ImportedSkill { name: "Gunnery".into(), level: 3 }]);
}
