use eve_core::model::Character;
use eve_core::navigation::RouteFlag;

#[test]
fn scope_check() {
    let mut c = Character::new(90000001, "Test Pilot");
    assert!(!c.has_scope("esi-skills.read_skills.v1"));
    c.scopes.push("esi-skills.read_skills.v1".to_string());
    assert!(c.has_scope("esi-skills.read_skills.v1"));
}

#[test]
fn flag_round_trips() {
    for f in [RouteFlag::Shortest, RouteFlag::Secure, RouteFlag::Insecure] {
        assert_eq!(RouteFlag::parse(f.as_str()), f);
    }
    // Unknown falls back to shortest.
    assert_eq!(RouteFlag::parse("nonsense"), RouteFlag::Shortest);
}

#[test]
fn new_character_is_bare() {
    let c = Character::new(7, "Alt");
    assert_eq!(c.name, "Alt");
    assert!(c.corporation_id.is_none() && c.alliance_id.is_none() && !c.active);
    assert!(c.scopes.is_empty());
    assert_eq!(RouteFlag::Insecure.as_str(), "insecure");
}
