use eve_core::logs::gamelog::{
    is_hard_tackle, merge_fleet_tally, parse_combat_line, parse_ewar, parse_ewar_line,
    parse_gamelog, tally_combat, DamageEvent, Direction,
};

const DEALT: &str = "[ 2024.01.15 12:34:57 ] (combat) <color=0xff...><b>247</b><color=0x77ffffff><font size=10> to </font><b><color=0xffffffff>Guristas Wrangler[GURI](Frigate)</b><font size=10><color=0x77ffffff> - Hits</font>";
const RECV: &str = "[ 2024.01.15 12:35:07 ] (combat) <color=0xffcc0000><b>88</b><color=0x77ffffff><font size=10> from </font><b><color=0xffffffff>Guristas Wrangler</b><font size=10> - Penetrates</font>";

const SCRAM: &str = "[ 2024.01.15 12:35:10 ] (combat) <color=0xffe57f7f><b>Warp scramble attempt</b> <color=0xFFFFFFFF>from <b><color=0xffffffff>Enemy Hunter[BAD](Sabre)</color></b> <color=0x77ffffff>to<b><color=0xffffffff> you!</color></b>";
const WEB: &str = "[ 2024.01.15 12:35:11 ] (combat) <b>Stasis Webification attempt</b> from <b>Slower Pilot</b> to you!";

#[test]
fn parses_incoming_ewar_and_classifies_tackle() {
    let s = parse_ewar_line(SCRAM).unwrap();
    assert_eq!(s.effect, "Warp scramble");
    assert_eq!(s.source, "Enemy Hunter");
    assert!(is_hard_tackle(&s.effect));

    let w = parse_ewar_line(WEB).unwrap();
    assert_eq!(w.effect, "Stasis Webification");
    assert_eq!(w.source, "Slower Pilot");
    assert!(!is_hard_tackle(&w.effect));

    assert!(parse_ewar_line(DEALT).is_none());
    assert!(parse_combat_line(SCRAM).is_none());
    assert_eq!(parse_ewar(&format!("{SCRAM}\n{WEB}\n{DEALT}")).len(), 2);
}

#[test]
fn parses_dealt_and_received() {
    let d = parse_combat_line(DEALT).unwrap();
    assert_eq!(d.amount, 247);
    assert_eq!(d.direction, Direction::Dealt);
    assert_eq!(d.entity, "Guristas Wrangler");
    assert_eq!(d.quality, "Hits");

    let r = parse_combat_line(RECV).unwrap();
    assert_eq!(r.amount, 88);
    assert_eq!(r.direction, Direction::Received);
    assert_eq!(r.quality, "Penetrates");
}

#[test]
fn ignores_non_combat_lines() {
    assert!(parse_combat_line("[ 2024.01.15 12:34:57 ] (notify) Some notification").is_none());
    assert!(parse_combat_line("garbage").is_none());
}

#[test]
fn damage_times_are_ten_seconds_apart() {
    let d = parse_combat_line(DEALT).unwrap();
    let r = parse_combat_line(RECV).unwrap();
    assert_eq!(r.at - d.at, 10);
    // 2024-01-15 12:34:57 UTC.
    assert_eq!(d.at, 1_705_322_097);
}

#[test]
fn damage_line_without_quality_keeps_it_empty() {
    let e = parse_combat_line("[ 2024.01.15 12:00:00 ] (combat) 12 to Drone(Hobgoblin)").unwrap();
    assert_eq!(e.amount, 12);
    assert_eq!(e.entity, "Drone");
    assert_eq!(e.quality, "");
}

#[test]
fn damage_line_needs_to_or_from() {
    assert!(parse_combat_line("[ 2024.01.15 12:00:00 ] (combat) 12 at Drone - Hits").is_none());
    assert!(parse_combat_line("[ 2024.01.15 12:00:00 ] (combat) lots to Drone - Hits").is_none());
}

#[test]
fn nested_markup_is_removed() {
    let e = parse_combat_line("[ 2024.01.15 12:00:00 ] (combat) <a<b>>5</a> from <i>Rat</i> - Grazes").unwrap();
    assert_eq!(e.amount, 5);
    assert_eq!(e.direction, Direction::Received);
    assert_eq!(e.entity, "Rat");
    assert_eq!(e.quality, "Grazes");
}

#[test]
fn gamelog_keeps_only_damage_lines_in_order() {
    let events = parse_gamelog(&format!("{DEALT}\r\n{SCRAM}\n{RECV}\ngarbage\n{DEALT}"));
    assert_eq!(events.len(), 3);
    assert_eq!(events[0].amount, 247);
    assert_eq!(events[1].amount, 88);
    assert_eq!(events[2].amount, 247);
}

#[test]
fn ewar_needs_to_you() {
    assert!(parse_ewar_line("[ 2024.01.15 12:00:00 ] (combat) Warp scramble attempt from You to Someone").is_none());
}

#[test]
fn tally_counts_damage_span_and_top_targets() {
    let events = parse_gamelog(&format!("{DEALT}\n{RECV}\n{DEALT}"));
    let t = tally_combat(&events);
    assert_eq!(t.event_count, 3);
    assert_eq!(t.damage_dealt, 494);
    assert_eq!(t.damage_received, 88);
    assert_eq!(t.duration_seconds, 10);
    assert_eq!(t.top_targets[0].entity, "Guristas Wrangler");
    assert_eq!(t.top_targets[0].damage, 494);
    assert_eq!(t.top_attackers[0].damage, 88);
}

#[test]
fn empty_tally_has_one_second_span() {
    let t = tally_combat(&[]);
    assert_eq!(t.event_count, 0);
    assert_eq!(t.duration_seconds, 1);
    assert_eq!(t.damage_dealt, 0);
    assert!(t.top_targets.is_empty());
}

fn hit(at: i64, amount: i64, entity: &str) -> DamageEvent {
    DamageEvent {
        at,
        amount,
        direction: Direction::Dealt,
        entity: entity.to_string(),
        quality: String::new(),
    }
}

#[test]
fn top_targets_keep_five_highest_with_ties_by_name() {
    let events = vec![
        hit(0, 10, "f"),
        hit(0, 50, "b"),
        hit(0, 50, "a"),
        hit(0, 5, "g"),
        hit(0, 30, "c"),
        hit(0, 20, "d"),
        hit(0, 20, "e"),
        hit(0, 15, "f"),
    ];
    let t = tally_combat(&events);
    let names: Vec<&str> = t.top_targets.iter().map(|e| e.entity.as_str()).collect();
    assert_eq!(names, vec!["a", "b", "c", "f", "d"]);
    assert_eq!(t.top_targets[3].damage, 25);
    assert_eq!(t.duration_seconds, 1);
}

#[test]
fn fleet_tally_combines_pilots_and_keeps_individuals() {
    let a = parse_gamelog(&format!("{DEALT}\n{RECV}"));
    let b = parse_gamelog(&format!("{DEALT}\n{DEALT}"));
    let fleet = merge_fleet_tally(&[("Alpha".to_string(), a), ("Bravo".to_string(), b)]);
    assert_eq!(fleet.damage_dealt, 741);
    assert_eq!(fleet.damage_received, 88);
    assert_eq!(fleet.pilots.len(), 2);
    assert_eq!(fleet.pilots[0].name, "Bravo");
    assert_eq!(fleet.pilots[0].tally.damage_dealt, 494);
    assert_eq!(fleet.top_targets[0].damage, 741);
    assert_eq!(fleet.duration_seconds, 10);
}

#[test]
fn fleet_ties_keep_input_order() {
    let fleet = merge_fleet_tally(&[
        ("First".to_string(), vec![hit(0, 7, "x")]),
        ("Second".to_string(), vec![hit(5, 7, "y")]),
    ]);
    assert_eq!(fleet.pilots[0].name, "First");
    assert_eq!(fleet.pilots[1].name, "Second");
    assert_eq!(fleet.duration_seconds, 5);
}

#[test]
fn each_direction_may_reach_the_integer_limit() {
    let ev = |amount: i64, entity: &str, direction: Direction| DamageEvent {
        at: 1_700_000_000,
        amount,
        entity: entity.to_string(),
        direction,
        quality: String::new(),
    };
    let events = vec![ev(i64::MAX, "Target", Direction::Dealt), ev(i64::MAX, "Attacker", Direction::Received)];
    let t = tally_combat(&events);
    assert_eq!(t.damage_dealt, i64::MAX);
    assert_eq!(t.damage_received, i64::MAX);
    assert_eq!(t.top_targets[0].damage, i64::MAX);
    assert_eq!(t.duration_seconds, 1);
}

#[test]
fn hard_tackle_ignores_case() {
    assert!(is_hard_tackle("WARP DISRUPTION"));
    assert!(is_hard_tackle("Warp Scramble"));
    assert!(!is_hard_tackle("STASIS WEBIFIER"));
}
