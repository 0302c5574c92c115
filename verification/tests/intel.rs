use eve_core::intel::{assess_gatecamp, assess_safety, score_pilot, summarize, PilotSignals, ThreatLevel};

#[test]
fn summary_calls_out_hunters() {
    let levels = [ThreatLevel::Danger, ThreatLevel::Caution, ThreatLevel::Safe];
    assert!(summarize(&levels).contains("hunter"));
}

#[test]
fn safety_levels_by_kill_volume() {
    assert_eq!(assess_safety(0).level, ThreatLevel::Safe);
    assert_eq!(assess_safety(3).level, ThreatLevel::Caution);
    assert_eq!(assess_safety(20).level, ThreatLevel::Danger);
}

#[test]
fn gatecamp_levels_by_kill_volume() {
    assert_eq!(assess_gatecamp(0).level, ThreatLevel::Safe);
    assert_eq!(assess_gatecamp(2).level, ThreatLevel::Caution);
    assert_eq!(assess_gatecamp(9).level, ThreatLevel::Danger);
}

#[test]
fn summary_texts_are_exact() {
    let levels = [ThreatLevel::Danger, ThreatLevel::Danger, ThreatLevel::Caution, ThreatLevel::Safe];
    assert_eq!(summarize(&levels), "2 known hunter(s), 1 to watch — be careful undocking.");
    assert_eq!(
        summarize(&[ThreatLevel::Caution, ThreatLevel::Neutral]),
        "1 pilot(s) worth watching, no clear hunters."
    );
    assert_eq!(summarize(&[]), "No notable threats among these pilots.");
}

#[test]
fn assessment_messages_are_exact() {
    assert_eq!(assess_gatecamp(3).message, "3 kill(s) in the last hour — some activity, stay alert.");
    assert_eq!(assess_gatecamp(12).message, "12 kills in the last hour — likely an active camp.");
    assert_eq!(assess_safety(6).message, "6 kills in/around your system this hour — hot.");
    assert_eq!(assess_safety(0).message, "Quiet — no recent kills nearby.");
    assert_eq!(assess_gatecamp(-1).level, ThreatLevel::Caution);
    assert_eq!(ThreatLevel::Caution.as_str(), "Caution");
}

#[test]
fn more_kills_never_lower_the_flag() {
    let mut prev = ThreatLevel::Safe;
    for k in 0..30 {
        let l = assess_safety(k).level;
        assert!(l >= prev);
        prev = l;
    }
}

fn signals(danger_ratio: i64, gang_ratio: i64, ships_destroyed: i64, ships_lost: i64, sec_status: f64) -> PilotSignals {
    PilotSignals {
        danger_ratio,
        gang_ratio,
        ships_destroyed,
        ships_lost,
        flashy: sec_status <= -5.0,
        sec_status_text: format!("{:.1}", sec_status),
    }
}

#[test]
fn no_kills_is_safe() {
    let t = score_pilot(&signals(0, 0, 0, 0, 0.0));
    assert_eq!(t.level, ThreatLevel::Safe);
}

#[test]
fn flashy_no_kills_is_caution() {
    let s = signals(0, 0, 0, 0, -7.5);
    assert_eq!(score_pilot(&s).level, ThreatLevel::Caution);
}

#[test]
fn prolific_killer_is_danger() {
    let s = signals(85, 50, 4000, 300, -2.0);
    assert_eq!(score_pilot(&s).level, ThreatLevel::Danger);
}

#[test]
fn solo_hunter_escalates_to_danger() {
    let s = signals(65, 10, 120, 40, -1.0);
    assert_eq!(score_pilot(&s).level, ThreatLevel::Danger);
}

#[test]
fn modest_board_is_neutral() {
    let s = signals(40, 80, 20, 50, 0.5);
    assert_eq!(score_pilot(&s).level, ThreatLevel::Neutral);
}

#[test]
fn reasons_explain_the_flag() {
    let t = score_pilot(&signals(85, 50, 4000, 300, -7.3));
    assert_eq!(
        t.reasons,
        vec![
            "High danger ratio 85%".to_string(),
            "4000 kills — very active".to_string(),
            "Flashy sec status -7.3".to_string(),
        ]
    );
    let quiet = score_pilot(&signals(10, 90, 5, 1, 1.0));
    assert_eq!(quiet.level, ThreatLevel::Neutral);
    assert_eq!(quiet.reasons, vec!["Some kill history, low recent threat".to_string()]);
    let flashy = score_pilot(&signals(0, 0, 0, 0, -9.0));
    assert_eq!(flashy.reasons, vec!["No kills on record".to_string(), "but flashy sec status -9.0".to_string()]);
}

#[test]
fn solo_hunter_with_few_kills_is_caution() {
    let t = score_pilot(&signals(65, 10, 20, 3, 0.0));
    assert_eq!(t.level, ThreatLevel::Caution);
    assert_eq!(t.reasons, vec!["Moderate danger ratio 65%".to_string(), "Solo hunter profile".to_string()]);
}
