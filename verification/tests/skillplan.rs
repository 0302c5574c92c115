use eve_core::skillplan::{plan_cost, sp_for_level, step_sp, CostedStep};

#[test]
fn sp_table_matches_known_values() {
    assert_eq!(sp_for_level(1, 1), 250);
    assert_eq!(sp_for_level(1, 5), 256_000);
    assert_eq!(sp_for_level(3, 1), 750);
    assert_eq!(sp_for_level(1, 0), 0);
}

#[test]
fn golden_skillpoints_per_level() {
    assert_eq!(sp_for_level(1, 1), 250);
    assert_eq!(sp_for_level(1, 2), 1_414);
    assert_eq!(sp_for_level(1, 3), 8_000);
    assert_eq!(sp_for_level(1, 4), 45_255);
    assert_eq!(sp_for_level(1, 5), 256_000);
    assert_eq!(sp_for_level(5, 5), 5 * 256_000);
    assert_eq!(sp_for_level(8, 5), 2_048_000);
}

#[test]
fn even_levels_round_the_sqrt2_factor() {
    // 3 × 1000√2 = 4242.64 → 4243, not 3 × 1414.
    assert_eq!(sp_for_level(3, 2), 4_243);
    // 5 × 32000√2 = 226274.17 → 226274.
    assert_eq!(sp_for_level(5, 4), 226_274);
}

#[test]
fn out_of_range_inputs() {
    assert_eq!(sp_for_level(0, 3), 0);
    assert_eq!(sp_for_level(-2, 3), 0);
    assert_eq!(sp_for_level(2, -1), 0);
    // Levels above 5 count as 5.
    assert_eq!(sp_for_level(2, 9), 512_000);
}

#[test]
fn odd_levels_scale_linearly_with_rank() {
    for level in [1, 3, 5] {
        assert_eq!(sp_for_level(7, level), 7 * sp_for_level(1, level));
    }
}

#[test]
fn skillpoints_rise_with_level() {
    for rank in [1, 2, 3, 16] {
        for level in 0..6 {
            assert!(sp_for_level(rank, level) <= sp_for_level(rank, level + 1));
        }
    }
}

#[test]
fn step_adds_difference_and_skips_completed() {
    assert_eq!(step_sp(1, 4, 5), 256_000 - 45_255);
    assert_eq!(step_sp(1, 5, 5), 0);
    assert_eq!(step_sp(1, 5, 3), 0);
    assert_eq!(step_sp(2, 0, 1), 500);
}

#[test]
fn plan_totals_sum_the_steps() {
    let steps = vec![
        CostedStep { skill_type_id: 3300, target_level: 5, sp: 210_745, seconds: 459_808 },
        CostedStep { skill_type_id: 3301, target_level: 5, sp: 0, seconds: 0 },
        CostedStep { skill_type_id: 3302, target_level: 2, sp: 1_164, seconds: 2_540 },
    ];
    let cost = plan_cost(steps.clone());
    assert_eq!(cost.steps, steps);
    assert_eq!(cost.total_sp, 211_909);
    assert_eq!(cost.total_seconds, 462_348);
}
