//! Local intel: threat flags and the situational read-outs built on them.
//!
//! A pilot's flag comes from killboard activity; a system's from its recent
//! kill volume. The read-outs here are deterministic, so the UI (and any
//! narrating layer) only ever explains numbers computed in this module.

use vstd::prelude::*;
use crate::text::{dec, int_text, int_to_string, usize_to_string};

verus! {

/// Threat flag, in ascending order of concern (the derived `Ord` matches
/// that order, as [`ThreatLevel::rank`] does).
#[derive(Debug, Clone, Copy, PartialEq, Eq, Structural, PartialOrd, Ord, Hash)]
pub enum ThreatLevel {
    Safe,
    Neutral,
    Caution,
    Danger,
}

/// The display name of a threat level.
pub open spec fn threat_name(t: ThreatLevel) -> Seq<char> {
    match t {
        ThreatLevel::Safe => "Safe"@,
        ThreatLevel::Neutral => "Neutral"@,
        ThreatLevel::Caution => "Caution"@,
        ThreatLevel::Danger => "Danger"@,
    }
}

impl ThreatLevel {
    /// Position in the order `Safe < Neutral < Caution < Danger`.
    pub open spec fn rank(self) -> int {
        match self {
            ThreatLevel::Safe => 0,
            ThreatLevel::Neutral => 1,
            ThreatLevel::Caution => 2,
            ThreatLevel::Danger => 3,
        }
    }

    /// The display name.
    pub fn as_str(self) -> (r: &'static str)
        ensures
            r@ == threat_name(self),
    {
        match self {
            ThreatLevel::Safe => "Safe",
            ThreatLevel::Neutral => "Neutral",
            ThreatLevel::Caution => "Caution",
            ThreatLevel::Danger => "Danger",
        }
    }
}

/// What the pilot scorer reads: killboard ratios and counts, and the
/// security status in the two forms it is used in.
#[derive(Debug, Clone, PartialEq)]
pub struct PilotSignals {
    /// Danger ratio 0-100 (share of involvements that were kills).
    pub danger_ratio: i64,
    /// Gang ratio 0-100 (high: fights in gangs, low: solo).
    pub gang_ratio: i64,
    pub ships_destroyed: i64,
    pub ships_lost: i64,
    /// The security status is -5.0 or lower (a "flashy" outlaw).
    pub flashy: bool,
    /// The security status to one decimal, as the reasons quote it.
    pub sec_status_text: String,
}

/// A scored pilot: the flag and the reasons behind it.
#[derive(Debug, Clone, PartialEq)]
pub struct PilotThreat {
    pub level: ThreatLevel,
    pub reasons: Vec<String>,
}

/// The higher of two flags.
pub open spec fn escalate(a: ThreatLevel, b: ThreatLevel) -> ThreatLevel {
    if b.rank() > a.rank() {
        b
    } else {
        a
    }
}

/// A solo hunter: a gang ratio in 1..=30 with a danger ratio of 60 or more.
pub open spec fn solo_hunter(danger_ratio: int, gang_ratio: int) -> bool {
    0 < gang_ratio <= 30 && danger_ratio >= 60
}

/// The flag for a pilot. Without kills: Safe, or Caution when flashy.
/// With kills, from Neutral: a danger ratio of 70+ or 1000+ kills raise it
/// to at least Caution; a danger ratio of 70+ with 100+ kills makes it
/// Danger; a solo hunter is at least Caution, Danger with 100+ kills; a
/// flashy status raises it to at least Caution.
pub open spec fn pilot_level(dr: int, gr: int, kills: int, flashy: bool) -> ThreatLevel {
    if kills == 0 {
        if flashy {
            ThreatLevel::Caution
        } else {
            ThreatLevel::Safe
        }
    } else {
        let l1 = if dr >= 70 {
            ThreatLevel::Caution
        } else {
            ThreatLevel::Neutral
        };
        let l2 = if kills >= 1000 {
            escalate(l1, ThreatLevel::Caution)
        } else {
            l1
        };
        let l3 = if dr >= 70 && kills >= 100 {
            ThreatLevel::Danger
        } else {
            l2
        };
        let l4 = if solo_hunter(dr, gr) {
            if kills >= 100 {
                ThreatLevel::Danger
            } else {
                escalate(l3, ThreatLevel::Caution)
            }
        } else {
            l3
        };
        if flashy {
            escalate(l4, ThreatLevel::Caution)
        } else {
            l4
        }
    }
}

/// The reasons given for a pilot's flag, in order.
pub open spec fn pilot_reasons(dr: int, gr: int, kills: int, flashy: bool, sec: Seq<char>) -> Seq<Seq<char>> {
    if kills == 0 {
        if flashy {
            seq!["No kills on record"@, "but flashy sec status "@ + sec]
        } else {
            seq!["No kills on record"@]
        }
    } else {
        let r1: Seq<Seq<char>> = if dr >= 70 {
            seq!["High danger ratio "@ + int_text(dr) + "%"@]
        } else if dr >= 50 {
            seq!["Moderate danger ratio "@ + int_text(dr) + "%"@]
        } else {
            seq![]
        };
        let r2: Seq<Seq<char>> = r1 + if kills >= 1000 {
            seq![int_text(kills) + " kills — very active"@]
        } else if kills >= 100 {
            seq![int_text(kills) + " kills"@]
        } else {
            seq![]
        };
        let r3: Seq<Seq<char>> = r2 + if solo_hunter(dr, gr) {
            seq!["Solo hunter profile"@]
        } else {
            seq![]
        };
        let r4: Seq<Seq<char>> = r3 + if flashy {
            seq!["Flashy sec status "@ + sec]
        } else {
            seq![]
        };
        if r4.len() == 0 {
            seq!["Some kill history, low recent threat"@]
        } else {
            r4
        }
    }
}

/// A flashy security status never lowers a pilot's flag, and a pilot with
/// a danger ratio of 70 or more and at least 100 kills is always Danger.
pub proof fn lemma_pilot_level_escalates(dr: int, gr: int, kills: int)
    ensures
        pilot_level(dr, gr, kills, true).rank() >= pilot_level(dr, gr, kills, false).rank(),
        dr >= 70 && kills >= 100 ==> pilot_level(dr, gr, kills, false) == ThreatLevel::Danger
            && pilot_level(dr, gr, kills, true) == ThreatLevel::Danger,
{
}

/// What a scored pilot's flag is, rule by rule (`r` being what
/// [`score_pilot`] returns for `s`). Without kills: Safe, or Caution when
/// flashy. With kills the flag is at least Neutral; it is at least Caution
/// exactly when the danger ratio is 70 or more, or there are 1000 or more
/// kills, or the pilot hunts solo (gang ratio 1 to 30 and danger ratio 60 or
/// more), or the status is flashy; and it is Danger exactly when there are
/// 100 or more kills and the danger ratio is 70 or more or the pilot hunts
/// solo.
pub proof fn lemma_pilot_flag_rules(s: PilotSignals, r: PilotThreat)
    requires
        r.level == pilot_level(s.danger_ratio as int, s.gang_ratio as int, s.ships_destroyed as int, s.flashy),
    ensures
        s.ships_destroyed == 0 ==> r.level == (if s.flashy {
            ThreatLevel::Caution
        } else {
            ThreatLevel::Safe
        }),
        s.ships_destroyed != 0 ==> r.level.rank() >= ThreatLevel::Neutral.rank(),
        s.ships_destroyed != 0 ==> (r.level.rank() >= ThreatLevel::Caution.rank() <==> (s.danger_ratio >= 70
            || s.ships_destroyed >= 1000 || (0 < s.gang_ratio <= 30 && s.danger_ratio >= 60) || s.flashy)),
        s.ships_destroyed != 0 ==> (r.level == ThreatLevel::Danger <==> (s.ships_destroyed >= 100 && (
        s.danger_ratio >= 70 || (0 < s.gang_ratio <= 30 && s.danger_ratio >= 60)))),
{
}

/// The texts of a list of strings.
pub open spec fn texts(v: Seq<String>) -> Seq<Seq<char>> {
    v.map_values(|s: String| s@)
}

/// `a` followed by `b`.
fn joined(a: &str, b: &str) -> (r: String)
    ensures
        r@ == a@ + b@,
{
    let mut s = a.to_owned();
    s.append(b);
    s
}

/// Appends `t` to the list `v`.
fn push_text(v: &mut Vec<String>, t: String)
    ensures
        texts(final(v)@) == texts(old(v)@).push(t@),
{
    let ghost before = texts(v@);
    v.push(t);
    assert(texts(v@) =~= before.push(t@));
}

/// Scores a pilot from killboard activity and security status; the
/// reasons say which of the rules applied.
pub fn score_pilot(s: &PilotSignals) -> (r: PilotThreat)
    ensures
        r.level == pilot_level(s.danger_ratio as int, s.gang_ratio as int, s.ships_destroyed as int, s.flashy),
        texts(r.reasons@) == pilot_reasons(
            s.danger_ratio as int,
            s.gang_ratio as int,
            s.ships_destroyed as int,
            s.flashy,
            s.sec_status_text@,
        ),
{
    let mut reasons: Vec<String> = Vec::new();
    assert(texts(reasons@) =~= seq![]);
    if s.ships_destroyed == 0 {
        push_text(&mut reasons, "No kills on record".to_owned());
        if s.flashy {
            push_text(&mut reasons, joined("but flashy sec status ", s.sec_status_text.as_str()));
            return PilotThreat { level: ThreatLevel::Caution, reasons };
        }
        return PilotThreat { level: ThreatLevel::Safe, reasons };
    }
    let dr = s.danger_ratio;
    let gr = s.gang_ratio;
    let kills = s.ships_destroyed;
    let mut level = ThreatLevel::Neutral;
    if dr >= 70 {
        let t = joined("High danger ratio ", int_to_string(dr).as_str());
        push_text(&mut reasons, joined(t.as_str(), "%"));
        level = ThreatLevel::Caution;
    } else if dr >= 50 {
        let t = joined("Moderate danger ratio ", int_to_string(dr).as_str());
        push_text(&mut reasons, joined(t.as_str(), "%"));
    }
    let ghost r1 = texts(reasons@);
    if kills >= 1000 {
        push_text(&mut reasons, joined(int_to_string(kills).as_str(), " kills — very active"));
        if level == ThreatLevel::Neutral {
            level = ThreatLevel::Caution;
        }
    } else if kills >= 100 {
        push_text(&mut reasons, joined(int_to_string(kills).as_str(), " kills"));
    }
    let ghost r2 = texts(reasons@);
    if dr >= 70 && kills >= 100 {
        level = ThreatLevel::Danger;
    }
    if gr > 0 && gr <= 30 && dr >= 60 {
        push_text(&mut reasons, "Solo hunter profile".to_owned());
        if level == ThreatLevel::Neutral {
            level = ThreatLevel::Caution;
        }
        if kills >= 100 {
            level = ThreatLevel::Danger;
        }
    }
    let ghost r3 = texts(reasons@);
    if s.flashy {
        push_text(&mut reasons, joined("Flashy sec status ", s.sec_status_text.as_str()));
        if level == ThreatLevel::Neutral {
            level = ThreatLevel::Caution;
        }
    }
    let ghost r4 = texts(reasons@);
    proof {
        assert(r2 =~= r1 + (r2.skip(r1.len() as int)));
        assert(r3 =~= r2 + (r3.skip(r2.len() as int)));
        assert(r4 =~= r3 + (r4.skip(r3.len() as int)));
    }
    if reasons.len() == 0 {
        push_text(&mut reasons, "Some kill history, low recent threat".to_owned());
    }
    PilotThreat { level, reasons }
}

/// How many of `levels` are `t`.
pub open spec fn count_level(levels: Seq<ThreatLevel>, t: ThreatLevel) -> nat {
    levels.filter(is_level(t)).len()
}

/// The predicate "is `t`".
pub open spec fn is_level(t: ThreatLevel) -> spec_fn(ThreatLevel) -> bool {
    |l: ThreatLevel| l == t
}

/// The one-line callout [`summarize`] writes for these counts.
pub open spec fn summary_text(danger: nat, caution: nat) -> Seq<char> {
    if danger > 0 {
        dec(danger) + " known hunter(s), "@ + dec(caution) + " to watch — be careful undocking."@
    } else if caution > 0 {
        dec(caution) + " pilot(s) worth watching, no clear hunters."@
    } else {
        "No notable threats among these pilots."@
    }
}

fn count_of(levels: &[ThreatLevel], t: ThreatLevel) -> (r: usize)
    ensures
        r == count_level(levels@, t),
{
    let ghost pred = is_level(t);
    let mut n: usize = 0;
    let mut i: usize = 0;
    while i < levels.len()
        invariant
            i <= levels@.len(),
            n == levels@.take(i as int).filter(pred).len(),
            n <= i,
            pred == is_level(t),
        decreases levels@.len() - i,
    {
        proof {
            assert(levels@.take(i + 1) =~= levels@.take(i as int).push(levels@[i as int]));
            levels@.take(i as int).lemma_filter_push(levels@[i as int], pred);
        }
        if levels[i] == t {
            n += 1;
        }
        i += 1;
    }
    assert(levels@.take(i as int) =~= levels@);
    n
}

/// Summarize a set of scored pilots into a one-line situational callout.
pub fn summarize(levels: &[ThreatLevel]) -> (r: String)
    ensures
        r@ == summary_text(
            count_level(levels@, ThreatLevel::Danger),
            count_level(levels@, ThreatLevel::Caution),
        ),
{
    let danger = count_of(levels, ThreatLevel::Danger);
    let caution = count_of(levels, ThreatLevel::Caution);
    if danger > 0 {
        let mut s = usize_to_string(danger);
        s.append(" known hunter(s), ");
        let c = usize_to_string(caution);
        s.append(c.as_str());
        s.append(" to watch — be careful undocking.");
        s
    } else if caution > 0 {
        let mut s = usize_to_string(caution);
        s.append(" pilot(s) worth watching, no clear hunters.");
        s
    } else {
        "No notable threats among these pilots.".to_owned()
    }
}

/// A gate-camp likelihood read for a system, from recent kill volume.
#[derive(Debug, Clone, PartialEq)]
pub struct GateCampAssessment {
    pub kills_last_hour: i64,
    pub level: ThreatLevel,
    pub message: String,
}

/// The flag for `kills` recent kills with a camp cut-off above `busy`.
pub open spec fn kill_volume_level(kills: int, busy: int) -> ThreatLevel {
    if kills == 0 {
        ThreatLevel::Safe
    } else if kills <= busy {
        ThreatLevel::Caution
    } else {
        ThreatLevel::Danger
    }
}

/// Assess gate-camp risk from the number of kills in a system in the last
/// hour: none is Safe, up to 3 is Caution, more is Danger (a negative count
/// is neither zero nor above the threshold, so it reads as Caution).
pub fn assess_gatecamp(kills_last_hour: i64) -> (r: GateCampAssessment)
    ensures
        r.kills_last_hour == kills_last_hour,
        r.level == kill_volume_level(kills_last_hour as int, 3),
        r.message@ == (if kills_last_hour == 0 {
            "No kills in the last hour — clear for now."@
        } else if kills_last_hour <= 3 {
            int_text(kills_last_hour as int) + " kill(s) in the last hour — some activity, stay alert."@
        } else {
            int_text(kills_last_hour as int) + " kills in the last hour — likely an active camp."@
        }),
{
    if kills_last_hour == 0 {
        GateCampAssessment {
            kills_last_hour,
            level: ThreatLevel::Safe,
            message: "No kills in the last hour — clear for now.".to_owned(),
        }
    } else if kills_last_hour <= 3 {
        let mut m = int_to_string(kills_last_hour);
        m.append(" kill(s) in the last hour — some activity, stay alert.");
        GateCampAssessment { kills_last_hour, level: ThreatLevel::Caution, message: m }
    } else {
        let mut m = int_to_string(kills_last_hour);
        m.append(" kills in the last hour — likely an active camp.");
        GateCampAssessment { kills_last_hour, level: ThreatLevel::Danger, message: m }
    }
}

/// A neighbourhood-safety read: total recent kills across a system and its
/// neighbours mapped to a threat flag.
#[derive(Debug, Clone, PartialEq)]
pub struct SafetyAssessment {
    pub total_kills: i64,
    pub level: ThreatLevel,
    pub message: String,
}

/// Assess how hot a neighbourhood is from the combined kills in a system and
/// its neighbours over the last hour: none is Safe, up to 5 is Caution, more
/// is Danger.
pub fn assess_safety(total_kills: i64) -> (r: SafetyAssessment)
    ensures
        r.total_kills == total_kills,
        r.level == kill_volume_level(total_kills as int, 5),
        r.message@ == (if total_kills == 0 {
            "Quiet — no recent kills nearby."@
        } else if total_kills <= 5 {
            int_text(total_kills as int) + " kill(s) in/around your system this hour."@
        } else {
            int_text(total_kills as int) + " kills in/around your system this hour — hot."@
        }),
{
    if total_kills == 0 {
        SafetyAssessment {
            total_kills,
            level: ThreatLevel::Safe,
            message: "Quiet — no recent kills nearby.".to_owned(),
        }
    } else if total_kills <= 5 {
        let mut m = int_to_string(total_kills);
        m.append(" kill(s) in/around your system this hour.");
        SafetyAssessment { total_kills, level: ThreatLevel::Caution, message: m }
    } else {
        let mut m = int_to_string(total_kills);
        m.append(" kills in/around your system this hour — hot.");
        SafetyAssessment { total_kills, level: ThreatLevel::Danger, message: m }
    }
}

/// More recent kills never lower a read: for non-negative counts the flag
/// never drops as the count grows, whatever the threshold.
pub proof fn lemma_kill_volume_monotone(a: int, b: int, busy: int)
    requires
        0 <= a <= b,
        busy >= 0,
    ensures
        kill_volume_level(a, busy).rank() <= kill_volume_level(b, busy).rank(),
{
}

/// The counts [`summarize`] reports are counts: none in an empty list, and
/// one more of `t` exactly when the next level is `t`.
pub proof fn lemma_count_level_counts(levels: Seq<ThreatLevel>, x: ThreatLevel, t: ThreatLevel)
    ensures
        count_level(Seq::<ThreatLevel>::empty(), t) == 0,
        count_level(levels.push(x), t) == count_level(levels, t) + if x == t {
            1nat
        } else {
            0nat
        },
        count_level(levels, t) <= levels.len(),
{
    Seq::<ThreatLevel>::empty().lemma_filter_len(is_level(t));
    levels.lemma_filter_push(x, is_level(t));
    levels.lemma_filter_len(is_level(t));
}

/// The flag bands of [`assess_gatecamp`] (its answer `r`) and of
/// [`assess_safety`] (its answer `q`): no kills is Safe; more than 3 (for a
/// gate camp) or 5 (for a neighbourhood) is Danger; any other count, 1 up to
/// the cut-off or a negative one, is Caution.
pub proof fn lemma_kill_volume_bands(r: GateCampAssessment, q: SafetyAssessment)
    requires
        r.level == kill_volume_level(r.kills_last_hour as int, 3),
        q.level == kill_volume_level(q.total_kills as int, 5),
    ensures
        (r.level == ThreatLevel::Safe) <==> r.kills_last_hour == 0,
        (r.level == ThreatLevel::Danger) <==> r.kills_last_hour > 3,
        (r.level == ThreatLevel::Caution) <==> (r.kills_last_hour != 0 && r.kills_last_hour <= 3),
        (q.level == ThreatLevel::Safe) <==> q.total_kills == 0,
        (q.level == ThreatLevel::Danger) <==> q.total_kills > 5,
        (q.level == ThreatLevel::Caution) <==> (q.total_kills != 0 && q.total_kills <= 5),
{
}

} // verus!
