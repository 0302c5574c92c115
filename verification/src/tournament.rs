//! Tournament team-comp validation.
//!
//! A format caps a team by pilot count and by a ship-points budget (each hull
//! costs the points the current rules give it), and may cap the copies of
//! any one hull; a pilot cannot fly two ships. The check reports each
//! violation and whether the comp is legal.

use vstd::prelude::*;
use crate::text::{
    trim, trim_bounds, lowercase, str_to_lowercase, chars_of, slice_chars, range_eq,
    string_from_chars, is_ascii_text, ascii_lower_seq,
};

verus! {

/// One pilot's pick in a proposed team composition.
#[derive(Debug, Clone, PartialEq)]
pub struct TeamPick {
    pub pilot: String,
    pub ship: String,
    /// Point cost of the hull under the active rules.
    pub points: i64,
}

/// The active format's limits.
#[derive(Debug, Clone, Copy, PartialEq)]
pub struct TeamRules {
    /// Maximum total ship points for the team.
    pub point_budget: i64,
    /// Maximum number of pilots fielded.
    pub max_pilots: i64,
    /// Maximum copies of any one hull (0 = unlimited).
    pub max_per_hull: i64,
}

/// The legality verdict for a proposed comp.
#[derive(Debug, Clone, PartialEq)]
pub struct CompReport {
    pub total_points: i64,
    pub pilot_count: i64,
    /// Points still available (negative when over budget).
    pub remaining_points: i64,
    pub over_budget: bool,
    pub over_size: bool,
    /// Pilots listed more than once.
    pub duplicate_pilots: Vec<String>,
    /// Hulls fielded more than `max_per_hull` times.
    pub over_stacked_hulls: Vec<String>,
    /// True only when nothing is violated.
    pub legal: bool,
}

/// The pilot or (when `ship`) the hull of a pick.
pub open spec fn field_of(p: TeamPick, ship: bool) -> Seq<char> {
    if ship {
        p.ship@
    } else {
        p.pilot@
    }
}

/// The key names are matched by: trimmed and lowercased.
pub open spec fn key_of(name: Seq<char>) -> Seq<char> {
    lowercase(trim(name))
}

/// On an ASCII name, the key is the ASCII lowercase of the trimmed name.
pub open spec fn ascii_key(name: Seq<char>) -> bool {
    is_ascii_text(trim(name)) ==> key_of(name) == ascii_lower_seq(trim(name))
}

/// Number of picks whose pilot (or hull) has key `k`.
pub open spec fn key_count(ps: Seq<TeamPick>, ship: bool, k: Seq<char>) -> nat
    decreases ps.len(),
{
    if ps.len() == 0 {
        0
    } else {
        key_count(ps.drop_last(), ship, k) + if key_of(field_of(ps.last(), ship)) == k {
            1nat
        } else {
            0nat
        }
    }
}

/// The distinct non-blank pilots (or hulls) of the picks, first-seen order,
/// as `(key, trimmed name as first written)`.
pub open spec fn groups(ps: Seq<TeamPick>, ship: bool) -> Seq<(Seq<char>, Seq<char>)>
    decreases ps.len(),
{
    if ps.len() == 0 {
        seq![]
    } else {
        let g = groups(ps.drop_last(), ship);
        let f = field_of(ps.last(), ship);
        if key_of(f).len() > 0 && key_count(ps.drop_last(), ship, key_of(f)) == 0 {
            g.push((key_of(f), trim(f)))
        } else {
            g
        }
    }
}

/// The names of the groups `gs` picked more than `limit` times, in order.
pub open spec fn names_over(ps: Seq<TeamPick>, ship: bool, gs: Seq<(Seq<char>, Seq<char>)>, limit: int) -> Seq<Seq<char>>
    decreases gs.len(),
{
    if gs.len() == 0 {
        seq![]
    } else {
        let rest = names_over(ps, ship, gs.drop_last(), limit);
        if key_count(ps, ship, gs.last().0) > limit {
            rest.push(gs.last().1)
        } else {
            rest
        }
    }
}

/// Sum of the picks' points, negative ones counted as 0.
pub open spec fn total_points_spec(ps: Seq<TeamPick>) -> int
    decreases ps.len(),
{
    if ps.len() == 0 {
        0
    } else {
        total_points_spec(ps.drop_last()) + if ps.last().points > 0 {
            ps.last().points as int
        } else {
            0
        }
    }
}

/// Views of a list of names.
pub open spec fn names_view(v: Seq<String>) -> Seq<Seq<char>> {
    v.map_values(|s: String| s@)
}

/// Distinct-name tally of the picks seen so far.
struct NameTally {
    keys: Vec<Vec<char>>,
    names: Vec<Vec<char>>,
    counts: Vec<usize>,
}

impl NameTally {
    spec fn holds(&self, ps: Seq<TeamPick>, ship: bool) -> bool {
        &&& self.keys@.len() == self.names@.len()
        &&& self.keys@.len() == self.counts@.len()
        &&& self.keys@.len() == groups(ps, ship).len()
        &&& forall|i: int| 0 <= i < self.keys@.len() ==> (#[trigger] self.keys@[i])@ == groups(ps, ship)[i].0
            && self.names@[i]@ == groups(ps, ship)[i].1
        &&& forall|i: int| 0 <= i < self.keys@.len() ==> #[trigger] self.counts@[i] == key_count(ps, ship, self.keys@[i]@)
        &&& forall|k: Seq<char>| k.len() > 0 && #[trigger] key_count(ps, ship, k) > 0 ==> exists|i: int| 0 <= i < self.keys@.len() && (#[trigger] self.keys@[i])@ == k
        &&& forall|i: int| 0 <= i < self.keys@.len() ==> (#[trigger] self.keys@[i])@.len() > 0
    }
}

proof fn lemma_groups_keys(ps: Seq<TeamPick>, ship: bool)
    ensures
        forall|i: int| 0 <= i < groups(ps, ship).len() ==> key_count(ps, ship, #[trigger] groups(ps, ship)[i].0) > 0,
        forall|i: int, j: int| 0 <= i < j < groups(ps, ship).len() ==> (#[trigger] groups(ps, ship)[i]).0 != (#[trigger] groups(ps, ship)[j]).0,
        forall|i: int| 0 <= i < groups(ps, ship).len() ==> (#[trigger] groups(ps, ship)[i]).0 == lowercase(groups(ps, ship)[i].1),
    decreases ps.len(),
{
    if ps.len() > 0 {
        let d = ps.drop_last();
        lemma_groups_keys(d, ship);
        let g = groups(d, ship);
        assert forall|i: int| 0 <= i < groups(ps, ship).len() implies key_count(ps, ship, #[trigger] groups(ps, ship)[i].0) > 0 by {
            if i < g.len() {
                assert(groups(ps, ship)[i] == g[i]);
            }
        }
        assert forall|i: int, j: int| 0 <= i < j < groups(ps, ship).len() implies (#[trigger] groups(ps, ship)[i]).0 != (#[trigger] groups(ps, ship)[j]).0 by {
            assert(groups(ps, ship)[i] == g[i]);
            if j < g.len() {
                assert(groups(ps, ship)[j] == g[j]);
            }
        }
        assert forall|i: int| 0 <= i < groups(ps, ship).len() implies (#[trigger] groups(ps, ship)[i]).0 == lowercase(groups(ps, ship)[i].1) by {
            if i < g.len() {
                assert(groups(ps, ship)[i] == g[i]);
            }
        }
    }
}

proof fn lemma_count_bounded(ps: Seq<TeamPick>, ship: bool, k: Seq<char>)
    ensures
        key_count(ps, ship, k) <= ps.len(),
    decreases ps.len(),
{
    if ps.len() > 0 {
        lemma_count_bounded(ps.drop_last(), ship, k);
    }
}

/// The trimmed pilot (or hull) of `p` and its key.
fn name_and_key(p: &TeamPick, ship: bool) -> (r: (Vec<char>, Vec<char>))
    ensures
        r.0@ == trim(field_of(*p, ship)),
        r.1@ == key_of(field_of(*p, ship)),
        ascii_key(field_of(*p, ship)),
{
    let f = if ship {
        chars_of(p.ship.as_str())
    } else {
        chars_of(p.pilot.as_str())
    };
    let (a, b) = trim_bounds(&f, 0, f.len());
    assert(f@.subrange(0, f@.len() as int) =~= f@);
    let disp = slice_chars(&f, a, b);
    let disp_s = string_from_chars(&disp);
    let low = str_to_lowercase(disp_s.as_str());
    let key = chars_of(low.as_str());
    (disp, key)
}

/// Tallies the picks' pilots (or hulls).
fn tally_names(picks: &[TeamPick], ship: bool) -> (t: NameTally)
    ensures
        t.holds(picks@, ship),
        forall|i: int| 0 <= i < picks@.len() ==> ascii_key(field_of(#[trigger] picks@[i], ship)),
{
    let ghost ps = picks@;
    let mut t = NameTally { keys: Vec::new(), names: Vec::new(), counts: Vec::new() };
    let mut k: usize = 0;
    assert(ps.take(0) =~= seq![]);
    while k < picks.len()
        invariant
            ps == picks@,
            k <= ps.len(),
            t.holds(ps.take(k as int), ship),
            forall|i: int| 0 <= i < k ==> ascii_key(field_of(#[trigger] ps[i], ship)),
        decreases ps.len() - k,
    {
        let ghost pre = ps.take(k as int);
        let ghost post = ps.take(k + 1);
        assert(post.drop_last() =~= pre);
        assert(post.last() == ps[k as int]);
        let (disp, key) = name_and_key(&picks[k], ship);
        let ghost kk = key@;
        if key.len() > 0 {
            let mut j: usize = 0;
            loop
                invariant
                    j <= t.keys@.len(),
                    forall|i: int| 0 <= i < j ==> (#[trigger] t.keys@[i])@ != kk,
                    key@ == kk,
                ensures
                    j <= t.keys@.len(),
                    forall|i: int| 0 <= i < j ==> (#[trigger] t.keys@[i])@ != kk,
                    j < t.keys@.len() ==> t.keys@[j as int]@ == kk,
                decreases t.keys@.len() - j,
            {
                if j == t.keys.len() {
                    break;
                }
                let len = t.keys[j].len();
                let same = range_eq(&t.keys[j], 0, len, &key, 0, key.len());
                assert(t.keys@[j as int]@.subrange(0, len as int) =~= t.keys@[j as int]@);
                assert(key@.subrange(0, key@.len() as int) =~= key@);
                if same {
                    break;
                }
                j += 1;
            }
            let ghost old_keys = t.keys@;
            let ghost old_names = t.names@;
            let ghost old_counts = t.counts@;
            if j < t.keys.len() {
                proof {
                    lemma_groups_keys(pre, ship);
                    assert(t.keys@[j as int]@ == groups(pre, ship)[j as int].0);
                    lemma_count_bounded(pre, ship, kk);
                    assert(t.counts@[j as int] == key_count(pre, ship, kk));
                    assert(pre.len() == k);
                }
                let c = t.counts[j] + 1;
                t.counts.set(j, c);
                proof {
                    assert(key_count(pre, ship, kk) > 0);
                    assert(groups(post, ship) == groups(pre, ship));
                }
            } else {
                proof {
                    assert(key_count(pre, ship, kk) == 0) by {
                        if key_count(pre, ship, kk) > 0 {
                            let i = choose|i: int| 0 <= i < old_keys.len() && (#[trigger] old_keys[i])@ == kk;
                            assert(false);
                        }
                    }
                    assert(groups(post, ship) == groups(pre, ship).push((kk, disp@)));
                }
                t.keys.push(key);
                t.names.push(disp);
                t.counts.push(1);
            }
            proof {
                let g = groups(post, ship);
                assert forall|i: int| 0 <= i < t.keys@.len() implies (#[trigger] t.keys@[i])@ == g[i].0 && t.names@[i]@ == g[i].1 by {
                    if i < old_keys.len() {
                        assert(t.keys@[i] == old_keys[i]);
                        assert(t.names@[i] == old_names[i]);
                        assert(g[i] == groups(pre, ship)[i]);
                    }
                }
                assert forall|i: int| 0 <= i < t.keys@.len() implies #[trigger] t.counts@[i] == key_count(post, ship, t.keys@[i]@) by {
                    if i < old_keys.len() {
                        assert(t.keys@[i] == old_keys[i]);
                    }
                }
                assert forall|k2: Seq<char>| k2.len() > 0 && #[trigger] key_count(post, ship, k2) > 0 implies exists|i: int| 0 <= i < t.keys@.len() && (#[trigger] t.keys@[i])@ == k2 by {
                    if k2 == kk {
                        assert(t.keys@[j as int]@ == kk);
                    } else {
                        assert(key_count(pre, ship, k2) > 0);
                        let i = choose|i: int| 0 <= i < old_keys.len() && (#[trigger] old_keys[i])@ == k2;
                        assert(t.keys@[i] == old_keys[i]);
                    }
                }
                assert forall|i: int| 0 <= i < t.keys@.len() implies (#[trigger] t.keys@[i])@.len() > 0 by {
                    if i < old_keys.len() {
                        assert(t.keys@[i] == old_keys[i]);
                    }
                }
            }
        } else {
            proof {
                assert(groups(post, ship) == groups(pre, ship));
                assert forall|i: int| 0 <= i < t.keys@.len() implies #[trigger] t.counts@[i] == key_count(post, ship, t.keys@[i]@) by {
                    assert(t.keys@[i]@.len() > 0);
                }
                assert forall|k2: Seq<char>| k2.len() > 0 && #[trigger] key_count(post, ship, k2) > 0 implies exists|i: int| 0 <= i < t.keys@.len() && (#[trigger] t.keys@[i])@ == k2 by {
                    assert(key_count(pre, ship, k2) > 0);
                }
            }
        }
        proof {
            let g = groups(post, ship);
            assert(t.keys@.len() == t.names@.len());
            assert(t.keys@.len() == t.counts@.len());
            assert(t.keys@.len() == g.len());
            assert(forall|i: int| 0 <= i < t.keys@.len() ==> (#[trigger] t.keys@[i])@ == g[i].0 && t.names@[i]@ == g[i].1);
        }
        k += 1;
    }
    assert(ps.take(ps.len() as int) =~= ps);
    t
}

/// The pilots (or hulls) picked more than `limit` times, first-seen order,
/// as first written (trimmed).
fn repeated(picks: &[TeamPick], ship: bool, limit: i64) -> (r: Vec<String>)
    ensures
        names_view(r@) == names_over(picks@, ship, groups(picks@, ship), limit as int),
        forall|i: int| 0 <= i < picks@.len() ==> ascii_key(field_of(#[trigger] picks@[i], ship)),
{
    let t = tally_names(picks, ship);
    let ghost gs = groups(picks@, ship);
    let mut out: Vec<String> = Vec::new();
    let mut i: usize = 0;
    while i < t.keys.len()
        invariant
            t.holds(picks@, ship),
            gs == groups(picks@, ship),
            i <= t.keys@.len(),
            names_view(out@) == names_over(picks@, ship, gs.take(i as int), limit as int),
        decreases t.keys@.len() - i,
    {
        proof {
            assert(gs.take(i + 1).drop_last() =~= gs.take(i as int));
            assert(gs.take(i + 1).last() == gs[i as int]);
        }
        if t.counts[i] as i128 > limit as i128 {
            let ghost before = out@;
            out.push(string_from_chars(t.names[i].as_slice()));
            assert(names_view(out@) =~= names_view(before).push(t.names@[i as int]@));
        }
        i += 1;
    }
    assert(gs.take(gs.len() as int) =~= gs);
    out
}

/// Checks a proposed comp against the format's rules: total points
/// (negative costs count as 0) against the budget, pilots against the
/// size cap, pilots named twice (ignoring case and surrounding spaces) and
/// hulls fielded more than the per-hull cap (when there is one). The comp is
/// legal exactly when none of these is violated.
pub fn validate_comp(picks: &[TeamPick], rules: TeamRules) -> (r: CompReport)
    requires
        total_points_spec(picks@) <= i64::MAX,
        rules.point_budget - total_points_spec(picks@) >= i64::MIN,
        picks@.len() <= i64::MAX,
    ensures
        r.total_points == total_points_spec(picks@),
        r.pilot_count == picks@.len(),
        r.remaining_points == rules.point_budget - total_points_spec(picks@),
        r.over_budget == (r.total_points > rules.point_budget),
        r.over_size == (r.pilot_count > rules.max_pilots),
        names_view(r.duplicate_pilots@) == names_over(picks@, false, groups(picks@, false), 1),
        names_view(r.over_stacked_hulls@) == if rules.max_per_hull > 0 {
            names_over(picks@, true, groups(picks@, true), rules.max_per_hull as int)
        } else {
            Seq::<Seq<char>>::empty()
        },
        r.legal == (!r.over_budget && !r.over_size && r.duplicate_pilots@.len() == 0
            && r.over_stacked_hulls@.len() == 0),
        forall|i: int| 0 <= i < picks@.len() ==> ascii_key((#[trigger] picks@[i]).pilot@),
        rules.max_per_hull > 0 ==> forall|i: int| 0 <= i < picks@.len() ==> ascii_key((#[trigger] picks@[i]).ship@),
{
    let ghost ps = picks@;
    let mut total: i64 = 0;
    let mut k: usize = 0;
    while k < picks.len()
        invariant
            ps == picks@,
            k <= ps.len(),
            total_points_spec(ps) <= i64::MAX,
            total == total_points_spec(ps.take(k as int)),
        decreases ps.len() - k,
    {
        proof {
            assert(ps.take(k + 1).drop_last() =~= ps.take(k as int));
            lemma_total_grows(ps, k + 1);
        }
        let p = picks[k].points;
        total = total + if p > 0 { p } else { 0 };
        k += 1;
    }
    assert(ps.take(ps.len() as int) =~= ps);
    proof {
        lemma_total_nonneg(ps);
    }
    let pilot_count = picks.len() as i64;
    let duplicate_pilots = repeated(picks, false, 1);
    let over_stacked_hulls = if rules.max_per_hull > 0 {
        repeated(picks, true, rules.max_per_hull)
    } else {
        Vec::new()
    };
    assert(names_view(over_stacked_hulls@) =~= if rules.max_per_hull > 0 {
        names_over(ps, true, groups(ps, true), rules.max_per_hull as int)
    } else {
        Seq::<Seq<char>>::empty()
    });
    let over_budget = total > rules.point_budget;
    let over_size = pilot_count > rules.max_pilots;
    let legal = !over_budget && !over_size && duplicate_pilots.len() == 0
        && over_stacked_hulls.len() == 0;
    CompReport {
        total_points: total,
        pilot_count,
        remaining_points: rules.point_budget - total,
        over_budget,
        over_size,
        duplicate_pilots,
        over_stacked_hulls,
        legal,
    }
}

proof fn lemma_total_grows(ps: Seq<TeamPick>, k: int)
    requires
        0 <= k <= ps.len(),
    ensures
        0 <= total_points_spec(ps.take(k)) <= total_points_spec(ps),
    decreases ps.len() - k,
{
    if k < ps.len() {
        lemma_total_grows(ps.drop_last(), k);
        assert(ps.drop_last().take(k) =~= ps.take(k));
    } else {
        assert(ps.take(k) =~= ps);
        lemma_total_nonneg(ps);
    }
}

proof fn lemma_total_nonneg(ps: Seq<TeamPick>)
    ensures
        total_points_spec(ps) >= 0,
    decreases ps.len(),
{
    if ps.len() > 0 {
        lemma_total_nonneg(ps.drop_last());
    }
}

/// A pilot is reported as a duplicate (under the trimmed spelling of its
/// first pick) exactly when it appears, ignoring case and surrounding
/// spaces, in more than one pick.
pub proof fn lemma_duplicates_are_repeated_pilots(ps: Seq<TeamPick>, i: int)
    requires
        0 <= i < groups(ps, false).len(),
    ensures
        names_over(ps, false, groups(ps, false), 1).contains(groups(ps, false)[i].1) <==> key_count(
            ps,
            false,
            groups(ps, false)[i].0,
        ) > 1,
{
    let gs = groups(ps, false);
    if key_count(ps, false, gs[i].0) > 1 {
        lemma_names_over_contains(ps, false, gs, 1, i);
    }
    if names_over(ps, false, gs, 1).contains(gs[i].1) {
        lemma_names_over_only(ps, false, gs, 1, gs[i].1);
        let j = choose|j: int| 0 <= j < gs.len() && gs[j].1 == gs[i].1 && key_count(ps, false, gs[j].0) > 1;
        lemma_groups_keys(ps, false);
        assert(gs[j].0 == lowercase(gs[j].1));
        assert(gs[i].0 == lowercase(gs[i].1));
        if j != i {
            if j < i {
                assert(gs[j].0 != gs[i].0);
            } else {
                assert(gs[i].0 != gs[j].0);
            }
        }
    }
}

proof fn lemma_names_over_only(ps: Seq<TeamPick>, ship: bool, gs: Seq<(Seq<char>, Seq<char>)>, limit: int, x: Seq<char>)
    requires
        names_over(ps, ship, gs, limit).contains(x),
    ensures
        exists|j: int| 0 <= j < gs.len() && gs[j].1 == x && key_count(ps, ship, gs[j].0) > limit,
    decreases gs.len(),
{
    let rest = names_over(ps, ship, gs.drop_last(), limit);
    if rest.contains(x) {
        lemma_names_over_only(ps, ship, gs.drop_last(), limit, x);
        let j = choose|j: int| 0 <= j < gs.drop_last().len() && gs.drop_last()[j].1 == x && key_count(ps, ship, gs.drop_last()[j].0) > limit;
        assert(gs[j] == gs.drop_last()[j]);
    } else {
        let n = names_over(ps, ship, gs, limit);
        let k = choose|k: int| 0 <= k < n.len() && n[k] == x;
        if key_count(ps, ship, gs.last().0) > limit {
            if k < rest.len() {
                assert(rest[k] == x);
            }
            assert(gs[gs.len() - 1].1 == x);
        } else {
            assert(rest[k] == x);
        }
    }
}

proof fn lemma_names_over_contains(ps: Seq<TeamPick>, ship: bool, gs: Seq<(Seq<char>, Seq<char>)>, limit: int, i: int)
    requires
        0 <= i < gs.len(),
        key_count(ps, ship, gs[i].0) > limit,
    ensures
        names_over(ps, ship, gs, limit).contains(gs[i].1),
    decreases gs.len(),
{
    let rest = names_over(ps, ship, gs.drop_last(), limit);
    if i == gs.len() - 1 {
        assert(names_over(ps, ship, gs, limit).last() == gs[i].1);
    } else {
        assert(gs.drop_last()[i] == gs[i]);
        lemma_names_over_contains(ps, ship, gs.drop_last(), limit, i);
        let j = choose|j: int| 0 <= j < rest.len() && rest[j] == gs[i].1;
        assert(names_over(ps, ship, gs, limit)[j] == gs[i].1);
    }
}

} // verus!
