//! Mining ledger rollup: the character's daily mining records aggregated by
//! ore type, with the number of active days and the total units.

use vstd::prelude::*;
use crate::text::{chars_of, range_eq};

verus! {

/// One mining-ledger row: a day (`YYYY-MM-DD`), a system, an ore type and
/// the units mined.
#[derive(Debug, Clone, PartialEq, Eq)]
pub struct MiningEntry {
    pub date: String,
    pub quantity: i64,
    pub solar_system_id: i64,
    pub type_id: i64,
}

/// Units of one ore type mined over the ledger window.
#[derive(Debug, Clone, PartialEq, Eq)]
pub struct OreTotal {
    pub type_id: i64,
    pub quantity: i64,
}

/// Rollup of the mining ledger.
#[derive(Debug, Clone, PartialEq, Eq)]
pub struct MiningSummary {
    pub total_units: i64,
    /// Distinct days with any mining activity.
    pub day_count: usize,
    /// Ore types mined, most units first.
    pub by_ore: Vec<OreTotal>,
}

/// Total units of the rows.
pub open spec fn units(es: Seq<MiningEntry>) -> int
    decreases es.len(),
{
    if es.len() == 0 {
        0
    } else {
        units(es.drop_last()) + es.last().quantity
    }
}

/// Units of ore type `t` in the rows.
pub open spec fn ore_units(es: Seq<MiningEntry>, t: i64) -> int
    decreases es.len(),
{
    if es.len() == 0 {
        0
    } else {
        ore_units(es.drop_last(), t) + if es.last().type_id == t {
            es.last().quantity as int
        } else {
            0
        }
    }
}

/// The day of each row.
pub open spec fn row_dates(es: Seq<MiningEntry>) -> Seq<Seq<char>> {
    es.map_values(|e: MiningEntry| e.date@)
}

/// The ore type of each row.
pub open spec fn row_types(es: Seq<MiningEntry>) -> Seq<i64> {
    es.map_values(|e: MiningEntry| e.type_id)
}

/// The days the rows cover.
pub open spec fn dates_of(es: Seq<MiningEntry>) -> Set<Seq<char>> {
    row_dates(es).to_set()
}

/// The ore types the rows cover.
pub open spec fn types_of(es: Seq<MiningEntry>) -> Set<i64> {
    row_types(es).to_set()
}

/// Ore type `t` has an entry in `v`.
pub open spec fn lists_type(v: Seq<OreTotal>, t: i64) -> bool {
    exists|i: int| 0 <= i < v.len() && (#[trigger] v[i]).type_id == t
}

/// `a` is listed before `b`: more units, or as many and a lower type id.
pub open spec fn mines_before(a: OreTotal, b: OreTotal) -> bool {
    a.quantity > b.quantity || (a.quantity == b.quantity && a.type_id < b.type_id)
}

/// A value an `i64` holds.
pub open spec fn in_i64(x: int) -> bool {
    i64::MIN <= x <= i64::MAX
}

/// Every running total (overall and per ore type) over the rows, in order,
/// fits an `i64`.
pub open spec fn sums_fit(es: Seq<MiningEntry>) -> bool {
    &&& forall|k: int| 0 <= k <= es.len() ==> in_i64(#[trigger] units(es.take(k)))
    &&& forall|k: int, t: i64| 0 <= k <= es.len() ==> in_i64(#[trigger] ore_units(es.take(k), t))
}

proof fn lemma_absent_type_has_no_units(es: Seq<MiningEntry>, t: i64)
    requires
        !types_of(es).contains(t),
    ensures
        ore_units(es, t) == 0,
    decreases es.len(),
{
    if es.len() > 0 {
        let d = es.drop_last();
        assert(row_types(es)[es.len() - 1] == es.last().type_id);
        assert(!types_of(d).contains(t)) by {
            if types_of(d).contains(t) {
                let i = choose|i: int| 0 <= i < d.len() && #[trigger] row_types(d)[i] == t;
                assert(row_types(es)[i] == t);
            }
        }
        lemma_absent_type_has_no_units(d, t);
    }
}

/// Sorts ore totals with distinct type ids most units first (ties by type
/// id).
fn sort_ores(v: Vec<OreTotal>) -> (r: Vec<OreTotal>)
    requires
        forall|i: int, j: int| 0 <= i < j < v@.len() ==> v@[i].type_id != v@[j].type_id,
    ensures
        r@.to_set() == v@.to_set(),
        r@.len() == v@.len(),
        forall|i: int, j: int| 0 <= i < j < r@.len() ==> mines_before(#[trigger] r@[i], #[trigger] r@[j]),
{
    let mut out: Vec<OreTotal> = Vec::new();
    let mut k: usize = 0;
    while k < v.len()
        invariant
            k <= v@.len(),
            forall|i: int, j: int| 0 <= i < j < v@.len() ==> v@[i].type_id != v@[j].type_id,
            out@.len() == k,
            out@.to_set() == v@.take(k as int).to_set(),
            forall|i: int, j: int| 0 <= i < j < out@.len() ==> mines_before(#[trigger] out@[i], #[trigger] out@[j]),
        decreases v@.len() - k,
    {
        let x = OreTotal { type_id: v[k].type_id, quantity: v[k].quantity };
        assert(x == v@[k as int]);
        let mut p: usize = 0;
        while p < out.len() && mines_before_exec(&out[p], &x)
            invariant
                p <= out@.len(),
                forall|i: int| 0 <= i < p ==> mines_before(#[trigger] out@[i], x),
            decreases out@.len() - p,
        {
            p += 1;
        }
        proof {
            // Everything from p on comes after x: x differs from every earlier
            // element in type id, and out[p] is not before x.
            assert forall|i: int| p <= i < out@.len() implies mines_before(x, #[trigger] out@[i]) by {
                assert(out@.to_set().contains(out@[i]));
                assert(v@.take(k as int).to_set().contains(out@[i]));
                let m = choose|m: int| 0 <= m < k && v@.take(k as int)[m] == out@[i];
                assert(v@[m].type_id != v@[k as int].type_id);
                if i > p {
                    assert(mines_before(out@[p as int], out@[i]));
                }
            }
        }
        let ghost before = out@;
        out.insert(p, x);
        proof {
            assert(out@ =~= before.take(p as int).push(x) + before.skip(p as int));
            assert(v@.take(k + 1) =~= v@.take(k as int).push(x));
            lemma_insert_to_set(before, p as int, x);
            v@.take(k as int).lemma_push_to_set_commute(x);
            assert forall|i: int, j: int| 0 <= i < j < out@.len() implies mines_before(#[trigger] out@[i], #[trigger] out@[j]) by {
                if j < p {
                    assert(out@[i] == before[i] && out@[j] == before[j]);
                } else if j == p {
                    assert(out@[i] == before[i]);
                } else if i < p {
                    assert(out@[i] == before[i] && out@[j] == before[j - 1]);
                    assert(mines_before(before[i], x));
                    assert(mines_before(x, before[j - 1]));
                } else if i == p {
                    assert(out@[j] == before[j - 1]);
                } else {
                    assert(out@[i] == before[i - 1] && out@[j] == before[j - 1]);
                }
            }
        }
        k += 1;
    }
    assert(v@.take(v@.len() as int) =~= v@);
    out
}

proof fn lemma_insert_to_set(s: Seq<OreTotal>, p: int, x: OreTotal)
    requires
        0 <= p <= s.len(),
    ensures
        (s.take(p).push(x) + s.skip(p)).to_set() == s.to_set().insert(x),
{
    let t = s.take(p).push(x) + s.skip(p);
    assert(t.len() == s.len() + 1);
    assert forall|y: OreTotal| t.to_set().contains(y) implies s.to_set().insert(x).contains(y) by {
        let i = choose|i: int| 0 <= i < t.len() && t[i] == y;
        if i < p {
            assert(s[i] == y);
        } else if i > p {
            assert(s[i - 1] == y);
        }
    }
    assert forall|y: OreTotal| s.to_set().insert(x).contains(y) implies t.to_set().contains(y) by {
        if y == x {
            assert(t[p] == x);
        } else {
            let i = choose|i: int| 0 <= i < s.len() && s[i] == y;
            if i < p {
                assert(t[i] == y);
            } else {
                assert(t[i + 1] == y);
            }
        }
    }
    assert(t.to_set() =~= s.to_set().insert(x));
}

fn mines_before_exec(a: &OreTotal, b: &OreTotal) -> (r: bool)
    ensures
        r == mines_before(*a, *b),
{
    a.quantity > b.quantity || (a.quantity == b.quantity && a.type_id < b.type_id)
}

/// Aggregates ledger rows: the total units, the number of distinct days,
/// and the units of each ore type, most units first (ties by type id).
pub fn summarize_mining(entries: &[MiningEntry]) -> (s: MiningSummary)
    requires
        sums_fit(entries@),
    ensures
        s.total_units == units(entries@),
        s.day_count == dates_of(entries@).len(),
        forall|i: int| 0 <= i < s.by_ore@.len() ==> (#[trigger] s.by_ore@[i]).quantity == ore_units(entries@, s.by_ore@[i].type_id),
        forall|t: i64| #[trigger] types_of(entries@).contains(t) <==> lists_type(s.by_ore@, t),
        forall|i: int, j: int| 0 <= i < j < s.by_ore@.len() ==> mines_before(#[trigger] s.by_ore@[i], #[trigger] s.by_ore@[j]),
{
    let ghost es = entries@;
    let mut total: i64 = 0;
    let mut types: Vec<i64> = Vec::new();
    let mut qtys: Vec<i64> = Vec::new();
    let mut dates: Vec<Vec<char>> = Vec::new();
    let ghost mut dseen: Seq<Seq<char>> = seq![];
    let mut k: usize = 0;
    while k < entries.len()
        invariant
            es == entries@,
            sums_fit(es),
            k <= es.len(),
            total == units(es.take(k as int)),
            types@.len() == qtys@.len(),
            types@.no_duplicates(),
            types@.to_set() == types_of(es.take(k as int)),
            forall|i: int| 0 <= i < types@.len() ==> #[trigger] qtys@[i] == ore_units(es.take(k as int), types@[i]),
            dates@.len() == dseen.len(),
            forall|i: int| 0 <= i < dates@.len() ==> (#[trigger] dates@[i])@ == dseen[i],
            dseen.no_duplicates(),
            dseen.to_set() == dates_of(es.take(k as int)),
        decreases es.len() - k,
    {
        let e = &entries[k];
        let ghost pre = es.take(k as int);
        let ghost post = es.take(k + 1);
        proof {
            assert(post.drop_last() =~= pre);
            assert(post.last() == *e);
            assert(row_types(post) =~= row_types(pre).push(e.type_id));
            row_types(pre).lemma_push_to_set_commute(e.type_id);
            assert(row_dates(post) =~= row_dates(pre).push(e.date@));
            row_dates(pre).lemma_push_to_set_commute(e.date@);
            assert(in_i64(units(es.take(k + 1))));
            assert(in_i64(ore_units(es.take(k + 1), e.type_id)));
        }
        total = total + e.quantity;
        // Ore type.
        let mut j: usize = 0;
        while j < types.len() && types[j] != e.type_id
            invariant
                j <= types@.len(),
                forall|i: int| 0 <= i < j ==> types@[i] != e.type_id,
            decreases types@.len() - j,
        {
            j += 1;
        }
        if j < types.len() {
            let nq = qtys[j] + e.quantity;
            qtys.set(j, nq);
            assert(types@.to_set() == types_of(post));
        } else {
            proof {
                assert(!types_of(pre).contains(e.type_id)) by {
                    if types@.to_set().contains(e.type_id) {
                        let i = choose|i: int| 0 <= i < types@.len() && types@[i] == e.type_id;
                        assert(false);
                    }
                }
                lemma_absent_type_has_no_units(pre, e.type_id);
                types@.lemma_push_to_set_commute(e.type_id);
            }
            types.push(e.type_id);
            qtys.push(e.quantity);
        }
        proof {
            assert forall|i: int| 0 <= i < types@.len() implies #[trigger] qtys@[i] == ore_units(post, types@[i]) by {
                if types@[i] != e.type_id {
                    assert(ore_units(post, types@[i]) == ore_units(pre, types@[i]));
                }
            }
        }
        // Day.
        let d = chars_of(e.date.as_str());
        let mut m: usize = 0;
        let mut seen = false;
        while m < dates.len()
            invariant
                m <= dates@.len(),
                dates@.len() == dseen.len(),
                forall|i: int| 0 <= i < dates@.len() ==> (#[trigger] dates@[i])@ == dseen[i],
                !seen ==> forall|i: int| 0 <= i < m ==> dseen[i] != d@,
                seen ==> dseen.contains(d@),
            decreases dates@.len() - m,
        {
            let len = dates[m].len();
            if range_eq(&dates[m], 0, len, &d, 0, d.len()) {
                assert(dates@[m as int]@.subrange(0, len as int) =~= dates@[m as int]@);
                assert(d@.subrange(0, d@.len() as int) =~= d@);
                assert(dseen[m as int] == d@);
                seen = true;
            } else {
                assert(dates@[m as int]@.subrange(0, len as int) =~= dates@[m as int]@);
                assert(d@.subrange(0, d@.len() as int) =~= d@);
            }
            m += 1;
        }
        if !seen {
            proof {
                dseen.lemma_push_to_set_commute(d@);
                dseen = dseen.push(d@);
            }
            dates.push(d);
        } else {
            assert(dseen.to_set() =~= dseen.to_set().insert(e.date@));
        }
        k += 1;
    }
    proof {
        assert(es.take(es.len() as int) =~= es);
        dseen.unique_seq_to_set();
    }
    let n = types.len();
    let mut raw: Vec<OreTotal> = Vec::new();
    let mut i: usize = 0;
    while i < n
        invariant
            n == types@.len(),
            types@.len() == qtys@.len(),
            i <= n,
            raw@.len() == i,
            forall|m: int| 0 <= m < i ==> (#[trigger] raw@[m]).type_id == types@[m] && raw@[m].quantity == qtys@[m],
        decreases n - i,
    {
        raw.push(OreTotal { type_id: types[i], quantity: qtys[i] });
        i += 1;
    }
    assert forall|a: int, b: int| 0 <= a < b < raw@.len() implies raw@[a].type_id != raw@[b].type_id by {
        assert(types@[a] != types@[b]);
    }
    let by_ore = sort_ores(raw);
    proof {
        assert forall|m: int| 0 <= m < by_ore@.len() implies (#[trigger] by_ore@[m]).quantity == ore_units(es, by_ore@[m].type_id) && types@.contains(by_ore@[m].type_id) by {
            assert(by_ore@.to_set().contains(by_ore@[m]));
            let q = choose|q: int| 0 <= q < raw@.len() && raw@[q] == by_ore@[m];
            assert(types@[q] == raw@[q].type_id);
        }
        assert forall|t: i64| #[trigger] types_of(es).contains(t) implies lists_type(by_ore@, t) by {
            assert(types@.to_set().contains(t));
            let q = choose|q: int| 0 <= q < types@.len() && types@[q] == t;
            assert(raw@.to_set().contains(raw@[q]));
            let m = choose|m: int| 0 <= m < by_ore@.len() && by_ore@[m] == raw@[q];
            assert(by_ore@[m].type_id == t);
        }
        assert forall|t: i64| lists_type(by_ore@, t) implies #[trigger] types_of(es).contains(t) by {
            let m = choose|m: int| 0 <= m < by_ore@.len() && (#[trigger] by_ore@[m]).type_id == t;
            assert(types@.contains(by_ore@[m].type_id));
            assert(types@.to_set().contains(t));
        }
    }
    MiningSummary { total_units: total, day_count: dates.len(), by_ore }
}

} // verus!
