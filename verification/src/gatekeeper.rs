//! What a fit needs against what is owned: the hull and each item of a
//! resolved fit, merged by type, with the units held and the units still to
//! buy. Names and prices are put on the result by the caller.

use vstd::prelude::*;

verus! {

/// A fit's parts as `(type, units)`: the hull (one unit), then each item
/// that resolved to a type, at least one unit each.
pub open spec fn fit_parts(ship: Option<i64>, items: Seq<(Option<i64>, i64)>) -> Seq<(i64, int)> {
    (match ship {
        Some(id) => seq![(id, 1int)],
        None => seq![],
    }) + item_parts(items)
}

/// The parts of the items that resolved to a type, at least one unit each.
pub open spec fn item_parts(items: Seq<(Option<i64>, i64)>) -> Seq<(i64, int)>
    decreases items.len(),
{
    if items.len() == 0 {
        seq![]
    } else {
        item_parts(items.drop_last()) + match items.last().0 {
            Some(id) => seq![(id, if items.last().1 < 1 { 1int } else { items.last().1 as int })],
            None => seq![],
        }
    }
}

/// The types of `parts`, each once, in the order they first appear.
pub open spec fn first_seen(parts: Seq<(i64, int)>) -> Seq<i64>
    decreases parts.len(),
{
    if parts.len() == 0 {
        seq![]
    } else if first_seen(parts.drop_last()).contains(parts.last().0) {
        first_seen(parts.drop_last())
    } else {
        first_seen(parts.drop_last()).push(parts.last().0)
    }
}

/// Units of type `id` the parts add up to.
pub open spec fn needed_of(parts: Seq<(i64, int)>, id: i64) -> int
    decreases parts.len(),
{
    if parts.len() == 0 {
        0
    } else {
        needed_of(parts.drop_last(), id) + if parts.last().0 == id {
            parts.last().1
        } else {
            0
        }
    }
}

/// Units of type `id` held: the last holding listed for it, 0 without one.
pub open spec fn owned_of(owned: Seq<(i64, i64)>, id: i64) -> int
    decreases owned.len(),
{
    if owned.len() == 0 {
        0
    } else if owned.last().0 == id {
        owned.last().1 as int
    } else {
        owned_of(owned.drop_last(), id)
    }
}

/// The row of type `id` needing `needed` units: `(type, needed, owned,
/// missing)`, where the units owned count at most the units needed.
pub open spec fn component_row(id: i64, needed: int, held: int) -> (i64, int, int, int) {
    let own = if held < needed {
        held
    } else {
        needed
    };
    (id, needed, own, if needed - own < 0 {
        0
    } else {
        needed - own
    })
}

/// The counts fit `i64`: no type needs more than `i64::MAX` units, and no
/// type the fit needs lacks more than that.
pub open spec fn components_fit(ship: Option<i64>, items: Seq<(Option<i64>, i64)>, owned: Seq<(i64, i64)>) -> bool {
    forall|id: i64|
        #![trigger needed_of(fit_parts(ship, items), id)]
        needed_of(fit_parts(ship, items), id) <= i64::MAX && (needed_of(fit_parts(ship, items), id) > 0
            ==> needed_of(fit_parts(ship, items), id) - owned_of(owned, id) <= i64::MAX)
}

proof fn lemma_parts_positive(items: Seq<(Option<i64>, i64)>)
    ensures
        forall|k: int| 0 <= k < item_parts(items).len() ==> (#[trigger] item_parts(items)[k]).1 >= 1,
    decreases items.len(),
{
    if items.len() > 0 {
        let d = items.drop_last();
        lemma_parts_positive(d);
        let p = item_parts(items);
        assert forall|k: int| 0 <= k < p.len() implies (#[trigger] p[k]).1 >= 1 by {
            if k < item_parts(d).len() {
                assert(p[k] == item_parts(d)[k]);
            }
        }
    }
}

proof fn lemma_needed_grows(parts: Seq<(i64, int)>, j: int, id: i64)
    requires
        0 <= j <= parts.len(),
        forall|k: int| 0 <= k < parts.len() ==> (#[trigger] parts[k]).1 >= 1,
    ensures
        0 <= needed_of(parts.take(j), id) <= needed_of(parts, id),
    decreases parts.len() - j,
{
    if j < parts.len() {
        let d = parts.drop_last();
        assert(d.take(j) =~= parts.take(j));
        lemma_needed_grows(d, j, id);
    } else {
        assert(parts.take(j) =~= parts);
        lemma_needed_nonneg(parts, id);
    }
}

proof fn lemma_needed_nonneg(parts: Seq<(i64, int)>, id: i64)
    requires
        forall|k: int| 0 <= k < parts.len() ==> (#[trigger] parts[k]).1 >= 1,
    ensures
        needed_of(parts, id) >= 0,
        first_seen(parts).contains(id) ==> needed_of(parts, id) >= 1,
    decreases parts.len(),
{
    if parts.len() > 0 {
        let d = parts.drop_last();
        assert forall|k: int| 0 <= k < d.len() implies (#[trigger] d[k]).1 >= 1 by {
            assert(d[k] == parts[k]);
        }
        lemma_needed_nonneg(d, id);
        assert(parts[parts.len() - 1].1 >= 1);
    }
}

/// The parts of a fit, in order.
fn parts_of(ship: Option<i64>, items: &[(Option<i64>, i64)]) -> (r: Vec<(i64, i64)>)
    ensures
        r@.map_values(|p: (i64, i64)| (p.0, p.1 as int)) == fit_parts(ship, items@),
{
    let mut v: Vec<(i64, i64)> = Vec::new();
    if let Some(id) = ship {
        v.push((id, 1));
    }
    let ghost head = v@.map_values(|p: (i64, i64)| (p.0, p.1 as int));
    assert(head + item_parts(items@.take(0)) =~= head);
    let mut k: usize = 0;
    while k < items.len()
        invariant
            k <= items@.len(),
            v@.map_values(|p: (i64, i64)| (p.0, p.1 as int)) == head + item_parts(items@.take(k as int)),
            head == (match ship {
                Some(id) => seq![(id, 1int)],
                None => Seq::<(i64, int)>::empty(),
            }),
        decreases items@.len() - k,
    {
        let ghost before = v@.map_values(|p: (i64, i64)| (p.0, p.1 as int));
        assert(items@.take(k + 1).drop_last() =~= items@.take(k as int));
        let (t, q) = items[k];
        if let Some(id) = t {
            let n: i64 = if q < 1 { 1 } else { q };
            v.push((id, n));
            assert(v@.map_values(|p: (i64, i64)| (p.0, p.1 as int)) =~= before.push((id, n as int)));
            assert(head + item_parts(items@.take(k + 1)) =~= (head + item_parts(items@.take(k as int))).push(
                (id, n as int),
            ));
        } else {
            assert(item_parts(items@.take(k + 1)) =~= item_parts(items@.take(k as int)));
        }
        k += 1;
    }
    assert(items@.take(items@.len() as int) =~= items@);
    v
}

/// The units of type `id` held (the last holding listed for it).
fn holding(owned: &[(i64, i64)], id: i64) -> (r: i64)
    ensures
        r == owned_of(owned@, id),
{
    let mut k: usize = owned.len();
    assert(owned@.take(k as int) =~= owned@);
    while k > 0
        invariant
            k <= owned@.len(),
            owned_of(owned@, id) == owned_of(owned@.take(k as int), id),
        decreases k,
    {
        let ghost t = owned@.take(k as int);
        assert(t.drop_last() =~= owned@.take(k - 1));
        if owned[k - 1].0 == id {
            return owned[k - 1].1;
        }
        k -= 1;
    }
    0
}

/// The components of a fit as `(type, needed, owned, missing)`, one row per
/// type in the order the types first appear (hull first): the units needed
/// add up over the hull (one) and each resolved item (at least one each);
/// items that did not resolve to a type are left out. The units owned are
/// the last holding listed for the type, at most the units needed; the
/// units missing are the rest.
pub fn gatekeeper_components(ship: Option<i64>, items: &[(Option<i64>, i64)], owned: &[(i64, i64)]) -> (r: Vec<
    (i64, i64, i64, i64),
>)
    requires
        components_fit(ship, items@, owned@),
    ensures
        r@.len() == first_seen(fit_parts(ship, items@)).len(),
        forall|k: int|
            0 <= k < r@.len() ==> {
                let id = first_seen(fit_parts(ship, items@))[k];
                let row = #[trigger] r@[k];
                (row.0, row.1 as int, row.2 as int, row.3 as int) == component_row(
                    id,
                    needed_of(fit_parts(ship, items@), id),
                    owned_of(owned@, id),
                )
            },
{
    let parts = parts_of(ship, items);
    let ghost c = fit_parts(ship, items@);
    let ghost pv = parts@.map_values(|p: (i64, i64)| (p.0, p.1 as int));
    proof {
        lemma_parts_positive(items@);
        assert forall|k: int| 0 <= k < c.len() implies (#[trigger] c[k]).1 >= 1 by {
            if ship is Some {
                if k > 0 {
                    assert(c[k] == item_parts(items@)[k - 1]);
                }
            } else {
                assert(c[k] == item_parts(items@)[k]);
            }
        }
    }
    let mut acc: Vec<(i64, i64)> = Vec::new();
    let mut k: usize = 0;
    assert(c.take(0) =~= seq![]);
    while k < parts.len()
        invariant
            pv == parts@.map_values(|p: (i64, i64)| (p.0, p.1 as int)),
            pv == c,
            k <= c.len(),
            forall|m: int| 0 <= m < c.len() ==> (#[trigger] c[m]).1 >= 1,
            components_fit(ship, items@, owned@),
            c == fit_parts(ship, items@),
            acc@.len() == first_seen(c.take(k as int)).len(),
            forall|j: int|
                0 <= j < acc@.len() ==> (#[trigger] acc@[j]).0 == first_seen(c.take(k as int))[j] && acc@[j].1
                    == needed_of(c.take(k as int), acc@[j].0),
        decreases c.len() - k,
    {
        let (id, n) = parts[k];
        let ghost pre = c.take(k as int);
        let ghost post = c.take(k + 1);
        let ghost fs = first_seen(pre);
        proof {
            assert(post.drop_last() =~= pre);
            assert(post.last() == c[k as int]);
            assert(c[k as int] == (id, n as int));
            lemma_needed_grows(c, k + 1, id);
            assert(needed_of(c, id) <= i64::MAX);
        }
        let mut j: usize = 0;
        while j < acc.len() && acc[j].0 != id
            invariant
                j <= acc@.len(),
                forall|i: int| 0 <= i < j ==> (#[trigger] acc@[i]).0 != id,
            decreases acc@.len() - j,
        {
            j += 1;
        }
        if j < acc.len() {
            let cur = acc[j].1;
            proof {
                assert(fs.contains(id)) by {
                    assert(fs[j as int] == id);
                }
                assert(first_seen(post) == fs);
                assert(needed_of(post, id) == cur + n);
            }
            acc.set(j, (id, cur + n));
            proof {
                assert forall|i: int| 0 <= i < acc@.len() implies (#[trigger] acc@[i]).0 == first_seen(post)[i]
                    && acc@[i].1 == needed_of(post, acc@[i].0) by {
                    if i != j {
                        assert(acc@[i].0 != id) by {
                            assert(fs[i] != fs[j as int]) by {
                                lemma_first_seen_distinct(pre);
                            }
                        }
                    }
                }
            }
        } else {
            proof {
                assert(!fs.contains(id)) by {
                    if fs.contains(id) {
                        let i = choose|i: int| 0 <= i < fs.len() && fs[i] == id;
                        assert(acc@[i].0 == id);
                    }
                }
                assert(first_seen(post) == fs.push(id));
                lemma_needed_absent(pre, id);
            }
            acc.push((id, n));
            proof {
                assert forall|i: int| 0 <= i < acc@.len() implies (#[trigger] acc@[i]).0 == first_seen(post)[i]
                    && acc@[i].1 == needed_of(post, acc@[i].0) by {
                    if i < fs.len() {
                        assert(acc@[i].0 != id);
                    }
                }
            }
        }
        k += 1;
    }
    assert(c.take(c.len() as int) =~= c);
    let mut out: Vec<(i64, i64, i64, i64)> = Vec::new();
    let mut i: usize = 0;
    while i < acc.len()
        invariant
            i <= acc@.len(),
            c == fit_parts(ship, items@),
            forall|m: int| 0 <= m < c.len() ==> (#[trigger] c[m]).1 >= 1,
            components_fit(ship, items@, owned@),
            acc@.len() == first_seen(c).len(),
            forall|j: int|
                0 <= j < acc@.len() ==> (#[trigger] acc@[j]).0 == first_seen(c)[j] && acc@[j].1 == needed_of(
                    c,
                    acc@[j].0,
                ),
            out@.len() == i,
            forall|m: int|
                0 <= m < i ==> {
                    let id = first_seen(c)[m];
                    let row = #[trigger] out@[m];
                    (row.0, row.1 as int, row.2 as int, row.3 as int) == component_row(
                        id,
                        needed_of(c, id),
                        owned_of(owned@, id),
                    )
                },
        decreases acc@.len() - i,
    {
        let (id, needed) = acc[i];
        let held = holding(owned, id);
        proof {
            assert(first_seen(c).contains(id)) by {
                assert(first_seen(c)[i as int] == id);
            }
            lemma_needed_nonneg(c, id);
            assert(needed_of(c, id) - owned_of(owned@, id) <= i64::MAX);
        }
        let own: i64 = if held < needed { held } else { needed };
        let missing: i64 = if needed - own < 0 { 0 } else { needed - own };
        out.push((id, needed, own, missing));
        i += 1;
    }
    out
}

proof fn lemma_first_seen_distinct(parts: Seq<(i64, int)>)
    ensures
        forall|a: int, b: int|
            0 <= a < b < first_seen(parts).len() ==> #[trigger] first_seen(parts)[a] != #[trigger] first_seen(
                parts,
            )[b],
    decreases parts.len(),
{
    if parts.len() > 0 {
        let d = parts.drop_last();
        lemma_first_seen_distinct(d);
        let f = first_seen(parts);
        if !first_seen(d).contains(parts.last().0) {
            assert forall|a: int, b: int| 0 <= a < b < f.len() implies #[trigger] f[a] != #[trigger] f[b] by {
                if b == f.len() - 1 {
                    assert(f[a] == first_seen(d)[a]);
                    if f[a] == f[b] {
                        assert(first_seen(d).contains(parts.last().0));
                    }
                } else {
                    assert(f[a] == first_seen(d)[a] && f[b] == first_seen(d)[b]);
                }
            }
        }
    }
}

proof fn lemma_needed_absent(parts: Seq<(i64, int)>, id: i64)
    requires
        !first_seen(parts).contains(id),
    ensures
        needed_of(parts, id) == 0,
    decreases parts.len(),
{
    if parts.len() > 0 {
        let d = parts.drop_last();
        if first_seen(d).contains(id) {
            let i = choose|i: int| 0 <= i < first_seen(d).len() && first_seen(d)[i] == id;
            if !first_seen(d).contains(parts.last().0) {
                assert(first_seen(parts)[i] == id);
            }
        }
        lemma_needed_absent(d, id);
        if parts.last().0 == id {
            assert(first_seen(parts).contains(id)) by {
                if first_seen(d).contains(id) {
                } else {
                    assert(first_seen(parts)[first_seen(parts).len() - 1] == id);
                }
            }
        }
    }
}

} // verus!
